//! The number namer: from an integer to its name in English words.

use crate::groups::{as_nats, groups_of, is_supported, lemma_groups_digits, split_groups, MAX_GROUPS};
use crate::shape::{lemma_group_text_shape, lemma_phrase_shape};
use crate::spelling::{group_text, phrase, spaced, spelling};
use crate::words::{GROUP_NAMES, SMALL_NAMES, TENS_NAMES};
use std::collections::VecDeque;
use vstd::prelude::*;

verus! {

/// The number is too large to be named: it has more digit groups than there
/// are names for powers of a thousand.
#[derive(Clone, Copy, Debug, PartialEq, Eq, Structural)]
pub struct RangeError {
    /// How many digit groups the number has.
    pub groups: usize,
}

/// Appends what the group `group` says when it stands `scale` groups from
/// the end of the number.
fn write_group(out: &mut String, group: usize, scale: usize)
    requires
        0 < group < 1000,
        scale < MAX_GROUPS,
    ensures
        final(out)@ == old(out)@ + group_text(group as nat, scale as nat),
{
    let hundreds: usize = group / 100;
    let remainder: usize = group % 100;
    if hundreds > 0 {
        out.append(SMALL_NAMES[hundreds]);
        out.append("-hundred");
        if remainder > 0 {
            out.append("-");
        }
    }
    if remainder > 0 {
        if remainder < 20 {
            out.append(SMALL_NAMES[remainder]);
        } else {
            let tens: usize = remainder / 10;
            let ones: usize = remainder % 10;
            out.append(TENS_NAMES[tens]);
            if ones > 0 {
                out.append("-");
                out.append(SMALL_NAMES[ones]);
            }
        }
    }
    if scale > 0 {
        out.append("-");
        out.append(GROUP_NAMES[scale]);
    }
    proof {
        reveal_strlit("-hundred");
        reveal_strlit("-");
        reveal_strlit("hundred");
        assert("-hundred"@ =~= "-"@ + "hundred"@);
        assert(final(out)@ =~= old(out)@ + group_text(group as nat, scale as nat));
    }
}

/// Names `value` in English words: "zero" for 0, and for any other number
/// the words of its digit groups, most significant first. Numbers of more
/// than seven digit groups have no name and are refused.
pub fn spell(value: u128) -> (result: Result<String, RangeError>)
    ensures
        match result {
            Ok(name) => is_supported(value as nat) && name@ == spelling(value as nat),
            Err(error) => !is_supported(value as nat) && error.groups == groups_of(
                value as nat,
            ).len(),
        },
{
    let groups: VecDeque<usize> = split_groups(value);
    let count: usize = groups.len();
    if count > MAX_GROUPS {
        return Err(RangeError { groups: count });
    }
    let mut out: String = String::new();
    if value == 0 {
        out.append(SMALL_NAMES[0]);
    }
    proof {
        assert(as_nats(groups@).take(0) =~= Seq::<nat>::empty());
    }
    for i in 0..count
        invariant
            count == groups@.len(),
            count <= MAX_GROUPS,
            as_nats(groups@) == groups_of(value as nat),
            value == 0 ==> out@ == spelling(0),
            value > 0 ==> out@ == phrase(as_nats(groups@).take(i as int), (count - i) as nat),
            i > 0 ==> out@.len() > 0,
    {
        let group: usize = groups[i];
        let ghost before = out@;
        proof {
            lemma_groups_digits(value as nat);
            assert(as_nats(groups@)[i as int] == group as nat);
        }
        if group != 0 {
            if i > 0 {
                out.append(" ");
            }
            write_group(&mut out, group, count - i - 1);
        }
        proof {
            let all = as_nats(groups@);
            let scale: nat = (count - i - 1) as nat;
            assert(all.take(i + 1).drop_last() =~= all.take(i as int));
            lemma_phrase_shape(all.take(i + 1), scale);
            if group != 0 {
                lemma_group_text_shape(group as nat, scale);
            }
            assert(out@ =~= spaced(before, group_text(group as nat, scale)));
        }
    }
    proof {
        assert(as_nats(groups@).take(count as int) =~= as_nats(groups@));
    }
    Ok(out)
}

/// A number has one name: whatever two calls of `spell` return for the same
/// number, they both name it, with the same characters, or both refuse it,
/// with the same error.
pub proof fn law_spell_is_a_function(
    value: u128,
    first: Result<String, RangeError>,
    second: Result<String, RangeError>,
)
    requires
        call_ensures(spell, (value,), first),
        call_ensures(spell, (value,), second),
    ensures
        first is Ok <==> second is Ok,
        first is Ok ==> first->Ok_0@ == second->Ok_0@,
        first is Err ==> first->Err_0 == second->Err_0,
{
}

} // verus!
