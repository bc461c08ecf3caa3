//! Digit groups: a number read three decimal digits at a time, the way it is
//! spoken. `1_234_567` is the sequence of groups `1, 234, 567`.

use std::collections::VecDeque;
use vstd::prelude::*;

verus! {

/// How many groups have a name: the lowest one, which goes unnamed, and one
/// for each power of a thousand up to the sixth.
pub const MAX_GROUPS: usize = 7;

/// The groups of `v`, most significant first. Zero has no group, and the
/// first group of any other number is not zero.
pub open spec fn groups_of(v: nat) -> Seq<nat>
    decreases v,
{
    if v == 0 {
        Seq::empty()
    } else {
        groups_of(v / 1000).push(v % 1000)
    }
}

/// The number that a sequence of groups stands for: each group counts a
/// thousand times what its right neighbour counts.
pub open spec fn value_of(groups: Seq<nat>) -> nat
    decreases groups.len(),
{
    if groups.len() == 0 {
        0
    } else {
        value_of(groups.drop_last()) * 1000 + groups.last()
    }
}

/// The groups held in machine integers, as mathematical numbers.
pub open spec fn as_nats(groups: Seq<usize>) -> Seq<nat> {
    groups.map_values(|g: usize| g as nat)
}

/// A number can be named when it needs no more groups than there are names.
pub open spec fn is_supported(v: nat) -> bool {
    groups_of(v).len() <= MAX_GROUPS
}

/// Every group is below a thousand, and the leading group is not zero.
pub proof fn lemma_groups_digits(v: nat)
    ensures
        forall|i: int| 0 <= i < groups_of(v).len() ==> #[trigger] groups_of(v)[i] < 1000,
        v > 0 ==> groups_of(v).len() > 0 && groups_of(v)[0] > 0,
        v == 0 ==> groups_of(v).len() == 0,
    decreases v,
{
    if v > 0 {
        lemma_groups_digits(v / 1000);
    }
}

/// Splitting loses nothing: the place values of the groups of `v` add up to
/// `v` again.
pub proof fn law_groups_reconstruct(v: nat)
    ensures
        value_of(groups_of(v)) == v,
    decreases v,
{
    if v > 0 {
        law_groups_reconstruct(v / 1000);
        assert(groups_of(v).drop_last() =~= groups_of(v / 1000));
    }
}

/// The numbers that can be named are exactly those below ten to the
/// twenty-first power.
pub proof fn law_supported_range(v: nat)
    ensures
        is_supported(v) <==> v < 1_000_000_000_000_000_000_000,
{
    reveal_with_fuel(groups_of, 9);
    if v >= 1_000_000_000_000_000_000_000 {
        let v7: nat = v / 1000 / 1000 / 1000 / 1000 / 1000 / 1000 / 1000;
        assert(v7 > 0);
    }
}

/// Splits `value` into its groups, most significant first.
pub fn split_groups(value: u128) -> (groups: VecDeque<usize>)
    ensures
        as_nats(groups@) == groups_of(value as nat),
{
    let mut groups: VecDeque<usize> = VecDeque::with_capacity(MAX_GROUPS);
    let mut rest: u128 = value;
    proof {
        assert(groups_of(value as nat) =~= groups_of(rest as nat) + as_nats(groups@));
    }
    while rest > 0
        invariant
            groups_of(value as nat) == groups_of(rest as nat) + as_nats(groups@),
        decreases rest,
    {
        let ghost before = groups@;
        let ghost whole: u128 = rest;
        let group: usize = (rest % 1000) as usize;
        rest = rest / 1000;
        groups.push_front(group);
        proof {
            assert(as_nats(groups@) =~= seq![group as nat] + as_nats(before));
            assert(groups_of(whole as nat) =~= groups_of(rest as nat).push(group as nat));
            assert(groups_of(rest as nat).push(group as nat) + as_nats(before) =~= groups_of(
                rest as nat,
            ) + as_nats(groups@));
        }
    }
    proof {
        assert(groups_of(value as nat) =~= as_nats(groups@));
    }
    groups
}

} // verus!
