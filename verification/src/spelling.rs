//! What the name of a number is: the words of each digit group joined by
//! hyphens, the groups joined by single spaces.

use crate::groups::groups_of;
use crate::words::{scale_word, small_word, tens_word};
use vstd::prelude::*;

verus! {

/// Two pieces of one group, joined by a hyphen.
pub open spec fn hyphenated(left: Seq<char>, right: Seq<char>) -> Seq<char> {
    left + "-"@ + right
}

/// Two runs of groups, joined by a space. A run that says nothing leaves no
/// space behind.
pub open spec fn spaced(left: Seq<char>, right: Seq<char>) -> Seq<char> {
    if left.len() == 0 {
        right
    } else if right.len() == 0 {
        left
    } else {
        left + " "@ + right
    }
}

/// The name of `r`, for `0 < r < 100`: a single word below twenty and for
/// the multiples of ten, otherwise the tens and the ones.
pub open spec fn below_hundred(r: nat) -> Seq<char>
    recommends
        0 < r < 100,
{
    if r < 20 {
        small_word(r as int)
    } else if r % 10 == 0 {
        tens_word(r as int / 10)
    } else {
        hyphenated(tens_word(r as int / 10), small_word(r as int % 10))
    }
}

/// The name of `g`, for `0 < g < 1000`: the hundreds, if there are any, then
/// what is left, if anything is.
pub open spec fn below_thousand(g: nat) -> Seq<char>
    recommends
        0 < g < 1000,
{
    if g < 100 {
        below_hundred(g)
    } else if g % 100 == 0 {
        hyphenated(small_word(g as int / 100), "hundred"@)
    } else {
        hyphenated(hyphenated(small_word(g as int / 100), "hundred"@), below_hundred(g % 100))
    }
}

/// What the group `g` says when it stands `scale` groups from the end: its
/// name, followed by the name of its power of a thousand unless it is the
/// last group. A group of zero says nothing at all.
pub open spec fn group_text(g: nat, scale: nat) -> Seq<char>
    recommends
        g < 1000,
        scale < 7,
{
    if g == 0 {
        Seq::empty()
    } else if scale == 0 {
        below_thousand(g)
    } else {
        hyphenated(below_thousand(g), scale_word(scale as int))
    }
}

/// What a run of groups says, most significant first, when its last group
/// stands `scale` groups from the end of the number.
pub open spec fn phrase(groups: Seq<nat>, scale: nat) -> Seq<char>
    decreases groups.len(),
{
    if groups.len() == 0 {
        Seq::empty()
    } else {
        spaced(phrase(groups.drop_last(), scale + 1), group_text(groups.last(), scale))
    }
}

/// The name of `v` in English words.
pub open spec fn spelling(v: nat) -> Seq<char> {
    if v == 0 {
        "zero"@
    } else {
        phrase(groups_of(v), 0)
    }
}

} // verus!
