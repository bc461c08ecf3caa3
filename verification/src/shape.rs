//! The shape of a name: words of letters, each two of them parted by exactly
//! one hyphen or one space.

use crate::groups::{groups_of, is_supported, lemma_groups_digits};
use crate::spelling::{below_hundred, below_thousand, group_text, hyphenated, phrase, spaced, spelling};
use crate::words::{
    has_no_z, is_letter, is_word, lemma_hundred_word, lemma_scale_words, lemma_small_words,
    lemma_tens_words, scale_word, small_word, tens_word,
};
use vstd::prelude::*;

verus! {

/// One or more words with a single hyphen or a single space between each
/// two: the text begins and ends with a letter, holds nothing but letters,
/// hyphens and spaces, and of any two neighbours one is a letter.
pub open spec fn is_word_chain(s: Seq<char>) -> bool {
    &&& s.len() > 0
    &&& is_letter(s.first())
    &&& is_letter(s.last())
    &&& forall|i: int|
        0 <= i < s.len() ==> is_letter(#[trigger] s[i]) || s[i] == ' ' || s[i] == '-'
    &&& forall|i: int, j: int|
        0 <= i && j == i + 1 && j < s.len() ==> is_letter(#[trigger] s[i]) || is_letter(
            #[trigger] s[j],
        )
}

/// A word is a chain of one word.
pub proof fn lemma_word_is_chain(s: Seq<char>)
    requires
        is_word(s),
    ensures
        is_word_chain(s),
{
}

/// Two chains joined by a hyphen form a chain.
pub proof fn lemma_hyphenated_chain(left: Seq<char>, right: Seq<char>)
    requires
        is_word_chain(left),
        is_word_chain(right),
    ensures
        is_word_chain(hyphenated(left, right)),
        has_no_z(left) && has_no_z(right) ==> has_no_z(hyphenated(left, right)),
{
    reveal_strlit("-");
    let s = hyphenated(left, right);
    assert(s.len() == left.len() + 1 + right.len());
    assert forall|i: int, j: int| 0 <= i && j == i + 1 && j < s.len() implies is_letter(
        #[trigger] s[i],
    ) || is_letter(#[trigger] s[j]) by {
        if j < left.len() {
            assert(s[i] == left[i] && s[j] == left[j]);
        } else if i > left.len() {
            assert(s[i] == right[i - left.len() - 1] && s[j] == right[j - left.len() - 1]);
        } else if i == left.len() {
            assert(s[j] == right[0]);
        } else {
            assert(s[i] == left[i]);
        }
    }
    assert forall|i: int| 0 <= i < s.len() implies is_letter(#[trigger] s[i]) || s[i] == ' '
        || s[i] == '-' by {
        if i < left.len() {
            assert(s[i] == left[i]);
        } else if i > left.len() {
            assert(s[i] == right[i - left.len() - 1]);
        }
    }
    assert(s.first() == left.first());
    assert(s.last() == right.last());
}

/// Two chains joined by a space form a chain.
pub proof fn lemma_spaced_chain(left: Seq<char>, right: Seq<char>)
    requires
        is_word_chain(left),
        is_word_chain(right),
    ensures
        is_word_chain(spaced(left, right)),
        has_no_z(left) && has_no_z(right) ==> has_no_z(spaced(left, right)),
{
    reveal_strlit(" ");
    let s = spaced(left, right);
    assert(s.len() == left.len() + 1 + right.len());
    assert forall|i: int, j: int| 0 <= i && j == i + 1 && j < s.len() implies is_letter(
        #[trigger] s[i],
    ) || is_letter(#[trigger] s[j]) by {
        if j < left.len() {
            assert(s[i] == left[i] && s[j] == left[j]);
        } else if i > left.len() {
            assert(s[i] == right[i - left.len() - 1] && s[j] == right[j - left.len() - 1]);
        } else if i == left.len() {
            assert(s[j] == right[0]);
        } else {
            assert(s[i] == left[i]);
        }
    }
    assert forall|i: int| 0 <= i < s.len() implies is_letter(#[trigger] s[i]) || s[i] == ' '
        || s[i] == '-' by {
        if i < left.len() {
            assert(s[i] == left[i]);
        } else if i > left.len() {
            assert(s[i] == right[i - left.len() - 1]);
        }
    }
    assert(s.first() == left.first());
    assert(s.last() == right.last());
}

/// The name of a number from 1 to 99 is a chain without a `z`.
pub proof fn lemma_below_hundred_shape(r: nat)
    requires
        0 < r < 100,
    ensures
        is_word_chain(below_hundred(r)),
        has_no_z(below_hundred(r)),
{
    lemma_small_words();
    lemma_tens_words();
    if r < 20 {
        lemma_word_is_chain(small_word(r as int));
    } else {
        lemma_word_is_chain(tens_word(r as int / 10));
        if r % 10 != 0 {
            lemma_word_is_chain(small_word(r as int % 10));
            lemma_hyphenated_chain(tens_word(r as int / 10), small_word(r as int % 10));
        }
    }
}

/// The name of a number from 1 to 999 is a chain without a `z`.
pub proof fn lemma_below_thousand_shape(g: nat)
    requires
        0 < g < 1000,
    ensures
        is_word_chain(below_thousand(g)),
        has_no_z(below_thousand(g)),
{
    if g < 100 {
        lemma_below_hundred_shape(g);
    } else {
        lemma_small_words();
        lemma_hundred_word();
        let hundreds = small_word(g as int / 100);
        lemma_word_is_chain(hundreds);
        lemma_word_is_chain("hundred"@);
        lemma_hyphenated_chain(hundreds, "hundred"@);
        if g % 100 != 0 {
            lemma_below_hundred_shape(g % 100);
            lemma_hyphenated_chain(hyphenated(hundreds, "hundred"@), below_hundred(g % 100));
        }
    }
}

/// What a group other than zero says is a chain without a `z`.
pub proof fn lemma_group_text_shape(g: nat, scale: nat)
    requires
        0 < g < 1000,
        scale < 7,
    ensures
        is_word_chain(group_text(g, scale)),
        has_no_z(group_text(g, scale)),
{
    lemma_below_thousand_shape(g);
    if scale > 0 {
        lemma_scale_words();
        lemma_word_is_chain(scale_word(scale as int));
        lemma_hyphenated_chain(below_thousand(g), scale_word(scale as int));
    }
}

/// What a run of groups says is a chain without a `z`, provided that the run
/// begins with a group other than zero and that each of its groups has a
/// name.
pub proof fn lemma_phrase_shape(groups: Seq<nat>, scale: nat)
    requires
        groups.len() > 0,
        groups[0] > 0,
        forall|i: int| 0 <= i < groups.len() ==> #[trigger] groups[i] < 1000,
        scale + groups.len() <= 7,
    ensures
        is_word_chain(phrase(groups, scale)),
        has_no_z(phrase(groups, scale)),
    decreases groups.len(),
{
    let upper = groups.drop_last();
    let last: nat = groups.last();
    if last > 0 {
        lemma_group_text_shape(last, scale);
    }
    if upper.len() > 0 {
        lemma_phrase_shape(upper, scale + 1);
        if last > 0 {
            lemma_spaced_chain(phrase(upper, scale + 1), group_text(last, scale));
        }
    } else {
        assert(phrase(upper, scale + 1).len() == 0);
    }
}

/// No space at either end, and never two spaces or two hyphens in a row.
pub open spec fn has_single_separators(s: Seq<char>) -> bool {
    &&& s.len() > 0
    &&& s.first() != ' '
    &&& s.last() != ' '
    &&& forall|i: int, j: int|
        0 <= i && j == i + 1 && j < s.len() ==> !(#[trigger] s[i] == ' ' && #[trigger] s[j]
            == ' ')
    &&& forall|i: int, j: int|
        0 <= i && j == i + 1 && j < s.len() ==> !(#[trigger] s[i] == '-' && #[trigger] s[j]
            == '-')
}

/// The name of every number that has one is a chain of words: it neither
/// begins nor ends with a space, and nowhere in it do two spaces or two
/// hyphens meet.
pub proof fn law_single_separators(v: nat)
    requires
        is_supported(v),
    ensures
        is_word_chain(spelling(v)),
        has_single_separators(spelling(v)),
{
    if v == 0 {
        reveal_strlit("zero");
    } else {
        lemma_groups_digits(v);
        lemma_phrase_shape(groups_of(v), 0);
    }
}

/// The word "zero" is the name of 0 and occurs in no other name: the name of
/// a positive number has no `z` in it.
pub proof fn law_zero_is_never_said(v: nat)
    requires
        v > 0,
        is_supported(v),
    ensures
        has_no_z(spelling(v)),
        forall|i: int|
            0 <= i && i + 4 <= spelling(v).len() ==> #[trigger] spelling(v).subrange(i, i + 4)
                != "zero"@,
{
    lemma_groups_digits(v);
    lemma_phrase_shape(groups_of(v), 0);
    reveal_strlit("zero");
    let s = spelling(v);
    assert forall|i: int| 0 <= i && i + 4 <= s.len() implies #[trigger] s.subrange(i, i + 4)
        != "zero"@ by {
        assert(s.subrange(i, i + 4)[0] == s[i]);
    }
}

/// Joining runs of groups does not depend on where one starts.
pub proof fn lemma_spaced_associative(a: Seq<char>, b: Seq<char>, c: Seq<char>)
    ensures
        spaced(spaced(a, b), c) == spaced(a, spaced(b, c)),
{
    assert(spaced(spaced(a, b), c) =~= spaced(a, spaced(b, c)));
}

/// A run of groups says what its upper part says, then what its lower part
/// says.
pub proof fn lemma_phrase_split(upper: Seq<nat>, lower: Seq<nat>, scale: nat)
    ensures
        phrase(upper + lower, scale) == spaced(
            phrase(upper, scale + lower.len()),
            phrase(lower, scale),
        ),
    decreases lower.len(),
{
    if lower.len() == 0 {
        assert(upper + lower =~= upper);
        assert(spaced(phrase(upper, scale), Seq::<char>::empty()) =~= phrase(upper, scale));
    } else {
        let rest = lower.drop_last();
        assert((upper + lower).drop_last() =~= upper + rest);
        lemma_phrase_split(upper, rest, scale + 1);
        lemma_spaced_associative(
            phrase(upper, scale + lower.len()),
            phrase(rest, scale + 1),
            group_text(lower.last(), scale),
        );
    }
}

/// A group of zero is passed over in silence: it adds no word, no name of a
/// power of a thousand and no space. The name of `v` is what the groups
/// before the zero group say, with the places they have in `v`, followed by
/// what the groups after it say.
pub proof fn law_zero_group_is_silent(v: nat, k: int)
    requires
        0 <= k < groups_of(v).len(),
        groups_of(v)[k] == 0,
    ensures
        spelling(v) == spaced(
            phrase(groups_of(v).take(k), (groups_of(v).len() - k) as nat),
            phrase(groups_of(v).skip(k + 1), 0),
        ),
{
    let groups = groups_of(v);
    let before = groups.take(k);
    let after = groups.skip(k + 1);
    let scale: nat = after.len();
    assert(groups =~= before.push(0) + after);
    lemma_phrase_split(before.push(0), after, 0);
    assert(before.push(0).drop_last() =~= before);
    assert(phrase(before.push(0), scale) =~= phrase(before, scale + 1));
}

} // verus!
