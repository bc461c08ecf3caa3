//! One name, one number: no two numbers are spelled alike. A name can be
//! taken apart again at its spaces and hyphens, and the words found there
//! tell the digit groups.

use crate::groups::{groups_of, is_supported, law_groups_reconstruct, lemma_groups_digits, value_of};
use crate::shape::law_zero_is_never_said;
use crate::spelling::{group_text, hyphenated, phrase, spelling};
use crate::words::{
    is_word, lemma_hundred_word, lemma_scale_words, lemma_scale_words_differ,
    lemma_small_words, lemma_small_words_differ, lemma_tens_words, lemma_tens_words_differ,
    lemma_word_kinds_differ, scale_word, small_word, tens_word,
};
use vstd::prelude::*;

verus! {

/// The character `c` does not occur in `s`.
pub open spec fn free_of(s: Seq<char>, c: char) -> bool {
    forall|i: int| 0 <= i < s.len() ==> #[trigger] s[i] != c
}

/// A text is cut at its last `c` in one way only.
pub proof fn lemma_cut_at_last(
    before: Seq<char>,
    after: Seq<char>,
    other_before: Seq<char>,
    other_after: Seq<char>,
    c: char,
)
    requires
        before.push(c) + after == other_before.push(c) + other_after,
        free_of(after, c),
        free_of(other_after, c),
    ensures
        before == other_before,
        after == other_after,
{
    let text = before.push(c) + after;
    let other = other_before.push(c) + other_after;
    assert(text.len() == before.len() + 1 + after.len());
    assert(other.len() == other_before.len() + 1 + other_after.len());
    if after.len() < other_after.len() {
        let at: int = before.len() as int;
        assert(text[at] == c);
        assert(other[at] == other_after[at - other_before.len() - 1]);
    } else if after.len() > other_after.len() {
        let at: int = other_before.len() as int;
        assert(other[at] == c);
        assert(text[at] == after[at - before.len() - 1]);
    } else {
        assert forall|i: int| 0 <= i < before.len() implies before[i] == other_before[i] by {
            assert(text[i] == before[i]);
            assert(other[i] == other_before[i]);
        }
        assert(before =~= other_before);
        assert forall|i: int| 0 <= i < after.len() implies after[i] == other_after[i] by {
            assert(text[before.len() + 1 + i] == after[i]);
            assert(other[before.len() + 1 + i] == other_after[i]);
        }
        assert(after =~= other_after);
    }
}

/// A text without `c` is not a text cut at `c`.
pub proof fn lemma_uncut(whole: Seq<char>, before: Seq<char>, after: Seq<char>, c: char)
    requires
        free_of(whole, c),
    ensures
        whole != before.push(c) + after,
{
    let cut = before.push(c) + after;
    assert(cut[before.len() as int] == c);
}

/// Words joined by hyphens, in order.
pub open spec fn joined(words: Seq<Seq<char>>) -> Seq<char>
    decreases words.len(),
{
    if words.len() == 0 {
        Seq::empty()
    } else if words.len() == 1 {
        words[0]
    } else {
        hyphenated(joined(words.drop_last()), words.last())
    }
}

/// Each member of the list is a word.
pub open spec fn all_words(words: Seq<Seq<char>>) -> bool {
    forall|i: int| 0 <= i < words.len() ==> is_word(#[trigger] words[i])
}

/// A word holds neither a hyphen nor a space.
pub proof fn lemma_word_is_whole(word: Seq<char>)
    requires
        is_word(word),
    ensures
        free_of(word, '-'),
        free_of(word, ' '),
{
}

/// Words joined by hyphens hold no space, and some text if there is a word.
pub proof fn lemma_joined_shape(words: Seq<Seq<char>>)
    requires
        all_words(words),
    ensures
        free_of(joined(words), ' '),
        words.len() > 0 ==> joined(words).len() > 0,
    decreases words.len(),
{
    if words.len() == 1 {
        lemma_word_is_whole(words[0]);
    } else if words.len() > 1 {
        reveal_strlit("-");
        let rest = words.drop_last();
        lemma_joined_shape(rest);
        lemma_word_is_whole(words.last());
        let text = joined(words);
        assert forall|i: int| 0 <= i < text.len() implies #[trigger] text[i] != ' ' by {
            if i < joined(rest).len() {
                assert(text[i] == joined(rest)[i]);
            } else if i > joined(rest).len() {
                assert(text[i] == words.last()[i - joined(rest).len() - 1]);
            }
        }
    }
}

/// Words joined by hyphens can be told apart again: two lists of words that
/// give the same text are the same list.
pub proof fn lemma_joined_unique(words: Seq<Seq<char>>, others: Seq<Seq<char>>)
    requires
        all_words(words),
        all_words(others),
        joined(words) == joined(others),
    ensures
        words == others,
    decreases words.len(),
{
    reveal_strlit("-");
    lemma_joined_shape(words);
    lemma_joined_shape(others);
    if words.len() == 0 || others.len() == 0 {
        assert(words =~= others);
    } else {
        let rest = words.drop_last();
        let other_rest = others.drop_last();
        lemma_word_is_whole(words.last());
        lemma_word_is_whole(others.last());
        if words.len() == 1 && others.len() == 1 {
            assert(words =~= others);
        } else if words.len() == 1 {
            assert(joined(others) =~= joined(other_rest).push('-') + others.last());
            lemma_uncut(words[0], joined(other_rest), others.last(), '-');
        } else if others.len() == 1 {
            assert(joined(words) =~= joined(rest).push('-') + words.last());
            lemma_uncut(others[0], joined(rest), words.last(), '-');
        } else {
            assert(joined(words) =~= joined(rest).push('-') + words.last());
            assert(joined(others) =~= joined(other_rest).push('-') + others.last());
            lemma_cut_at_last(joined(rest), words.last(), joined(other_rest), others.last(), '-');
            lemma_joined_unique(rest, other_rest);
            assert(words =~= rest.push(words.last()));
            assert(others =~= other_rest.push(others.last()));
        }
    }
}

/// The words that name `r`, for `r < 100`: none for zero.
pub open spec fn below_hundred_words(r: nat) -> Seq<Seq<char>> {
    if r == 0 {
        Seq::empty()
    } else if r < 20 {
        seq![small_word(r as int)]
    } else if r % 10 == 0 {
        seq![tens_word(r as int / 10)]
    } else {
        seq![tens_word(r as int / 10), small_word(r as int % 10)]
    }
}

/// The words for the hundreds of `g`: none below a hundred.
pub open spec fn hundreds_words(g: nat) -> Seq<Seq<char>> {
    if g < 100 {
        Seq::empty()
    } else {
        seq![small_word(g as int / 100), "hundred"@]
    }
}

/// The word for the place of a group: none for the last group.
pub open spec fn scale_words(scale: nat) -> Seq<Seq<char>> {
    if scale == 0 {
        Seq::empty()
    } else {
        seq![scale_word(scale as int)]
    }
}

/// The words that the group `g` says when it stands `scale` groups from the
/// end, in order.
pub open spec fn group_words(g: nat, scale: nat) -> Seq<Seq<char>> {
    hundreds_words(g) + below_hundred_words(g % 100) + scale_words(scale)
}

/// What a group says is its words joined by hyphens.
pub proof fn lemma_group_text_is_joined(g: nat, scale: nat)
    requires
        0 < g < 1000,
        scale < 7,
    ensures
        all_words(group_words(g, scale)),
        group_words(g, scale).len() > 0,
        group_text(g, scale) == joined(group_words(g, scale)),
{
    lemma_small_words();
    lemma_tens_words();
    lemma_scale_words();
    lemma_hundred_word();
    let words = group_words(g, scale);
    let spoken = hundreds_words(g) + below_hundred_words(g % 100);
    reveal_with_fuel(joined, 6);
    assert(joined(spoken) =~= group_text(g, 0)) by {
        if g >= 100 {
            let head = hundreds_words(g);
            assert(head.drop_last() =~= seq![small_word(g as int / 100)]);
            if g % 100 != 0 {
                let tail = below_hundred_words(g % 100);
                if tail.len() == 1 {
                    assert(spoken.drop_last() =~= head);
                } else {
                    assert(spoken.drop_last() =~= head.push(tail[0]));
                    assert(spoken.drop_last().drop_last() =~= head);
                }
            } else {
                assert(spoken =~= head);
            }
        } else {
            let tail = below_hundred_words(g % 100);
            assert(spoken =~= tail);
            if tail.len() == 2 {
                assert(tail.drop_last() =~= seq![tail[0]]);
            }
        }
    }
    if scale > 0 {
        assert(words.drop_last() =~= spoken);
        assert(words.last() == scale_word(scale as int));
        assert(spoken.len() > 0);
    } else {
        assert(words =~= spoken);
    }
}

/// The words of a group tell the group and its place.
pub proof fn lemma_group_words_unique(g: nat, scale: nat, other: nat, other_scale: nat)
    requires
        0 < g < 1000,
        0 < other < 1000,
        scale < 7,
        other_scale < 7,
        group_words(g, scale) == group_words(other, other_scale),
    ensures
        g == other,
        scale == other_scale,
{
    lemma_small_words_differ();
    lemma_tens_words_differ();
    lemma_scale_words_differ();
    lemma_word_kinds_differ();
    let words = group_words(g, scale);
    let others = group_words(other, other_scale);
    assert(words.len() == others.len());
    assert(forall|i: int| 0 <= i < words.len() ==> words[i] == others[i]);
    let spoken = hundreds_words(g) + below_hundred_words(g % 100);
    let other_spoken = hundreds_words(other) + below_hundred_words(other % 100);
    assert(spoken.len() > 0 && other_spoken.len() > 0);
    // The last word tells whether the group has a place name, and which.
    assert(scale == other_scale) by {
        let last = words.last();
        assert(last == others.last());
        if scale > 0 {
            assert(last == scale_word(scale as int));
        } else {
            assert(last == spoken.last());
        }
        if other_scale > 0 {
            assert(last == scale_word(other_scale as int));
        } else {
            assert(last == other_spoken.last());
        }
        lemma_last_spoken_word(g);
        lemma_last_spoken_word(other);
    }
    assert(spoken =~= other_spoken) by {
        assert(spoken.len() == other_spoken.len());
        assert forall|i: int| 0 <= i < spoken.len() implies spoken[i] == other_spoken[i] by {
            assert(words[i] == spoken[i]);
            assert(others[i] == other_spoken[i]);
        }
    }
    lemma_spoken_words_unique(g, other);
}

/// The last word that a group says of itself is the name of a number below
/// twenty, of a multiple of ten, or "hundred".
proof fn lemma_last_spoken_word(g: nat)
    requires
        0 < g < 1000,
    ensures
        ({
            let spoken = hundreds_words(g) + below_hundred_words(g % 100);
            let last = spoken.last();
            &&& spoken.len() > 0
            &&& last == "hundred"@ || (exists|n: int| 1 <= n < 20 && last == small_word(n)) || (
            exists|t: int| 2 <= t < 10 && last == tens_word(t))
        }),
{
    let r: nat = g % 100;
    let spoken = hundreds_words(g) + below_hundred_words(r);
    let last = spoken.last();
    if r == 0 {
        assert(last == "hundred"@);
    } else if r < 20 {
        assert(last == small_word(r as int));
    } else if r % 10 == 0 {
        assert(last == tens_word(r as int / 10));
    } else {
        assert(last == small_word(r as int % 10));
    }
}

/// The words that a group says of itself tell the group.
proof fn lemma_spoken_words_unique(g: nat, other: nat)
    requires
        0 < g < 1000,
        0 < other < 1000,
        hundreds_words(g) + below_hundred_words(g % 100) == hundreds_words(other)
            + below_hundred_words(other % 100),
    ensures
        g == other,
{
    lemma_small_words_differ();
    lemma_tens_words_differ();
    lemma_word_kinds_differ();
    let spoken = hundreds_words(g) + below_hundred_words(g % 100);
    let other_spoken = hundreds_words(other) + below_hundred_words(other % 100);
    assert(spoken.len() == other_spoken.len());
    assert(forall|i: int| 0 <= i < spoken.len() ==> spoken[i] == other_spoken[i]);
    let r: nat = g % 100;
    let q: nat = other % 100;
    if g >= 100 && other >= 100 {
        assert(spoken[0] == small_word(g as int / 100));
        assert(other_spoken[0] == small_word(other as int / 100));
        assert(g / 100 == other / 100);
        assert(below_hundred_words(r).len() == below_hundred_words(q).len());
        assert forall|i: int| 0 <= i < below_hundred_words(r).len() implies below_hundred_words(
            r,
        )[i] == below_hundred_words(q)[i] by {
            assert(spoken[i + 2] == below_hundred_words(r)[i]);
            assert(other_spoken[i + 2] == below_hundred_words(q)[i]);
        }
        assert(below_hundred_words(r) =~= below_hundred_words(q));
        lemma_below_hundred_words_unique(r, q);
    } else if g >= 100 {
        assert(spoken[1] == "hundred"@);
        assert(other_spoken =~= below_hundred_words(q));
        assert(spoken.len() >= 2);
        assert(other_spoken[1] == small_word(q as int % 10));
    } else if other >= 100 {
        assert(other_spoken[1] == "hundred"@);
        assert(spoken =~= below_hundred_words(r));
        assert(other_spoken.len() >= 2);
        assert(spoken[1] == small_word(r as int % 10));
    } else {
        assert(spoken =~= below_hundred_words(r));
        assert(other_spoken =~= below_hundred_words(q));
        lemma_below_hundred_words_unique(r, q);
    }
}

/// The words of a number below a hundred tell the number.
proof fn lemma_below_hundred_words_unique(r: nat, q: nat)
    requires
        r < 100,
        q < 100,
        below_hundred_words(r) == below_hundred_words(q),
    ensures
        r == q,
{
    lemma_small_words_differ();
    lemma_tens_words_differ();
    lemma_word_kinds_differ();
    let words = below_hundred_words(r);
    let others = below_hundred_words(q);
    assert(words.len() == others.len());
    if words.len() == 1 {
        assert(words[0] == others[0]);
    } else if words.len() == 2 {
        assert(words[0] == others[0]);
        assert(words[1] == others[1]);
        assert(words[0] == tens_word(r as int / 10));
        assert(others[0] == tens_word(q as int / 10));
        assert(words[1] == small_word(r as int % 10));
        assert(others[1] == small_word(q as int % 10));
    }
}

/// What a group says tells the group and its place: no two groups, and no
/// group in two places, say the same.
pub proof fn lemma_group_text_unique(g: nat, scale: nat, other: nat, other_scale: nat)
    requires
        0 < g < 1000,
        0 < other < 1000,
        scale < 7,
        other_scale < 7,
        group_text(g, scale) == group_text(other, other_scale),
    ensures
        g == other,
        scale == other_scale,
{
    lemma_group_text_is_joined(g, scale);
    lemma_group_text_is_joined(other, other_scale);
    lemma_joined_unique(group_words(g, scale), group_words(other, other_scale));
    lemma_group_words_unique(g, scale, other, other_scale);
}

/// `v` moved up by `scale` groups: `v` times the `scale`-th power of a
/// thousand.
pub open spec fn scaled(v: nat, scale: nat) -> nat
    decreases scale,
{
    if scale == 0 {
        v
    } else {
        scaled(v * 1000, (scale - 1) as nat)
    }
}

/// Moving up keeps numbers apart, and keeps zero at zero.
pub proof fn lemma_scaled_unique(v: nat, w: nat, scale: nat)
    ensures
        scaled(v, scale) == scaled(w, scale) ==> v == w,
        scaled(0, scale) == 0,
    decreases scale,
{
    if scale > 0 {
        lemma_scaled_unique(v * 1000, w * 1000, (scale - 1) as nat);
        lemma_scaled_unique(0, 0, (scale - 1) as nat);
    }
}

/// The groups have names: each is below a thousand, and the run, whose last
/// group stands `scale` groups from the end, stays within the named places.
pub open spec fn are_named(groups: Seq<nat>, scale: nat) -> bool {
    &&& scale + groups.len() <= 7
    &&& forall|i: int| 0 <= i < groups.len() ==> #[trigger] groups[i] < 1000
}

/// A run of groups that says nothing is worth nothing.
pub proof fn lemma_silent_run_is_zero(groups: Seq<nat>, scale: nat)
    requires
        are_named(groups, scale),
        phrase(groups, scale).len() == 0,
    ensures
        value_of(groups) == 0,
    decreases groups.len(),
{
    if groups.len() > 0 {
        let last: nat = groups.last();
        if last > 0 {
            lemma_group_text_is_joined(last, scale);
            lemma_joined_shape(group_words(last, scale));
        }
        lemma_silent_run_is_zero(groups.drop_last(), scale + 1);
    }
}

/// What a group other than zero says is some text without a space: spaces
/// stand between groups only.
proof fn lemma_group_text_is_whole(g: nat, scale: nat)
    requires
        0 < g < 1000,
        scale < 7,
    ensures
        free_of(group_text(g, scale), ' '),
        group_text(g, scale).len() > 0,
{
    lemma_group_text_is_joined(g, scale);
    lemma_joined_shape(group_words(g, scale));
}

/// Two runs of groups that say the same are worth the same, each counted at
/// its place.
pub proof fn lemma_phrase_unique(
    groups: Seq<nat>,
    scale: nat,
    others: Seq<nat>,
    other_scale: nat,
)
    requires
        are_named(groups, scale),
        are_named(others, other_scale),
        phrase(groups, scale) == phrase(others, other_scale),
    ensures
        scaled(value_of(groups), scale) == scaled(value_of(others), other_scale),
    decreases groups.len() + others.len(),
{
    if groups.len() == 0 {
        lemma_silent_run_is_zero(others, other_scale);
        lemma_scaled_unique(0, 0, scale);
        lemma_scaled_unique(0, 0, other_scale);
    } else if others.len() == 0 {
        lemma_silent_run_is_zero(groups, scale);
        lemma_scaled_unique(0, 0, scale);
        lemma_scaled_unique(0, 0, other_scale);
    } else if groups.last() == 0 {
        let upper = groups.drop_last();
        assert(phrase(groups, scale) =~= phrase(upper, scale + 1));
        lemma_phrase_unique(upper, scale + 1, others, other_scale);
    } else if others.last() == 0 {
        let other_upper = others.drop_last();
        assert(phrase(others, other_scale) =~= phrase(other_upper, other_scale + 1));
        lemma_phrase_unique(groups, scale, other_upper, other_scale + 1);
    } else {
        reveal_strlit(" ");
        let upper = groups.drop_last();
        let other_upper = others.drop_last();
        let said = phrase(upper, scale + 1);
        let other_said = phrase(other_upper, other_scale + 1);
        let last = group_text(groups.last(), scale);
        let other_last = group_text(others.last(), other_scale);
        lemma_group_text_is_whole(groups.last(), scale);
        lemma_group_text_is_whole(others.last(), other_scale);
        if said.len() > 0 {
            assert(phrase(groups, scale) =~= said.push(' ') + last);
        }
        if other_said.len() > 0 {
            assert(phrase(others, other_scale) =~= other_said.push(' ') + other_last);
        }
        if said.len() > 0 && other_said.len() > 0 {
            lemma_cut_at_last(said, last, other_said, other_last, ' ');
        } else if said.len() > 0 {
            lemma_uncut(other_last, said, last, ' ');
        } else if other_said.len() > 0 {
            lemma_uncut(last, other_said, other_last, ' ');
        } else {
            assert(said =~= other_said);
        }
        assert(said == other_said && last == other_last);
        lemma_group_text_unique(groups.last(), scale, others.last(), other_scale);
        lemma_phrase_unique(upper, scale + 1, other_upper, other_scale + 1);
        lemma_scaled_unique(value_of(upper), value_of(other_upper), scale + 1);
    }
}

/// No two numbers have the same name.
pub proof fn law_names_are_unique(a: nat, b: nat)
    requires
        is_supported(a),
        is_supported(b),
        spelling(a) == spelling(b),
    ensures
        a == b,
{
    if a == 0 || b == 0 {
        reveal_strlit("zero");
        assert("zero"@[0] == 'z');
        if a > 0 {
            law_zero_is_never_said(a);
        }
        if b > 0 {
            law_zero_is_never_said(b);
        }
    } else {
        lemma_groups_digits(a);
        lemma_groups_digits(b);
        lemma_phrase_unique(groups_of(a), 0, groups_of(b), 0);
        law_groups_reconstruct(a);
        law_groups_reconstruct(b);
    }
}

} // verus!
