//! The word tables: the twenty irregular names of the numbers below twenty,
//! the names of the multiples of ten, and the names of the powers of a
//! thousand. English offers no rule that would produce "eleven" or "forty",
//! so every word is stored and looked up by index.

use vstd::prelude::*;

verus! {

/// Names of the numbers from zero to nineteen, by value.
pub const SMALL_NAMES: [&'static str; 20] = [
    "zero",
    "one",
    "two",
    "three",
    "four",
    "five",
    "six",
    "seven",
    "eight",
    "nine",
    "ten",
    "eleven",
    "twelve",
    "thirteen",
    "fourteen",
    "fifteen",
    "sixteen",
    "seventeen",
    "eighteen",
    "nineteen",
];

/// Names of the multiples of ten, by their tens digit. The slots of the
/// digits 0 and 1 are never read and hold the empty string.
pub const TENS_NAMES: [&'static str; 10] = [
    "",
    "",
    "twenty",
    "thirty",
    "forty",
    "fifty",
    "sixty",
    "seventy",
    "eighty",
    "ninety",
];

/// Names of the powers of a thousand, by exponent. The lowest group carries
/// no name, so slot 0 holds the empty string.
pub const GROUP_NAMES: [&'static str; 7] = [
    "",
    "thousand",
    "million",
    "billion",
    "trillion",
    "quadrillion",
    "quintillion",
];

/// The name of `n`, for `0 <= n < 20`.
pub open spec fn small_word(n: int) -> Seq<char>
    recommends
        0 <= n < 20,
{
    SMALL_NAMES@[n]@
}

/// The name of `10 * tens`, for `2 <= tens < 10`.
pub open spec fn tens_word(tens: int) -> Seq<char>
    recommends
        2 <= tens < 10,
{
    TENS_NAMES@[tens]@
}

/// The name of the `scale`-th power of a thousand, for `1 <= scale < 7`.
pub open spec fn scale_word(scale: int) -> Seq<char>
    recommends
        1 <= scale < 7,
{
    GROUP_NAMES@[scale]@
}

/// A lower-case letter of the English alphabet.
pub open spec fn is_letter(c: char) -> bool {
    'a' <= c && c <= 'z'
}

/// A word: one or more letters, and nothing else.
pub open spec fn is_word(s: Seq<char>) -> bool {
    &&& s.len() > 0
    &&& forall|i: int| 0 <= i < s.len() ==> is_letter(#[trigger] s[i])
}

/// No letter of `s` is a `z`. Of all the names only "zero" has one.
pub open spec fn has_no_z(s: Seq<char>) -> bool {
    forall|i: int| 0 <= i < s.len() ==> #[trigger] s[i] != 'z'
}

/// Every name of a number below twenty is a word, and "zero" alone is
/// spelled with a `z`.
pub proof fn lemma_small_words()
    ensures
        forall|n: int| 0 <= n < 20 ==> is_word(#[trigger] small_word(n)),
        forall|n: int| 1 <= n < 20 ==> has_no_z(#[trigger] small_word(n)),
{
    reveal_strlit("zero");
    reveal_strlit("one");
    reveal_strlit("two");
    reveal_strlit("three");
    reveal_strlit("four");
    reveal_strlit("five");
    reveal_strlit("six");
    reveal_strlit("seven");
    reveal_strlit("eight");
    reveal_strlit("nine");
    reveal_strlit("ten");
    reveal_strlit("eleven");
    reveal_strlit("twelve");
    reveal_strlit("thirteen");
    reveal_strlit("fourteen");
    reveal_strlit("fifteen");
    reveal_strlit("sixteen");
    reveal_strlit("seventeen");
    reveal_strlit("eighteen");
    reveal_strlit("nineteen");
}

/// Every name of a multiple of ten from twenty to ninety is a word.
pub proof fn lemma_tens_words()
    ensures
        forall|tens: int| 2 <= tens < 10 ==> is_word(#[trigger] tens_word(tens)),
        forall|tens: int| 2 <= tens < 10 ==> has_no_z(#[trigger] tens_word(tens)),
{
    reveal_strlit("twenty");
    reveal_strlit("thirty");
    reveal_strlit("forty");
    reveal_strlit("fifty");
    reveal_strlit("sixty");
    reveal_strlit("seventy");
    reveal_strlit("eighty");
    reveal_strlit("ninety");
}

/// Every name of a power of a thousand is a word.
pub proof fn lemma_scale_words()
    ensures
        forall|scale: int| 1 <= scale < 7 ==> is_word(#[trigger] scale_word(scale)),
        forall|scale: int| 1 <= scale < 7 ==> has_no_z(#[trigger] scale_word(scale)),
{
    reveal_strlit("thousand");
    reveal_strlit("million");
    reveal_strlit("billion");
    reveal_strlit("trillion");
    reveal_strlit("quadrillion");
    reveal_strlit("quintillion");
}

/// "hundred" is a word.
pub proof fn lemma_hundred_word()
    ensures
        is_word("hundred"@),
        has_no_z("hundred"@),
{
    reveal_strlit("hundred");
}

/// Two texts differ in length or in one of their first four characters.
/// This is enough to tell any two of the words apart.
pub open spec fn differ_early(a: Seq<char>, b: Seq<char>) -> bool {
    a.len() != b.len() || a[0] != b[0] || a[1] != b[1] || a[2] != b[2] || a[3] != b[3]
}

/// No two numbers below twenty share a name.
pub proof fn lemma_small_words_differ()
    ensures
        forall|n: int, m: int|
            1 <= n < 20 && 1 <= m < 20 && n != m ==> differ_early(
                #[trigger] small_word(n),
                #[trigger] small_word(m),
            ),
{
    reveal_strlit("one");
    reveal_strlit("two");
    reveal_strlit("three");
    reveal_strlit("four");
    reveal_strlit("five");
    reveal_strlit("six");
    reveal_strlit("seven");
    reveal_strlit("eight");
    reveal_strlit("nine");
    reveal_strlit("ten");
    reveal_strlit("eleven");
    reveal_strlit("twelve");
    reveal_strlit("thirteen");
    reveal_strlit("fourteen");
    reveal_strlit("fifteen");
    reveal_strlit("sixteen");
    reveal_strlit("seventeen");
    reveal_strlit("eighteen");
    reveal_strlit("nineteen");
}

/// No two multiples of ten share a name.
pub proof fn lemma_tens_words_differ()
    ensures
        forall|t: int, u: int|
            2 <= t < 10 && 2 <= u < 10 && t != u ==> differ_early(
                #[trigger] tens_word(t),
                #[trigger] tens_word(u),
            ),
{
    reveal_strlit("twenty");
    reveal_strlit("thirty");
    reveal_strlit("forty");
    reveal_strlit("fifty");
    reveal_strlit("sixty");
    reveal_strlit("seventy");
    reveal_strlit("eighty");
    reveal_strlit("ninety");
}

/// No two powers of a thousand share a name.
pub proof fn lemma_scale_words_differ()
    ensures
        forall|s: int, r: int|
            1 <= s < 7 && 1 <= r < 7 && s != r ==> differ_early(
                #[trigger] scale_word(s),
                #[trigger] scale_word(r),
            ),
{
    reveal_strlit("thousand");
    reveal_strlit("million");
    reveal_strlit("billion");
    reveal_strlit("trillion");
    reveal_strlit("quadrillion");
    reveal_strlit("quintillion");
}

/// No word of one kind is also a word of another kind.
pub proof fn lemma_word_kinds_differ()
    ensures
        forall|n: int, t: int|
            1 <= n < 20 && 2 <= t < 10 ==> differ_early(
                #[trigger] small_word(n),
                #[trigger] tens_word(t),
            ),
        forall|n: int, s: int|
            1 <= n < 20 && 1 <= s < 7 ==> differ_early(
                #[trigger] small_word(n),
                #[trigger] scale_word(s),
            ),
        forall|t: int, s: int|
            2 <= t < 10 && 1 <= s < 7 ==> differ_early(
                #[trigger] tens_word(t),
                #[trigger] scale_word(s),
            ),
        forall|n: int| 1 <= n < 20 ==> differ_early(#[trigger] small_word(n), "hundred"@),
        forall|t: int| 2 <= t < 10 ==> differ_early(#[trigger] tens_word(t), "hundred"@),
        forall|s: int| 1 <= s < 7 ==> differ_early(#[trigger] scale_word(s), "hundred"@),
{
    reveal_strlit("one");
    reveal_strlit("two");
    reveal_strlit("three");
    reveal_strlit("four");
    reveal_strlit("five");
    reveal_strlit("six");
    reveal_strlit("seven");
    reveal_strlit("eight");
    reveal_strlit("nine");
    reveal_strlit("ten");
    reveal_strlit("eleven");
    reveal_strlit("twelve");
    reveal_strlit("thirteen");
    reveal_strlit("fourteen");
    reveal_strlit("fifteen");
    reveal_strlit("sixteen");
    reveal_strlit("seventeen");
    reveal_strlit("eighteen");
    reveal_strlit("nineteen");
    reveal_strlit("twenty");
    reveal_strlit("thirty");
    reveal_strlit("forty");
    reveal_strlit("fifty");
    reveal_strlit("sixty");
    reveal_strlit("seventy");
    reveal_strlit("eighty");
    reveal_strlit("ninety");
    reveal_strlit("thousand");
    reveal_strlit("million");
    reveal_strlit("billion");
    reveal_strlit("trillion");
    reveal_strlit("quadrillion");
    reveal_strlit("quintillion");
    reveal_strlit("hundred");
}

} // verus!
