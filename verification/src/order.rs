//! The order of the dictionary: numbers put in the order in which their
//! names would stand in a word list.

use crate::groups::{is_supported, law_supported_range};
use crate::number::LexicalNumber;
use crate::shape::law_single_separators;
use crate::spelling::spelling;
use crate::unique::law_names_are_unique;
use vstd::prelude::*;
use vstd::string::is_ascii_spec_bytes;
use vstd::utf8::is_ascii_chars;

verus! {

/// `a` stands before `b` in the order of the dictionary: at the first place
/// where the two differ `a` has the character of the smaller code point, or
/// `a` ends there and `b` goes on.
pub open spec fn comes_before(a: Seq<char>, b: Seq<char>) -> bool
    decreases a.len(),
{
    if b.len() == 0 {
        false
    } else if a.len() == 0 {
        true
    } else if a[0] != b[0] {
        a[0] < b[0]
    } else {
        comes_before(a.drop_first(), b.drop_first())
    }
}

/// No text stands before another that stands before it, nor before itself.
pub proof fn lemma_comes_before_asymmetric(a: Seq<char>, b: Seq<char>)
    ensures
        !(comes_before(a, b) && comes_before(b, a)),
    decreases a.len(),
{
    if a.len() > 0 && b.len() > 0 && a[0] == b[0] {
        lemma_comes_before_asymmetric(a.drop_first(), b.drop_first());
    }
}

/// What stands before a text stands before all that the text stands before.
pub proof fn lemma_comes_before_transitive(a: Seq<char>, b: Seq<char>, c: Seq<char>)
    requires
        comes_before(a, b),
        comes_before(b, c),
    ensures
        comes_before(a, c),
    decreases a.len(),
{
    if a.len() > 0 && a[0] == b[0] && b[0] == c[0] {
        lemma_comes_before_transitive(a.drop_first(), b.drop_first(), c.drop_first());
    }
}

/// Of two different texts one stands before the other.
pub proof fn lemma_comes_before_total(a: Seq<char>, b: Seq<char>)
    requires
        a != b,
    ensures
        comes_before(a, b) || comes_before(b, a),
    decreases a.len(),
{
    if a.len() == 0 || b.len() == 0 {
        if a.len() == 0 && b.len() == 0 {
            assert(a =~= b);
        }
    } else if a[0] == b[0] {
        if a.drop_first() == b.drop_first() {
            assert(a =~= seq![a[0]] + a.drop_first());
            assert(b =~= seq![b[0]] + b.drop_first());
        }
        lemma_comes_before_total(a.drop_first(), b.drop_first());
    }
}

/// The names put the numbers in a line: of two different numbers that have
/// names, the name of exactly one stands before the name of the other.
pub proof fn law_name_order_is_total(a: nat, b: nat)
    requires
        is_supported(a),
        is_supported(b),
        a != b,
    ensures
        comes_before(spelling(a), spelling(b)) != comes_before(spelling(b), spelling(a)),
{
    if spelling(a) == spelling(b) {
        law_names_are_unique(a, b);
    }
    lemma_comes_before_total(spelling(a), spelling(b));
    lemma_comes_before_asymmetric(spelling(a), spelling(b));
}

/// Tells whether `a` stands before `b` in the order of the dictionary, for
/// texts of ASCII characters.
fn ascii_comes_before(a: &str, b: &str) -> (before: bool)
    requires
        is_ascii_chars(a@),
        is_ascii_chars(b@),
    ensures
        before == comes_before(a@, b@),
{
    let x: &[u8] = a.as_bytes();
    let y: &[u8] = b.as_bytes();
    let mut i: usize = 0;
    proof {
        is_ascii_spec_bytes(a);
        is_ascii_spec_bytes(b);
        assert(a@.skip(0) =~= a@);
        assert(b@.skip(0) =~= b@);
    }
    while i < x.len() && i < y.len()
        invariant
            is_ascii_chars(a@),
            is_ascii_chars(b@),
            x@.len() == a@.len(),
            y@.len() == b@.len(),
            forall|k: int| 0 <= k < a@.len() ==> #[trigger] x@[k] == a@[k] as u8,
            forall|k: int| 0 <= k < b@.len() ==> #[trigger] y@[k] == b@[k] as u8,
            i <= x.len(),
            i <= y.len(),
            comes_before(a@, b@) == comes_before(a@.skip(i as int), b@.skip(i as int)),
        decreases x.len() - i,
    {
        proof {
            assert(a@.skip(i as int).drop_first() =~= a@.skip(i + 1));
            assert(b@.skip(i as int).drop_first() =~= b@.skip(i + 1));
            assert(a@.skip(i as int)[0] == a@[i as int]);
            assert(b@.skip(i as int)[0] == b@[i as int]);
        }
        if x[i] != y[i] {
            return x[i] < y[i];
        }
        i += 1;
    }
    x.len() < y.len()
}

/// Tells whether the name of `a` stands before the name of `b` in the order
/// of the dictionary.
pub fn precedes(a: usize, b: usize) -> (before: bool)
    ensures
        before == comes_before(spelling(a as nat), spelling(b as nat)),
{
    let first: String = LexicalNumber::from(a).to_string();
    let second: String = LexicalNumber::from(b).to_string();
    proof {
        lemma_name_is_ascii(a as nat);
        lemma_name_is_ascii(b as nat);
    }
    ascii_comes_before(first.as_str(), second.as_str())
}

/// The name of a number that fits the machine word is made of ASCII
/// characters.
proof fn lemma_name_is_ascii(v: nat)
    requires
        v <= usize::MAX,
    ensures
        is_ascii_chars(spelling(v)),
{
    law_supported_range(v);
    law_single_separators(v);
}

/// The numbers stand in the order of their names: no number's name stands
/// before the name of a number placed earlier.
pub open spec fn in_name_order(numbers: Seq<usize>) -> bool {
    forall|i: int, j: int|
        0 <= i < j < numbers.len() ==> !comes_before(
            spelling(#[trigger] numbers[j] as nat),
            spelling(#[trigger] numbers[i] as nat),
        )
}

/// Where numbers stand in the order of their names, a number whose name
/// stands before the name of another is placed before the other.
pub proof fn law_name_order_places(numbers: Seq<usize>, i: int, j: int)
    requires
        in_name_order(numbers),
        0 <= i < numbers.len(),
        0 <= j < numbers.len(),
        comes_before(spelling(numbers[i] as nat), spelling(numbers[j] as nat)),
    ensures
        i < j,
{
    lemma_comes_before_asymmetric(spelling(numbers[i] as nat), spelling(numbers[j] as nat));
}

/// A number put in after all those whose names do not stand after its own,
/// and right before one whose name does, leaves the order intact.
proof fn lemma_insert_keeps_order(numbers: Seq<usize>, place: int, number: usize)
    requires
        in_name_order(numbers),
        0 <= place <= numbers.len(),
        forall|k: int|
            0 <= k < place ==> !comes_before(
                spelling(number as nat),
                spelling(#[trigger] numbers[k] as nat),
            ),
        place < numbers.len() ==> comes_before(
            spelling(number as nat),
            spelling(numbers[place] as nat),
        ),
    ensures
        in_name_order(numbers.insert(place, number)),
{
    let grown = numbers.insert(place, number);
    let name = spelling(number as nat);
    numbers.insert_ensures(place, number);
    assert forall|i: int, j: int| 0 <= i < j < grown.len() implies !comes_before(
        spelling(#[trigger] grown[j] as nat),
        spelling(#[trigger] grown[i] as nat),
    ) by {
        if i < place {
            assert(grown[i] == numbers[i]);
            if j > place {
                assert(grown[j] == numbers[j - 1]);
            }
        } else if i == place {
            let later = spelling(numbers[j - 1] as nat);
            let next = spelling(numbers[place] as nat);
            assert(grown[j] == numbers[j - 1]);
            if comes_before(later, name) {
                lemma_comes_before_transitive(later, name, next);
                lemma_comes_before_asymmetric(later, next);
            }
        } else {
            assert(grown[i] == numbers[i - 1]);
            assert(grown[j] == numbers[j - 1]);
        }
    }
}

/// Putting a number in adds it to what the sequence holds, and nothing else.
proof fn lemma_insert_adds_one(numbers: Seq<usize>, place: int, number: usize)
    requires
        0 <= place <= numbers.len(),
    ensures
        numbers.insert(place, number).to_multiset() == numbers.to_multiset().insert(number),
{
    let grown = numbers.insert(place, number);
    numbers.insert_ensures(place, number);
    assert(grown.remove(place) =~= numbers);
    vstd::seq_lib::to_multiset_remove(grown, place);
    grown.to_multiset_ensures();
    assert(grown.contains(number));
    assert(grown.to_multiset() =~= numbers.to_multiset().insert(number));
}

/// Finds where `name` belongs among `names`, which stand in order: behind
/// every name that does not stand after it.
fn find_place(names: &Vec<String>, name: &str) -> (place: usize)
    requires
        is_ascii_chars(name@),
        forall|k: int| 0 <= k < names@.len() ==> is_ascii_chars(#[trigger] names@[k]@),
    ensures
        place <= names@.len(),
        forall|k: int| 0 <= k < place ==> !comes_before(name@, #[trigger] names@[k]@),
        place < names@.len() ==> comes_before(name@, names@[place as int]@),
{
    let mut place: usize = 0;
    while place < names.len()
        invariant
            place <= names@.len(),
            is_ascii_chars(name@),
            forall|k: int| 0 <= k < names@.len() ==> is_ascii_chars(#[trigger] names@[k]@),
            forall|k: int| 0 <= k < place ==> !comes_before(name@, #[trigger] names@[k]@),
        decreases names@.len() - place,
    {
        if ascii_comes_before(name, names[place].as_str()) {
            return place;
        }
        place += 1;
    }
    place
}

/// Puts `numbers` in the order of their names. Each name is worked out once.
pub fn sort_by_name(numbers: &mut Vec<usize>)
    ensures
        final(numbers)@.to_multiset() == old(numbers)@.to_multiset(),
        in_name_order(final(numbers)@),
{
    let ghost given = numbers@;
    let count: usize = numbers.len();
    let mut sorted: Vec<usize> = Vec::with_capacity(count);
    let mut names: Vec<String> = Vec::with_capacity(count);
    proof {
        assert(given.take(0) =~= Seq::<usize>::empty());
    }
    for taken in 0..count
        invariant
            numbers@ == given,
            count == given.len(),
            sorted@.len() == taken,
            names@.len() == taken,
            forall|k: int|
                0 <= k < taken ==> #[trigger] names@[k]@ == spelling(sorted@[k] as nat),
            sorted@.to_multiset() == given.take(taken as int).to_multiset(),
            in_name_order(sorted@),
    {
        let number: usize = numbers[taken];
        let name: String = LexicalNumber::from(number).to_string();
        proof {
            lemma_name_is_ascii(number as nat);
            assert forall|k: int| 0 <= k < names@.len() implies is_ascii_chars(
                #[trigger] names@[k]@,
            ) by {
                lemma_name_is_ascii(sorted@[k] as nat);
            }
        }
        let place: usize = find_place(&names, name.as_str());
        proof {
            assert forall|k: int| 0 <= k < place implies !comes_before(
                spelling(number as nat),
                spelling(#[trigger] sorted@[k] as nat),
            ) by {
                assert(names@[k]@ == spelling(sorted@[k] as nat));
            }
            lemma_insert_keeps_order(sorted@, place as int, number);
            lemma_insert_adds_one(sorted@, place as int, number);
            sorted@.insert_ensures(place as int, number);
            names@.insert_ensures(place as int, name);
            assert(given.take(taken + 1) =~= given.take(taken as int).push(number));
            vstd::seq_lib::to_multiset_build(given.take(taken as int), number);
        }
        sorted.insert(place, number);
        names.insert(place, name);
    }
    proof {
        assert(given.take(count as int) =~= given);
    }
    *numbers = sorted;
}

} // verus!
