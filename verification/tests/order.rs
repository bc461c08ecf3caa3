use lexical_numbers::order::{precedes, sort_by_name};
use lexical_numbers::LexicalNumber;

fn name(value: usize) -> String {
    LexicalNumber::from(value).to_string()
}

#[test]
fn names_compare_as_strings_do() {
    let samples = [0usize, 1, 2, 8, 11, 18, 80, 88, 100, 101, 1_000, 1_000_000, usize::MAX];
    for a in samples {
        for b in samples {
            assert_eq!(precedes(a, b), name(a) < name(b), "{a} {b}");
        }
    }
}

#[test]
fn a_name_precedes_its_extensions() {
    assert!(precedes(8, 18));
    assert!(precedes(8, 80));
    assert!(precedes(6, 60));
    assert!(!precedes(60, 6));
    assert!(!precedes(5, 5));
}

#[test]
fn the_first_ten_in_name_order() {
    let mut numbers: Vec<usize> = (0..10).collect();
    sort_by_name(&mut numbers);
    assert_eq!(numbers, vec![8, 5, 4, 9, 1, 7, 6, 3, 2, 0]);
}

#[test]
fn sorting_agrees_with_sorting_by_key() {
    let mut numbers: Vec<usize> = (0..100).collect();
    let mut expected = numbers.clone();
    expected.sort_by_cached_key(|number| name(*number));
    sort_by_name(&mut numbers);
    assert_eq!(numbers, expected);
    assert_eq!(numbers[0], 8);
    assert_eq!(numbers[99], 0);
}

#[test]
fn sorting_keeps_every_number() {
    let mut numbers: Vec<usize> = vec![3, 3, 1_000_000, 0, 12, 3, 0];
    sort_by_name(&mut numbers);
    assert_eq!(numbers, vec![1_000_000, 3, 3, 3, 12, 0, 0]);
}

#[test]
fn sorted_numbers_have_rising_names() {
    let mut numbers: Vec<usize> = (0..500).rev().collect();
    sort_by_name(&mut numbers);
    for pair in numbers.windows(2) {
        assert!(name(pair[0]) < name(pair[1]));
    }
}

#[test]
fn sorting_nothing_gives_nothing() {
    let mut numbers: Vec<usize> = Vec::new();
    sort_by_name(&mut numbers);
    assert!(numbers.is_empty());
}

#[test]
fn of_two_different_numbers_one_comes_first() {
    let samples = [0usize, 1, 8, 18, 80, 88, 100, 800, 1_000, 8_000, 1_000_000, usize::MAX];
    for a in samples {
        for b in samples {
            if a == b {
                assert!(!precedes(a, b));
            } else {
                assert_ne!(precedes(a, b), precedes(b, a), "{a} {b}");
            }
        }
    }
}

#[test]
fn a_number_placed_earlier_never_has_the_later_name() {
    let mut numbers: Vec<usize> = vec![1_000, 21, 0, 999, 1_000_000, 13, 30, 3, 300];
    sort_by_name(&mut numbers);
    for i in 0..numbers.len() {
        for j in 0..numbers.len() {
            if precedes(numbers[i], numbers[j]) {
                assert!(i < j);
            }
        }
    }
}
