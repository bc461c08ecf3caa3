use lexical_numbers::groups::{split_groups, MAX_GROUPS};
use lexical_numbers::words::{GROUP_NAMES, SMALL_NAMES, TENS_NAMES};

fn groups(value: u128) -> Vec<usize> {
    split_groups(value).into_iter().collect()
}

#[test]
fn zero_has_no_group() {
    assert_eq!(groups(0), Vec::<usize>::new());
}

#[test]
fn groups_come_most_significant_first() {
    assert_eq!(groups(7), vec![7]);
    assert_eq!(groups(999), vec![999]);
    assert_eq!(groups(1_000), vec![1, 0]);
    assert_eq!(groups(1_234_567), vec![1, 234, 567]);
    assert_eq!(groups(1_004_567_890), vec![1, 4, 567, 890]);
    assert_eq!(groups(1_000_000_000_000), vec![1, 0, 0, 0, 0]);
}

#[test]
fn groups_add_up_to_the_number() {
    for value in [1u128, 12, 123, 1_234, 98_765_432_100, u64::MAX as u128, u128::MAX] {
        let parts = groups(value);
        assert!(parts[0] > 0);
        assert!(parts.iter().all(|part| *part < 1000));
        let sum = parts.iter().fold(0u128, |sum, part| sum * 1000 + *part as u128);
        assert_eq!(sum, value);
    }
}

#[test]
fn seven_groups_reach_up_to_the_limit() {
    assert_eq!(groups(999_999_999_999_999_999_999).len(), MAX_GROUPS);
    assert_eq!(groups(1_000_000_000_000_000_000_000).len(), MAX_GROUPS + 1);
}

#[test]
fn the_tables_hold_one_word_per_slot() {
    assert_eq!(SMALL_NAMES.len(), 20);
    assert_eq!(TENS_NAMES.len(), 10);
    assert_eq!(GROUP_NAMES.len(), MAX_GROUPS);
    assert_eq!(SMALL_NAMES[0], "zero");
    assert_eq!(SMALL_NAMES[11], "eleven");
    assert_eq!(TENS_NAMES[0], "");
    assert_eq!(TENS_NAMES[1], "");
    assert_eq!(TENS_NAMES[4], "forty");
    assert_eq!(GROUP_NAMES[0], "");
    assert_eq!(GROUP_NAMES[6], "quintillion");
}
