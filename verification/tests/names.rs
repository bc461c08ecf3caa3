use lexical_numbers::{spell, LexicalNumber, RangeError};

fn name(value: usize) -> String {
    LexicalNumber::from(value).to_string()
}

#[test]
fn test_1_234_567_890() {
    let value = LexicalNumber::from(1_234_567_890);
    let result = value.to_string();
    assert_eq!(&result, "one-billion two-hundred-thirty-four-million five-hundred-sixty-seven-thousand eight-hundred-ninety");
}

#[test]
fn test_1_034_567_890() {
    let value = LexicalNumber::from(1_034_567_890);
    let result = value.to_string();
    assert_eq!(&result, "one-billion thirty-four-million five-hundred-sixty-seven-thousand eight-hundred-ninety");
}

#[test]
fn test_1_004_567_890() {
    let value = LexicalNumber::from(1_004_567_890);
    let result = value.to_string();
    assert_eq!(&result, "one-billion four-million five-hundred-sixty-seven-thousand eight-hundred-ninety");
}

#[test]
fn test_1_234_000_000() {
    let value = LexicalNumber::from(1_234_000_000);
    let result = value.to_string();
    assert_eq!(&result, "one-billion two-hundred-thirty-four-million");
}

#[test]
fn zero_is_zero() {
    assert_eq!(name(0), "zero");
    assert_eq!(spell(0), Ok(String::from("zero")));
}

#[test]
fn numbers_below_twenty_are_single_words() {
    let expected = [
        "zero", "one", "two", "three", "four", "five", "six", "seven", "eight", "nine", "ten",
        "eleven", "twelve", "thirteen", "fourteen", "fifteen", "sixteen", "seventeen",
        "eighteen", "nineteen",
    ];
    for (value, word) in expected.iter().enumerate() {
        assert_eq!(name(value), *word);
    }
}

#[test]
fn tens_and_ones_are_hyphenated() {
    assert_eq!(name(19), "nineteen");
    assert_eq!(name(20), "twenty");
    assert_eq!(name(21), "twenty-one");
    assert_eq!(name(30), "thirty");
    assert_eq!(name(45), "forty-five");
    assert_eq!(name(58), "fifty-eight");
    assert_eq!(name(60), "sixty");
    assert_eq!(name(77), "seventy-seven");
    assert_eq!(name(86), "eighty-six");
    assert_eq!(name(99), "ninety-nine");
}

#[test]
fn hundreds_stand_alone_or_lead() {
    assert_eq!(name(100), "one-hundred");
    assert_eq!(name(101), "one-hundred-one");
    assert_eq!(name(110), "one-hundred-ten");
    assert_eq!(name(119), "one-hundred-nineteen");
    assert_eq!(name(120), "one-hundred-twenty");
    assert_eq!(name(234), "two-hundred-thirty-four");
    assert_eq!(name(900), "nine-hundred");
    assert_eq!(name(999), "nine-hundred-ninety-nine");
}

#[test]
fn every_power_of_a_thousand_has_its_name() {
    assert_eq!(spell(1_000), Ok(String::from("one-thousand")));
    assert_eq!(spell(1_000_000), Ok(String::from("one-million")));
    assert_eq!(spell(1_000_000_000), Ok(String::from("one-billion")));
    assert_eq!(spell(1_000_000_000_000), Ok(String::from("one-trillion")));
    assert_eq!(spell(1_000_000_000_000_000), Ok(String::from("one-quadrillion")));
    assert_eq!(spell(1_000_000_000_000_000_000), Ok(String::from("one-quintillion")));
}

#[test]
fn the_last_group_carries_no_scale_word() {
    assert_eq!(name(1_001), "one-thousand one");
    assert_eq!(name(12_345), "twelve-thousand three-hundred-forty-five");
    assert_eq!(name(700_020), "seven-hundred-thousand twenty");
}

#[test]
fn zero_groups_are_passed_over() {
    assert_eq!(name(1_000_567), "one-million five-hundred-sixty-seven");
    assert_eq!(name(5_000_000_002), "five-billion two");
    assert_eq!(
        spell(3_000_000_000_000_000_000),
        Ok(String::from("three-quintillion"))
    );
    for value in [1_000_567usize, 1_000, 2_000_000, 10_000_001, 90_000_000_000] {
        let text = name(value);
        assert!(!text.contains("zero"), "{text}");
        assert!(!text.contains("  "), "{text}");
        assert!(!text.ends_with('-'), "{text}");
    }
}

#[test]
fn separators_are_single_and_inside() {
    let samples = (1..3000usize)
        .chain([1_000_000, 1_000_001, 20_000_300, 1_004_567_890, usize::MAX])
        .collect::<Vec<usize>>();
    for value in samples {
        let text = name(value);
        assert!(!text.is_empty());
        assert!(!text.starts_with(' ') && !text.ends_with(' '), "{text}");
        assert!(!text.starts_with('-') && !text.ends_with('-'), "{text}");
        assert!(!text.contains("  "), "{text}");
        assert!(!text.contains("--"), "{text}");
        assert!(!text.contains(" -") && !text.contains("- "), "{text}");
        assert!(
            text.chars().all(|c| c.is_ascii_lowercase() || c == ' ' || c == '-'),
            "{text}"
        );
    }
}

#[test]
fn the_same_number_has_the_same_name() {
    for value in [0u128, 7, 1_234_567_890, 999_999_999_999_999_999_999, u128::MAX] {
        assert_eq!(spell(value), spell(value));
    }
    assert_eq!(name(1_234_567_890), name(1_234_567_890));
}

#[test]
fn the_largest_named_number() {
    let nines = "nine-hundred-ninety-nine";
    let expected = format!(
        "{nines}-quintillion {nines}-quadrillion {nines}-trillion {nines}-billion {nines}-million {nines}-thousand {nines}"
    );
    assert_eq!(spell(999_999_999_999_999_999_999), Ok(expected));
}

#[test]
fn too_large_is_refused() {
    assert_eq!(
        spell(1_000_000_000_000_000_000_000),
        Err(RangeError { groups: 8 })
    );
    assert_eq!(
        spell(1_000_000_000_000_000_000_001),
        Err(RangeError { groups: 8 })
    );
    assert_eq!(spell(u128::MAX), Err(RangeError { groups: 13 }));
}

#[test]
fn the_largest_64_bit_number() {
    assert_eq!(
        spell(18_446_744_073_709_551_615),
        Ok(String::from(
            "eighteen-quintillion four-hundred-forty-six-quadrillion seven-hundred-forty-four-trillion seventy-three-billion seven-hundred-nine-million five-hundred-fifty-one-thousand six-hundred-fifteen"
        ))
    );
    assert_eq!(
        Ok(name(usize::MAX)),
        spell(usize::MAX as u128)
    );
}

#[test]
fn wrapping_and_unwrapping_is_the_identity() {
    for value in [0usize, 1, 19, 1_000, 1_234_567_890, usize::MAX - 1, usize::MAX] {
        assert_eq!(usize::from(LexicalNumber::from(value)), value);
    }
}

#[test]
fn naming_leaves_the_number_as_it_was() {
    let number = LexicalNumber::from(42);
    assert_eq!(number.to_string(), "forty-two");
    assert_eq!(number.to_string(), "forty-two");
    assert_eq!(usize::from(number), 42);
}

#[test]
fn different_numbers_have_different_names() {
    let samples = (0..2500usize)
        .chain([
            10_000, 100_000, 1_000_000, 1_000_001, 1_001_000, 1_000_000_000, 1_000_001_000,
            usize::MAX - 1, usize::MAX,
        ])
        .collect::<Vec<usize>>();
    let mut names = samples.iter().map(|value| name(*value)).collect::<Vec<String>>();
    names.sort();
    names.dedup();
    assert_eq!(names.len(), samples.len());
}

#[test]
fn a_group_says_the_same_words_at_every_place_but_for_the_scale() {
    assert_eq!(name(234), "two-hundred-thirty-four");
    assert_eq!(name(234_000), "two-hundred-thirty-four-thousand");
    assert_eq!(name(234_000_000), "two-hundred-thirty-four-million");
    assert_eq!(name(234_000_234), "two-hundred-thirty-four-million two-hundred-thirty-four");
}
