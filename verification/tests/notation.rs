use dice_roller::notation::{chars_of, parse, parse_u8};
use dice_roller::{Dice, DiceError};

#[test]
fn parse_reads_count_and_sides() {
    assert_eq!(parse("4d8"), Ok((4, 8)));
    assert_eq!(parse("1d6"), Ok((1, 6)));
    assert_eq!(parse("3d100"), Ok((3, 100)));
    assert_eq!(parse("255d255"), Ok((255, 255)));
}

#[test]
fn parse_separator_is_case_insensitive() {
    assert_eq!(parse("2D10"), Ok((2, 10)));
    assert_eq!(parse("2d10"), parse("2D10"));
}

#[test]
fn parse_add_args_is_parse() {
    assert_eq!(Dice::parse_add_args("4d8"), Ok((4, 8)));
    assert_eq!(Dice::parse_add_args("2D10"), Ok((2, 10)));
    assert_eq!(
        Dice::parse_add_args("1d6d"),
        Err(DiceError::MalformedToken)
    );
}

#[test]
fn parse_rejects_non_integer_count() {
    assert_eq!(parse("ad6"), Err(DiceError::NonIntegerCount));
    assert_eq!(parse("d6"), Err(DiceError::NonIntegerCount));
    assert_eq!(parse("256d6"), Err(DiceError::NonIntegerCount));
    assert_eq!(parse("-1d6"), Err(DiceError::NonIntegerCount));
    assert_eq!(parse("+1d6"), Err(DiceError::NonIntegerCount));
    assert_eq!(parse(" 1d6"), Err(DiceError::NonIntegerCount));
    assert_eq!(parse("1.5d6"), Err(DiceError::NonIntegerCount));
    assert_eq!(parse("99999999999999999999d6"), Err(DiceError::NonIntegerCount));
}

#[test]
fn parse_rejects_non_integer_sides() {
    assert_eq!(parse("1da"), Err(DiceError::NonIntegerSides));
    assert_eq!(parse("1d"), Err(DiceError::NonIntegerSides));
    assert_eq!(parse("1d256"), Err(DiceError::NonIntegerSides));
    assert_eq!(parse("1d6 "), Err(DiceError::NonIntegerSides));
    assert_eq!(parse("1d\u{ff16}"), Err(DiceError::NonIntegerSides));
}

#[test]
fn parse_judges_count_before_sides() {
    assert_eq!(parse("ada"), Err(DiceError::NonIntegerCount));
    assert_eq!(parse("d"), Err(DiceError::NonIntegerCount));
}

#[test]
fn parse_rejects_malformed_tokens() {
    assert_eq!(parse("1d6d"), Err(DiceError::MalformedToken));
    assert_eq!(parse("16"), Err(DiceError::MalformedToken));
    assert_eq!(parse(""), Err(DiceError::MalformedToken));
    assert_eq!(parse("1d6D8"), Err(DiceError::MalformedToken));
    assert_eq!(parse("dd"), Err(DiceError::MalformedToken));
    // More than one separator is malformed whatever the parts hold.
    assert_eq!(parse("ad6d"), Err(DiceError::MalformedToken));
    assert_eq!(parse("999dxd"), Err(DiceError::MalformedToken));
}

#[test]
fn parse_accepts_zero_and_leading_zeros() {
    assert_eq!(parse("0d6"), Ok((0, 6)));
    assert_eq!(parse("1d0"), Ok((1, 0)));
    assert_eq!(parse("007d008"), Ok((7, 8)));
    assert_eq!(parse("0000000000000000000255d1"), Ok((255, 1)));
}

#[test]
fn parse_is_deterministic() {
    for token in ["4d8", "2D10", "ad6", "1da", "1d6d", ""] {
        assert_eq!(parse(token), parse(token));
    }
}

#[test]
fn parse_u8_reads_a_range_of_characters() {
    let chars: Vec<char> = "12d255x".chars().collect();
    assert_eq!(parse_u8(&chars, 0, 2), Some(12));
    assert_eq!(parse_u8(&chars, 3, 6), Some(255));
    assert_eq!(parse_u8(&chars, 1, 2), Some(2));
    assert_eq!(parse_u8(&chars, 0, 0), None);
    assert_eq!(parse_u8(&chars, 0, 3), None);
    assert_eq!(parse_u8(&chars, 3, 7), None);
    let big: Vec<char> = "256".chars().collect();
    assert_eq!(parse_u8(&big, 0, 3), None);
    assert_eq!(parse_u8(&big, 0, 2), Some(25));
}

#[test]
fn chars_of_gives_the_characters_in_order() {
    assert_eq!(chars_of("4d8"), vec!['4', 'd', '8']);
    assert_eq!(chars_of(""), Vec::<char>::new());
    assert_eq!(chars_of("1d\u{ff16}"), vec!['1', 'd', '\u{ff16}']);
}
