use dice_roller::{Dice, DiceError, Die, MAX_NUMBER_DICE};

#[test]
fn add_die() {
    let die = Die { number_sides: 6 };
    let mut dice: Dice = Default::default();
    dice.add_die(die).unwrap();
    assert_eq!(dice.dice[0], Die { number_sides: 6 });
}

#[test]
fn add_dice() {
    let args = ["1d6", "2D3", "3d100"];
    let mut dice: Dice = Default::default();
    dice.add_dice(&args).unwrap();
    assert_eq!(dice.dice[0], Die { number_sides: 6 });
    assert_eq!(dice.dice[1], Die { number_sides: 3 });
    assert_eq!(dice.dice[2], Die { number_sides: 3 });
    assert_eq!(dice.dice[3], Die { number_sides: 100 });
    assert_eq!(dice.dice[4], Die { number_sides: 100 });
    assert_eq!(dice.dice[5], Die { number_sides: 100 });
}

#[test]
#[should_panic(expected = "Argument malformed, left side of separator is not an int")]
fn add_dice_not_int_first_argument() {
    let not_first_int = ["ad6"];
    let mut dice: Dice = Default::default();
    dice.add_dice(&not_first_int).map_err(|e| e.message()).unwrap();
}

#[test]
#[should_panic(expected = "Argument malformed, right side of separator is not an int")]
fn add_dice_not_int_second_argument() {
    let not_second_int = ["1da"];
    let mut dice: Dice = Default::default();
    dice.add_dice(&not_second_int).map_err(|e| e.message()).unwrap();
}

#[test]
#[should_panic(expected = "Argument malformed, too many characters")]
fn add_dice_too_many_arguments() {
    let too_many_args = ["1d6d"];
    let mut dice: Dice = Default::default();
    dice.add_dice(&too_many_args).map_err(|e| e.message()).unwrap();
}

#[test]
fn default_set_is_empty() {
    let dice: Dice = Default::default();
    assert_eq!(dice.dice.len(), 0);
    assert!(dice.can_roll());
}

#[test]
fn capacity_is_u32_max_over_u8_max() {
    assert_eq!(MAX_NUMBER_DICE, 16_843_009);
    assert_eq!(MAX_NUMBER_DICE, u32::MAX as usize / u8::MAX as usize);
    assert!(MAX_NUMBER_DICE as u64 * 255 <= u32::MAX as u64);
    assert!((MAX_NUMBER_DICE as u64 + 1) * 255 > u32::MAX as u64);
}

#[test]
fn add_die_keeps_order() {
    let mut dice: Dice = Default::default();
    assert_eq!(dice.add_die(Die { number_sides: 6 }), Ok(()));
    assert_eq!(dice.add_die(Die { number_sides: 10 }), Ok(()));
    assert_eq!(dice.add_die(Die { number_sides: 6 }), Ok(()));
    assert_eq!(
        dice.dice,
        vec![
            Die { number_sides: 6 },
            Die { number_sides: 10 },
            Die { number_sides: 6 }
        ]
    );
}

#[test]
fn add_die_fills_to_capacity_and_no_further() {
    let mut dice: Dice = Default::default();
    for _ in 0..MAX_NUMBER_DICE {
        assert_eq!(dice.add_die(Die { number_sides: 255 }), Ok(()));
    }
    assert_eq!(dice.dice.len(), MAX_NUMBER_DICE);
    assert_eq!(
        dice.add_die(Die { number_sides: 4 }),
        Err(DiceError::CapacityExceeded)
    );
    assert_eq!(dice.dice.len(), MAX_NUMBER_DICE);
    assert_eq!(dice.dice[MAX_NUMBER_DICE - 1], Die { number_sides: 255 });
    assert!(dice.can_roll());
}

#[test]
fn add_dice_length_is_sum_of_counts() {
    let mut dice: Dice = Default::default();
    dice.add_dice(&["1d6", "4d8", "2d10"]).unwrap();
    assert_eq!(dice.dice.len(), 7);
    dice.add_dice(&["255d2", "0d9", "3D4"]).unwrap();
    assert_eq!(dice.dice.len(), 7 + 255 + 0 + 3);
}

#[test]
fn add_dice_of_nothing_adds_nothing() {
    let mut dice: Dice = Default::default();
    let none: [&str; 0] = [];
    assert_eq!(dice.add_dice(&none), Ok(()));
    assert_eq!(dice.dice.len(), 0);
}

#[test]
fn add_dice_zero_count_is_a_no_op() {
    let mut dice: Dice = Default::default();
    assert_eq!(dice.add_dice(&["0d6"]), Ok(()));
    assert_eq!(dice.dice.len(), 0);
}

#[test]
fn add_dice_contents_in_order() {
    let mut dice: Dice = Default::default();
    dice.add_dice(&["1d6", "2D3", "3d100"]).unwrap();
    let sides: Vec<u8> = dice.dice.iter().map(|d| d.number_sides).collect();
    assert_eq!(sides, vec![6, 3, 3, 100, 100, 100]);
}

#[test]
fn add_dice_stops_at_first_bad_token_and_keeps_earlier_dice() {
    let mut dice: Dice = Default::default();
    assert_eq!(
        dice.add_dice(&["2d6", "xd4", "1d8"]),
        Err(DiceError::NonIntegerCount)
    );
    assert_eq!(
        dice.dice,
        vec![Die { number_sides: 6 }, Die { number_sides: 6 }]
    );

    let mut dice: Dice = Default::default();
    assert_eq!(
        dice.add_dice(&["1d4", "3d", "1d8"]),
        Err(DiceError::NonIntegerSides)
    );
    assert_eq!(dice.dice, vec![Die { number_sides: 4 }]);

    let mut dice: Dice = Default::default();
    assert_eq!(
        dice.add_dice(&["1d4", "1d8", "12"]),
        Err(DiceError::MalformedToken)
    );
    assert_eq!(dice.dice.len(), 2);
}

#[test]
fn add_dice_adds_what_fits_then_reports_capacity() {
    let mut dice = Dice {
        dice: vec![Die { number_sides: 2 }; MAX_NUMBER_DICE - 3],
    };
    assert_eq!(
        dice.add_dice(&["2d6", "5d8", "1d4"]),
        Err(DiceError::CapacityExceeded)
    );
    assert_eq!(dice.dice.len(), MAX_NUMBER_DICE);
    assert_eq!(dice.dice[MAX_NUMBER_DICE - 4], Die { number_sides: 2 });
    assert_eq!(dice.dice[MAX_NUMBER_DICE - 3], Die { number_sides: 6 });
    assert_eq!(dice.dice[MAX_NUMBER_DICE - 2], Die { number_sides: 6 });
    assert_eq!(dice.dice[MAX_NUMBER_DICE - 1], Die { number_sides: 8 });
    // A full set still takes a token that asks for no dice.
    assert_eq!(dice.add_dice(&["0d6"]), Ok(()));
    assert_eq!(dice.add_dice(&["1d6"]), Err(DiceError::CapacityExceeded));
    assert_eq!(dice.dice.len(), MAX_NUMBER_DICE);
}

#[test]
fn error_messages() {
    assert_eq!(
        DiceError::CapacityExceeded.message(),
        "Maximum amount of dice reached"
    );
    assert_eq!(
        DiceError::MalformedToken.message(),
        "Argument malformed, too many characters"
    );
    assert_eq!(
        DiceError::NonIntegerCount.message(),
        "Argument malformed, left side of separator is not an int"
    );
    assert_eq!(
        DiceError::NonIntegerSides.message(),
        "Argument malformed, right side of separator is not an int"
    );
}
