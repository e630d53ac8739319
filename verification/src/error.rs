//! The failures that building a set of dice can report.
use vstd::prelude::*;

verus! {

/// Why a die or a notation token was not added to a set.
#[derive(Debug, Clone, Copy, PartialEq, Eq, Structural)]
pub enum DiceError {
    /// The token does not hold exactly one separator (`d` or `D`).
    MalformedToken,
    /// What stands left of the separator is not a decimal number from 0 to 255.
    NonIntegerCount,
    /// What stands right of the separator is not a decimal number from 0 to 255.
    NonIntegerSides,
    /// The set already holds the largest number of dice it may hold.
    CapacityExceeded,
}

impl DiceError {
    /// The text of the message that belongs to each failure.
    pub open spec fn message_text(self) -> Seq<char> {
        match self {
            DiceError::MalformedToken => "Argument malformed, too many characters"@,
            DiceError::NonIntegerCount => "Argument malformed, left side of separator is not an int"@,
            DiceError::NonIntegerSides => "Argument malformed, right side of separator is not an int"@,
            DiceError::CapacityExceeded => "Maximum amount of dice reached"@,
        }
    }

    /// A human-readable message for the failure.
    pub fn message(&self) -> (text: &'static str)
        ensures
            text@ == self.message_text(),
    {
        match self {
            DiceError::MalformedToken => "Argument malformed, too many characters",
            DiceError::NonIntegerCount => "Argument malformed, left side of separator is not an int",
            DiceError::NonIntegerSides => "Argument malformed, right side of separator is not an int",
            DiceError::CapacityExceeded => "Maximum amount of dice reached",
        }
    }
}

} // verus!
