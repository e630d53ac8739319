//! Polyhedral dice: single dice, capacity-bounded sets of dice, the compact
//! `<count>d<sides>` notation, and aggregate rolls.
//!
//! Every function is verified against a mathematical model: a set of dice is
//! a sequence of dice, a notation token is a sequence of characters, and a
//! roll is any outcome in which each die shows a face between one and its
//! number of sides.
//!
//! Adding a batch of tokens is not all-or-nothing: the first token that
//! fails ends the work and the dice added before it stay in the set. Only
//! the addition of a single die is atomic.
//!
//! A die without sides can be held in a set but not rolled: `Die::new`
//! refuses to build one, and `Dice::can_roll` tells whether a set is free
//! of them.
pub mod dice;
pub mod die;
pub mod error;
pub mod notation;

pub use dice::{Dice, MAX_NUMBER_DICE};
pub use die::Die;
pub use error::DiceError;
