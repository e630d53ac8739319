//! A single die and its roll.
use rand::distributions::Uniform;
use rand::Rng;
use vstd::prelude::*;

verus! {

/// A single die characterized by its number of sides.
///
/// The maximum number of sides is 255. A die that can be rolled has at least
/// one side.
#[derive(Debug, Clone, Copy, PartialEq, Eq, Structural)]
pub struct Die {
    pub number_sides: u8,
}

/// Draws one value from `low..=high`: the first item that
/// `Rng::sample_iter` yields for `rand::thread_rng()` and
/// `Uniform::new_inclusive(low, high)`.
///
/// Trusted, not proved: the value lies between `low` and `high`, both
/// included. Which value it is depends on the thread's generator, so nothing
/// more is claimed; in particular not that the draw is uniform.
/// `Uniform::new_inclusive` panics when `low > high`, which the precondition
/// rules out, and the iterator never ends, so there is always a first item.
#[verifier::external_body]
fn sample_inclusive(low: u8, high: u8) -> (value: u8)
    requires
        low <= high,
    ensures
        low <= value <= high,
{
    let rng = rand::thread_rng();
    let die_range = Uniform::new_inclusive(low, high);
    let mut samples = rng.sample_iter(&die_range);
    samples.next().unwrap()
}

impl Die {
    /// A die can be rolled when it has at least one side.
    pub open spec fn wf(self) -> bool {
        self.number_sides >= 1
    }

    /// Whether `face` is a face that this die can show.
    pub open spec fn shows(self, face: u8) -> bool {
        1 <= face <= self.number_sides
    }

    /// A die with the given number of sides, or nothing for zero sides.
    pub fn new(number_sides: u8) -> (die: Option<Die>)
        ensures
            number_sides == 0 ==> die is None,
            number_sides >= 1 ==> die is Some && die->0.number_sides == number_sides,
    {
        if number_sides == 0 {
            None
        } else {
            Some(Die { number_sides })
        }
    }

    /// Rolls a die once.
    ///
    /// The face shown is drawn uniformly at random; the contract states what
    /// holds of every draw.
    pub fn roll_die(&self) -> (face: u8)
        requires
            self.wf(),
        ensures
            self.shows(face),
    {
        sample_inclusive(1, self.number_sides)
    }
}

} // verus!
