//! A capacity-bounded set of dice.
//!
//! The model of a set is the sequence of its dice, in the order in which
//! they were added. The set only grows, one die at a time, and never beyond
//! `MAX_NUMBER_DICE`.
use crate::die::Die;
use crate::error::DiceError;
use crate::notation::{parse, parse_spec};
use vstd::prelude::*;

verus! {

/// The largest number of dice a set may hold.
///
/// A roll is summed in a `u32` and one die contributes at most 255, so this
/// is the largest number of dice whose sum can never overflow:
/// `u32::MAX / u8::MAX`.
pub const MAX_NUMBER_DICE: usize = 0xFFFF_FFFF / 0xFF;

/// A set of dice, in the order in which they were added.
#[derive(Debug, PartialEq, Eq)]
pub struct Dice {
    pub dice: Vec<Die>,
}

impl View for Dice {
    type V = Seq<Die>;

    open spec fn view(&self) -> Seq<Die> {
        self.dice@
    }
}

/// `count` dice of `sides` sides each.
pub open spec fn repeat_die(sides: u8, count: nat) -> Seq<Die> {
    Seq::new(count, |i: int| Die { number_sides: sides })
}

/// How many more dice a set that holds `dice` can take.
pub open spec fn room(dice: Seq<Die>) -> nat {
    if dice.len() >= MAX_NUMBER_DICE {
        0
    } else {
        (MAX_NUMBER_DICE - dice.len()) as nat
    }
}

/// The characters of each token.
pub open spec fn tokens_of(args: Seq<&str>) -> Seq<Seq<char>> {
    Seq::new(args.len(), |i: int| args[i]@)
}

/// What adding one token does to a set that holds `dice`: the dice held
/// afterwards, and whether the token was added in full.
///
/// A token that cannot be read adds nothing. One that asks for more dice
/// than there is room for adds as many as fit and then fails.
pub open spec fn add_token_spec(dice: Seq<Die>, token: Seq<char>) -> (Seq<Die>, Result<
    (),
    DiceError,
>) {
    match parse_spec(token) {
        Err(e) => (dice, Err(e)),
        Ok((count, sides)) => if count <= room(dice) {
            (dice + repeat_die(sides, count as nat), Ok(()))
        } else {
            (dice + repeat_die(sides, room(dice)), Err(DiceError::CapacityExceeded))
        },
    }
}

/// What adding `tokens` in order does to a set that holds `dice`: the dice
/// held afterwards, and the first failure if there was one.
///
/// The first token that fails ends the work; what was added before it stays.
pub open spec fn add_dice_spec(dice: Seq<Die>, tokens: Seq<Seq<char>>) -> (Seq<Die>, Result<
    (),
    DiceError,
>)
    decreases tokens.len(),
{
    if tokens.len() == 0 {
        (dice, Ok(()))
    } else {
        let step = add_token_spec(dice, tokens[0]);
        if step.1 is Err {
            step
        } else {
            add_dice_spec(step.0, tokens.drop_first())
        }
    }
}

/// What adding one die does to a set that holds `dice`: the dice held
/// afterwards, and whether the die was added.
pub open spec fn add_die_spec(dice: Seq<Die>, die: Die) -> (Seq<Die>, Result<(), DiceError>) {
    if dice.len() < MAX_NUMBER_DICE {
        (dice.push(die), Ok(()))
    } else {
        (dice, Err(DiceError::CapacityExceeded))
    }
}

/// The dice held after offering each of `dies` in order to a set that holds
/// `dice`, whether or not each was accepted.
pub open spec fn add_each_spec(dice: Seq<Die>, dies: Seq<Die>) -> Seq<Die>
    decreases dies.len(),
{
    if dies.len() == 0 {
        dice
    } else {
        add_each_spec(add_die_spec(dice, dies[0]).0, dies.drop_first())
    }
}

/// The dice that a token asks for; none if it cannot be read.
pub open spec fn expand_token(token: Seq<char>) -> Seq<Die> {
    match parse_spec(token) {
        Ok((count, sides)) => repeat_die(sides, count as nat),
        Err(_) => Seq::empty(),
    }
}

/// The dice that `tokens` ask for, token after token.
pub open spec fn expand_tokens(tokens: Seq<Seq<char>>) -> Seq<Die>
    decreases tokens.len(),
{
    if tokens.len() == 0 {
        Seq::empty()
    } else {
        expand_token(tokens[0]) + expand_tokens(tokens.drop_first())
    }
}

/// The number of dice that a token asks for; zero if it cannot be read.
pub open spec fn count_of(token: Seq<char>) -> nat {
    match parse_spec(token) {
        Ok((count, _)) => count as nat,
        Err(_) => 0,
    }
}

/// The number of dice that `tokens` ask for in all.
pub open spec fn total_count(tokens: Seq<Seq<char>>) -> nat
    decreases tokens.len(),
{
    if tokens.len() == 0 {
        0
    } else {
        count_of(tokens[0]) + total_count(tokens.drop_first())
    }
}

/// Whether every token can be read.
pub open spec fn all_parse(tokens: Seq<Seq<char>>) -> bool {
    forall|i: int| 0 <= i < tokens.len() ==> parse_spec(#[trigger] tokens[i]) is Ok
}

/// Whether `faces` is a possible result of rolling each of `dice` once:
/// one face per die, each between one and the die's number of sides.
pub open spec fn is_outcome(faces: Seq<u8>, dice: Seq<Die>) -> bool {
    &&& faces.len() == dice.len()
    &&& forall|i: int| 0 <= i < dice.len() ==> (#[trigger] dice[i]).shows(faces[i])
}

/// The sum of the faces shown.
pub open spec fn sum_faces(faces: Seq<u8>) -> nat
    decreases faces.len(),
{
    if faces.len() == 0 {
        0
    } else {
        sum_faces(faces.drop_last()) + faces.last() as nat
    }
}

/// The sum of the numbers of sides: the largest total the dice can show.
pub open spec fn sum_sides(dice: Seq<Die>) -> nat
    decreases dice.len(),
{
    if dice.len() == 0 {
        0
    } else {
        sum_sides(dice.drop_last()) + dice.last().number_sides as nat
    }
}

impl Default for Dice {
    /// The empty set.
    fn default() -> (set: Dice)
        ensures
            set@ == Seq::<Die>::empty(),
    {
        Dice { dice: Vec::new() }
    }
}

impl Dice {
    /// The capacity invariant: the set holds at most `MAX_NUMBER_DICE` dice.
    pub open spec fn wf(&self) -> bool {
        self@.len() <= MAX_NUMBER_DICE
    }

    /// Whether the set can be rolled: it respects its capacity and each of
    /// its dice has at least one side.
    pub open spec fn rollable(&self) -> bool {
        &&& self.wf()
        &&& forall|i: int| 0 <= i < self@.len() ==> (#[trigger] self@[i]).wf()
    }

    /// Adds a die to the current set of dice.
    ///
    /// Fails, and leaves the set as it was, when the set is full.
    pub fn add_die(&mut self, die: Die) -> (added: Result<(), DiceError>)
        ensures
            (final(self)@, added) == add_die_spec(old(self)@, die),
            old(self)@.len() < MAX_NUMBER_DICE ==> added is Ok && final(self)@ == old(self)@.push(
                die,
            ),
            old(self)@.len() >= MAX_NUMBER_DICE ==> added == Err::<(), DiceError>(
                DiceError::CapacityExceeded,
            ) && final(self)@ == old(self)@,
            old(self).wf() ==> final(self).wf(),
    {
        if self.dice.len() < MAX_NUMBER_DICE {
            self.dice.push(die);
        } else {
            return Err(DiceError::CapacityExceeded);
        }
        Ok(())
    }

    /// Parses argument and returns a tuple with the number of dice of a specific type.
    pub fn parse_add_args(arg: &str) -> (parsed: Result<(u8, u8), DiceError>)
        ensures
            parsed == parse_spec(arg@),
    {
        parse(arg)
    }

    /// Adds `count` dice of `sides` sides, one by one, until the set is full.
    fn add_copies(&mut self, count: u8, sides: u8) -> (added: Result<(), DiceError>)
        ensures
            count <= room(old(self)@) ==> added is Ok && final(self)@ == old(self)@ + repeat_die(
                sides,
                count as nat,
            ),
            count > room(old(self)@) ==> added == Err::<(), DiceError>(
                DiceError::CapacityExceeded,
            ) && final(self)@ == old(self)@ + repeat_die(sides, room(old(self)@)),
    {
        let ghost start = self@;
        let mut j: u8 = 0;
        while j < count
            invariant
                start == old(self)@,
                j <= count,
                j <= room(start),
                self@ =~= start + repeat_die(sides, j as nat),
            decreases count - j,
        {
            match self.add_die(Die { number_sides: sides }) {
                Err(e) => {
                    assert(j == room(start));
                    return Err(e);
                },
                Ok(()) => {},
            }
            j += 1;
        }
        Ok(())
    }

    /// Adds multiple dice to the dice set.
    ///
    /// Each token is read as `<count>d<sides>` and adds `count` dice of
    /// `sides` sides. The first token that cannot be read, or that does not
    /// fit, ends the work with its failure; the dice added before it stay in
    /// the set.
    pub fn add_dice(&mut self, args: &[&str]) -> (added: Result<(), DiceError>)
        ensures
            (final(self)@, added) == add_dice_spec(old(self)@, tokens_of(args@)),
            old(self)@.is_prefix_of(final(self)@),
            old(self).wf() ==> final(self).wf(),
            added is Ok ==> final(self)@ == old(self)@ + expand_tokens(tokens_of(args@)),
            added is Ok ==> final(self)@.len() == old(self)@.len() + total_count(
                tokens_of(args@),
            ),
            old(self).wf() ==> (added is Ok <==> all_parse(tokens_of(args@)) && old(self)@.len()
                + total_count(tokens_of(args@)) <= MAX_NUMBER_DICE),
    {
        proof {
            let tokens = tokens_of(args@);
            lemma_add_dice_grows(self@, tokens);
            if add_dice_spec(self@, tokens).1 is Ok {
                lemma_add_dice_ok(self@, tokens);
            }
            if self.wf() {
                lemma_add_dice_succeeds_iff(self@, tokens);
            }
        }
        let ghost start = self@;
        let ghost tokens = tokens_of(args@);
        let mut i: usize = 0;
        assert(tokens.skip(0) =~= tokens);
        while i < args.len()
            invariant
                start == old(self)@,
                i <= args@.len(),
                tokens == tokens_of(args@),
                add_dice_spec(start, tokens) == add_dice_spec(self@, tokens.skip(i as int)),
                start.is_prefix_of(add_dice_spec(start, tokens).0),
                start.len() <= MAX_NUMBER_DICE ==> add_dice_spec(start, tokens).0.len()
                    <= MAX_NUMBER_DICE,
                add_dice_spec(start, tokens).1 is Ok ==> add_dice_spec(start, tokens).0 == start
                    + expand_tokens(tokens) && expand_tokens(tokens).len() == total_count(tokens),
                start.len() <= MAX_NUMBER_DICE ==> (add_dice_spec(start, tokens).1 is Ok
                    <==> all_parse(tokens) && start.len() + total_count(tokens)
                    <= MAX_NUMBER_DICE),
            decreases args@.len() - i,
        {
            let ghost rest = tokens.skip(i as int);
            assert(rest[0] == args@[i as int]@);
            assert(rest.drop_first() =~= tokens.skip(i + 1));
            let dice_args = match Dice::parse_add_args(args[i]) {
                Err(e) => {
                    return Err(e);
                },
                Ok(dice_args) => dice_args,
            };
            match self.add_copies(dice_args.0, dice_args.1) {
                Err(e) => {
                    return Err(e);
                },
                Ok(()) => {},
            }
            i += 1;
        }
        Ok(())
    }

    /// Whether the set can be rolled.
    pub fn can_roll(&self) -> (ok: bool)
        ensures
            ok == self.rollable(),
    {
        if self.dice.len() > MAX_NUMBER_DICE {
            return false;
        }
        let mut i: usize = 0;
        while i < self.dice.len()
            invariant
                i <= self@.len(),
                forall|k: int| 0 <= k < i ==> (#[trigger] self@[k]).wf(),
            decreases self@.len() - i,
        {
            if self.dice[i].number_sides == 0 {
                assert(!self@[i as int].wf());
                return false;
            }
            i += 1;
        }
        true
    }

    /// The total that the set shows when its dice show `faces`, one face per
    /// die in the order of the set.
    ///
    /// Gives nothing when the set breaks its capacity or `faces` is not a
    /// possible result of rolling it.
    pub fn total_of(&self, faces: &[u8]) -> (total: Option<u32>)
        ensures
            self.wf() && is_outcome(faces@, self@) ==> total == Some(sum_faces(faces@) as u32)
                && sum_faces(faces@) <= u32::MAX,
            !(self.wf() && is_outcome(faces@, self@)) ==> total is None,
    {
        if self.dice.len() > MAX_NUMBER_DICE || faces.len() != self.dice.len() {
            return None;
        }
        let mut sum: u32 = 0;
        let mut i: usize = 0;
        while i < faces.len()
            invariant
                i <= faces@.len() == self@.len() <= MAX_NUMBER_DICE,
                is_outcome(faces@.take(i as int), self@.take(i as int)),
                sum == sum_faces(faces@.take(i as int)),
                sum <= 255 * i,
            decreases faces@.len() - i,
        {
            let face: u8 = faces[i];
            if face < 1 || face > self.dice[i].number_sides {
                assert(!self@[i as int].shows(faces@[i as int]));
                return None;
            }
            proof {
                let next = faces@.take(i + 1);
                assert(next.drop_last() =~= faces@.take(i as int));
                assert(next.last() == face);
            }
            sum = sum + face as u32;
            i += 1;
        }
        assert(faces@.take(i as int) =~= faces@);
        assert(self@.take(i as int) =~= self@);
        Some(sum)
    }

    /// Rolls all dice in the set and returns the sum of the rolls.
    ///
    /// Each die is rolled once, in the order of the set, and the set stays
    /// as it was. The total is the sum of some possible result of rolling
    /// the dice, so it lies between the number of dice and the sum of their
    /// sides; the empty set rolls zero.
    pub fn roll_dice(&mut self) -> (total: u32)
        requires
            old(self).rollable(),
        ensures
            final(self)@ == old(self)@,
            exists|faces: Seq<u8>| is_outcome(faces, old(self)@) && total == sum_faces(faces),
            old(self)@.len() <= total <= sum_sides(old(self)@),
            old(self)@.len() == 0 ==> total == 0,
    {
        let mut roll_result: u32 = 0;
        let ghost mut faces: Seq<u8> = Seq::empty();
        let mut i: usize = 0;
        while i < self.dice.len()
            invariant
                self@ == old(self)@,
                self.rollable(),
                i <= self@.len(),
                is_outcome(faces, self@.take(i as int)),
                roll_result == sum_faces(faces),
                roll_result <= 255 * i,
            decreases self@.len() - i,
        {
            let face: u8 = self.dice[i].roll_die();
            proof {
                assert(faces.push(face).drop_last() =~= faces);
                faces = faces.push(face);
            }
            roll_result += face as u32;
            i += 1;
        }
        proof {
            assert(self@.take(i as int) =~= self@);
            lemma_outcome_bounds(faces, self@);
        }
        roll_result
    }
}

/// Offering dice one by one fills the set up to its capacity and no
/// further: the first dice are accepted, as many as there is room for, and
/// every later one is refused and leaves the set as it was.
pub proof fn lemma_add_each_fills(dice: Seq<Die>, dies: Seq<Die>)
    ensures
        add_each_spec(dice, dies) == dice + dies.take(
            if dies.len() <= room(dice) {
                dies.len() as int
            } else {
                room(dice) as int
            },
        ),
        dice.len() + dies.len() <= MAX_NUMBER_DICE ==> add_each_spec(dice, dies) == dice + dies,
        dice.len() == MAX_NUMBER_DICE ==> add_each_spec(dice, dies) == dice,
    decreases dies.len(),
{
    let kept = if dies.len() <= room(dice) {
        dies.len() as int
    } else {
        room(dice) as int
    };
    if dies.len() == 0 {
        assert(dice + dies.take(kept) =~= dice);
    } else {
        let next = add_die_spec(dice, dies[0]).0;
        let rest = dies.drop_first();
        lemma_add_each_fills(next, rest);
        let kept_rest = if rest.len() <= room(next) {
            rest.len() as int
        } else {
            room(next) as int
        };
        assert(next + rest.take(kept_rest) =~= dice + dies.take(kept));
    }
    if dice.len() + dies.len() <= MAX_NUMBER_DICE {
        assert(dies.take(kept) =~= dies);
    }
    if dice.len() == MAX_NUMBER_DICE {
        assert(dice + dies.take(kept) =~= dice);
    }
}

/// Starting from the empty set, as many dice as a set may hold are accepted
/// one after another, each of them; the set then holds exactly these dice,
/// and the next die is refused for want of room and leaves the set as it
/// was.
pub proof fn lemma_fill_then_refuse(dies: Seq<Die>, extra: Die)
    requires
        dies.len() == MAX_NUMBER_DICE,
    ensures
        forall|n: int|
            0 <= n < dies.len() ==> (#[trigger] add_die_spec(
                add_each_spec(Seq::empty(), dies.take(n)),
                dies[n],
            )).1 is Ok,
        add_each_spec(Seq::empty(), dies) == dies,
        add_die_spec(dies, extra) == (dies, Err::<(), DiceError>(DiceError::CapacityExceeded)),
        add_each_spec(Seq::empty(), dies.push(extra)) == dies,
{
    let none = Seq::<Die>::empty();
    assert forall|n: int| 0 <= n < dies.len() implies (#[trigger] add_die_spec(
        add_each_spec(none, dies.take(n)),
        dies[n],
    )).1 is Ok by {
        lemma_add_each_fills(none, dies.take(n));
        assert(none + dies.take(n) =~= dies.take(n));
    }
    lemma_add_each_fills(none, dies);
    assert(none + dies =~= dies);
    lemma_add_each_fills(none, dies.push(extra));
    assert(none + dies.push(extra).take(MAX_NUMBER_DICE as int) =~= dies);
}

/// A set only grows: after adding tokens, with or without a failure, the
/// dice held before still stand first and in order, and a set that
/// respected its capacity still does.
pub proof fn lemma_add_dice_grows(dice: Seq<Die>, tokens: Seq<Seq<char>>)
    ensures
        dice.is_prefix_of(add_dice_spec(dice, tokens).0),
        dice.len() <= MAX_NUMBER_DICE ==> add_dice_spec(dice, tokens).0.len() <= MAX_NUMBER_DICE,
    decreases tokens.len(),
{
    if tokens.len() > 0 {
        let step = add_token_spec(dice, tokens[0]);
        assert(dice.is_prefix_of(step.0));
        if step.1 is Ok {
            lemma_add_dice_grows(step.0, tokens.drop_first());
        }
    }
}

/// When every token is added, the set holds what it held before followed by
/// the dice that the tokens ask for, in order; so its length has grown by
/// the sum of the counts.
pub proof fn lemma_add_dice_ok(dice: Seq<Die>, tokens: Seq<Seq<char>>)
    requires
        add_dice_spec(dice, tokens).1 is Ok,
    ensures
        add_dice_spec(dice, tokens).0 == dice + expand_tokens(tokens),
        add_dice_spec(dice, tokens).0.len() == dice.len() + total_count(tokens),
        expand_tokens(tokens).len() == total_count(tokens),
    decreases tokens.len(),
{
    if tokens.len() == 0 {
        assert(dice + expand_tokens(tokens) =~= dice);
    } else {
        let step = add_token_spec(dice, tokens[0]);
        let rest = tokens.drop_first();
        lemma_add_dice_ok(step.0, rest);
        assert(step.0 + expand_tokens(rest) =~= dice + expand_tokens(tokens));
    }
}

/// A batch is added in full exactly when every token can be read and the
/// dice they ask for fit in what room the set has left.
pub proof fn lemma_add_dice_succeeds_iff(dice: Seq<Die>, tokens: Seq<Seq<char>>)
    requires
        dice.len() <= MAX_NUMBER_DICE,
    ensures
        add_dice_spec(dice, tokens).1 is Ok <==> all_parse(tokens) && dice.len() + total_count(
            tokens,
        ) <= MAX_NUMBER_DICE,
    decreases tokens.len(),
{
    if tokens.len() > 0 {
        let step = add_token_spec(dice, tokens[0]);
        let rest = tokens.drop_first();
        if step.1 is Ok {
            lemma_add_dice_succeeds_iff(step.0, rest);
            if all_parse(rest) {
                assert forall|i: int| 0 <= i < tokens.len() implies parse_spec(
                    #[trigger] tokens[i],
                ) is Ok by {
                    if i > 0 {
                        assert(tokens[i] == rest[i - 1]);
                    }
                }
            }
            if all_parse(tokens) {
                assert forall|i: int| 0 <= i < rest.len() implies parse_spec(
                    #[trigger] rest[i],
                ) is Ok by {
                    assert(rest[i] == tokens[i + 1]);
                }
            }
        } else if parse_spec(tokens[0]) is Ok {
            assert(count_of(tokens[0]) > room(dice));
        }
    }
}

/// Whatever the dice show, the total is at least the number of dice, at
/// most the sum of their sides, and at most 255 for each die.
pub proof fn lemma_outcome_bounds(faces: Seq<u8>, dice: Seq<Die>)
    requires
        is_outcome(faces, dice),
    ensures
        dice.len() <= sum_faces(faces) <= sum_sides(dice) <= 255 * dice.len(),
    decreases dice.len(),
{
    if dice.len() > 0 {
        assert(dice.last().shows(faces.last()));
        lemma_outcome_bounds(faces.drop_last(), dice.drop_last());
    }
}

/// The capacity is exact: the sides of as many dice as a set may hold sum to
/// a total that fits in 32 bits, whereas one die more, all showing 255,
/// would not fit.
pub proof fn lemma_capacity_fits(dice: Seq<Die>)
    requires
        dice.len() <= MAX_NUMBER_DICE,
    ensures
        sum_sides(dice) <= u32::MAX,
        255 * (MAX_NUMBER_DICE + 1) > u32::MAX,
{
    lemma_sides_at_most(dice);
}

/// No die has more than 255 sides, so the sides of `dice` sum to at most
/// 255 for each die.
pub proof fn lemma_sides_at_most(dice: Seq<Die>)
    ensures
        sum_sides(dice) <= 255 * dice.len(),
    decreases dice.len(),
{
    if dice.len() > 0 {
        lemma_sides_at_most(dice.drop_last());
    }
}

} // verus!
