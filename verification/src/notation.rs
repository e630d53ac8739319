//! The compact dice notation `<count>d<sides>`.
//!
//! A token holds exactly one separator, `d` or `D`. Left of it stands the
//! number of dice, right of it the number of sides; each is a non-empty run
//! of the decimal digits `0` to `9` whose value is at most 255.
use crate::error::DiceError;
use vstd::prelude::*;

verus! {

/// Whether `c` separates the count from the sides.
pub open spec fn is_separator(c: char) -> bool {
    c == 'd' || c == 'D'
}

/// Whether `c` is one of the decimal digits `0` to `9`.
pub open spec fn is_digit(c: char) -> bool {
    '0' as u32 <= c as u32 <= '9' as u32
}

/// The value of a decimal digit.
pub open spec fn digit_value(c: char) -> nat
    recommends
        is_digit(c),
{
    (c as u32 - '0' as u32) as nat
}

/// The number that a run of decimal digits writes, most significant first.
pub open spec fn decimal_value(digits: Seq<char>) -> nat
    decreases digits.len(),
{
    if digits.len() == 0 {
        0
    } else {
        decimal_value(digits.drop_last()) * 10 + digit_value(digits.last())
    }
}

/// Whether every character of `s` is a decimal digit.
pub open spec fn all_digits(s: Seq<char>) -> bool {
    forall|i: int| 0 <= i < s.len() ==> is_digit(#[trigger] s[i])
}

/// The 8-bit number that `s` writes: `s` is a non-empty run of decimal
/// digits and its value is at most 255. Leading zeros are allowed; a sign
/// is not.
pub open spec fn parse_u8_spec(s: Seq<char>) -> Option<u8> {
    if s.len() > 0 && all_digits(s) && decimal_value(s) <= 255 {
        Some(decimal_value(s) as u8)
    } else {
        None
    }
}

/// Whether position `k` of `token` holds the token's only separator.
pub open spec fn splits_at(token: Seq<char>, k: int) -> bool {
    &&& 0 <= k < token.len()
    &&& is_separator(token[k])
    &&& forall|j: int| 0 <= j < token.len() && j != k ==> !is_separator(#[trigger] token[j])
}

/// Whether `token` holds exactly one separator.
pub open spec fn has_one_separator(token: Seq<char>) -> bool {
    exists|k: int| splits_at(token, k)
}

/// The position of the only separator of a token that has exactly one.
pub open spec fn separator_position(token: Seq<char>) -> int
    recommends
        has_one_separator(token),
{
    choose|k: int| splits_at(token, k)
}

/// What a token made of `left`, one separator and `right` stands for.
///
/// The count is judged before the sides.
pub open spec fn parse_parts_spec(left: Seq<char>, right: Seq<char>) -> Result<
    (u8, u8),
    DiceError,
> {
    match parse_u8_spec(left) {
        None => Err(DiceError::NonIntegerCount),
        Some(count) => match parse_u8_spec(right) {
            None => Err(DiceError::NonIntegerSides),
            Some(sides) => Ok((count, sides)),
        },
    }
}

/// What a token stands for: the number of dice and their number of sides,
/// or the reason why it stands for nothing.
///
/// A token without a separator, or with more than one, is malformed whatever
/// else it holds. An empty part on either side of the only separator is not
/// a number.
pub open spec fn parse_spec(token: Seq<char>) -> Result<(u8, u8), DiceError> {
    if !has_one_separator(token) {
        Err(DiceError::MalformedToken)
    } else {
        let k = separator_position(token);
        parse_parts_spec(token.subrange(0, k), token.subrange(k + 1, token.len() as int))
    }
}

/// The separator of a token with exactly one separator is where
/// `separator_position` says.
pub proof fn lemma_separator_unique(token: Seq<char>, k: int)
    requires
        splits_at(token, k),
    ensures
        has_one_separator(token),
        separator_position(token) == k,
{
    let chosen = separator_position(token);
    assert(splits_at(token, chosen));
    if chosen != k {
        assert(!is_separator(token[chosen]));
    }
}

/// A token put together from a count, one separator and a number of sides
/// stands for what its two parts stand for, whichever of `d` and `D`
/// separates them.
pub proof fn lemma_parse_joined(left: Seq<char>, separator: char, right: Seq<char>)
    requires
        is_separator(separator),
        forall|i: int| 0 <= i < left.len() ==> !is_separator(#[trigger] left[i]),
        forall|i: int| 0 <= i < right.len() ==> !is_separator(#[trigger] right[i]),
    ensures
        parse_spec(left + seq![separator] + right) == parse_parts_spec(left, right),
{
    let token = left + seq![separator] + right;
    let k = left.len() as int;
    assert(token[k] == separator);
    assert forall|j: int| 0 <= j < token.len() && j != k implies !is_separator(
        #[trigger] token[j],
    ) by {
        if j < k {
            assert(token[j] == left[j]);
        } else {
            assert(token[j] == right[j - k - 1]);
        }
    }
    lemma_separator_unique(token, k);
    assert(token.subrange(0, k) =~= left);
    assert(token.subrange(k + 1, token.len() as int) =~= right);
}

/// A token without a separator is malformed, and so is one with two or
/// more, whatever else it holds.
pub proof fn lemma_parse_malformed(token: Seq<char>)
    ensures
        (forall|i: int| 0 <= i < token.len() ==> !is_separator(#[trigger] token[i]))
            ==> parse_spec(token) == Err::<(u8, u8), DiceError>(DiceError::MalformedToken),
        (exists|a: int, b: int|
            0 <= a < b < token.len() && is_separator(#[trigger] token[a]) && is_separator(
                #[trigger] token[b],
            )) ==> parse_spec(token) == Err::<(u8, u8), DiceError>(DiceError::MalformedToken),
{
    if has_one_separator(token) {
        let k = separator_position(token);
        assert(splits_at(token, k));
        assert(is_separator(token[k]));
        assert forall|a: int, b: int|
            0 <= a < b < token.len() && is_separator(#[trigger] token[a]) implies !is_separator(
            #[trigger] token[b],
        ) by {
            if a != k {
                assert(!is_separator(token[a]));
            }
        }
    }
}

/// The characters of a string, in order.
pub fn chars_of(s: &str) -> (chars: Vec<char>)
    ensures
        chars@ == s@,
{
    broadcast use vstd::string::group_string_axioms;

    let mut chars: Vec<char> = Vec::new();
    for c in iter: s.chars()
        invariant
            iter.seq() == s@,
            chars@ =~= s@.take(iter.index() as int),
    {
        chars.push(c);
    }
    chars
}

/// Reads the characters of `chars` from position `from` up to, not
/// including, position `to` as an 8-bit decimal number.
pub fn parse_u8(chars: &Vec<char>, from: usize, to: usize) -> (value: Option<u8>)
    requires
        from <= to <= chars@.len(),
    ensures
        value == parse_u8_spec(chars@.subrange(from as int, to as int)),
{
    let ghost part = chars@.subrange(from as int, to as int);
    // The value read so far, or 256 once it has passed 255.
    let mut acc: u32 = 0;
    let mut i: usize = from;
    while i < to
        invariant
            from <= i <= to <= chars@.len(),
            part == chars@.subrange(from as int, to as int),
            all_digits(chars@.subrange(from as int, i as int)),
            acc <= 256,
            acc == if decimal_value(chars@.subrange(from as int, i as int)) <= 255 {
                decimal_value(chars@.subrange(from as int, i as int))
            } else {
                256
            },
        decreases to - i,
    {
        let c: char = chars[i];
        let code: u32 = c as u32;
        if code < 48 || code > 57 {
            assert(!is_digit(part[i - from]));
            return None;
        }
        let digit: u32 = code - 48;
        proof {
            let before = chars@.subrange(from as int, i as int);
            let after = chars@.subrange(from as int, i + 1);
            assert(after.drop_last() =~= before);
            assert(after.last() == chars@[i as int]);
            assert(is_digit(chars@[i as int]));
            assert forall|j: int| 0 <= j < after.len() implies is_digit(#[trigger] after[j]) by {
                if j < before.len() {
                    assert(after[j] == before[j]);
                }
            }
            assert(digit_value(chars@[i as int]) == digit);
            assert(decimal_value(after) == decimal_value(before) * 10 + digit);
        }
        acc = if acc * 10 + digit > 255 {
            256
        } else {
            acc * 10 + digit
        };
        i += 1;
    }
    assert(chars@.subrange(from as int, i as int) == part);
    if from == to || acc > 255 {
        None
    } else {
        Some(acc as u8)
    }
}

/// Reads one notation token: the number of dice and their number of sides.
///
/// `"4d8"` gives `(4, 8)`; the separator may be `d` or `D`.
pub fn parse(token: &str) -> (parsed: Result<(u8, u8), DiceError>)
    ensures
        parsed == parse_spec(token@),
{
    let chars = chars_of(token);
    let n: usize = chars.len();
    let mut separator: Option<usize> = None;
    let mut i: usize = 0;
    while i < n
        invariant
            i <= n == chars@.len(),
            chars@ == token@,
            match separator {
                None => forall|j: int| 0 <= j < i ==> !is_separator(#[trigger] chars@[j]),
                Some(k) => k < i && is_separator(chars@[k as int]) && forall|j: int|
                    0 <= j < i && j != k ==> !is_separator(#[trigger] chars@[j]),
            },
        decreases n - i,
    {
        let c: char = chars[i];
        if c == 'd' || c == 'D' {
            if let Some(k) = separator {
                assert forall|p: int| !splits_at(chars@, p) by {
                    if splits_at(chars@, p) {
                        if p == k {
                            assert(!is_separator(chars@[i as int]));
                        } else {
                            assert(!is_separator(chars@[k as int]));
                        }
                    }
                }
                return Err(DiceError::MalformedToken);
            }
            separator = Some(i);
        }
        i += 1;
    }
    match separator {
        None => {
            assert forall|p: int| !splits_at(chars@, p) by {
                if splits_at(chars@, p) {
                    assert(!is_separator(chars@[p]));
                }
            }
            Err(DiceError::MalformedToken)
        },
        Some(k) => {
            proof {
                lemma_separator_unique(chars@, k as int);
            }
            match parse_u8(&chars, 0, k) {
                None => Err(DiceError::NonIntegerCount),
                Some(count) => match parse_u8(&chars, k + 1, n) {
                    None => Err(DiceError::NonIntegerSides),
                    Some(sides) => Ok((count, sides)),
                },
            }
        },
    }
}

} // verus!
