//! Decimal numerals: printing and reading integers.
use vstd::prelude::*;

verus! {

/// The decimal digit for a number below ten.
pub open spec fn digit_char(digit: nat) -> char {
    if digit == 0 {
        '0'
    } else if digit == 1 {
        '1'
    } else if digit == 2 {
        '2'
    } else if digit == 3 {
        '3'
    } else if digit == 4 {
        '4'
    } else if digit == 5 {
        '5'
    } else if digit == 6 {
        '6'
    } else if digit == 7 {
        '7'
    } else if digit == 8 {
        '8'
    } else {
        '9'
    }
}

/// The decimal digits of a natural number, without leading zeros.
pub open spec fn digits(number: nat) -> Seq<char>
    decreases number,
{
    if number < 10 {
        seq![digit_char(number)]
    } else {
        digits(number / 10).push(digit_char(number % 10))
    }
}

/// The decimal numeral of an integer: its digits, after a minus sign if it is
/// negative.
pub open spec fn numeral(number: int) -> Seq<char> {
    if number < 0 {
        seq!['-'] + digits((-number) as nat)
    } else {
        digits(number as nat)
    }
}

/// A decimal digit.
pub open spec fn is_digit(ch: char) -> bool {
    '0' <= ch <= '9'
}

/// The value of a decimal digit.
pub open spec fn digit_value(ch: char) -> nat {
    (ch as nat - '0' as nat) as nat
}

/// A run of decimal digits, at least one.
pub open spec fn all_digits(text: Seq<char>) -> bool {
    text.len() > 0 && forall|k: int| 0 <= k < text.len() ==> is_digit(#[trigger] text[k])
}

/// The number that a run of decimal digits spells.
pub open spec fn digits_value(text: Seq<char>) -> nat
    decreases text.len(),
{
    if text.len() == 0 {
        0
    } else {
        10 * digits_value(text.drop_last()) + digit_value(text.last())
    }
}

/// The integer that `text` spells: decimal digits, at least one, after an
/// optional sign.
pub open spec fn integer_value(text: Seq<char>) -> Option<int> {
    if text.len() > 0 && text[0] == '-' && all_digits(text.skip(1)) {
        Some(-(digits_value(text.skip(1)) as int))
    } else if text.len() > 0 && text[0] == '+' && all_digits(text.skip(1)) {
        Some(digits_value(text.skip(1)) as int)
    } else if all_digits(text) {
        Some(digits_value(text) as int)
    } else {
        None
    }
}

/// The integer that `text` spells, where it fits in 64 bits.
pub open spec fn i64_value(text: Seq<char>) -> Option<i64> {
    match integer_value(text) {
        Some(value) if i64::MIN <= value <= i64::MAX => Some(value as i64),
        _ => None,
    }
}

/// A numeral reads back as the number that it was printed from.
pub proof fn lemma_digits_read_back(number: nat)
    ensures
        all_digits(digits(number)),
        digits_value(digits(number)) == number,
    decreases number,
{
    if number < 10 {
        let text = digits(number);
        assert(text.drop_last() =~= Seq::<char>::empty());
        assert(digits_value(text.drop_last()) == 0);
    } else {
        lemma_digits_read_back(number / 10);
        let start = digits(number / 10);
        let text = digits(number);
        assert(text.drop_last() =~= start);
        assert forall|k: int| 0 <= k < text.len() implies is_digit(#[trigger] text[k]) by {
            if k < start.len() {
                assert(text[k] == start[k]);
            }
        }
    }
}

/// Reading the numeral of a 64-bit integer gives the integer.
pub proof fn lemma_numeral_reads_back(number: i64)
    ensures
        i64_value(numeral(number as int)) == Some(number),
{
    let text = numeral(number as int);
    if number < 0 {
        lemma_digits_read_back((-(number as int)) as nat);
        assert(text.skip(1) =~= digits((-(number as int)) as nat));
    } else {
        lemma_digits_read_back(number as nat);
        assert(is_digit(text[0]));
    }
}

fn digit_of(digit: u64) -> (ch: char)
    requires
        digit < 10,
    ensures
        ch == digit_char(digit as nat),
{
    if digit == 0 {
        '0'
    } else if digit == 1 {
        '1'
    } else if digit == 2 {
        '2'
    } else if digit == 3 {
        '3'
    } else if digit == 4 {
        '4'
    } else if digit == 5 {
        '5'
    } else if digit == 6 {
        '6'
    } else if digit == 7 {
        '7'
    } else if digit == 8 {
        '8'
    } else {
        '9'
    }
}

/// The decimal digits of a number.
pub fn digits_of(number: u64) -> (text: Vec<char>)
    ensures
        text@ == digits(number as nat),
    decreases number,
{
    if number < 10 {
        let mut text: Vec<char> = Vec::new();
        text.push(digit_of(number));
        assert(text@ =~= digits(number as nat));
        text
    } else {
        let mut text = digits_of(number / 10);
        text.push(digit_of(number % 10));
        text
    }
}

/// The decimal numeral of an integer.
pub fn numeral_of(number: i64) -> (text: Vec<char>)
    ensures
        text@ == numeral(number as int),
{
    if number < 0 {
        let magnitude: u64 = if number == i64::MIN {
            0x8000_0000_0000_0000
        } else {
            (-number) as u64
        };
        let mut text: Vec<char> = Vec::new();
        text.push('-');
        let mut rest = digits_of(magnitude);
        text.append(&mut rest);
        assert(text@ =~= numeral(number as int));
        text
    } else {
        digits_of(number as u64)
    }
}

proof fn lemma_digits_value_prefix(text: Seq<char>, count: int)
    requires
        0 <= count <= text.len(),
    ensures
        digits_value(text.take(count)) <= digits_value(text),
    decreases text.len() - count,
{
    if count < text.len() {
        lemma_digits_value_prefix(text, count + 1);
        assert(text.take(count + 1).drop_last() =~= text.take(count));
    } else {
        assert(text.take(count) =~= text);
    }
}

/// The magnitude that the digits of `text` from `from` on spell, where there is
/// at least one character, all are digits, and the magnitude is at most `limit`.
fn magnitude(text: &[char], from: usize, limit: u64) -> (value: Option<u64>)
    requires
        from <= text@.len(),
    ensures
        value == (if all_digits(text@.skip(from as int)) && digits_value(text@.skip(from as int))
            <= limit {
            Some(digits_value(text@.skip(from as int)) as u64)
        } else {
            None::<u64>
        }),
{
    let ghost run = text@.skip(from as int);
    if from == text.len() {
        return None;
    }
    let mut value: u64 = 0;
    let mut at: usize = from;
    assert(run.take(0) =~= Seq::<char>::empty());
    while at < text.len()
        invariant
            from <= at <= text@.len() == text.len(),
            run == text@.skip(from as int),
            forall|k: int| 0 <= k < at - from ==> is_digit(#[trigger] run[k]),
            value == digits_value(run.take(at - from)),
            value <= limit,
        decreases text.len() - at,
    {
        let ch = text[at];
        assert(run[at - from] == ch);
        if ch < '0' || ch > '9' {
            assert(!all_digits(run));
            return None;
        }
        let digit: u64 = (ch as u32 - '0' as u32) as u64;
        let ghost next = run.take(at - from + 1);
        assert(next.drop_last() =~= run.take(at - from));
        assert(digits_value(next) == 10 * value + digit);
        if value > limit / 10 || digit > limit - 10 * value {
            proof {
                lemma_digits_value_prefix(run, at - from + 1);
            }
            return None;
        }
        value = 10 * value + digit;
        at += 1;
    }
    assert(run.take(at - from) =~= run);
    Some(value)
}

/// Reads a 64-bit integer: decimal digits after an optional sign.
pub fn parse_i64(text: &[char]) -> (value: Option<i64>)
    ensures
        value == i64_value(text@),
{
    if text.len() > 0 && text[0] == '-' {
        assert(!is_digit(text@[0]));
        assert(!all_digits(text@));
        return match magnitude(text, 1, 0x8000_0000_0000_0000) {
            None => None,
            Some(size) => if size == 0x8000_0000_0000_0000 {
                Some(i64::MIN)
            } else {
                Some(-(size as i64))
            },
        };
    }
    if text.len() > 0 && text[0] == '+' {
        assert(!is_digit(text@[0]));
        assert(!all_digits(text@));
        return match magnitude(text, 1, 0x7fff_ffff_ffff_ffff) {
            None => None,
            Some(size) => Some(size as i64),
        };
    }
    assert(text@.skip(0) =~= text@);
    match magnitude(text, 0, 0x7fff_ffff_ffff_ffff) {
        None => None,
        Some(size) => Some(size as i64),
    }
}

} // verus!
