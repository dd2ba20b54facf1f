//! What holds of decimal numerals.
use crate::decimal::{
    all_digits, digit_char, digit_value, digits, digits_value, i64_value, integer_value, is_digit,
    lemma_digits_read_back, numeral,
};
use vstd::prelude::*;

verus! {

/// The ten digits are the ten characters from `'0'` on, each for its number.
pub proof fn lemma_digits_are(digit: nat, ch: char)
    requires
        digit < 10,
    ensures
        digit_char(digit) as nat == 48 + digit,
        is_digit(ch) <==> 48 <= ch as nat <= 57,
        is_digit(digit_char(digit)),
        digit_value(digit_char(digit)) == digit,
        is_digit(ch) ==> ch as nat == 48 + digit_value(ch),
{
}

/// One digit more behind a run makes ten times its number and the digit; zeros before it make
/// no difference.
pub proof fn lemma_digit_appended(text: Seq<char>, digit: char)
    requires
        is_digit(digit),
    ensures
        digits_value(Seq::empty()) == 0,
        digits_value(text.push(digit)) == 10 * digits_value(text) + (digit as nat - 48),
        digits_value(seq!['0'] + text) == digits_value(text),
    decreases text.len(),
{
    assert(text.push(digit).drop_last() =~= text);
    if text.len() == 0 {
        assert((seq!['0'] + text).drop_last() =~= text);
    } else {
        assert((seq!['0'] + text).drop_last() =~= seq!['0'] + text.drop_last());
        lemma_digit_appended(text.drop_last(), digit);
    }
}

/// The numeral of a number is made of digits and starts with no zero, unless it is a single
/// one; a negative number has its minus sign before that.
pub proof fn lemma_numeral_form(number: nat)
    ensures
        all_digits(digits(number)),
        digits(number)[0] == '0' <==> number == 0,
        number < 10 ==> digits(number).len() == 1,
        numeral(number as int) == digits(number),
        number > 0 ==> numeral(-(number as int)) == seq!['-'] + digits(number),
    decreases number,
{
    lemma_digits_read_back(number);
    if number >= 10 {
        lemma_numeral_form(number / 10);
        lemma_digits_read_back(number / 10);
    }
}

/// Digits spell the same number without a sign and behind a plus sign, and its negative behind
/// a minus sign.
pub proof fn lemma_signs(text: Seq<char>)
    requires
        all_digits(text),
    ensures
        integer_value(text) == Some(digits_value(text) as int),
        integer_value(seq!['+'] + text) == Some(digits_value(text) as int),
        integer_value(seq!['-'] + text) == Some(-(digits_value(text) as int)),
{
    assert((seq!['+'] + text).skip(1) =~= text);
    assert((seq!['-'] + text).skip(1) =~= text);
    assert(is_digit(text[0]));
}

/// A text spells no integer if it is empty, is a sign alone, or holds anything but digits behind
/// its first character or anything but a digit or a sign as the first.
pub proof fn lemma_no_integer(text: Seq<char>)
    requires
        ({
            ||| text.len() == 0
            ||| text == seq!['+']
            ||| text == seq!['-']
            ||| exists|at: int| 0 < at < text.len() && !is_digit(#[trigger] text[at])
            ||| text[0] != '+' && text[0] != '-' && !is_digit(text[0])
        }),
    ensures
        integer_value(text) is None,
        i64_value(text) is None,
{
    if exists|at: int| 0 < at < text.len() && !is_digit(#[trigger] text[at]) {
        let at = choose|at: int| 0 < at < text.len() && !is_digit(#[trigger] text[at]);
        assert(text.skip(1)[at - 1] == text[at]);
        assert(!all_digits(text.skip(1)));
    }
    assert(seq!['+'].skip(1) =~= Seq::<char>::empty());
    assert(seq!['-'].skip(1) =~= Seq::<char>::empty());
}

/// A 64-bit integer is read from exactly the texts that spell one in its range.
pub proof fn lemma_in_range(text: Seq<char>, number: int)
    requires
        integer_value(text) == Some(number),
    ensures
        i64_value(text) == (if -0x8000_0000_0000_0000 <= number <= 0x7fff_ffff_ffff_ffff {
            Some(number as i64)
        } else {
            None
        }),
{
}

} // verus!
