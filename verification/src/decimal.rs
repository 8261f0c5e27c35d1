//! Whole numbers as decimal text.

use vstd::prelude::*;
use crate::weight::{is_digit, is_digits, is_sign, unsigned, MINUS, PLUS};

verus! {

/// What the digit `b` counts for.
pub open spec fn digit_value(b: u8) -> nat {
    (b - 0x30) as nat
}

/// The number that a run of digits writes, the empty run writing 0.
pub open spec fn decimal_value(digits: Seq<u8>) -> nat
    decreases digits.len(),
{
    if digits.len() == 0 {
        0
    } else {
        decimal_value(digits.drop_last()) * 10 + digit_value(digits.last())
    }
}

/// The whole number that `text` writes: one sign at most, then one digit or
/// more, and nothing else. Leading zeros are taken. `None` for any other
/// text.
pub open spec fn parse_decimal(text: Seq<u8>) -> Option<int> {
    if is_digits(unsigned(text)) {
        if text[0] == MINUS {
            Some(-(decimal_value(unsigned(text)) as int))
        } else {
            Some(decimal_value(unsigned(text)) as int)
        }
    } else {
        None
    }
}

/// `v` in decimal digits, without sign or leading zeros.
pub open spec fn decimal_text(v: nat) -> Seq<u8>
    decreases v,
{
    if v < 10 {
        seq![(0x30 + v) as u8]
    } else {
        decimal_text(v / 10).push((0x30 + v % 10) as u8)
    }
}

/// What is written is read back: the digits of `v` are digits, and they
/// write `v`.
pub proof fn lemma_decimal_round_trip(v: nat)
    ensures
        is_digits(decimal_text(v)),
        decimal_value(decimal_text(v)) == v,
        parse_decimal(decimal_text(v)) == Some(v as int),
    decreases v,
{
    let text = decimal_text(v);
    if v < 10 {
        assert(text.drop_last() =~= Seq::<u8>::empty());
        assert(decimal_value(text.drop_last()) == 0);
        assert(text.last() == (0x30 + v) as u8);
        assert(digit_value(text.last()) == v);
    } else {
        lemma_decimal_round_trip(v / 10);
        assert(text.drop_last() == decimal_text(v / 10));
        assert(text.last() == (0x30 + v % 10) as u8);
        assert(digit_value(text.last()) == v % 10);
        assert forall|i: int| 0 <= i < text.len() implies is_digit(#[trigger] text[i]) by {
            if i < text.len() - 1 {
                assert(text[i] == decimal_text(v / 10)[i]);
            }
        }
    }
    assert(!is_sign(text[0]));
}

/// The digits of `v`.
pub fn decimal_bytes(v: u32) -> (text: Vec<u8>)
    ensures
        text@ == decimal_text(v as nat),
    decreases v,
{
    if v < 10 {
        let mut text: Vec<u8> = Vec::new();
        text.push(0x30 + v as u8);
        assert(text@ =~= decimal_text(v as nat));
        text
    } else {
        let mut text = decimal_bytes(v / 10);
        text.push(0x30 + (v % 10) as u8);
        text
    }
}

/// Reads `text` as a whole number from 0 to `limit`. `None` where the text
/// writes no number, or one outside that range.
pub fn parse_bounded(text: &[u8], limit: u32) -> (number: Option<u32>)
    ensures
        number is Some <==> parse_decimal(text@) is Some && 0 <= parse_decimal(text@)->0 <= limit,
        number matches Some(v) ==> parse_decimal(text@) == Some(v as int),
{
    let n: usize = text.len();
    let negative: bool = n > 0 && text[0] == MINUS;
    let start: usize = if n > 0 && (text[0] == MINUS || text[0] == PLUS) {
        1
    } else {
        0
    };
    let ghost digits = unsigned(text@);
    assert(digits == text@.skip(start as int));
    if start == n {
        return None;
    }
    let mut value: u64 = 0;
    let mut beyond: bool = false;
    let mut i: usize = start;
    while i < n
        invariant
            start <= i <= n,
            n == text@.len(),
            digits == text@.skip(start as int),
            digits == unsigned(text@),
            forall|j: int| 0 <= j < i - start ==> is_digit(#[trigger] digits[j]),
            !beyond ==> value == decimal_value(digits.take(i - start)) && value <= limit,
            beyond ==> decimal_value(digits.take(i - start)) > limit,
        decreases n - i,
    {
        let b: u8 = text[i];
        if !(0x30 <= b && b <= 0x39) {
            assert(digits[i - start] == b);
            return None;
        }
        proof {
            assert(digits[i - start] == b);
            assert(digits.take(i - start + 1).drop_last() == digits.take(i - start));
            assert(digits.take(i - start + 1).last() == b);
        }
        if !beyond {
            value = value * 10 + (b - 0x30) as u64;
            if value > limit as u64 {
                beyond = true;
            }
        }
        i = i + 1;
    }
    assert(digits.take(n - start) == digits);
    if beyond {
        None
    } else if negative && value != 0 {
        None
    } else {
        Some(value as u32)
    }
}

} // verus!
