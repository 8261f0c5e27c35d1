//! Which stored totals are weights: the texts that read as a floating-point
//! number.
//!
//! A total is kept as the bytes the caller sent. It counts as a weight when
//! it is a decimal floating-point literal:
//!
//! ```text
//! Weight   ::= Sign? ( Named | Number )
//! Named    ::= 'inf' | 'infinity' | 'nan'        (in either case of each letter)
//! Number   ::= Mantissa Exponent?
//! Mantissa ::= Digit+ | Digit+ '.' Digit* | Digit* '.' Digit+
//! Exponent ::= ( 'e' | 'E' ) Sign? Digit+
//! Sign     ::= '+' | '-'
//! Digit    ::= '0' ... '9'
//! ```
//!
//! Nothing may stand before or after the literal, blanks included.

use vstd::prelude::*;
use vstd::slice::slice_subrange;

verus! {

pub const PLUS: u8 = 0x2b;

pub const MINUS: u8 = 0x2d;

pub const DOT: u8 = 0x2e;

pub const UPPER_E: u8 = 0x45;

pub const LOWER_E: u8 = 0x65;

/// `'0'` to `'9'`.
pub open spec fn is_digit(b: u8) -> bool {
    0x30 <= b <= 0x39
}

/// `'+'` or `'-'`.
pub open spec fn is_sign(b: u8) -> bool {
    b == PLUS || b == MINUS
}

/// `'e'` or `'E'`.
pub open spec fn is_exponent_mark(b: u8) -> bool {
    b == LOWER_E || b == UPPER_E
}

/// `Digit*`.
pub open spec fn all_digits(s: Seq<u8>) -> bool {
    forall|i: int| 0 <= i < s.len() ==> is_digit(#[trigger] s[i])
}

/// `Digit+`.
pub open spec fn is_digits(s: Seq<u8>) -> bool {
    s.len() > 0 && all_digits(s)
}

/// What is left of `s` once one leading sign, if there is one, is taken off.
pub open spec fn unsigned(s: Seq<u8>) -> Seq<u8> {
    if s.len() > 0 && is_sign(s[0]) {
        s.skip(1)
    } else {
        s
    }
}

/// `Mantissa`: digits with at most one point among them, and at least one
/// digit.
pub open spec fn is_mantissa(s: Seq<u8>) -> bool {
    ||| is_digits(s)
    ||| exists|p: int|
        #![trigger s[p]]
        0 <= p < s.len() && s[p] == DOT && all_digits(s.take(p)) && all_digits(s.skip(p + 1))
            && s.len() > 1
}

/// `Exponent`.
pub open spec fn is_exponent(s: Seq<u8>) -> bool {
    s.len() > 0 && is_exponent_mark(s[0]) && is_digits(unsigned(s.skip(1)))
}

/// `Number`.
pub open spec fn is_number(s: Seq<u8>) -> bool {
    ||| is_mantissa(s)
    ||| exists|k: int|
        #![trigger s.take(k)]
        0 <= k < s.len() && is_mantissa(s.take(k)) && is_exponent(s.skip(k))
}

/// An ASCII capital letter as its small letter; any other byte as it is.
pub open spec fn lower(b: u8) -> u8 {
    if 0x41 <= b <= 0x5a {
        (b + 0x20) as u8
    } else {
        b
    }
}

/// `s` with each byte taken through [`lower`].
pub open spec fn lowered(s: Seq<u8>) -> Seq<u8> {
    Seq::new(s.len(), |i: int| lower(s[i]))
}

/// `Named`: `inf`, `infinity` or `nan`, whatever the case of the letters.
pub open spec fn is_named(s: Seq<u8>) -> bool {
    ||| lowered(s) == seq![0x69u8, 0x6e, 0x66]
    ||| lowered(s) == seq![0x69u8, 0x6e, 0x66, 0x69, 0x6e, 0x69, 0x74, 0x79]
    ||| lowered(s) == seq![0x6eu8, 0x61, 0x6e]
}

/// `Weight`: the whole of `s` is a floating-point literal.
pub open spec fn is_weight_literal(s: Seq<u8>) -> bool {
    is_named(unsigned(s)) || is_number(unsigned(s))
}

/// A mantissa holds digits and points only.
pub proof fn lemma_mantissa_bytes(s: Seq<u8>, i: int)
    requires
        is_mantissa(s),
        0 <= i < s.len(),
    ensures
        is_digit(s[i]) || s[i] == DOT,
{
    if !is_digits(s) {
        let p = choose|p: int|
            #![trigger s[p]]
            0 <= p < s.len() && s[p] == DOT && all_digits(s.take(p)) && all_digits(s.skip(p + 1))
                && s.len() > 1;
        if i < p {
            assert(s.take(p)[i] == s[i]);
        } else if i > p {
            assert(s.skip(p + 1)[i - p - 1] == s[i]);
        }
    }
}

fn is_digit_byte(b: u8) -> (r: bool)
    ensures
        r == is_digit(b),
{
    0x30 <= b && b <= 0x39
}

fn is_sign_byte(b: u8) -> (r: bool)
    ensures
        r == is_sign(b),
{
    b == PLUS || b == MINUS
}

fn lower_byte(b: u8) -> (r: u8)
    ensures
        r == lower(b),
{
    if 0x41 <= b && b <= 0x5a {
        b + 0x20
    } else {
        b
    }
}

/// Where the run of digits that starts at `from` ends.
fn digits_end(s: &[u8], from: usize) -> (to: usize)
    requires
        from <= s@.len(),
    ensures
        from <= to <= s@.len(),
        forall|i: int| from <= i < to ==> is_digit(#[trigger] s@[i]),
        to < s@.len() ==> !is_digit(s@[to as int]),
{
    let mut to: usize = from;
    while to < s.len() && is_digit_byte(s[to])
        invariant
            from <= to <= s@.len(),
            forall|i: int| from <= i < to ==> is_digit(#[trigger] s@[i]),
        decreases s@.len() - to,
    {
        to = to + 1;
    }
    to
}

/// Whether `s` is a `Mantissa`.
pub fn is_mantissa_bytes(s: &[u8]) -> (r: bool)
    ensures
        r == is_mantissa(s@),
{
    let n: usize = digits_end(s, 0);
    if n == s.len() {
        return n > 0;
    }
    proof {
        // The first byte that is no digit is the only place for the point.
        assert forall|p: int|
            #![trigger s@[p]]
            0 <= p < s@.len() && s@[p] == DOT && all_digits(s@.take(p)) implies p == n by {
            if p > n {
                assert(s@.take(p)[n as int] == s@[n as int]);
            }
        }
    }
    if s[n] != DOT {
        return false;
    }
    let m: usize = digits_end(s, n + 1);
    proof {
        if m == s@.len() {
            assert forall|i: int| 0 <= i < s@.take(n as int).len() implies is_digit(
                #[trigger] s@.take(n as int)[i],
            ) by {
                assert(s@.take(n as int)[i] == s@[i]);
            }
            assert forall|i: int| 0 <= i < s@.skip(n + 1).len() implies is_digit(
                #[trigger] s@.skip(n + 1)[i],
            ) by {
                assert(s@.skip(n + 1)[i] == s@[n + 1 + i]);
            }
        } else {
            assert(s@.skip(n + 1)[m - n - 1] == s@[m as int]);
        }
    }
    m == s.len() && s.len() > 1
}

/// Whether `s` is an `Exponent`.
pub fn is_exponent_bytes(s: &[u8]) -> (r: bool)
    ensures
        r == is_exponent(s@),
{
    if s.len() == 0 {
        return false;
    }
    if s[0] != LOWER_E && s[0] != UPPER_E {
        return false;
    }
    let from: usize = if s.len() > 1 && is_sign_byte(s[1]) {
        2
    } else {
        1
    };
    let to: usize = digits_end(s, from);
    proof {
        let digits = unsigned(s@.skip(1));
        assert(s@.skip(1).len() == s@.len() - 1);
        if s@.len() > 1 {
            assert(s@.skip(1)[0] == s@[1]);
        }
        assert(digits =~= s@.skip(from as int));
        if to == s@.len() {
            assert forall|i: int| 0 <= i < digits.len() implies is_digit(#[trigger] digits[i]) by {
                assert(digits[i] == s@[from + i]);
            }
        } else {
            assert(digits[to - from] == s@[to as int]);
        }
    }
    to == s.len() && to > from
}

/// Whether `s` is a `Number`.
pub fn is_number_bytes(s: &[u8]) -> (r: bool)
    ensures
        r == is_number(s@),
{
    let mut k: usize = 0;
    while k < s.len() && s[k] != LOWER_E && s[k] != UPPER_E
        invariant
            k <= s@.len(),
            forall|i: int| 0 <= i < k ==> !is_exponent_mark(#[trigger] s@[i]),
        decreases s@.len() - k,
    {
        k = k + 1;
    }
    proof {
        // An exponent can only start at the first exponent mark.
        assert forall|j: int|
            #![trigger s@.take(j)]
            0 <= j < s@.len() && is_mantissa(s@.take(j)) && is_exponent(s@.skip(j)) implies j
            == k by {
            assert(s@.skip(j)[0] == s@[j]);
            if j > k {
                lemma_mantissa_bytes(s@.take(j), k as int);
                assert(s@.take(j)[k as int] == s@[k as int]);
            }
        }
        if k < s@.len() && is_mantissa(s@) {
            lemma_mantissa_bytes(s@, k as int);
        }
    }
    if k == s.len() {
        is_mantissa_bytes(s)
    } else {
        let mantissa = slice_subrange(s, 0, k);
        let exponent = slice_subrange(s, k, s.len());
        proof {
            assert(mantissa@ == s@.take(k as int));
            assert(exponent@ == s@.skip(k as int));
        }
        is_mantissa_bytes(mantissa) && is_exponent_bytes(exponent)
    }
}

/// Whether `s`, with its capital letters made small, spells `name`.
fn spells(s: &[u8], name: &[u8]) -> (r: bool)
    ensures
        r == (lowered(s@) == name@),
{
    if s.len() != name.len() {
        assert(lowered(s@).len() != name@.len());
        return false;
    }
    let mut i: usize = 0;
    while i < s.len()
        invariant
            i <= s@.len(),
            s@.len() == name@.len(),
            forall|j: int| 0 <= j < i ==> lowered(s@)[j] == name@[j],
        decreases s@.len() - i,
    {
        if lower_byte(s[i]) != name[i] {
            assert(lowered(s@)[i as int] != name@[i as int]);
            return false;
        }
        i = i + 1;
    }
    assert(lowered(s@) =~= name@);
    true
}

/// Whether `s` is a `Named` value.
pub fn is_named_bytes(s: &[u8]) -> (r: bool)
    ensures
        r == is_named(s@),
{
    let inf: [u8; 3] = [0x69, 0x6e, 0x66];
    let infinity: [u8; 8] = [0x69, 0x6e, 0x66, 0x69, 0x6e, 0x69, 0x74, 0x79];
    let nan: [u8; 3] = [0x6e, 0x61, 0x6e];
    assert(inf@ =~= seq![0x69u8, 0x6e, 0x66]);
    assert(infinity@ =~= seq![0x69u8, 0x6e, 0x66, 0x69, 0x6e, 0x69, 0x74, 0x79]);
    assert(nan@ =~= seq![0x6eu8, 0x61, 0x6e]);
    spells(s, inf.as_slice()) || spells(s, infinity.as_slice()) || spells(s, nan.as_slice())
}

/// Whether the whole of `s` is a floating-point literal.
pub fn is_weight_bytes(s: &[u8]) -> (r: bool)
    ensures
        r == is_weight_literal(s@),
{
    let body = if s.len() > 0 && is_sign_byte(s[0]) {
        slice_subrange(s, 1, s.len())
    } else {
        s
    };
    assert(body@ == unsigned(s@));
    is_named_bytes(body) || is_number_bytes(body)
}

/// Whether `total` reads as a weight.
pub fn is_weight_text(total: &str) -> (r: bool)
    ensures
        r == is_weight_literal(vstd::utf8::encode_utf8(total@)),
{
    is_weight_bytes(total.as_bytes())
}

} // verus!
