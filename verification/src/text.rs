//! Bytes and text: decoding stored bytes as UTF-8.

use vstd::prelude::*;
use vstd::slice::slice_subrange;
use vstd::utf8::*;

verus! {

/// The line feed, `'\n'`.
pub const NEWLINE: u8 = 0x0a;

/// `text` without the one line feed at its end, if it ends in one.
pub open spec fn strip_newline(text: Seq<u8>) -> Seq<u8> {
    if text.len() > 0 && text.last() == NEWLINE {
        text.drop_last()
    } else {
        text
    }
}

/// Takes one line feed off the end of `text`, if it ends in one.
pub fn without_newline(text: &[u8]) -> (stripped: &[u8])
    ensures
        stripped@ == strip_newline(text@),
{
    let n: usize = text.len();
    if n > 0 && text[n - 1] == NEWLINE {
        slice_subrange(text, 0, n - 1)
    } else {
        text
    }
}

/// Whether two byte strings are the same, byte for byte.
pub fn bytes_equal(a: &[u8], b: &[u8]) -> (same: bool)
    ensures
        same == (a@ == b@),
{
    if a.len() != b.len() {
        return false;
    }
    let mut i: usize = 0;
    while i < a.len()
        invariant
            i <= a@.len(),
            a@.len() == b@.len(),
            forall|j: int| 0 <= j < i ==> a@[j] == b@[j],
        decreases a@.len() - i,
    {
        if a[i] != b[i] {
            return false;
        }
        i = i + 1;
    }
    assert(a@ =~= b@);
    true
}

/// Bytes below 0x80 are ASCII, and ASCII is well-formed UTF-8.
pub proof fn lemma_ascii_is_utf8(bytes: Seq<u8>)
    requires
        forall|i: int| 0 <= i < bytes.len() ==> #[trigger] bytes[i] < 0x80,
    ensures
        valid_utf8(bytes),
{
    assert(bytes.subrange(0, 0) =~= Seq::<u8>::empty());
    assert(partial_valid_utf8(bytes, 0));
    partial_valid_utf8_extend_ascii_block(bytes, 0, bytes.len() as int);
    assert(bytes.subrange(0, bytes.len() as int) =~= bytes);
}

/// `String::from_utf8`. The bytes decode exactly when they are well-formed
/// UTF-8, and then the string holds the characters they encode.
#[verifier::external_body]
fn string_from_utf8(bytes: Vec<u8>) -> (decoded: Option<String>)
    ensures
        decoded is Some <==> valid_utf8(bytes@),
        decoded matches Some(s) ==> s@ == decode_utf8(bytes@),
{
    match String::from_utf8(bytes) {
        Ok(s) => Some(s),
        Err(_) => None,
    }
}

/// Decodes bytes as text, or gives `None` when they are not well-formed
/// UTF-8.
pub fn decode_text(bytes: Vec<u8>) -> (decoded: Option<String>)
    ensures
        decoded is Some <==> valid_utf8(bytes@),
        decoded matches Some(s) ==> s@ == decode_utf8(bytes@) && encode_utf8(s@) == bytes@,
{
    let ghost raw = bytes@;
    let decoded = string_from_utf8(bytes);
    proof {
        if valid_utf8(raw) {
            decode_utf8_encode_utf8(raw);
        }
    }
    decoded
}

/// Decodes a stored key and value as text. Both must be well-formed UTF-8;
/// otherwise the pair is given up.
pub fn from_utf8s(raw: (Vec<u8>, Vec<u8>)) -> (pair: Option<(String, String)>)
    ensures
        pair is Some <==> valid_utf8(raw.0@) && valid_utf8(raw.1@),
        pair matches Some((key, value)) ==> key@ == decode_utf8(raw.0@) && value@ == decode_utf8(
            raw.1@,
        ),
        pair matches Some((key, value)) ==> encode_utf8(key@) == raw.0@ && encode_utf8(value@)
            == raw.1@,
{
    let (raw_key, raw_value) = raw;
    match (decode_text(raw_key), decode_text(raw_value)) {
        (Some(key), Some(value)) => Some((key, value)),
        _ => None,
    }
}

} // verus!
