//! The access gate: a token that a caller must show before a write.

use vstd::prelude::*;
use vstd::utf8::*;
use crate::text::{bytes_equal, strip_newline, without_newline};

verus! {

/// Whether `supplied` is let through when the token file reads
/// `token_file`. The file holds the expected token and, after it, one line
/// feed at most; `supplied` must be that token byte for byte, with nothing
/// trimmed from it.
pub open spec fn token_accepted(token_file: Seq<u8>, supplied: Seq<u8>) -> bool {
    strip_newline(token_file) == supplied
}

/// Holds the token `supplied_token` against the text of the token file.
pub fn check(token_file: &str, supplied_token: &str) -> (accepted: bool)
    ensures
        accepted == token_accepted(encode_utf8(token_file@), encode_utf8(supplied_token@)),
{
    bytes_equal(without_newline(token_file.as_bytes()), supplied_token.as_bytes())
}

} // verus!
