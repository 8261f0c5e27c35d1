//! The visitor counter: how often the records have been asked for.
//!
//! The count lives in memory. It is read from text when the service starts
//! and written back as text when it stops. A counter is changed through
//! `&mut`, so no two visits can be counted from the same earlier value.

use vstd::prelude::*;
use vstd::utf8::*;
use crate::decimal::{
    decimal_bytes,
    decimal_text,
    lemma_decimal_round_trip,
    parse_bounded,
    parse_decimal,
};
use crate::text::{decode_text, lemma_ascii_is_utf8, strip_newline, without_newline};
use crate::weight::is_digit;

verus! {

/// The count that the text of a counter file writes: a whole number from 0
/// to `i32::MAX`, with one line feed after it at most. `None` for any other
/// text.
pub open spec fn parse_counter(text: Seq<u8>) -> Option<int> {
    match parse_decimal(strip_newline(text)) {
        Some(v) => if 0 <= v <= i32::MAX {
            Some(v)
        } else {
            None
        },
        None => None,
    }
}

/// The count after one more visit.
pub open spec fn visited(count: int) -> int {
    count + 1
}

/// The count after `n` more visits.
pub open spec fn visited_times(count: int, n: nat) -> int
    decreases n,
{
    if n == 0 {
        count
    } else {
        visited(visited_times(count, (n - 1) as nat))
    }
}

/// The number of visitors so far.
#[derive(Debug)]
pub struct VisitorCounter {
    number_of_visitors: i32,
}

impl View for VisitorCounter {
    type V = int;

    closed spec fn view(&self) -> int {
        self.number_of_visitors as int
    }
}

impl VisitorCounter {
    #[verifier::type_invariant]
    spec fn never_negative(self) -> bool {
        self.number_of_visitors >= 0
    }

    /// The counter that the text of a counter file stands for, or `None`
    /// where the text writes no count.
    pub fn init(text: &str) -> (counter: Option<VisitorCounter>)
        ensures
            counter is Some <==> parse_counter(encode_utf8(text@)) is Some,
            counter matches Some(c) ==> parse_counter(encode_utf8(text@)) == Some(c@),
    {
        match parse_bounded(without_newline(text.as_bytes()), 0x7fff_ffff) {
            Some(count) => Some(VisitorCounter { number_of_visitors: count as i32 }),
            None => None,
        }
    }

    /// The count.
    pub fn number_of_visitors(&self) -> (count: i32)
        ensures
            count == self@,
            count >= 0,
    {
        proof {
            use_type_invariant(self);
        }
        self.number_of_visitors
    }

    /// Whether one more visit can be counted.
    pub fn can_increment(&self) -> (room: bool)
        ensures
            room == (self@ < i32::MAX),
    {
        self.number_of_visitors < i32::MAX
    }

    /// Counts one visit and gives the new count.
    pub fn increment_and_get(&mut self) -> (count: i32)
        requires
            old(self)@ < i32::MAX,
        ensures
            final(self)@ == visited(old(self)@),
            count == final(self)@,
    {
        proof {
            use_type_invariant(&*self);
        }
        self.number_of_visitors = self.number_of_visitors + 1;
        self.number_of_visitors
    }

    /// The text to keep the count as: its decimal digits, with no line feed
    /// after them.
    pub fn persist(&self) -> (text: String)
        ensures
            encode_utf8(text@) == decimal_text(self@ as nat),
    {
        proof {
            use_type_invariant(self);
        }
        let digits = decimal_bytes(self.number_of_visitors as u32);
        proof {
            lemma_decimal_round_trip(self@ as nat);
            assert forall|i: int| 0 <= i < digits@.len() implies #[trigger] digits@[i] < 0x80 by {
                assert(is_digit(digits@[i]));
            }
            lemma_ascii_is_utf8(digits@);
        }
        decode_text(digits).unwrap()
    }
}

/// A count that was written out is read back as it was.
pub proof fn lemma_persisted_count_is_read_back(count: int)
    requires
        0 <= count <= i32::MAX,
    ensures
        parse_counter(decimal_text(count as nat)) == Some(count),
{
    lemma_decimal_round_trip(count as nat);
    assert(is_digit(decimal_text(count as nat).last()));
}

/// `n` visits raise the count by exactly `n`.
pub proof fn lemma_every_visit_counts(count: int, n: nat)
    ensures
        visited_times(count, n) == count + n,
    decreases n,
{
    if n > 0 {
        lemma_every_visit_counts(count, (n - 1) as nat);
    }
}

} // verus!
