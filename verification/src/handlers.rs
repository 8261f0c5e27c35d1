//! What the service does for each request: list the records, store one,
//! clear them all.
//!
//! Storing and clearing ask for the token. A request with another token
//! changes nothing, and neither does it learn that: [`registration`] and
//! [`delete_db`] hand nothing back, whether the token was the expected one
//! or not, and whether the store took the change or not.

use vstd::prelude::*;
use vstd::utf8::*;
use crate::counter::{visited, VisitorCounter};
use crate::gate::{check, token_accepted};
use crate::record::{record_key, records_view, MeasurementRecord};
use crate::store::{is_record_listing, no_pairs, RecordStore};

verus! {

/// Largest JSON request body, in bytes, that the service reads.
pub const JSON_BODY_LIMIT: usize = 4096;

/// Whether a request body of `len` bytes is read at all.
pub fn body_size_accepted(len: usize) -> (accepted: bool)
    ensures
        accepted == (len <= JSON_BODY_LIMIT),
{
    len <= JSON_BODY_LIMIT
}

/// The body of a request that stores or clears. Clearing reads the token
/// only.
pub struct SentWeightData {
    pub token: String,
    pub date: String,
    pub time: String,
    pub total: String,
}

/// The answer to a request for the records.
#[derive(Clone, Debug, PartialEq, Eq)]
pub struct Crew {
    pub number_of_visitors: i32,
    pub body_weight: Vec<MeasurementRecord>,
}

/// How a change that asks for the token ended.
#[derive(Clone, Copy, Debug, PartialEq, Eq)]
pub enum Outcome {
    /// The token was not the expected one; nothing was done.
    Refused,
    /// The token was the expected one and the store took the change.
    Applied,
    /// The token was the expected one and the store reported a failure.
    Failed,
}

/// Counts the visit and lists the records, in ascending order of their keys.
pub fn show(visit_counter: &mut VisitorCounter, store: &RecordStore) -> (crew: Crew)
    requires
        old(visit_counter)@ < i32::MAX,
    ensures
        final(visit_counter)@ == visited(old(visit_counter)@),
        crew.number_of_visitors == final(visit_counter)@,
        is_record_listing(records_view(crew.body_weight@), store@),
        store@ == no_pairs() ==> crew.body_weight@.len() == 0,
{
    let number_of_visitors = visit_counter.increment_and_get();
    let body_weight = store.list_all();
    Crew { number_of_visitors, body_weight }
}

/// Stores the measurement of `item`, if its token is the one in the token
/// file, and says how that ended. Date, time and total go in as they were
/// sent.
pub fn insert_with_token(store: &mut RecordStore, token_file: &str, item: &SentWeightData) -> (outcome:
    Outcome)
    ensures
        outcome is Refused <==> !token_accepted(
            encode_utf8(token_file@),
            encode_utf8(item.token@),
        ),
        outcome is Refused ==> final(store)@ == old(store)@,
        outcome is Applied ==> final(store)@ == old(store)@.insert(
            record_key(item.date@, item.time@),
            encode_utf8(item.total@),
        ),
        outcome is Failed ==> final(store)@ == old(store)@ || final(store)@ == old(store)@.insert(
            record_key(item.date@, item.time@),
            encode_utf8(item.total@),
        ),
{
    if !check(token_file, item.token.as_str()) {
        return Outcome::Refused;
    }
    if store.insert(item.date.as_str(), item.time.as_str(), item.total.as_str()) {
        Outcome::Applied
    } else {
        Outcome::Failed
    }
}

/// Clears the store, if the token of `item` is the one in the token file,
/// and says how that ended.
pub fn clear_with_token(store: &mut RecordStore, token_file: &str, item: &SentWeightData) -> (outcome:
    Outcome)
    ensures
        outcome is Refused <==> !token_accepted(
            encode_utf8(token_file@),
            encode_utf8(item.token@),
        ),
        outcome is Refused ==> final(store)@ == old(store)@,
        outcome is Applied ==> final(store)@ == no_pairs(),
        outcome is Failed ==> final(store)@.submap_of(old(store)@),
{
    if !check(token_file, item.token.as_str()) {
        return Outcome::Refused;
    }
    if store.clear_all() {
        Outcome::Applied
    } else {
        Outcome::Failed
    }
}

/// Stores the measurement of `item`, if its token is the one in the token
/// file. Nothing is handed back: a request with another token changes
/// nothing, and a request with the expected token leaves the store with the
/// measurement in it or, where the store fails, as it was.
pub fn registration(store: &mut RecordStore, token_file: &str, item: &SentWeightData)
    ensures
        !token_accepted(encode_utf8(token_file@), encode_utf8(item.token@)) ==> final(store)@
            == old(store)@,
        token_accepted(encode_utf8(token_file@), encode_utf8(item.token@)) ==> final(store)@
            == old(store)@ || final(store)@ == old(store)@.insert(
            record_key(item.date@, item.time@),
            encode_utf8(item.total@),
        ),
{
    let _outcome = insert_with_token(store, token_file, item);
}

/// Clears the store, if the token of `item` is the one in the token file.
/// Nothing is handed back: a request with another token changes nothing, and
/// a request with the expected token leaves no pair that was not there, and
/// none at all unless the store fails.
pub fn delete_db(store: &mut RecordStore, token_file: &str, item: &SentWeightData)
    ensures
        !token_accepted(encode_utf8(token_file@), encode_utf8(item.token@)) ==> final(store)@
            == old(store)@,
        token_accepted(encode_utf8(token_file@), encode_utf8(item.token@)) ==> final(store)@
            .submap_of(old(store)@),
{
    let _outcome = clear_with_token(store, token_file, item);
}

} // verus!
