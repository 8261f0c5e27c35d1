//! The record store: an ordered map from byte keys to byte values, kept by
//! sled.
//!
//! A [`RecordStore`] owns its database handle and is the only user of it:
//! what is said here of the store's contents holds as long as nothing else
//! writes to the same database.

use vstd::prelude::*;
use vstd::slice::slice_to_vec;
use vstd::utf8::*;
use crate::laws::lemma_empty_store_lists_nothing;
use crate::record::{
    decode_all,
    decode_entries,
    entries_view,
    record_key,
    records_view,
    MeasurementRecord,
    RecordView,
    SLASH,
};

verus! {

/// Strict lexicographic order on byte strings, the order in which the store
/// walks its keys: `a` is below `b` when, at the first place where they
/// differ, `a` has ended or has the smaller byte.
pub open spec fn key_lt(a: Seq<u8>, b: Seq<u8>) -> bool {
    exists|i: int|
        #![trigger a.take(i)]
        0 <= i <= a.len() && i < b.len() && a.take(i) == b.take(i) && (i == a.len() || a[i]
            < b[i])
}

/// The store that holds nothing.
pub open spec fn no_pairs() -> Map<Seq<u8>, Seq<u8>> {
    Map::empty()
}

/// `entries` lists all of `contents`, each pair once, in ascending order of
/// the keys.
pub open spec fn is_listing_of(
    entries: Seq<(Seq<u8>, Seq<u8>)>,
    contents: Map<Seq<u8>, Seq<u8>>,
) -> bool {
    &&& forall|i: int, j: int|
        0 <= i < j < entries.len() ==> key_lt(#[trigger] entries[i].0, #[trigger] entries[j].0)
    &&& forall|i: int|
        0 <= i < entries.len() ==> contents.contains_key(#[trigger] entries[i].0)
            && contents[entries[i].0] == entries[i].1
    &&& forall|key: Seq<u8>| #[trigger]
        contents.contains_key(key) ==> exists|i: int|
            0 <= i < entries.len() && #[trigger] entries[i].0 == key
}

/// `records` is what a reading of `contents` gives: the records of all its
/// pairs in ascending order of the keys, or nothing at all where the store
/// could not be read.
pub open spec fn is_record_listing(
    records: Seq<RecordView>,
    contents: Map<Seq<u8>, Seq<u8>>,
) -> bool {
    records.len() == 0 || exists|entries: Seq<(Seq<u8>, Seq<u8>)>| #[trigger]
        is_listing_of(entries, contents) && records == decode_all(entries)
}

/// `sled::Db`, a handle on an open database. Nothing is known of what is
/// inside it but through [`store_contents`].
#[verifier::external_type_specification]
#[verifier::external_body]
pub struct ExDb(sled::Db);

/// `sled::Error`, what sled reports when an operation fails. It is carried
/// and never looked into.
#[verifier::external_type_specification]
#[verifier::external_body]
pub struct ExSledError(sled::Error);

/// The key/value pairs that the default tree of a database handle holds.
pub uninterp spec fn store_contents(db: sled::Db) -> Map<Seq<u8>, Seq<u8>>;

/// `sled::Tree::insert` on the default tree, with the value it replaced
/// dropped. When sled reports success the tree maps `key` to `value` and is
/// otherwise as before. When it reports an error the pair may or may not
/// have gone in; nothing else has changed.
#[verifier::external_body]
fn db_insert(db: &mut sled::Db, key: &[u8], value: &[u8]) -> (r: Result<(), sled::Error>)
    ensures
        r is Ok ==> store_contents(*final(db)) == store_contents(*old(db)).insert(key@, value@),
        r is Err ==> store_contents(*final(db)) == store_contents(*old(db)) || store_contents(
            *final(db),
        ) == store_contents(*old(db)).insert(key@, value@),
{
    db.insert(key, value).map(|_previous| ())
}

/// `sled::Tree::clear` on the default tree. sled removes the keys one by
/// one: when it reports success none is left; when it reports an error some
/// may be left, each with the value it had.
#[verifier::external_body]
fn db_clear(db: &mut sled::Db) -> (r: Result<(), sled::Error>)
    ensures
        r is Ok ==> store_contents(*final(db)) == no_pairs(),
        r is Err ==> store_contents(*final(db)).submap_of(store_contents(*old(db))),
{
    db.clear()
}

/// `sled::Tree::iter` on the default tree, walked to its end or to the first
/// error. sled hands out the pairs in ascending lexicographic order of the
/// keys; a walk without error has handed out every pair.
#[verifier::external_body]
fn db_entries(db: &sled::Db) -> (r: Result<Vec<(Vec<u8>, Vec<u8>)>, sled::Error>)
    ensures
        r matches Ok(entries) ==> is_listing_of(entries_view(entries@), store_contents(*db)),
{
    db.iter().map(|item| item.map(|(key, value)| (key.to_vec(), value.to_vec()))).collect()
}

/// The measurements on disk.
pub struct RecordStore {
    db: sled::Db,
}

impl View for RecordStore {
    type V = Map<Seq<u8>, Seq<u8>>;

    closed spec fn view(&self) -> Map<Seq<u8>, Seq<u8>> {
        store_contents(self.db)
    }
}

/// The key under which the measurement of `date` and `time` is stored.
pub fn record_key_bytes(date: &str, time: &str) -> (key: Vec<u8>)
    ensures
        key@ == record_key(date@, time@),
{
    let mut key = slice_to_vec(date.as_bytes());
    key.push(SLASH);
    let tail = time.as_bytes();
    let ghost head = key@;
    let mut i: usize = 0;
    while i < tail.len()
        invariant
            i <= tail@.len(),
            key@ == head + tail@.take(i as int),
        decreases tail@.len() - i,
    {
        key.push(tail[i]);
        assert(tail@.take(i + 1) == tail@.take(i as int).push(tail@[i as int]));
        i = i + 1;
    }
    assert(tail@.take(i as int) == tail@);
    key
}

impl RecordStore {
    /// A store on the database that `db` has opened. The store must be the
    /// only user of that database.
    pub fn new(db: sled::Db) -> (store: RecordStore)
        ensures
            store@ == store_contents(db),
    {
        RecordStore { db }
    }

    /// Stores `total` under the key of `date` and `time`, in place of what
    /// that key held. Nothing is asked of the three texts. Says whether the
    /// database took the write; where it did not, the pair may or may not be
    /// in the store, and all else is as before.
    pub fn insert(&mut self, date: &str, time: &str, total: &str) -> (written: bool)
        ensures
            written ==> final(self)@ == old(self)@.insert(
                record_key(date@, time@),
                encode_utf8(total@),
            ),
            !written ==> final(self)@ == old(self)@ || final(self)@ == old(self)@.insert(
                record_key(date@, time@),
                encode_utf8(total@),
            ),
    {
        // The database says whether it took the write, and what it says is
        // all that is handed on.
        let key = record_key_bytes(date, time);
        let outcome = db_insert(&mut self.db, key.as_slice(), total.as_bytes());
        write_taken(outcome)
    }

    /// Removes every pair. Says whether the database got to the end of it;
    /// where it did not, some pairs may be left, and none is new or changed.
    pub fn clear_all(&mut self) -> (cleared: bool)
        ensures
            cleared ==> final(self)@ == no_pairs(),
            final(self)@.submap_of(old(self)@),
    {
        // The database says whether it got to the end, and what it says is
        // all that is handed on.
        let outcome = db_clear(&mut self.db);
        write_taken(outcome)
    }

    /// All pairs of the store in ascending order of the keys, or `None`
    /// where the database failed while reading.
    pub fn read_entries(&self) -> (entries: Option<Vec<(Vec<u8>, Vec<u8>)>>)
        ensures
            entries matches Some(found) ==> is_listing_of(entries_view(found@), self@),
    {
        // A walk that ends in an error hands on no pairs at all: what is
        // read is whole or nothing.
        let outcome = db_entries(&self.db);
        pairs_read(outcome)
    }

    /// The records of the store in ascending order of their keys. Pairs that
    /// stand for no record are passed over; where the database fails while
    /// reading, the list is empty.
    pub fn list_all(&self) -> (records: Vec<MeasurementRecord>)
        ensures
            is_record_listing(records_view(records@), self@),
            self@ == no_pairs() ==> records@.len() == 0,
    {
        let records = records_read(self.read_entries());
        proof {
            if self@ == no_pairs() {
                lemma_empty_store_lists_nothing(records_view(records@));
            }
        }
        records
    }
}

/// Whether the database took a write: it did unless it reported an error.
pub fn write_taken(outcome: Result<(), sled::Error>) -> (taken: bool)
    ensures
        taken == outcome is Ok,
{
    match outcome {
        Ok(()) => true,
        Err(_) => false,
    }
}

/// The pairs that a walk through the database gave, or `None` where it
/// reported an error.
pub fn pairs_read(outcome: Result<Vec<(Vec<u8>, Vec<u8>)>, sled::Error>) -> (entries: Option<
    Vec<(Vec<u8>, Vec<u8>)>,
>)
    ensures
        entries is Some <==> outcome is Ok,
        outcome matches Ok(found) ==> entries == Some(found),
{
    match outcome {
        Ok(found) => Some(found),
        Err(_) => None,
    }
}

/// The records that a reading of the store gave: those of the pairs that
/// were read, in their order, and none where the reading failed.
pub fn records_read(entries: Option<Vec<(Vec<u8>, Vec<u8>)>>) -> (records: Vec<MeasurementRecord>)
    ensures
        entries matches Some(found) ==> records_view(records@) == decode_all(
            entries_view(found@),
        ),
        entries is None ==> records@.len() == 0,
{
    match entries {
        Some(found) => decode_entries(&found),
        None => Vec::new(),
    }
}

} // verus!
