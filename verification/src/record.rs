//! Measurement records and the key/value pairs they are stored as.
//!
//! A measurement is stored under the key `<date>/<time>`, with its total as
//! the value. Reading a pair back, the key is parted at its last `/`: what
//! stands before it is the date, what follows it is the time. A key without
//! `/` is a date with an empty time.

use vstd::prelude::*;
use vstd::slice::slice_to_vec;
use vstd::utf8::*;
use crate::text::from_utf8s;
use crate::weight::{is_weight_literal, is_weight_text};

verus! {

/// `'/'`, which parts date and time in a key.
pub const SLASH: u8 = 0x2f;

/// What a record is, as text.
pub struct RecordView {
    pub date: Seq<char>,
    pub time: Seq<char>,
    pub total: Seq<char>,
}

/// One measurement as it is read back from the store.
#[derive(Clone, Debug, PartialEq, Eq)]
pub struct MeasurementRecord {
    pub date: String,
    pub time: String,
    pub total: String,
}

impl View for MeasurementRecord {
    type V = RecordView;

    open spec fn view(&self) -> RecordView {
        RecordView { date: self.date@, time: self.time@, total: self.total@ }
    }
}

/// The views of a list of records.
pub open spec fn records_view(records: Seq<MeasurementRecord>) -> Seq<RecordView> {
    records.map_values(|r: MeasurementRecord| r@)
}

/// The views of a list of raw key/value pairs.
pub open spec fn entries_view(entries: Seq<(Vec<u8>, Vec<u8>)>) -> Seq<(Seq<u8>, Seq<u8>)> {
    entries.map_values(|e: (Vec<u8>, Vec<u8>)| (e.0@, e.1@))
}

/// The key under which the measurement of `date` and `time` is stored:
/// the bytes of `<date>/<time>`.
pub open spec fn record_key(date: Seq<char>, time: Seq<char>) -> Seq<u8> {
    encode_utf8(date) + seq![SLASH] + encode_utf8(time)
}

/// The place of the last `/` in `key`, or -1 where it has none.
pub open spec fn last_slash(key: Seq<u8>) -> int
    decreases key.len(),
{
    if key.len() == 0 {
        -1
    } else if key.last() == SLASH {
        key.len() - 1
    } else {
        last_slash(key.drop_last())
    }
}

/// The bytes of the date and of the time in `key`: what stands before its
/// last `/` and what follows it. A key without `/` is all date, and its time
/// is empty.
pub open spec fn split_key(key: Seq<u8>) -> (Seq<u8>, Seq<u8>) {
    let at = last_slash(key);
    if at < 0 {
        (key, Seq::empty())
    } else {
        (key.take(at), key.skip(at + 1))
    }
}

/// Whether a record of `date` and `time` can stand under `key`: the key is
/// `<date>/<time>` or, where it has no `/`, the date with the time empty.
pub open spec fn is_key_of(key: Seq<u8>, date: Seq<char>, time: Seq<char>) -> bool {
    if last_slash(key) < 0 {
        key == encode_utf8(date) && time.len() == 0
    } else {
        key == record_key(date, time)
    }
}

/// The record that a stored pair stands for. A pair stands for one exactly
/// when its key and its value are well-formed UTF-8 and its value is a
/// weight.
pub open spec fn decode_entry(key: Seq<u8>, value: Seq<u8>) -> Option<RecordView> {
    if valid_utf8(key) && valid_utf8(value) && is_weight_literal(value) {
        let parts = split_key(key);
        Some(
            RecordView {
                date: decode_utf8(parts.0),
                time: decode_utf8(parts.1),
                total: decode_utf8(value),
            },
        )
    } else {
        None
    }
}

/// The records that a list of stored pairs stands for, in the order of the
/// pairs; pairs that stand for no record are passed over.
pub open spec fn decode_all(entries: Seq<(Seq<u8>, Seq<u8>)>) -> Seq<RecordView>
    decreases entries.len(),
{
    if entries.len() == 0 {
        Seq::empty()
    } else {
        let before = decode_all(entries.drop_last());
        match decode_entry(entries.last().0, entries.last().1) {
            Some(record) => before.push(record),
            None => before,
        }
    }
}

/// `last_slash` is the place of a `/` after which no `/` comes, and is -1
/// only where there is no `/` at all.
pub proof fn lemma_last_slash(key: Seq<u8>)
    ensures
        -1 <= last_slash(key) < key.len(),
        last_slash(key) >= 0 ==> key[last_slash(key)] == SLASH,
        forall|j: int| last_slash(key) < j < key.len() ==> #[trigger] key[j] != SLASH,
    decreases key.len(),
{
    if key.len() > 0 && key.last() != SLASH {
        lemma_last_slash(key.drop_last());
        assert forall|j: int| last_slash(key) < j < key.len() implies #[trigger] key[j]
            != SLASH by {
            if j < key.len() - 1 {
                assert(key.drop_last()[j] == key[j]);
            }
        }
    }
}

/// A `/` after which no `/` comes is the last one.
pub proof fn lemma_last_slash_is(key: Seq<u8>, at: int)
    requires
        -1 <= at < key.len(),
        at >= 0 ==> key[at] == SLASH,
        forall|j: int| at < j < key.len() ==> #[trigger] key[j] != SLASH,
    ensures
        last_slash(key) == at,
{
    lemma_last_slash(key);
}

/// The bytes that encode one character other than `/` hold no `/`.
proof fn lemma_scalar_without_slash(c: char)
    requires
        c != '/',
    ensures
        forall|i: int|
            0 <= i < encode_scalar(c as u32).len() ==> #[trigger] encode_scalar(c as u32)[i]
                != SLASH,
{
    let s = c as u32;
    char_is_scalar(c);
    assert(s != 0x2f) by {
        if s == 0x2f {
            char_u32_cast(c, s);
            char_u32_cast('/', s);
        }
    }
    assert(has_width_1_encoding(s) ==> leading_byte_width_1(s) != 0x2f) by (bit_vector)
        requires
            s != 0x2f,
    ;
    assert(leading_byte_width_2(s) >= 0x80) by (bit_vector);
    assert(leading_byte_width_3(s) >= 0x80) by (bit_vector);
    assert(leading_byte_width_4(s) >= 0x80) by (bit_vector);
    assert(last_continuation_byte(s) >= 0x80) by (bit_vector);
    assert(second_last_continuation_byte(s) >= 0x80) by (bit_vector);
    assert(third_last_continuation_byte(s) >= 0x80) by (bit_vector);
}

/// Text without `/` is encoded in bytes without `/`.
pub proof fn lemma_encoding_without_slash(text: Seq<char>)
    requires
        !text.contains('/'),
    ensures
        !encode_utf8(text).contains(SLASH),
    decreases text.len(),
{
    if text.len() > 0 {
        let head = encode_scalar(text[0] as u32);
        let tail = encode_utf8(text.drop_first());
        assert(text.contains(text[0]));
        lemma_scalar_without_slash(text[0]);
        assert(!text.drop_first().contains('/')) by {
            if text.drop_first().contains('/') {
                let k = choose|k: int|
                    0 <= k < text.drop_first().len() && text.drop_first()[k] == '/';
                assert(text[k + 1] == '/');
            }
        }
        lemma_encoding_without_slash(text.drop_first());
        assert forall|i: int| 0 <= i < (head + tail).len() implies (head + tail)[i] != SLASH by {
            if i >= head.len() {
                assert(tail.contains(tail[i - head.len()]));
            }
        }
    }
}

/// The key of a date and a time is parted into the two again, as long as
/// the time holds no `/`.
pub proof fn lemma_key_parts(date: Seq<char>, time: Seq<char>)
    requires
        !time.contains('/'),
    ensures
        last_slash(record_key(date, time)) == encode_utf8(date).len(),
        split_key(record_key(date, time)) == (encode_utf8(date), encode_utf8(time)),
{
    let key = record_key(date, time);
    let at = encode_utf8(date).len() as int;
    lemma_encoding_without_slash(time);
    assert forall|j: int| at < j < key.len() implies #[trigger] key[j] != SLASH by {
        assert(key[j] == encode_utf8(time)[j - at - 1]);
        assert(encode_utf8(time).contains(encode_utf8(time)[j - at - 1]));
    }
    assert(key[at] == SLASH);
    lemma_last_slash_is(key, at);
    assert(key.take(at) =~= encode_utf8(date));
    assert(key.skip(at + 1) =~= encode_utf8(time));
}

/// The two parts of a well-formed key are well-formed. A key with a `/` is
/// its two parts with a `/` between them; a key without is its first part,
/// and its second part is empty.
pub proof fn lemma_split_key_parts(key: Seq<u8>)
    requires
        valid_utf8(key),
    ensures
        valid_utf8(split_key(key).0),
        valid_utf8(split_key(key).1),
        last_slash(key) >= 0 ==> key == split_key(key).0 + seq![SLASH] + split_key(key).1,
        last_slash(key) < 0 ==> key == split_key(key).0 && split_key(key).1.len() == 0,
{
    let at = last_slash(key);
    lemma_last_slash(key);
    if at >= 0 {
        is_char_boundary_iff_not_is_continuation_byte(key, at);
        valid_utf8_split(key, at);
        let rest = key.subrange(at, key.len() as int);
        assert(rest[0] == SLASH);
        assert(is_char_boundary(rest, 1)) by {
            reveal_with_fuel(is_char_boundary, 2);
            reveal_with_fuel(valid_utf8, 2);
        }
        valid_utf8_split(rest, 1);
        assert(rest.subrange(1, rest.len() as int) =~= key.skip(at + 1));
        assert(key =~= key.take(at) + seq![SLASH] + key.skip(at + 1));
    }
}

/// A record that was read from a pair leads back to that pair: the key is
/// one under which its date and time can stand, its total is the value, and
/// the total is a weight.
pub proof fn lemma_decoded_record(key: Seq<u8>, value: Seq<u8>)
    requires
        decode_entry(key, value) is Some,
    ensures
        decode_entry(key, value) matches Some(r) && is_key_of(key, r.date, r.time)
            && encode_utf8(r.total) == value && is_weight_literal(encode_utf8(r.total)),
{
    lemma_split_key_parts(key);
    let parts = split_key(key);
    decode_utf8_encode_utf8(parts.0);
    decode_utf8_encode_utf8(parts.1);
    decode_utf8_encode_utf8(value);
}

/// A weight that stands under a date alone, without `/`, is read back as a
/// record of that date with an empty time.
pub proof fn lemma_bare_key_is_read_as_date(date: Seq<char>, total: Seq<char>)
    requires
        !date.contains('/'),
        is_weight_literal(encode_utf8(total)),
    ensures
        decode_entry(encode_utf8(date), encode_utf8(total)) == Some(
            RecordView { date, time: Seq::empty(), total },
        ),
{
    let key = encode_utf8(date);
    lemma_encoding_without_slash(date);
    assert forall|j: int| -1 < j < key.len() implies #[trigger] key[j] != SLASH by {
        assert(key.contains(key[j]));
    }
    lemma_last_slash_is(key, -1);
    encode_utf8_valid_utf8(date);
    encode_utf8_valid_utf8(total);
    encode_utf8_decode_utf8(date);
    encode_utf8_decode_utf8(total);
    assert(decode_utf8(Seq::<u8>::empty()) =~= Seq::<char>::empty());
}

/// A measurement that is stored as the service stores it is read back as it
/// was sent, as long as its time holds no `/` and its total is a weight.
pub proof fn lemma_stored_record_is_read_back(date: Seq<char>, time: Seq<char>, total: Seq<char>)
    requires
        !time.contains('/'),
        is_weight_literal(encode_utf8(total)),
    ensures
        decode_entry(record_key(date, time), encode_utf8(total)) == Some(
            RecordView { date, time, total },
        ),
{
    lemma_key_parts(date, time);
    encode_utf8_valid_utf8(date);
    encode_utf8_valid_utf8(time);
    encode_utf8_valid_utf8(total);
    assert(valid_utf8(seq![SLASH])) by {
        reveal_with_fuel(valid_utf8, 2);
    }
    valid_utf8_concat(encode_utf8(date), seq![SLASH]);
    valid_utf8_concat(encode_utf8(date) + seq![SLASH], encode_utf8(time));
    encode_utf8_decode_utf8(date);
    encode_utf8_decode_utf8(time);
    encode_utf8_decode_utf8(total);
}

/// Which pair the record at place `j` of `decode_all(entries)` was read
/// from.
pub open spec fn origin(entries: Seq<(Seq<u8>, Seq<u8>)>, j: int) -> int
    decreases entries.len(),
{
    if entries.len() == 0 {
        0
    } else if decode_entry(entries.last().0, entries.last().1) is Some && j == decode_all(
        entries.drop_last(),
    ).len() {
        entries.len() - 1
    } else {
        origin(entries.drop_last(), j)
    }
}

/// Each record of `decode_all(entries)` was read from the pair at its
/// origin, and records keep the order of their pairs.
pub proof fn lemma_origin(entries: Seq<(Seq<u8>, Seq<u8>)>, j: int)
    requires
        0 <= j < decode_all(entries).len(),
    ensures
        0 <= origin(entries, j) < entries.len(),
        decode_entry(entries[origin(entries, j)].0, entries[origin(entries, j)].1) == Some(
            decode_all(entries)[j],
        ),
        forall|k: int| 0 <= k < j ==> origin(entries, k) < origin(entries, j),
    decreases entries.len(),
{
    if entries.len() > 0 {
        let front = entries.drop_last();
        if decode_entry(entries.last().0, entries.last().1) is Some && j == decode_all(
            front,
        ).len() {
            assert forall|k: int| 0 <= k < j implies origin(entries, k) < origin(entries, j) by {
                lemma_origin(front, k);
            }
        } else {
            lemma_origin(front, j);
            assert(entries[origin(front, j)] == front[origin(front, j)]);
            assert forall|k: int| 0 <= k < j implies origin(entries, k) < origin(entries, j) by {
                lemma_origin(front, k);
            }
        }
    }
}

/// A pair that stands for a record has that record in `decode_all`.
pub proof fn lemma_decode_all_holds(entries: Seq<(Seq<u8>, Seq<u8>)>, i: int)
    requires
        0 <= i < entries.len(),
        decode_entry(entries[i].0, entries[i].1) is Some,
    ensures
        decode_all(entries).contains(decode_entry(entries[i].0, entries[i].1)->0),
    decreases entries.len(),
{
    let front = entries.drop_last();
    let record = decode_entry(entries[i].0, entries[i].1)->0;
    if i == entries.len() - 1 {
        assert(decode_all(entries).last() == record);
    } else {
        assert(front[i] == entries[i]);
        lemma_decode_all_holds(front, i);
        let j = choose|j: int| 0 <= j < decode_all(front).len() && decode_all(front)[j] == record;
        assert(decode_all(entries)[j] == record);
    }
}

/// Parts a key at its last `/` into date and time; a key without `/` is all
/// date.
pub fn split_key_text(key: &str) -> (parts: (String, String))
    ensures
        split_key(encode_utf8(key@)) == (encode_utf8(parts.0@), encode_utf8(parts.1@)),
{
    let bytes = key.as_bytes();
    let ghost raw = encode_utf8(key@);
    let mut end: usize = bytes.len();
    while end > 0 && bytes[end - 1] != SLASH
        invariant
            end <= bytes@.len(),
            forall|j: int| end <= j < bytes@.len() ==> #[trigger] bytes@[j] != SLASH,
        decreases end,
    {
        end = end - 1;
    }
    if end == 0 {
        proof {
            lemma_last_slash_is(raw, -1);
        }
        let time = String::new();
        assert(encode_utf8(time@) =~= Seq::<u8>::empty());
        return (key.to_owned(), time);
    }
    let at: usize = end - 1;
    proof {
        lemma_last_slash_is(raw, at as int);
        encode_utf8_valid_utf8(key@);
        is_char_boundary_iff_not_is_continuation_byte(raw, at as int);
    }
    let (date, rest) = key.split_at(at);
    proof {
        let tail = encode_utf8(rest@);
        encode_utf8_valid_utf8(rest@);
        assert(tail[0] == raw[at as int]);
        assert(is_char_boundary(tail, 1)) by {
            reveal_with_fuel(is_char_boundary, 2);
            reveal_with_fuel(valid_utf8, 2);
        }
    }
    let (_slash, time) = rest.split_at(1);
    proof {
        assert(encode_utf8(date@) == raw.take(at as int));
        assert(encode_utf8(time@) == raw.skip(at + 1));
    }
    (date.to_owned(), time.to_owned())
}

/// Reads one stored pair as a record, if it stands for one.
pub fn decode_pair(key: &[u8], value: &[u8]) -> (record: Option<MeasurementRecord>)
    ensures
        record is Some <==> decode_entry(key@, value@) is Some,
        record matches Some(r) ==> r@ == decode_entry(key@, value@)->0,
{
    match from_utf8s((slice_to_vec(key), slice_to_vec(value))) {
        None => None,
        Some((data, weight)) => {
            if !is_weight_text(weight.as_str()) {
                return None;
            }
            let (date, time) = split_key_text(data.as_str());
            proof {
                encode_utf8_decode_utf8(date@);
                encode_utf8_decode_utf8(time@);
            }
            Some(MeasurementRecord { date, time, total: weight })
        },
    }
}

/// Reads stored pairs as records, in their order, passing over the pairs
/// that stand for none.
pub fn decode_entries(entries: &Vec<(Vec<u8>, Vec<u8>)>) -> (records: Vec<MeasurementRecord>)
    ensures
        records_view(records@) == decode_all(entries_view(entries@)),
{
    let ghost raw = entries_view(entries@);
    let mut records: Vec<MeasurementRecord> = Vec::new();
    let mut i: usize = 0;
    while i < entries.len()
        invariant
            i <= entries@.len(),
            raw == entries_view(entries@),
            records_view(records@) == decode_all(raw.take(i as int)),
        decreases entries@.len() - i,
    {
        let ghost before = records_view(records@);
        let found = decode_pair(entries[i].0.as_slice(), entries[i].1.as_slice());
        proof {
            assert(raw.take(i + 1).drop_last() == raw.take(i as int));
            assert(raw.take(i + 1).last() == (entries@[i as int].0@, entries@[i as int].1@));
        }
        match found {
            Some(record) => {
                records.push(record);
                assert(records_view(records@) == before.push(record@));
            },
            None => {},
        }
        i = i + 1;
    }
    assert(raw.take(i as int) == raw);
    records
}

} // verus!
