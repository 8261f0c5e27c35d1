//! What holds of the store and of what is read from it, whatever it holds.
//!
//! The laws speak of a listing of the records as [`is_record_listing`]
//! describes it, which is what listing the records gives. A listing is empty
//! where the database failed while reading; so the laws that promise a
//! record ask for a listing that is not empty.

use vstd::prelude::*;
use vstd::utf8::*;
use crate::record::{
    decode_all,
    decode_entry,
    is_key_of,
    last_slash,
    lemma_decode_all_holds,
    lemma_decoded_record,
    lemma_key_parts,
    lemma_origin,
    lemma_stored_record_is_read_back,
    origin,
    record_key,
    RecordView,
};
use crate::store::{is_listing_of, is_record_listing, key_lt, no_pairs};
use crate::weight::is_weight_literal;

verus! {

/// Of two keys, one at most is below the other, and no key is below
/// itself.
pub proof fn lemma_key_order_is_strict(a: Seq<u8>, b: Seq<u8>)
    ensures
        !(key_lt(a, b) && key_lt(b, a)),
        !key_lt(a, a),
{
    if key_lt(a, b) && key_lt(b, a) {
        let i = choose|i: int|
            #![trigger a.take(i)]
            0 <= i <= a.len() && i < b.len() && a.take(i) == b.take(i) && (i == a.len() || a[i]
                < b[i]);
        let j = choose|j: int|
            #![trigger b.take(j)]
            0 <= j <= b.len() && j < a.len() && b.take(j) == a.take(j) && (j == b.len() || b[j]
                < a[j]);
        if i < j {
            assert(b.take(j)[i] == a.take(j)[i]);
        } else if j < i {
            assert(a.take(i)[j] == b.take(i)[j]);
        }
    }
}

/// What is below a key is below every key above that key.
pub proof fn lemma_key_order_is_transitive(a: Seq<u8>, b: Seq<u8>, c: Seq<u8>)
    requires
        key_lt(a, b),
        key_lt(b, c),
    ensures
        key_lt(a, c),
{
    let i = choose|i: int|
        #![trigger a.take(i)]
        0 <= i <= a.len() && i < b.len() && a.take(i) == b.take(i) && (i == a.len() || a[i]
            < b[i]);
    let j = choose|j: int|
        #![trigger b.take(j)]
        0 <= j <= b.len() && j < c.len() && b.take(j) == c.take(j) && (j == b.len() || b[j]
            < c[j]);
    let k = if i <= j {
        i
    } else {
        j
    };
    assert(a.take(k) =~= c.take(k)) by {
        assert forall|n: int| 0 <= n < k implies a[n] == c[n] by {
            assert(a.take(i)[n] == b.take(i)[n]);
            assert(b.take(j)[n] == c.take(j)[n]);
        }
    }
    if i < j {
        assert(b.take(j)[i] == c.take(j)[i]);
    } else if j < i {
        assert(a.take(i)[j] == b.take(i)[j]);
    }
}

/// Of two different keys one is below the other.
pub proof fn lemma_key_order_is_total(a: Seq<u8>, b: Seq<u8>)
    requires
        a != b,
    ensures
        key_lt(a, b) || key_lt(b, a),
{
    let k = first_difference(a, b);
    lemma_first_difference(a, b);
    assert(a.take(k) =~= b.take(k));
    if k == a.len() || k == b.len() {
        if k == a.len() && k == b.len() {
            assert(a =~= b);
        }
    }
}

/// The first place at which `a` and `b` differ, an end counting as a
/// difference.
pub open spec fn first_difference(a: Seq<u8>, b: Seq<u8>) -> int
    decreases a.len(),
{
    if a.len() == 0 || b.len() == 0 || a[0] != b[0] {
        0
    } else {
        1 + first_difference(a.skip(1), b.skip(1))
    }
}

/// Up to their first difference two keys are the same.
pub proof fn lemma_first_difference(a: Seq<u8>, b: Seq<u8>)
    ensures
        0 <= first_difference(a, b) <= a.len(),
        first_difference(a, b) <= b.len(),
        forall|n: int| 0 <= n < first_difference(a, b) ==> a[n] == b[n],
        first_difference(a, b) < a.len() && first_difference(a, b) < b.len() ==> a[first_difference(
            a,
            b,
        )] != b[first_difference(a, b)],
    decreases a.len(),
{
    if !(a.len() == 0 || b.len() == 0 || a[0] != b[0]) {
        lemma_first_difference(a.skip(1), b.skip(1));
        let k = first_difference(a.skip(1), b.skip(1));
        assert forall|n: int| 0 <= n < k + 1 implies a[n] == b[n] by {
            if n > 0 {
                assert(a.skip(1)[n - 1] == a[n]);
                assert(b.skip(1)[n - 1] == b[n]);
            }
        }
        if k < a.skip(1).len() && k < b.skip(1).len() {
            assert(a.skip(1)[k] == a[k + 1]);
            assert(b.skip(1)[k] == b[k + 1]);
        }
    }
}

/// A store has one listing only.
pub proof fn lemma_listing_is_unique(
    first: Seq<(Seq<u8>, Seq<u8>)>,
    second: Seq<(Seq<u8>, Seq<u8>)>,
    contents: Map<Seq<u8>, Seq<u8>>,
)
    requires
        is_listing_of(first, contents),
        is_listing_of(second, contents),
    ensures
        first == second,
{
    lemma_listings_agree(first, second, contents, first.len() as int);
    lemma_listings_agree(second, first, contents, second.len() as int);
    lemma_listing_has_no_more(first, second, contents);
    lemma_listing_has_no_more(second, first, contents);
    assert forall|i: int| 0 <= i < first.len() implies first[i] == second[i] by {
        assert(first[i].0 == second[i].0);
        assert(first[i].1 == contents[first[i].0]);
        assert(second[i].1 == contents[second[i].0]);
    }
    assert(first =~= second);
}

/// Two listings of one store hold the same keys at the same places, as far
/// as both reach.
proof fn lemma_listings_agree(
    first: Seq<(Seq<u8>, Seq<u8>)>,
    second: Seq<(Seq<u8>, Seq<u8>)>,
    contents: Map<Seq<u8>, Seq<u8>>,
    upto: int,
)
    requires
        is_listing_of(first, contents),
        is_listing_of(second, contents),
        0 <= upto <= first.len(),
    ensures
        forall|i: int| 0 <= i < upto && i < second.len() ==> first[i].0 == second[i].0,
    decreases upto,
{
    if upto > 0 {
        lemma_listings_agree(first, second, contents, upto - 1);
        let i = upto - 1;
        if i < second.len() {
            // where the key at `i` of each listing stands in the other
            assert(contents.contains_key(first[i].0));
            let j = choose|j: int| 0 <= j < second.len() && #[trigger] second[j].0 == first[i].0;
            assert(contents.contains_key(second[i].0));
            let k = choose|k: int| 0 <= k < first.len() && #[trigger] first[k].0 == second[i].0;
            if j < i {
                assert(first[j].0 == second[j].0);
                lemma_key_order_is_strict(first[j].0, first[i].0);
            }
            if k < i {
                lemma_listings_agree(second, first, contents, k + 1);
                assert(second[k].0 == first[k].0);
                lemma_key_order_is_strict(second[k].0, second[i].0);
            }
            if j > i {
                if k > i {
                    lemma_key_order_is_strict(first[i].0, first[k].0);
                } else {
                    lemma_key_order_is_strict(second[i].0, second[j].0);
                }
            }
        }
    }
}

/// Of two listings of one store the second is no longer than the first.
proof fn lemma_listing_has_no_more(
    first: Seq<(Seq<u8>, Seq<u8>)>,
    second: Seq<(Seq<u8>, Seq<u8>)>,
    contents: Map<Seq<u8>, Seq<u8>>,
)
    requires
        is_listing_of(first, contents),
        is_listing_of(second, contents),
    ensures
        second.len() <= first.len(),
{
    if first.len() < second.len() {
        lemma_listings_agree(first, second, contents, first.len() as int);
        let extra = second[first.len() as int].0;
        assert(contents.contains_key(extra));
        let k = choose|k: int| 0 <= k < first.len() && #[trigger] first[k].0 == extra;
        assert(first[k].0 == second[k].0);
        lemma_key_order_is_strict(second[k].0, extra);
    }
}

/// What a reading of a store gives is settled by the store, but for the
/// reading that fails: two listings of the records that are not empty are
/// the same.
pub proof fn lemma_record_listing_is_unique(
    first: Seq<RecordView>,
    second: Seq<RecordView>,
    contents: Map<Seq<u8>, Seq<u8>>,
)
    requires
        is_record_listing(first, contents),
        is_record_listing(second, contents),
        first.len() > 0,
        second.len() > 0,
    ensures
        first == second,
{
    let a = choose|entries: Seq<(Seq<u8>, Seq<u8>)>| #[trigger]
        is_listing_of(entries, contents) && first == decode_all(entries);
    let b = choose|entries: Seq<(Seq<u8>, Seq<u8>)>| #[trigger]
        is_listing_of(entries, contents) && second == decode_all(entries);
    lemma_listing_is_unique(a, b, contents);
}

/// Listing the empty store gives no record.
pub proof fn lemma_empty_store_lists_nothing(records: Seq<RecordView>)
    requires
        is_record_listing(records, no_pairs()),
    ensures
        records.len() == 0,
{
    if records.len() > 0 {
        let entries = choose|entries: Seq<(Seq<u8>, Seq<u8>)>| #[trigger]
            is_listing_of(entries, no_pairs()) && records == decode_all(entries);
        if entries.len() > 0 {
            assert(no_pairs().contains_key(entries[0].0));
        }
    }
}

/// `record` is what the pair under `key` in `contents` stands for.
pub open spec fn stands_under(
    contents: Map<Seq<u8>, Seq<u8>>,
    key: Seq<u8>,
    record: RecordView,
) -> bool {
    contents.contains_key(key) && decode_entry(key, contents[key]) == Some(record)
}

/// Whether `contents` holds a record under `date` alone as its key, without
/// `/`. Such a record is read with an empty time, as the record under
/// `<date>/` is.
pub open spec fn holds_bare_date(contents: Map<Seq<u8>, Seq<u8>>, date: Seq<char>) -> bool {
    last_slash(encode_utf8(date)) < 0 && contents.contains_key(encode_utf8(date)) && decode_entry(
        encode_utf8(date),
        contents[encode_utf8(date)],
    ) is Some
}

/// Every record in a listing stands in the store, under a key that its date
/// and time can stand under: its total is what that key holds, and the total
/// is a weight. A record with a time stands under `<date>/<time>`.
pub proof fn lemma_listed_record_is_stored(
    records: Seq<RecordView>,
    contents: Map<Seq<u8>, Seq<u8>>,
    j: int,
)
    requires
        is_record_listing(records, contents),
        0 <= j < records.len(),
    ensures
        exists|key: Seq<u8>| #[trigger]
            stands_under(contents, key, records[j]) && is_key_of(
                key,
                records[j].date,
                records[j].time,
            ) && contents[key] == encode_utf8(records[j].total),
        is_weight_literal(encode_utf8(records[j].total)),
        records[j].time.len() > 0 ==> contents.contains_key(
            record_key(records[j].date, records[j].time),
        ) && contents[record_key(records[j].date, records[j].time)] == encode_utf8(
            records[j].total,
        ),
{
    let entries = choose|entries: Seq<(Seq<u8>, Seq<u8>)>| #[trigger]
        is_listing_of(entries, contents) && records == decode_all(entries);
    lemma_origin(entries, j);
    let from = entries[origin(entries, j)];
    lemma_decoded_record(from.0, from.1);
    assert(stands_under(contents, from.0, records[j]));
}

/// Every pair of the store that stands for a record has that record in a
/// listing that is not empty.
pub proof fn lemma_stored_record_is_listed(
    records: Seq<RecordView>,
    contents: Map<Seq<u8>, Seq<u8>>,
    key: Seq<u8>,
)
    requires
        is_record_listing(records, contents),
        records.len() > 0,
        contents.contains_key(key),
        decode_entry(key, contents[key]) is Some,
    ensures
        records.contains(decode_entry(key, contents[key])->0),
{
    let entries = choose|entries: Seq<(Seq<u8>, Seq<u8>)>| #[trigger]
        is_listing_of(entries, contents) && records == decode_all(entries);
    let i = choose|i: int| 0 <= i < entries.len() && #[trigger] entries[i].0 == key;
    lemma_decode_all_holds(entries, i);
}

/// The records of a listing stand in ascending order of the keys they
/// stand under. For records with a time that is the order of
/// `<date>/<time>`.
pub proof fn lemma_records_in_key_order(
    records: Seq<RecordView>,
    contents: Map<Seq<u8>, Seq<u8>>,
    i: int,
    j: int,
)
    requires
        is_record_listing(records, contents),
        0 <= i < j < records.len(),
    ensures
        exists|a: Seq<u8>, b: Seq<u8>|
            #![trigger stands_under(contents, a, records[i]), stands_under(contents, b, records[j])]
            key_lt(a, b) && stands_under(contents, a, records[i]) && stands_under(
                contents,
                b,
                records[j],
            ) && is_key_of(a, records[i].date, records[i].time) && is_key_of(
                b,
                records[j].date,
                records[j].time,
            ),
        records[i].time.len() > 0 && records[j].time.len() > 0 ==> key_lt(
            record_key(records[i].date, records[i].time),
            record_key(records[j].date, records[j].time),
        ),
{
    let entries = choose|entries: Seq<(Seq<u8>, Seq<u8>)>| #[trigger]
        is_listing_of(entries, contents) && records == decode_all(entries);
    lemma_origin(entries, i);
    lemma_origin(entries, j);
    let first = entries[origin(entries, i)];
    let second = entries[origin(entries, j)];
    lemma_decoded_record(first.0, first.1);
    lemma_decoded_record(second.0, second.1);
    assert(stands_under(contents, first.0, records[i]));
    assert(stands_under(contents, second.0, records[j]));
}

/// A listing holds one record for a date and a time, but where the time is
/// empty and the store holds the date both alone and as `<date>/`: those are
/// two keys, and each has its record.
pub proof fn lemma_one_record_per_key(
    records: Seq<RecordView>,
    contents: Map<Seq<u8>, Seq<u8>>,
    i: int,
    j: int,
)
    requires
        is_record_listing(records, contents),
        0 <= i < records.len(),
        0 <= j < records.len(),
        records[i].date == records[j].date,
        records[i].time == records[j].time,
    ensures
        i == j || (records[i].time.len() == 0 && holds_bare_date(contents, records[i].date)
            && contents.contains_key(record_key(records[i].date, records[i].time))),
{
    if i != j {
        let (low, high) = if i < j {
            (i, j)
        } else {
            (j, i)
        };
        lemma_records_in_key_order(records, contents, low, high);
        let (a, b) = choose|a: Seq<u8>, b: Seq<u8>|
            #![trigger stands_under(contents, a, records[low]), stands_under(contents, b, records[high])]
            key_lt(a, b) && stands_under(contents, a, records[low]) && stands_under(
                contents,
                b,
                records[high],
            ) && is_key_of(a, records[low].date, records[low].time) && is_key_of(
                b,
                records[high].date,
                records[high].time,
            );
        lemma_key_order_is_strict(a, b);
    }
}

/// After a measurement was stored, a listing that is not empty holds its
/// record: the date, the time and the total as they were sent. This asks
/// that the time holds no `/` and that the total is a weight.
pub proof fn lemma_inserted_record_is_listed(
    before: Map<Seq<u8>, Seq<u8>>,
    date: Seq<char>,
    time: Seq<char>,
    total: Seq<char>,
    records: Seq<RecordView>,
)
    requires
        !time.contains('/'),
        is_weight_literal(encode_utf8(total)),
        is_record_listing(records, before.insert(record_key(date, time), encode_utf8(total))),
        records.len() > 0,
    ensures
        records.contains(RecordView { date, time, total }),
{
    let after = before.insert(record_key(date, time), encode_utf8(total));
    lemma_stored_record_is_read_back(date, time, total);
    lemma_stored_record_is_listed(records, after, record_key(date, time));
}

/// After two measurements were stored for one date and time, the store is
/// as if only the second had been stored; a listing that is not empty holds
/// the record of the second, and no other record for that date and time.
/// This asks that the time holds no `/` and that the second total is a
/// weight. Where the time is empty it asks as well that the store held no
/// record under the date alone, which would be read with the same date and
/// time.
pub proof fn lemma_latest_total_wins(
    before: Map<Seq<u8>, Seq<u8>>,
    date: Seq<char>,
    time: Seq<char>,
    first: Seq<char>,
    second: Seq<char>,
    records: Seq<RecordView>,
)
    requires
        !time.contains('/'),
        is_weight_literal(encode_utf8(second)),
        time.len() > 0 || !holds_bare_date(before, date),
        is_record_listing(
            records,
            before.insert(record_key(date, time), encode_utf8(first)).insert(
                record_key(date, time),
                encode_utf8(second),
            ),
        ),
        records.len() > 0,
    ensures
        before.insert(record_key(date, time), encode_utf8(first)).insert(
            record_key(date, time),
            encode_utf8(second),
        ) == before.insert(record_key(date, time), encode_utf8(second)),
        exists|i: int|
            0 <= i < records.len() && #[trigger] records[i] == (RecordView {
                date,
                time,
                total: second,
            }) && forall|j: int|
                0 <= j < records.len() && records[j].date == date && records[j].time == time
                    ==> j == i,
{
    let key = record_key(date, time);
    let after = before.insert(key, encode_utf8(first)).insert(key, encode_utf8(second));
    assert(after =~= before.insert(key, encode_utf8(second)));
    lemma_inserted_record_is_listed(before, date, time, second, records);
    lemma_key_parts(date, time);
    let wanted = RecordView { date, time, total: second };
    let i = choose|i: int| 0 <= i < records.len() && records[i] == wanted;
    assert forall|j: int|
        0 <= j < records.len() && records[j].date == date && records[j].time == time implies j
        == i by {
        lemma_one_record_per_key(records, after, i, j);
        if i != j {
            assert(after[encode_utf8(date)] == before[encode_utf8(date)]);
            assert(holds_bare_date(before, date));
        }
    }
}

} // verus!
