use body_weight_meter::record::MeasurementRecord;
use body_weight_meter::store::{pairs_read, records_read, write_taken, RecordStore};

fn failure() -> sled::Error {
    sled::Error::Unsupported("the database is not there".to_string())
}

fn fresh_store() -> RecordStore {
    RecordStore::new(sled::Config::new().temporary(true).open().unwrap())
}

fn fields(record: &MeasurementRecord) -> (String, String, String) {
    (record.date.clone(), record.time.clone(), record.total.clone())
}

fn owned(date: &str, time: &str, total: &str) -> (String, String, String) {
    (date.to_string(), time.to_string(), total.to_string())
}

fn listed(store: &RecordStore) -> Vec<(String, String, String)> {
    store.list_all().iter().map(fields).collect()
}

#[test]
fn a_fresh_store_is_empty() {
    let store = fresh_store();
    assert_eq!(store.read_entries(), Some(Vec::new()));
    assert!(store.list_all().is_empty());
}

#[test]
fn an_inserted_measurement_is_listed() {
    let mut store = fresh_store();
    assert!(store.insert("2024-01-01", "08:00", "70.5"));
    assert_eq!(listed(&store), vec![owned("2024-01-01", "08:00", "70.5")]);
    let records = store.list_all();
    assert_eq!(records[0].total.parse::<f32>(), Ok(70.5));
}

#[test]
fn the_store_holds_the_bytes_that_were_sent() {
    let mut store = fresh_store();
    assert!(store.insert("2024-01-01", "08:00", "70.5"));
    assert_eq!(
        store.read_entries(),
        Some(vec![(b"2024-01-01/08:00".to_vec(), b"70.5".to_vec())])
    );
}

#[test]
fn a_second_insert_for_a_key_takes_the_place_of_the_first() {
    let mut store = fresh_store();
    assert!(store.insert("2024-01-01", "08:00", "70.5"));
    assert!(store.insert("2024-01-01", "08:00", "69.9"));
    assert_eq!(listed(&store), vec![owned("2024-01-01", "08:00", "69.9")]);
    assert_eq!(store.read_entries().unwrap().len(), 1);
}

#[test]
fn inserting_what_is_there_changes_nothing() {
    let mut store = fresh_store();
    assert!(store.insert("2024-01-01", "08:00", "70.5"));
    assert!(store.insert("2024-01-01", "08:00", "70.5"));
    assert_eq!(listed(&store), vec![owned("2024-01-01", "08:00", "70.5")]);
}

#[test]
fn records_are_listed_in_key_order() {
    let mut store = fresh_store();
    assert!(store.insert("2024-01-03", "08:00", "3"));
    assert!(store.insert("2024-01-01", "20:00", "2"));
    assert!(store.insert("2024-01-02", "08:00", "2.5"));
    assert!(store.insert("2024-01-01", "08:00", "1"));
    assert!(store.insert("2023-12-31", "23:59", "0"));
    assert_eq!(
        listed(&store),
        vec![
            owned("2023-12-31", "23:59", "0"),
            owned("2024-01-01", "08:00", "1"),
            owned("2024-01-01", "20:00", "2"),
            owned("2024-01-02", "08:00", "2.5"),
            owned("2024-01-03", "08:00", "3"),
        ]
    );
}

#[test]
fn key_order_goes_by_bytes_and_a_prefix_comes_first() {
    let mut store = fresh_store();
    for date in ["b", "ab", "a", "B", "", "aa", "é", "a0"] {
        assert!(store.insert(date, "t", "1"));
    }
    let dates: Vec<String> = store.list_all().iter().map(|r| r.date.clone()).collect();
    assert_eq!(dates, vec!["", "B", "a", "a0", "aa", "ab", "b", "é"]);
}

#[test]
fn a_total_that_is_no_weight_is_stored_and_not_listed() {
    let mut store = fresh_store();
    assert!(store.insert("2024-01-01", "08:00", "heavy"));
    assert!(store.insert("2024-01-02", "08:00", "70.5"));
    assert_eq!(store.read_entries().unwrap().len(), 2);
    assert_eq!(listed(&store), vec![owned("2024-01-02", "08:00", "70.5")]);
    // a later weight for the same key is listed
    assert!(store.insert("2024-01-01", "08:00", "71"));
    assert_eq!(
        listed(&store),
        vec![owned("2024-01-01", "08:00", "71"), owned("2024-01-02", "08:00", "70.5")]
    );
}

#[test]
fn clearing_removes_every_pair() {
    let mut store = fresh_store();
    assert!(store.insert("2024-01-01", "08:00", "70.5"));
    assert!(store.insert("2024-01-02", "08:00", "heavy"));
    assert!(store.clear_all());
    assert_eq!(store.read_entries(), Some(Vec::new()));
    assert!(store.list_all().is_empty());
}

#[test]
fn clearing_an_empty_store_is_fine() {
    let mut store = fresh_store();
    assert!(store.clear_all());
    assert!(store.list_all().is_empty());
}

#[test]
fn a_cleared_store_takes_new_measurements() {
    let mut store = fresh_store();
    assert!(store.insert("2024-01-01", "08:00", "70.5"));
    assert!(store.clear_all());
    assert!(store.insert("2024-01-05", "09:00", "70"));
    assert_eq!(listed(&store), vec![owned("2024-01-05", "09:00", "70")]);
}

#[test]
fn pairs_written_by_others_are_listed_when_they_are_text_and_weight() {
    let db = sled::Config::new().temporary(true).open().unwrap();
    db.insert(&[0xffu8, 0x2f, 0x61][..], &b"70.5"[..]).unwrap();
    db.insert(&b"no-separator"[..], &b"70.5"[..]).unwrap();
    db.insert(&b"2024-01-01/08:00"[..], &[0x37u8, 0xff][..]).unwrap();
    db.insert(&b"2024-01-02/08:00"[..], &b"70.5"[..]).unwrap();
    let store = RecordStore::new(db);
    assert_eq!(store.read_entries().unwrap().len(), 4);
    assert_eq!(
        listed(&store),
        vec![owned("2024-01-02", "08:00", "70.5"), owned("no-separator", "", "70.5")]
    );
}

#[test]
fn a_store_that_holds_only_a_key_without_slash_lists_one_record() {
    let db = sled::Config::new().temporary(true).open().unwrap();
    db.insert(&b"k"[..], &b"70.5"[..]).unwrap();
    let store = RecordStore::new(db);
    assert_eq!(listed(&store), vec![owned("k", "", "70.5")]);
}

#[test]
fn a_date_alone_and_the_same_date_with_an_empty_time_are_two_records() {
    let db = sled::Config::new().temporary(true).open().unwrap();
    db.insert(&b"2024-01-01"[..], &b"70.5"[..]).unwrap();
    let mut store = RecordStore::new(db);
    assert!(store.insert("2024-01-01", "", "71"));
    assert_eq!(
        listed(&store),
        vec![owned("2024-01-01", "", "70.5"), owned("2024-01-01", "", "71")]
    );
}

#[test]
fn many_measurements_come_back_sorted_and_whole() {
    let mut store = fresh_store();
    let mut expected = Vec::new();
    for day in (1..=28).rev() {
        for hour in [20, 8] {
            let date = format!("2024-02-{:02}", day);
            let time = format!("{:02}:00", hour);
            let total = format!("{}.{}", 60 + day, hour);
            assert!(store.insert(&date, &time, &total));
            expected.push((date, time, total));
        }
    }
    expected.sort();
    assert_eq!(listed(&store), expected);
}

#[test]
fn a_write_is_taken_unless_the_database_reports_an_error() {
    assert!(write_taken(Ok(())));
    assert!(!write_taken(Err(failure())));
}

#[test]
fn pairs_are_read_unless_the_database_reports_an_error() {
    let pairs = vec![(b"2024-01-01/08:00".to_vec(), b"70.5".to_vec())];
    assert_eq!(pairs_read(Ok(pairs.clone())), Some(pairs));
    assert_eq!(pairs_read(Ok(Vec::new())), Some(Vec::new()));
    assert_eq!(pairs_read(Err(failure())), None);
}

#[test]
fn a_failed_reading_gives_no_records() {
    assert!(records_read(None).is_empty());
}

#[test]
fn a_reading_gives_the_records_of_its_pairs() {
    let pairs = vec![
        (b"2024-01-01/08:00".to_vec(), b"70.5".to_vec()),
        (b"2024-01-01/20:00".to_vec(), b"heavy".to_vec()),
        (b"2024-01-02/08:00".to_vec(), b"71".to_vec()),
        (b"2024-01-03".to_vec(), b"72".to_vec()),
    ];
    let got: Vec<_> = records_read(Some(pairs)).iter().map(fields).collect();
    assert_eq!(
        got,
        vec![
            owned("2024-01-01", "08:00", "70.5"),
            owned("2024-01-02", "08:00", "71"),
            owned("2024-01-03", "", "72"),
        ]
    );
    assert!(records_read(Some(Vec::new())).is_empty());
}
