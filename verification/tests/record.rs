use body_weight_meter::record::{decode_entries, decode_pair, split_key_text, MeasurementRecord};
use body_weight_meter::store::record_key_bytes;

fn fields(record: &MeasurementRecord) -> (String, String, String) {
    (record.date.clone(), record.time.clone(), record.total.clone())
}

fn owned(date: &str, time: &str, total: &str) -> (String, String, String) {
    (date.to_string(), time.to_string(), total.to_string())
}

#[test]
fn the_key_is_date_slash_time() {
    assert_eq!(record_key_bytes("2024-01-01", "08:00"), b"2024-01-01/08:00".to_vec());
    assert_eq!(record_key_bytes("", ""), b"/".to_vec());
    assert_eq!(record_key_bytes("d", ""), b"d/".to_vec());
    assert_eq!(record_key_bytes("", "t"), b"/t".to_vec());
    assert_eq!(record_key_bytes("日", "時"), "日/時".as_bytes().to_vec());
}

#[test]
fn a_key_is_parted_at_its_last_slash() {
    assert_eq!(
        split_key_text("2024-01-01/08:00"),
        ("2024-01-01".to_string(), "08:00".to_string())
    );
    assert_eq!(
        split_key_text("2024/01/01/08:00"),
        ("2024/01/01".to_string(), "08:00".to_string())
    );
    assert_eq!(split_key_text("/"), (String::new(), String::new()));
    assert_eq!(split_key_text("a/"), ("a".to_string(), String::new()));
    assert_eq!(split_key_text("/b"), (String::new(), "b".to_string()));
    assert_eq!(split_key_text("//"), ("/".to_string(), String::new()));
    assert_eq!(split_key_text("日付/時刻"), ("日付".to_string(), "時刻".to_string()));
}

#[test]
fn a_key_without_slash_is_all_date() {
    assert_eq!(split_key_text(""), (String::new(), String::new()));
    assert_eq!(split_key_text("2024-01-01"), ("2024-01-01".to_string(), String::new()));
    // U+012F and U+2F00 hold the byte 0x2f in other encodings, not in UTF-8
    assert_eq!(
        split_key_text("\u{12f}\u{2f00}"),
        ("\u{12f}\u{2f00}".to_string(), String::new())
    );
}

#[test]
fn a_pair_under_a_key_without_slash_is_a_record_of_that_date() {
    let record = decode_pair(b"k", b"70.5").unwrap();
    assert_eq!(fields(&record), owned("k", "", "70.5"));
    let record = decode_pair(b"2024-01-01", b"-1e3").unwrap();
    assert_eq!(fields(&record), owned("2024-01-01", "", "-1e3"));
    let record = decode_pair(b"", b"0").unwrap();
    assert_eq!(fields(&record), owned("", "", "0"));
}

#[test]
fn a_date_alone_and_a_date_with_an_empty_time_are_read_alike() {
    let bare = decode_pair(b"2024-01-01", b"70.5").unwrap();
    let slashed = decode_pair(b"2024-01-01/", b"70.5").unwrap();
    assert_eq!(fields(&bare), fields(&slashed));
}

#[test]
fn a_stored_pair_is_read_as_a_record() {
    let record = decode_pair(b"2024-01-01/08:00", b"70.5").unwrap();
    assert_eq!(fields(&record), owned("2024-01-01", "08:00", "70.5"));
    assert_eq!(record.total.parse::<f32>(), Ok(70.5));
}

#[test]
fn what_the_key_of_a_measurement_holds_is_read_back() {
    for (date, time, total) in [
        ("2024-01-01", "08:00", "70.5"),
        ("2024/01/01", "08:00", "-1e3"),
        ("", "", "inf"),
        ("月曜日", "朝", ".5"),
    ] {
        let key = record_key_bytes(date, time);
        let record = decode_pair(&key, total.as_bytes()).unwrap();
        assert_eq!(fields(&record), owned(date, time, total));
    }
}

#[test]
fn a_slash_in_the_time_moves_into_the_date() {
    let key = record_key_bytes("2024-01-01", "08/00");
    let record = decode_pair(&key, b"70.5").unwrap();
    assert_eq!(fields(&record), owned("2024-01-01/08", "00", "70.5"));
}

#[test]
fn pairs_that_stand_for_no_record_are_told() {
    // the value is no weight
    assert!(decode_pair(b"2024-01-01/08:00", b"heavy").is_none());
    assert!(decode_pair(b"2024-01-01/08:00", b"").is_none());
    assert!(decode_pair(b"2024-01-01/08:00", b"70.5 ").is_none());
    // the value is not UTF-8
    assert!(decode_pair(b"2024-01-01/08:00", &[0x37, 0x30, 0xff]).is_none());
    // the key is not UTF-8
    assert!(decode_pair(&[0xff, 0x2f, 0x61], b"70.5").is_none());
    assert!(decode_pair(&[0x61, 0x2f, 0xc3], b"70.5").is_none());
    // not even a key without slash helps a value that is no weight
    assert!(decode_pair(b"2024-01-01", b"heavy").is_none());
    assert!(decode_pair(&[0xff], b"70.5").is_none());
}

#[test]
fn records_keep_the_order_of_their_pairs() {
    let entries = vec![
        (b"2024-01-01/08:00".to_vec(), b"70.5".to_vec()),
        (b"2024-01-01/20:00".to_vec(), b"oops".to_vec()),
        (vec![0xff], b"71".to_vec()),
        (b"2024-01-02/08:00".to_vec(), b"70.1".to_vec()),
        (b"no-separator".to_vec(), b"70.2".to_vec()),
        (b"2024-01-03/08:00".to_vec(), b"7e1".to_vec()),
    ];
    let records = decode_entries(&entries);
    let got: Vec<_> = records.iter().map(fields).collect();
    assert_eq!(
        got,
        vec![
            owned("2024-01-01", "08:00", "70.5"),
            owned("2024-01-02", "08:00", "70.1"),
            owned("no-separator", "", "70.2"),
            owned("2024-01-03", "08:00", "7e1"),
        ]
    );
}

#[test]
fn no_pairs_give_no_records() {
    assert!(decode_entries(&Vec::new()).is_empty());
}
