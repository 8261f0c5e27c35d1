use body_weight_meter::counter::VisitorCounter;
use body_weight_meter::decimal::{decimal_bytes, parse_bounded};

fn count_of(text: &str) -> Option<i32> {
    VisitorCounter::init(text).map(|counter| counter.number_of_visitors())
}

#[test]
fn init_reads_plain_digits() {
    assert_eq!(count_of("5"), Some(5));
    assert_eq!(count_of("0"), Some(0));
    assert_eq!(count_of("1234567"), Some(1234567));
}

#[test]
fn init_takes_one_trailing_line_feed() {
    assert_eq!(count_of("5\n"), Some(5));
    assert_eq!(count_of("5\n\n"), None);
    assert_eq!(count_of("\n5"), None);
    assert_eq!(count_of("5\r\n"), None);
    assert_eq!(count_of("\n"), None);
}

#[test]
fn init_takes_a_sign_and_leading_zeros() {
    assert_eq!(count_of("+7"), Some(7));
    assert_eq!(count_of("-0"), Some(0));
    assert_eq!(count_of("00012"), Some(12));
    assert_eq!(count_of("+"), None);
    assert_eq!(count_of("-"), None);
    assert_eq!(count_of("+-1"), None);
}

#[test]
fn init_refuses_negative_counts() {
    assert_eq!(count_of("-1"), None);
    assert_eq!(count_of("-2147483648"), None);
}

#[test]
fn init_refuses_text_that_is_no_number() {
    assert_eq!(count_of(""), None);
    assert_eq!(count_of("abc"), None);
    assert_eq!(count_of(" 5"), None);
    assert_eq!(count_of("5 "), None);
    assert_eq!(count_of("5.0"), None);
    assert_eq!(count_of("1e3"), None);
    assert_eq!(count_of("٥"), None);
}

#[test]
fn init_holds_to_the_range_of_the_count() {
    assert_eq!(count_of("2147483647"), Some(i32::MAX));
    assert_eq!(count_of("2147483648"), None);
    assert_eq!(count_of("99999999999999999999999999"), None);
    assert_eq!(count_of("000000000000000000000000001"), Some(1));
}

#[test]
fn increment_adds_exactly_one() {
    let mut counter = VisitorCounter::init("41").unwrap();
    assert!(counter.can_increment());
    assert_eq!(counter.increment_and_get(), 42);
    assert_eq!(counter.number_of_visitors(), 42);
}

#[test]
fn repeated_increments_lose_nothing() {
    let mut counter = VisitorCounter::init("10").unwrap();
    let mut seen = Vec::new();
    for _ in 0..1000 {
        seen.push(counter.increment_and_get());
    }
    assert_eq!(counter.number_of_visitors(), 1010);
    for (i, value) in seen.iter().enumerate() {
        assert_eq!(*value, 11 + i as i32);
    }
}

#[test]
fn full_counter_has_no_room() {
    let mut counter = VisitorCounter::init("2147483646").unwrap();
    assert!(counter.can_increment());
    assert_eq!(counter.increment_and_get(), i32::MAX);
    assert!(!counter.can_increment());
}

#[test]
fn persist_writes_digits_without_line_feed() {
    let mut counter = VisitorCounter::init("5\n").unwrap();
    assert_eq!(counter.persist(), "5");
    counter.increment_and_get();
    assert_eq!(counter.persist(), "6");
    assert_eq!(VisitorCounter::init("0").unwrap().persist(), "0");
    assert_eq!(VisitorCounter::init("+0010").unwrap().persist(), "10");
    assert_eq!(VisitorCounter::init("2147483647").unwrap().persist(), "2147483647");
}

#[test]
fn persisted_count_is_read_back() {
    for text in ["0", "9", "10", "99", "100", "4096", "2147483647"] {
        let counter = VisitorCounter::init(text).unwrap();
        let written = counter.persist();
        assert_eq!(written, text);
        let again = VisitorCounter::init(&written).unwrap();
        assert_eq!(again.number_of_visitors(), counter.number_of_visitors());
    }
}

#[test]
fn decimal_bytes_are_the_digits() {
    assert_eq!(decimal_bytes(0), b"0".to_vec());
    assert_eq!(decimal_bytes(7), b"7".to_vec());
    assert_eq!(decimal_bytes(10), b"10".to_vec());
    assert_eq!(decimal_bytes(4_294_967_295), b"4294967295".to_vec());
}

#[test]
fn parse_bounded_holds_to_its_limit() {
    assert_eq!(parse_bounded(b"100", 100), Some(100));
    assert_eq!(parse_bounded(b"101", 100), None);
    assert_eq!(parse_bounded(b"4294967295", u32::MAX), Some(u32::MAX));
    assert_eq!(parse_bounded(b"4294967296", u32::MAX), None);
    assert_eq!(parse_bounded(b"-0", 100), Some(0));
    assert_eq!(parse_bounded(b"-5", 100), None);
    assert_eq!(parse_bounded(b"", 100), None);
    assert_eq!(parse_bounded(b"12a", 100), None);
}

#[test]
fn init_agrees_with_the_standard_parser_on_counts() {
    for text in ["5", "+5", "-0", "007", "2147483647", "2147483648", "", "+", "x", "1 ", "1_0"] {
        let expected = match text.parse::<i32>() {
            Ok(v) if v >= 0 => Some(v),
            _ => None,
        };
        assert_eq!(count_of(text), expected, "{:?}", text);
    }
}
