use tsunami::cli::{check_probes, ConfigError, PortRange, RangeError};
use tsunami::text::{read_digits, to_decimal};

#[test]
fn reads_a_range() {
    assert_eq!(PortRange::from_str("80-82"), Ok(PortRange { start: 80, end: 82 }));
    assert_eq!("1000-1031".parse::<PortRange>(), Ok(PortRange { start: 1000, end: 1031 }));
}

#[test]
fn reads_the_widest_range() {
    assert_eq!(PortRange::from_str("0-65535"), Ok(PortRange { start: 0, end: 65535 }));
}

#[test]
fn reads_a_range_of_one_port() {
    assert_eq!(PortRange::from_str("443-443"), Ok(PortRange { start: 443, end: 443 }));
}

#[test]
fn reads_signs_and_leading_zeros_as_a_number_is_read() {
    assert_eq!(PortRange::from_str("+80-+90"), Ok(PortRange { start: 80, end: 90 }));
    assert_eq!(PortRange::from_str("0080-000000000090"), Ok(PortRange { start: 80, end: 90 }));
}

#[test]
fn refuses_text_without_a_dash() {
    assert_eq!(PortRange::from_str("80"), Err(RangeError::Shape));
    assert_eq!(PortRange::from_str(""), Err(RangeError::Shape));
}

#[test]
fn refuses_text_with_two_dashes() {
    assert_eq!(PortRange::from_str("1-2-3"), Err(RangeError::Shape));
    assert_eq!(PortRange::from_str("--"), Err(RangeError::Shape));
    assert_eq!(PortRange::from_str("1--2"), Err(RangeError::Shape));
}

#[test]
fn refuses_what_is_no_port_number() {
    assert_eq!(PortRange::from_str("-5"), Err(RangeError::Number));
    assert_eq!(PortRange::from_str("5-"), Err(RangeError::Number));
    assert_eq!(PortRange::from_str("-"), Err(RangeError::Number));
    assert_eq!(PortRange::from_str("a-b"), Err(RangeError::Number));
    assert_eq!(PortRange::from_str("1-65536"), Err(RangeError::Number));
    assert_eq!(PortRange::from_str("1-99999999999999999999999"), Err(RangeError::Number));
    assert_eq!(PortRange::from_str("1 -2"), Err(RangeError::Number));
    assert_eq!(PortRange::from_str("+-2"), Err(RangeError::Number));
    assert_eq!(PortRange::from_str("1-2\u{e9}"), Err(RangeError::Number));
    assert_eq!(PortRange::from_str("\u{661}-\u{662}"), Err(RangeError::Number));
}

#[test]
fn refuses_a_range_that_ends_before_it_starts() {
    assert_eq!(PortRange::from_str("82-80"), Err(RangeError::Order));
    assert_eq!(PortRange::from_str("1-0"), Err(RangeError::Order));
}

#[test]
fn writes_a_range() {
    assert_eq!(PortRange { start: 80, end: 82 }.to_text(), "80-82");
    assert_eq!(PortRange { start: 0, end: 65535 }.to_text(), "0-65535");
}

#[test]
fn what_is_written_reads_back() {
    for (start, end) in [(0, 0), (0, 65535), (9, 10), (99, 100), (1000, 1031), (65535, 65535)] {
        let range = PortRange { start, end };
        assert_eq!(PortRange::from_str(&range.to_text()), Ok(range));
    }
}

#[test]
fn what_is_read_writes_to_the_same_range() {
    let range = PortRange::from_str("+0022-0443").unwrap();
    assert_eq!(range.to_text(), "22-443");
    assert_eq!(PortRange::from_str(&range.to_text()), Ok(range));
}

#[test]
fn range_from_a_pair() {
    assert_eq!(PortRange::from(vec![1, 1024]), PortRange { start: 1, end: 1024 });
    assert_eq!(PortRange::from(vec![7, 3, 9]), PortRange { start: 7, end: 3 });
}

#[test]
fn errors_in_words() {
    assert_eq!(RangeError::Shape.message(), "expected start-end");
    assert_eq!(RangeError::Number.message(), "can't parse port as u16");
    assert_eq!(RangeError::Order.message(), "range ends before it starts");
}

#[test]
fn writes_numbers_in_decimal() {
    assert_eq!(to_decimal(0), "0");
    assert_eq!(to_decimal(7), "7");
    assert_eq!(to_decimal(10), "10");
    assert_eq!(to_decimal(65535), "65535");
    assert_eq!(to_decimal(u64::MAX), "18446744073709551615");
}

#[test]
fn reads_runs_of_digits() {
    let chars: Vec<char> = "x0123456y".chars().collect();
    assert_eq!(read_digits(&chars, 1, 8, 1_000_000), Some(123456));
    assert_eq!(read_digits(&chars, 1, 8, 123456), Some(123456));
    assert_eq!(read_digits(&chars, 1, 8, 123455), None);
    assert_eq!(read_digits(&chars, 3, 3, 10), Some(0));
    assert_eq!(read_digits(&chars, 0, 3, 1000), None);
    assert_eq!(read_digits(&chars, 6, 9, 1000), None);
}

#[test]
fn scan_needs_a_port_or_a_range() {
    let range = PortRange { start: 1, end: 2 };
    assert_eq!(check_probes(&Vec::new(), &Vec::new()), Err(ConfigError::NoProbes));
    assert_eq!(check_probes(&vec![80], &Vec::new()), Ok(()));
    assert_eq!(check_probes(&Vec::new(), &vec![range]), Ok(()));
    assert_eq!(check_probes(&vec![80], &vec![range]), Ok(()));
    assert_eq!(ConfigError::NoProbes.message(), "either port(s) or range(s) required");
}
