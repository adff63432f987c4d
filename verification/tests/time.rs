use journal_export::time::{parse_decimal, FIRST_SECOND, LAST_SECOND};
use journal_export::Timestamp;

#[test]
fn decimal_numbers_are_read() {
    assert_eq!(parse_decimal(b"0"), Some(0));
    assert_eq!(parse_decimal(b"1598233033204859"), Some(1598233033204859));
    assert_eq!(parse_decimal(b"+5"), Some(5));
    assert_eq!(parse_decimal(b"-5"), Some(-5));
    assert_eq!(parse_decimal(b"-0"), Some(0));
    assert_eq!(parse_decimal(b"007"), Some(7));
    assert_eq!(parse_decimal(b"9223372036854775807"), Some(i64::MAX));
    assert_eq!(parse_decimal(b"-9223372036854775808"), Some(i64::MIN));
    assert_eq!(parse_decimal(b"00000000000000000000000000012"), Some(12));
}

#[test]
fn what_is_no_decimal_number_is_refused() {
    assert_eq!(parse_decimal(b""), None);
    assert_eq!(parse_decimal(b"+"), None);
    assert_eq!(parse_decimal(b"-"), None);
    assert_eq!(parse_decimal(b"--1"), None);
    assert_eq!(parse_decimal(b"+-1"), None);
    assert_eq!(parse_decimal(b"1-"), None);
    assert_eq!(parse_decimal(b"12a"), None);
    assert_eq!(parse_decimal(b" 12"), None);
    assert_eq!(parse_decimal(b"12\n"), None);
    assert_eq!(parse_decimal(b"1_000"), None);
    assert_eq!(parse_decimal(b"9223372036854775808"), None);
    assert_eq!(parse_decimal(b"-9223372036854775809"), None);
    assert_eq!(parse_decimal(b"99999999999999999999999"), None);
    assert_eq!(parse_decimal(b"/"), None);
    assert_eq!(parse_decimal(b":"), None);
}

#[test]
fn decimal_agrees_with_the_standard_library() {
    let texts = [
        "0", "-1", "+1", "42", "-", "", "18446744073709551615", "9223372036854775806",
        "-9223372036854775807", "1e3", "١٢", "0000", "+0", "-00", "3 ",
    ];
    for text in texts {
        assert_eq!(parse_decimal(text.as_bytes()), text.parse::<i64>().ok(), "{:?}", text);
    }
}

#[test]
fn microseconds_become_seconds_and_nanoseconds() {
    assert_eq!(Timestamp::from_micros(0), Some(Timestamp { secs: 0, nanos: 0 }));
    assert_eq!(Timestamp::from_micros(1), Some(Timestamp { secs: 0, nanos: 1_000 }));
    assert_eq!(Timestamp::from_micros(999_999), Some(Timestamp { secs: 0, nanos: 999_999_000 }));
    assert_eq!(Timestamp::from_micros(1_000_000), Some(Timestamp { secs: 1, nanos: 0 }));
    assert_eq!(
        Timestamp::from_micros(1598233033204937),
        Some(Timestamp { secs: 1598233033, nanos: 204_937_000 })
    );
}

#[test]
fn microseconds_below_zero_lie_before_1970() {
    assert_eq!(Timestamp::from_micros(-1_000_000), Some(Timestamp { secs: -1, nanos: 0 }));
    assert_eq!(Timestamp::from_micros(-3_000_000), Some(Timestamp { secs: -3, nanos: 0 }));
    assert_eq!(Timestamp::from_micros(-1), Some(Timestamp { secs: -1, nanos: 999_999_000 }));
    assert_eq!(Timestamp::from_micros(-999_999), Some(Timestamp { secs: -1, nanos: 1_000 }));
    assert_eq!(
        Timestamp::from_micros(-1_000_001),
        Some(Timestamp { secs: -2, nanos: 999_999_000 })
    );
    assert_eq!(Timestamp::from_micros(-1_500_000), Some(Timestamp { secs: -2, nanos: 500_000_000 }));
    assert_eq!(
        Timestamp::from_micros(-1_500_000).unwrap().to_text(),
        Some("1969-12-31T23:59:58.500+00:00".to_owned())
    );
}

#[test]
fn the_calendar_has_a_first_and_a_last_second() {
    assert_eq!(FIRST_SECOND, -8_334_601_228_800);
    assert_eq!(LAST_SECOND, 8_210_266_876_799);
    let last = Timestamp::from_micros(LAST_SECOND * 1_000_000 + 999_999).unwrap();
    assert_eq!(last, Timestamp { secs: LAST_SECOND, nanos: 999_999_000 });
    assert_eq!(last.to_text(), Some("+262142-12-31T23:59:59.999999+00:00".to_owned()));
    assert_eq!(Timestamp::from_micros((LAST_SECOND + 1) * 1_000_000), None);
    assert_eq!(Timestamp { secs: LAST_SECOND + 1, nanos: 0 }.to_text(), None);
    let first = Timestamp::from_micros(FIRST_SECOND * 1_000_000).unwrap();
    assert_eq!(first, Timestamp { secs: FIRST_SECOND, nanos: 0 });
    assert_eq!(first.to_text(), Some("-262143-01-01T00:00:00+00:00".to_owned()));
    assert_eq!(Timestamp::from_micros(FIRST_SECOND * 1_000_000 - 1), None);
    assert_eq!(Timestamp { secs: FIRST_SECOND - 1, nanos: 999_999_999 }.to_text(), None);
    assert_eq!(Timestamp::from_micros(i64::MAX), None);
    assert_eq!(Timestamp::from_micros(i64::MIN), None);
}

#[test]
fn nanoseconds_must_fit_a_second_but_for_a_leap_second() {
    assert!(Timestamp { secs: 0, nanos: 999_999_999 }.to_text().is_some());
    assert_eq!(Timestamp { secs: 0, nanos: 1_000_000_000 }.to_text(), None);
    assert_eq!(Timestamp { secs: 58, nanos: 1_000_000_000 }.to_text(), None);
    assert_eq!(
        Timestamp { secs: 59, nanos: 1_500_000_000 }.to_text(),
        Some("1970-01-01T00:00:60.500+00:00".to_owned())
    );
    assert_eq!(
        Timestamp { secs: -1, nanos: 1_999_999_999 }.to_text(),
        Some("1969-12-31T23:59:60.999999999+00:00".to_owned())
    );
    assert_eq!(Timestamp { secs: 59, nanos: 2_000_000_000 }.to_text(), None);
    assert_eq!(Timestamp { secs: 119, nanos: u32::MAX }.to_text(), None);
}

#[test]
fn text_of_an_instant() {
    assert_eq!(
        Timestamp { secs: 1598233033, nanos: 204859 }.to_text(),
        Some("2020-08-24T01:37:13.000204859+00:00".to_owned())
    );
    assert_eq!(
        Timestamp { secs: 1598233033, nanos: 204_859_000 }.to_text(),
        Some("2020-08-24T01:37:13.204859+00:00".to_owned())
    );
    assert_eq!(
        Timestamp { secs: 1598233033, nanos: 204_000_000 }.to_text(),
        Some("2020-08-24T01:37:13.204+00:00".to_owned())
    );
    assert_eq!(
        Timestamp { secs: 951782400, nanos: 0 }.to_text(),
        Some("2000-02-29T00:00:00+00:00".to_owned())
    );
}

#[test]
fn instants_are_ordered_by_second_then_nanosecond() {
    let a = Timestamp { secs: 10, nanos: 5 };
    let b = Timestamp { secs: 10, nanos: 6 };
    let c = Timestamp { secs: 11, nanos: 0 };
    let d = Timestamp { secs: -11, nanos: 999 };
    assert!(a.is_before(&b));
    assert!(b.is_before(&c));
    assert!(a.is_before(&c));
    assert!(d.is_before(&a));
    assert!(!b.is_before(&a));
    assert!(!c.is_before(&b));
    assert!(!a.is_before(&a));
}
