use journal_export::{Filter, JournalBackupReader, JournalMessage, Step, Timestamp};

fn record(fields: &[(&str, &str)]) -> JournalMessage {
    JournalMessage {
        fields: fields
            .iter()
            .map(|(k, v)| (k.as_bytes().to_vec(), v.as_bytes().to_vec()))
            .collect(),
    }
}

fn nothing() -> Filter {
    Filter { unit: None, since: None, until: None, lines: None }
}

fn at(micros: i64) -> JournalMessage {
    record(&[("_SOURCE_REALTIME_TIMESTAMP", &micros.to_string())])
}

#[test]
fn no_criterion_accepts_everything() {
    let msg = record(&[("_SYSTEMD_UNIT", "a.service"), ("__REALTIME_TIMESTAMP", "5000000")]);
    assert!(!nothing().rejects(&msg));
    assert!(!nothing().rejects(&record(&[])));
    assert!(!JournalBackupReader::new(None).should_filter(&msg));
    assert!(!JournalBackupReader::new(Some(nothing())).should_filter(&msg));
    let lines_only = Filter { lines: Some(1), ..nothing() };
    assert!(!lines_only.rejects(&msg));
}

#[test]
fn unit_must_match_exactly() {
    let filter = Filter { unit: Some("rsyslog.service".to_owned()), ..nothing() };
    assert!(!filter.rejects(&record(&[("_SYSTEMD_UNIT", "rsyslog.service")])));
    assert!(filter.rejects(&record(&[("_SYSTEMD_UNIT", "rsyslog.servicf")])));
    assert!(filter.rejects(&record(&[("_SYSTEMD_UNIT", "rsyslog.service ")])));
    assert!(filter.rejects(&record(&[("_SYSTEMD_UNIT", "Rsyslog.service")])));
    assert!(filter.rejects(&record(&[("_SYSTEMD_UNIT", "rsyslog")])));
    assert!(filter.rejects(&record(&[("_SYSTEMD_UNIT", "")])));
    assert!(filter.rejects(&record(&[("MESSAGE", "rsyslog.service")])));
    assert!(filter.rejects(&record(&[])));
}

#[test]
fn record_without_a_unit_has_the_empty_unit() {
    let filter = Filter { unit: Some(String::new()), ..nothing() };
    assert!(!filter.rejects(&record(&[("MESSAGE", "x")])));
    assert!(filter.rejects(&record(&[("_SYSTEMD_UNIT", "a.service")])));
}

#[test]
fn since_and_until_are_inclusive() {
    let t = 1598233033204859i64;
    let stamp = Timestamp { secs: 1598233033, nanos: 204_859_000 };
    let since = Filter { since: Some(stamp), ..nothing() };
    assert!(!since.rejects(&at(t)));
    assert!(!since.rejects(&at(t + 1)));
    assert!(since.rejects(&at(t - 1)));
    let until = Filter { until: Some(stamp), ..nothing() };
    assert!(!until.rejects(&at(t)));
    assert!(!until.rejects(&at(t - 1)));
    assert!(until.rejects(&at(t + 1)));
    let both = Filter { since: Some(stamp), until: Some(stamp), ..nothing() };
    assert!(!both.rejects(&at(t)));
    assert!(both.rejects(&at(t - 1)));
    assert!(both.rejects(&at(t + 1)));
}

#[test]
fn window_is_measured_in_seconds_and_nanoseconds() {
    let filter = Filter {
        since: Some(Timestamp { secs: 100, nanos: 500_500 }),
        until: Some(Timestamp { secs: 200, nanos: 0 }),
        ..nothing()
    };
    assert!(filter.rejects(&at(100_000_499)));
    assert!(filter.rejects(&at(100_000_500)));
    assert!(!filter.rejects(&at(100_000_501)));
    assert!(!filter.rejects(&at(199_999_999)));
    assert!(!filter.rejects(&at(200_000_000)));
    assert!(filter.rejects(&at(200_000_001)));
    assert!(filter.rejects(&at(99_999_999)));
    assert!(filter.rejects(&at(0)));
}

#[test]
fn record_without_an_instant_passes_every_window() {
    let filter = Filter {
        since: Some(Timestamp { secs: 100, nanos: 0 }),
        until: Some(Timestamp { secs: 50, nanos: 0 }),
        ..nothing()
    };
    assert!(!filter.rejects(&record(&[("MESSAGE", "no clock")])));
    assert!(!filter.rejects(&record(&[("__REALTIME_TIMESTAMP", "soon")])));
    assert!(!filter.rejects(&record(&[("__REALTIME_TIMESTAMP", "9223372036854775807")])));
    assert!(filter.rejects(&at(75_000_000)));
}

#[test]
fn criteria_hold_together() {
    let filter = Filter {
        unit: Some("a.service".to_owned()),
        since: Some(Timestamp { secs: 10, nanos: 0 }),
        until: Some(Timestamp { secs: 20, nanos: 0 }),
        lines: None,
    };
    let good = record(&[("_SYSTEMD_UNIT", "a.service"), ("__REALTIME_TIMESTAMP", "15000000")]);
    let wrong_unit = record(&[("_SYSTEMD_UNIT", "b.service"), ("__REALTIME_TIMESTAMP", "15000000")]);
    let early = record(&[("_SYSTEMD_UNIT", "a.service"), ("__REALTIME_TIMESTAMP", "5000000")]);
    let late = record(&[("_SYSTEMD_UNIT", "a.service"), ("__REALTIME_TIMESTAMP", "25000000")]);
    assert!(!filter.rejects(&good));
    assert!(filter.rejects(&wrong_unit));
    assert!(filter.rejects(&early));
    assert!(filter.rejects(&late));
    let reader = JournalBackupReader::new(Some(filter));
    assert!(!reader.should_filter(&good));
    assert!(reader.should_filter(&wrong_unit));
}

#[test]
fn limit_is_reached_at_the_count_asked_for() {
    let three = Filter { lines: Some(3), ..nothing() };
    assert!(!three.limit_reached(1));
    assert!(!three.limit_reached(2));
    assert!(three.limit_reached(3));
    assert!(!nothing().limit_reached(1));
    assert!(!nothing().limit_reached(0));
    let zero = Filter { lines: Some(0), ..nothing() };
    assert!(!zero.limit_reached(1));
    assert!(!zero.limit_reached(u64::MAX));
}

#[test]
fn reader_hands_out_only_what_its_filter_accepts() {
    let stream = b"_SYSTEMD_UNIT=a.service\nMESSAGE=one\n\n\
_SYSTEMD_UNIT=b.service\nMESSAGE=two\n\n\
MESSAGE=three\n\n\
_SYSTEMD_UNIT=a.service\nMESSAGE=four\n\n";
    let filter = Filter { unit: Some("a.service".to_owned()), ..nothing() };
    let mut reader = JournalBackupReader::new(Some(filter));
    reader.refill(stream);
    let mut said = Vec::new();
    loop {
        match reader.next() {
            Ok(Step::Message(msg)) => said.push(msg.message().unwrap()),
            Ok(Step::NeedInput) => break,
            Err(e) => panic!("{:?}", e),
        }
    }
    assert_eq!(said, vec!["one".to_owned(), "four".to_owned()]);
    assert!(reader.remaining().is_empty());
}
