use journal_export::{short_iso_line, JournalMessage, OutputMode, RenderError, Timestamp};

fn record(fields: &[(&str, &[u8])]) -> JournalMessage {
    JournalMessage {
        fields: fields.iter().map(|(k, v)| (k.as_bytes().to_vec(), v.to_vec())).collect(),
    }
}

#[test]
fn field_is_found_by_its_name() {
    let msg = record(&[("_PID", b"2331"), ("_COMM", b"python3"), ("EMPTY", b"")]);
    assert_eq!(msg.field(b"_PID"), Some("2331".to_owned()));
    assert_eq!(msg.field(b"_COMM"), Some("python3".to_owned()));
    assert_eq!(msg.field(b"EMPTY"), Some(String::new()));
    assert_eq!(msg.field(b"_UID"), None);
    assert_eq!(msg.field(b"_PI"), None);
    assert_eq!(msg.field(b"_PID "), None);
    assert_eq!(msg.field(b""), None);
}

#[test]
fn first_of_two_fields_of_one_name_is_found() {
    let msg = record(&[("A", b"first"), ("B", b"x"), ("A", b"second")]);
    assert_eq!(msg.field(b"A"), Some("first".to_owned()));
    assert_eq!(msg.fields.len(), 3);
}

#[test]
fn field_text_is_decoded_from_utf8() {
    let msg = record(&[("MESSAGE", "grüße €".as_bytes())]);
    assert_eq!(msg.field(b"MESSAGE"), Some("grüße €".to_owned()));
    assert_eq!(msg.message(), Some("grüße €".to_owned()));
}

#[test]
fn field_that_is_not_utf8_counts_as_absent() {
    let msg = record(&[("MESSAGE", &[0x66, 0xFF, 0x6F]), ("_PID", &[0xC3])]);
    assert_eq!(msg.field(b"MESSAGE"), None);
    assert_eq!(msg.message(), None);
    assert_eq!(msg.pid(), "");
}

#[test]
fn only_well_formed_utf8_is_text() {
    let ill_formed: [&[u8]; 9] = [
        &[0x80],
        &[0xC0, 0x80],
        &[0xC1, 0xBF],
        &[0xE0, 0x80, 0x80],
        &[0xED, 0xA0, 0x80],
        &[0xF4, 0x90, 0x80, 0x80],
        &[0xF8, 0x88, 0x80, 0x80, 0x80],
        &[0xE2, 0x82],
        &[0x61, 0xF0, 0x9F, 0x92],
    ];
    for value in ill_formed {
        assert_eq!(record(&[("A", value)]).field(b"A"), None, "{:x?}", value);
    }
    let well_formed: [(&[u8], &str); 6] = [
        (&[0x00], "\0"),
        (&[0x7F], "\u{7f}"),
        (&[0xC2, 0x80], "\u{80}"),
        (&[0xED, 0x9F, 0xBF], "\u{d7ff}"),
        (&[0xEE, 0x80, 0x80], "\u{e000}"),
        (&[0xF4, 0x8F, 0xBF, 0xBF], "\u{10ffff}"),
    ];
    for (value, text) in well_formed {
        assert_eq!(record(&[("A", value)]).field(b"A"), Some(text.to_owned()));
    }
}

#[test]
fn message_falls_back_to_the_raw_line() {
    let plain = record(&[("MESSAGE", b"hello"), ("SYSLOG_RAW", b"<13>hello")]);
    assert_eq!(plain.message(), Some("hello".to_owned()));
    let empty = record(&[("MESSAGE", b""), ("SYSLOG_RAW", b"<13>hello")]);
    assert_eq!(empty.message(), Some("<13>hello".to_owned()));
    let empty_alone = record(&[("MESSAGE", b"")]);
    assert_eq!(empty_alone.message(), None);
    let raw_alone = record(&[("SYSLOG_RAW", b"<13>hello")]);
    assert_eq!(raw_alone.message(), None);
}

#[test]
fn well_known_fields_default_to_empty() {
    let msg = record(&[
        ("_PID", b"654"),
        ("_COMM", b"rsyslogd"),
        ("_SYSTEMD_UNIT", b"rsyslog.service"),
        ("_HOSTNAME", b"knisbet-dev"),
    ]);
    assert_eq!(msg.pid(), "654");
    assert_eq!(msg.comm(), "rsyslogd");
    assert_eq!(msg.systemd_unit(), "rsyslog.service");
    assert_eq!(msg.hostname(), "knisbet-dev");
    let bare = record(&[]);
    assert_eq!(bare.pid(), "");
    assert_eq!(bare.comm(), "");
    assert_eq!(bare.systemd_unit(), "");
    assert_eq!(bare.hostname(), "");
    assert_eq!(bare.message(), None);
    assert_eq!(bare.timestamp(), None);
}

#[test]
fn instant_prefers_the_source_clock() {
    let both = record(&[
        ("__REALTIME_TIMESTAMP", b"1598233033204937"),
        ("_SOURCE_REALTIME_TIMESTAMP", b"1598233033204859"),
    ]);
    assert_eq!(both.date_time(), Some(Timestamp { secs: 1598233033, nanos: 204_859_000 }));
    let stream_only = record(&[("__REALTIME_TIMESTAMP", b"1598233033204937")]);
    assert_eq!(stream_only.date_time(), Some(Timestamp { secs: 1598233033, nanos: 204_937_000 }));
}

#[test]
fn instant_that_spells_no_number_is_absent() {
    let bad_source = record(&[
        ("_SOURCE_REALTIME_TIMESTAMP", b"yesterday"),
        ("__REALTIME_TIMESTAMP", b"1598233033204937"),
    ]);
    assert_eq!(bad_source.date_time(), None);
    assert_eq!(bad_source.timestamp(), None);
    let texts = [
        "", " 1", "1 ", "1.5", "0x10", "-", "+", "9223372036854775808", "１２",
        "9223372036854775807", "-9223372036854775808",
    ];
    for text in texts {
        let msg = record(&[("__REALTIME_TIMESTAMP", text.as_bytes())]);
        assert_eq!(msg.date_time(), None, "{:?}", text);
    }
    // a source clock that is no text at all is passed over
    let not_text = record(&[
        ("_SOURCE_REALTIME_TIMESTAMP", &[0xFF]),
        ("__REALTIME_TIMESTAMP", b"2000000"),
    ]);
    assert_eq!(not_text.date_time(), Some(Timestamp { secs: 2, nanos: 0 }));
}

#[test]
fn timestamp_is_written_after_iso_8601() {
    let msg = record(&[("_SOURCE_REALTIME_TIMESTAMP", b"1598233033204859")]);
    assert_eq!(msg.timestamp(), Some("2020-08-24T01:37:13.204859+00:00".to_owned()));
    let whole = record(&[("__REALTIME_TIMESTAMP", b"1598716260000000")]);
    assert_eq!(whole.timestamp(), Some("2020-08-29T15:51:00+00:00".to_owned()));
    let epoch = record(&[("__REALTIME_TIMESTAMP", b"0")]);
    assert_eq!(epoch.timestamp(), Some("1970-01-01T00:00:00+00:00".to_owned()));
    let thousand = record(&[("__REALTIME_TIMESTAMP", b"+1000")]);
    assert_eq!(thousand.timestamp(), Some("1970-01-01T00:00:00.001+00:00".to_owned()));
    let one = record(&[("__REALTIME_TIMESTAMP", b"1")]);
    assert_eq!(one.timestamp(), Some("1970-01-01T00:00:00.000001+00:00".to_owned()));
    let before = record(&[("__REALTIME_TIMESTAMP", b"-1000000")]);
    assert_eq!(before.timestamp(), Some("1969-12-31T23:59:59+00:00".to_owned()));
    let just_before = record(&[("__REALTIME_TIMESTAMP", b"-1")]);
    assert_eq!(just_before.timestamp(), Some("1969-12-31T23:59:59.999999+00:00".to_owned()));
}

#[test]
fn record_is_written_as_one_line() {
    let msg = record(&[
        ("_HOSTNAME", b"knisbet-dev"),
        ("MESSAGE", b"foo\nbar"),
        ("_COMM", b"python3"),
        ("_PID", b"2331"),
        ("_SOURCE_REALTIME_TIMESTAMP", b"1598233033204859"),
    ]);
    let line = "2020-08-24T01:37:13.204859+00:00 knisbet-dev python3[2331]: foo\nbar\n";
    assert_eq!(msg.to_string(None), Ok(line.to_owned()));
    assert_eq!(msg.to_string(Some(OutputMode::short_iso)), Ok(line.to_owned()));
}

#[test]
fn absent_parts_of_a_line_are_empty() {
    assert_eq!(record(&[]).to_string(None), Ok("  []: \n".to_owned()));
    let some = record(&[("_COMM", b"cron"), ("MESSAGE", b"")]);
    assert_eq!(some.to_string(None), Ok("  cron[]: \n".to_owned()));
}

#[test]
fn other_modes_are_not_implemented() {
    let msg = record(&[("MESSAGE", b"x")]);
    let others = [
        OutputMode::short,
        OutputMode::short_precise,
        OutputMode::short_iso_precise,
        OutputMode::short_full,
        OutputMode::short_monotonic,
        OutputMode::short_unix,
        OutputMode::verbose,
        OutputMode::export,
        OutputMode::json,
        OutputMode::json_pretty,
        OutputMode::json_sse,
        OutputMode::json_seq,
        OutputMode::cat,
        OutputMode::with_unit,
    ];
    for mode in others {
        assert_eq!(msg.to_string(Some(mode)), Err(RenderError::NotImplemented(mode)));
    }
}

#[test]
fn line_is_laid_out_from_five_texts() {
    assert_eq!(
        short_iso_line("2020-08-24T01:37:13+00:00", "host", "cmd", "42", "said"),
        "2020-08-24T01:37:13+00:00 host cmd[42]: said\n"
    );
    assert_eq!(short_iso_line("", "", "", "", ""), "  []: \n");
    assert_eq!(short_iso_line("a", "b", "c", "d", "e"), "a b c[d]: e\n");
    assert_eq!(short_iso_line("", "h", "", "", "two\nlines"), " h []: two\nlines\n");
    assert_eq!(short_iso_line("t", "h h", "c[", "]", ": "), "t h h c[[]]: : \n");
}
