use riffy::redis_store::{
    parse_status, parse_u16, sample_fields, sample_from_entry, sample_from_reply, samples_from_reply, stream_field,
    stream_key, ParseIntKind, StoreError, StreamEntry, ENDPOINTS_INDEX, SAMPLE_KEY_PREFIX,
};
use riffy::sample::{RawSample, Timestamp};

fn sample(ts: Timestamp, tag: &str) -> RawSample {
    RawSample {
        id: String::new(),
        endpoint: "/e".to_owned(),
        timestamp: ts,
        baseline_status: 200,
        baseline_body: format!(r#"{{"v":"{tag}"}}"#),
        baseline_headers: r#"{"etag":"1"}"#.to_owned(),
        candidate_status: Some(503),
        candidate_body: None,
        candidate_headers: Some("{}".to_owned()),
        control_status: None,
        control_body: None,
        control_headers: None,
        request_curl: Some("curl -X GET".to_owned()),
    }
}

fn entry(id: &str, fields: Vec<(String, String)>) -> StreamEntry {
    StreamEntry { id: id.to_owned(), fields: fields.into_iter().map(|(k, v)| (k, Ok(v))).collect() }
}

fn text_fields(pairs: &[(&str, &str)]) -> Vec<(String, String)> {
    pairs.iter().map(|(k, v)| (k.to_string(), v.to_string())).collect()
}

fn corrupt_message(r: Result<RawSample, StoreError>) -> String {
    match r {
        Err(StoreError::Corrupt(m)) => m,
        _ => panic!("expected a corrupt-data error"),
    }
}

#[test]
fn written_sample_reads_back() {
    let written = sample(Timestamp { secs: 1_700_000_000, nanos: 123_000_000 }, "a");
    let fields = sample_fields(&written).expect("renderable timestamp");
    let back = sample_from_entry(entry("1700000000123-0", fields), "/e").ok().expect("reads back");
    assert_eq!(back.id, "1700000000123-0");
    assert_eq!(back.endpoint, "/e");
    assert_eq!(back.timestamp, written.timestamp);
    assert_eq!(back.baseline_status, 200);
    assert_eq!(back.baseline_body, written.baseline_body);
    assert_eq!(back.baseline_headers, written.baseline_headers);
    assert_eq!(back.candidate_status, Some(503));
    assert_eq!(back.candidate_body, None);
    assert_eq!(back.candidate_headers, Some("{}".to_owned()));
    assert_eq!(back.control_status, None);
    assert_eq!(back.request_curl, Some("curl -X GET".to_owned()));
}

#[test]
fn written_fields_are_named_and_ordered() {
    let s = sample(Timestamp { secs: 0, nanos: 0 }, "z");
    let fields = sample_fields(&s).unwrap();
    let names: Vec<&str> = fields.iter().map(|(k, _)| k.as_str()).collect();
    assert_eq!(
        names,
        vec![
            "timestamp",
            "baseline_status",
            "baseline_body",
            "baseline_headers",
            "candidate_status",
            "candidate_headers",
            "request_curl"
        ]
    );
    assert_eq!(fields[0].1, "1970-01-01T00:00:00+00:00");
    assert_eq!(fields[1].1, "200");
    assert_eq!(fields[4].1, "503");
}

#[test]
fn missing_baseline_headers_read_as_empty_object() {
    let e = entry(
        "9-0",
        text_fields(&[("timestamp", "2024-01-02T03:04:05Z"), ("baseline_status", "201"), ("baseline_body", "{}")]),
    );
    let s = sample_from_entry(e, "/e").ok().unwrap();
    assert_eq!(s.baseline_status, 201);
    assert_eq!(s.baseline_headers, "{}");
    assert_eq!(s.timestamp, Timestamp { secs: 1_704_164_645, nanos: 0 });
    assert!(s.candidate_status.is_none() && s.control_status.is_none());
}

#[test]
fn missing_and_malformed_fields_are_corrupt() {
    let no_ts = entry("7-0", text_fields(&[("baseline_status", "200"), ("baseline_body", "{}")]));
    assert_eq!(corrupt_message(sample_from_entry(no_ts, "/e")), "sample 7-0 missing timestamp");

    let bad_status = entry(
        "7-1",
        text_fields(&[("timestamp", "2024-01-02T03:04:05Z"), ("baseline_status", "2x0"), ("baseline_body", "{}")]),
    );
    assert_eq!(
        corrupt_message(sample_from_entry(bad_status, "/e")),
        "sample 7-1 invalid baseline_status: invalid digit found in string"
    );

    let no_body = entry("7-2", text_fields(&[("timestamp", "2024-01-02T03:04:05Z"), ("baseline_status", "200")]));
    assert_eq!(corrupt_message(sample_from_entry(no_body, "/e")), "sample 7-2 missing baseline_body");

    let bad_ts = entry("7-3", text_fields(&[("timestamp", "yesterday"), ("baseline_status", "200")]));
    assert!(corrupt_message(sample_from_entry(bad_ts, "/e")).starts_with("sample 7-3 invalid timestamp: "));
}

#[test]
fn unreadable_value_is_a_redis_error() {
    let err = redis::RedisError::from((redis::ErrorKind::TypeError, "not text"));
    let e = StreamEntry {
        id: "1-0".to_owned(),
        fields: vec![("timestamp".to_owned(), Err(err))],
    };
    assert!(matches!(sample_from_entry(e, "/e"), Err(StoreError::Redis(_))));
}

#[test]
fn parse_u16_follows_str_parse() {
    assert_eq!(parse_u16("0"), Ok(0));
    assert_eq!(parse_u16("+200"), Ok(200));
    assert_eq!(parse_u16("65535"), Ok(65535));
    assert_eq!(parse_u16("65536"), Err(ParseIntKind::PosOverflow));
    assert_eq!(parse_u16(""), Err(ParseIntKind::Empty));
    assert_eq!(parse_u16("+"), Err(ParseIntKind::InvalidDigit));
    assert_eq!(parse_u16("-1"), Err(ParseIntKind::InvalidDigit));
    assert_eq!(parse_u16("12a"), Err(ParseIntKind::InvalidDigit));
    assert_eq!(parse_u16("99999x"), Err(ParseIntKind::PosOverflow));
    for text in ["1", "404", "+7", "65535", "70000", "", "-", " 1", "00012"] {
        let ours = parse_u16(text).ok();
        let std = text.parse::<u16>().ok();
        assert_eq!(ours, std, "{text}");
    }
}

#[test]
fn stream_keys_are_prefixed() {
    assert_eq!(stream_key("/api/:id"), "riffy:samples:/api/:id");
    assert!(stream_key("/x").starts_with(SAMPLE_KEY_PREFIX));
    assert!(ENDPOINTS_INDEX.starts_with(SAMPLE_KEY_PREFIX));
}

#[test]
fn stream_field_takes_the_first_match() {
    let mut fields: Vec<(String, Result<String, redis::RedisError>)> =
        vec![("a".to_owned(), Ok("1".to_owned())), ("a".to_owned(), Ok("2".to_owned()))];
    assert_eq!(stream_field(&mut fields, "a").ok().unwrap(), Some("1".to_owned()));
    assert_eq!(stream_field(&mut fields, "b").ok().unwrap(), None);
    assert_eq!(parse_status(&mut fields, "a", "id").ok().unwrap(), Some(2));
}

#[test]
fn reply_keeps_samples_in_window_in_order() {
    let mk = |id: &str, ts: &str| {
        entry(id, text_fields(&[("timestamp", ts), ("baseline_status", "200"), ("baseline_body", "{}")]))
    };
    let now = Timestamp { secs: 1_704_164_645, nanos: 0 };
    let entries = vec![mk("3-0", "2024-01-02T03:04:05Z"), mk("2-0", "2024-01-02T03:00:00Z"), mk("1-0", "2024-01-02T03:03:30Z")];
    let got = samples_from_reply(entries, "/e", 60, now).ok().unwrap();
    let ids: Vec<&str> = got.iter().map(|s| s.id.as_str()).collect();
    assert_eq!(ids, vec!["3-0", "1-0"]);

    assert!(sample_from_reply(Vec::new(), "/e").ok().unwrap().is_none());
    let one = sample_from_reply(vec![mk("5-0", "2024-01-02T03:04:05Z")], "/e").ok().unwrap().unwrap();
    assert_eq!(one.id, "5-0");
}

#[test]
fn timestamps_across_the_four_digit_years_read_back() {
    for ts in [
        Timestamp { secs: 0, nanos: 0 },
        Timestamp { secs: -62_167_219_200, nanos: 0 },
        Timestamp { secs: 253_402_300_799, nanos: 999_999_999 },
        Timestamp { secs: 1_700_000_000, nanos: 123_456_789 },
        Timestamp { secs: -1, nanos: 500 },
    ] {
        let fields = sample_fields(&sample(ts, "t")).expect("renderable timestamp");
        let back = sample_from_entry(entry("1-0", fields), "/e").ok().expect("reads back");
        assert_eq!(back.timestamp, ts);
    }
}
