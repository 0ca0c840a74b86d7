use riffy::counters::LiveCounters;
use riffy::flatten::{flatten_value, FieldDiffs};
use riffy::json::JsonValue;
use riffy::query::parse_body;
use riffy::sample::Timestamp;

fn json(text: &str) -> JsonValue {
    parse_body(text)
}

fn at(secs: i64) -> Timestamp {
    Timestamp { secs, nanos: 0 }
}

#[test]
fn record_increments_total_and_field_counters() {
    let mut collector = LiveCounters::new();

    let raw = flatten_value(&json(r#"{"a": 1}"#), &json(r#"{"a": 2}"#));
    let noise = FieldDiffs::new();
    collector.record("/api/v1/users/:id", &raw, &noise);
    collector.record("/api/v1/users/:id", &raw, &noise);

    let deltas = collector.drain(at(10));
    assert_eq!(deltas.len(), 1);

    let endpoint = &deltas[0];
    assert_eq!(endpoint.endpoint, "/api/v1/users/:id");
    assert_eq!(endpoint.total, 2);
    assert_eq!(endpoint.fields.len(), 1);

    let field = endpoint.fields.get("a").unwrap();
    assert_eq!(field.raw_count, 2);
    assert_eq!(field.noise_count, 0);
}

#[test]
fn raw_and_noise_counters_are_independent() {
    let mut collector = LiveCounters::new();

    let raw = flatten_value(&json(r#"{"a": 1}"#), &json(r#"{"a": 2}"#));
    let noise = flatten_value(&json(r#"{"b": 1}"#), &json(r#"{"b": 2}"#));
    collector.record("/e", &raw, &noise);

    let deltas = collector.drain(at(10));
    let endpoint = &deltas[0];
    assert_eq!(endpoint.total, 1);

    let a = endpoint.fields.get("a").unwrap();
    assert_eq!((a.raw_count, a.noise_count), (1, 0));

    let b = endpoint.fields.get("b").unwrap();
    assert_eq!((b.raw_count, b.noise_count), (0, 1));
}

#[test]
fn same_field_in_raw_and_noise_bumps_both() {
    let mut collector = LiveCounters::new();

    let diffs = flatten_value(&json(r#"{"a": 1}"#), &json(r#"{"a": 2}"#));
    collector.record("/e", &diffs, &diffs);

    let deltas = collector.drain(at(10));
    let field = deltas[0].fields.get("a").unwrap();
    assert_eq!((field.raw_count, field.noise_count), (1, 1));
}

#[test]
fn endpoints_are_isolated() {
    let mut collector = LiveCounters::new();
    let diffs = flatten_value(&json(r#"{"a": 1}"#), &json(r#"{"a": 2}"#));
    let empty = FieldDiffs::new();

    collector.record("/one", &diffs, &empty);
    collector.record("/two", &empty, &empty);

    let mut deltas = collector.drain(at(10));
    deltas.sort_by(|a, b| a.endpoint.cmp(&b.endpoint));

    assert_eq!(deltas.len(), 2);
    assert_eq!(deltas[0].endpoint, "/one");
    assert_eq!(deltas[0].fields.len(), 1);
    assert_eq!(deltas[1].endpoint, "/two");
    assert!(deltas[1].fields.is_empty());
}

#[test]
fn empty_diffs_still_count_toward_total() {
    let mut collector = LiveCounters::new();
    let empty = FieldDiffs::new();

    collector.record("/e", &empty, &empty);
    collector.record("/e", &empty, &empty);
    collector.record("/e", &empty, &empty);

    let deltas = collector.drain(at(10));
    assert_eq!(deltas[0].total, 3);
    assert!(deltas[0].fields.is_empty());
}

#[test]
fn drain_resets_the_buffer() {
    let mut collector = LiveCounters::new();
    let diffs = flatten_value(&json(r#"{"a": 1}"#), &json(r#"{"a": 2}"#));

    collector.record("/e", &diffs, &FieldDiffs::new());
    let first = collector.drain(at(10));
    assert_eq!(first[0].total, 1);

    assert!(collector.drain(at(11)).is_empty());

    collector.record("/e", &diffs, &FieldDiffs::new());
    let second = collector.drain(at(12));
    assert_eq!(second[0].total, 1);
    assert_eq!(second[0].fields.get("a").unwrap().raw_count, 1);
}

#[test]
fn reset_endpoint_drops_buffered_counts() {
    let mut collector = LiveCounters::new();
    let diffs = flatten_value(&json(r#"{"a": 1}"#), &json(r#"{"a": 2}"#));

    collector.record("/one", &diffs, &FieldDiffs::new());
    collector.record("/two", &diffs, &FieldDiffs::new());

    collector.reset_endpoint("/one");

    let deltas = collector.drain(at(10));
    assert_eq!(deltas.len(), 1);
    assert_eq!(deltas[0].endpoint, "/two");
}

#[test]
fn restore_reinjects_drained_counts() {
    let mut collector = LiveCounters::new();
    let diffs = flatten_value(&json(r#"{"a": 1}"#), &json(r#"{"a": 2}"#));

    collector.record("/e", &diffs, &FieldDiffs::new());
    let drained = collector.drain(at(10));
    collector.restore(&drained);

    let again = collector.drain(at(11));
    assert_eq!(again.len(), 1);
    assert_eq!(again[0].total, 1);
    assert_eq!(again[0].fields.get("a").unwrap().raw_count, 1);
}

#[test]
fn drain_stamps_each_delta_with_the_drain_time() {
    let mut collector = LiveCounters::new();
    collector.record("/e", &FieldDiffs::new(), &FieldDiffs::new());
    let deltas = collector.drain(at(42));
    assert_eq!(deltas[0].last_updated, at(42));
}

#[test]
fn snapshot_reads_without_resetting() {
    let mut collector = LiveCounters::new();
    let diffs = flatten_value(&json(r#"{"a": 1, "b": 1}"#), &json(r#"{"a": 2, "b": 2}"#));
    collector.record("/e", &diffs, &FieldDiffs::new());
    collector.record("/e", &FieldDiffs::new(), &FieldDiffs::new());

    let snap = collector.snapshot();
    assert_eq!(snap.len(), 1);
    assert_eq!(snap[0].endpoint, "/e");
    assert_eq!(snap[0].total, 2);
    assert_eq!(snap[0].fields.len(), 2);
    assert!(snap[0].fields.iter().all(|f| f.raw_count == 1 && f.noise_count == 0 && f.endpoint_total == 2));

    let deltas = collector.drain(at(1));
    assert_eq!(deltas[0].total, 2);
}

#[test]
fn restore_adds_to_counts_recorded_since_the_drain() {
    let mut collector = LiveCounters::new();
    let diffs = flatten_value(&json(r#"{"a": 1}"#), &json(r#"{"a": 2}"#));
    collector.record("/e", &diffs, &FieldDiffs::new());
    let drained = collector.drain(at(1));
    collector.record("/e", &diffs, &diffs);
    collector.restore(&drained);
    let again = collector.drain(at(2));
    assert_eq!(again[0].total, 2);
    let a = again[0].fields.get("a").unwrap();
    assert_eq!((a.raw_count, a.noise_count), (2, 1));
}

#[test]
fn collector_snapshot_joins_fields_with_totals() {
    let mut collector = riffy::counters::InMemoryDifferenceCollector::new();
    let diffs = flatten_value(&json(r#"{"a": 1}"#), &json(r#"{"a": 2}"#));
    collector.record("/one", &diffs, &diffs);
    collector.record("/one", &FieldDiffs::new(), &FieldDiffs::new());
    collector.record("/two", &FieldDiffs::new(), &diffs);
    let mut snap = collector.snapshot();
    snap.sort_by(|a, b| a.endpoint.cmp(&b.endpoint));
    assert_eq!(snap.len(), 2);
    assert_eq!((snap[0].endpoint.as_str(), snap[0].total), ("/one", 2));
    let f = &snap[0].fields[0];
    assert_eq!((f.path.as_str(), f.raw_count, f.noise_count, f.endpoint_total), ("a", 1, 1, 2));
    assert_eq!((snap[1].endpoint.as_str(), snap[1].total), ("/two", 1));
    assert_eq!((snap[1].fields[0].raw_count, snap[1].fields[0].noise_count), (0, 1));
    assert_eq!(collector.snapshot().len(), 2);
}
