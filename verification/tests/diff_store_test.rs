use riffy::counters::LiveCounters;
use riffy::diff_store::{aggregation_fields, diff_entry_fields, DiffEntry};
use riffy::flatten::{flatten_value, FieldDiffs};
use riffy::query::parse_body;
use riffy::sample::Timestamp;

fn pairs(v: &[(String, String)]) -> Vec<(&str, &str)> {
    v.iter().map(|(a, b)| (a.as_str(), b.as_str())).collect()
}

#[test]
fn difference_records_hold_their_statuses_when_known() {
    let entry = DiffEntry {
        endpoint: "/e".to_owned(),
        timestamp: Timestamp { secs: 0, nanos: 0 },
        raw_fields: FieldDiffs::new(),
        noise_fields: FieldDiffs::new(),
        primary_status: 200,
        candidate_status: Some(500),
        secondary_status: None,
    };
    let fields = diff_entry_fields(&entry, "{}".to_owned(), "[]".to_owned()).unwrap();
    assert_eq!(
        pairs(&fields),
        vec![
            ("endpoint", "/e"),
            ("timestamp", "1970-01-01T00:00:00+00:00"),
            ("raw_fields", "{}"),
            ("noise_fields", "[]"),
            ("primary_status", "200"),
            ("candidate_status", "500"),
        ]
    );
}

#[test]
fn aggregation_snapshots_hold_total_fields_and_time() {
    let mut counters = LiveCounters::new();
    let d = flatten_value(&parse_body("[1]"), &parse_body("[2]"));
    counters.record("/e", &d, &FieldDiffs::new());
    counters.record("/e", &FieldDiffs::new(), &FieldDiffs::new());
    let drained = counters.drain(Timestamp { secs: 86_400, nanos: 0 });
    let fields = aggregation_fields(&drained[0], "{\"0\":[1,0]}".to_owned()).unwrap();
    assert_eq!(
        pairs(&fields),
        vec![("total", "2"), ("fields", "{\"0\":[1,0]}"), ("last_updated", "1970-01-02T00:00:00+00:00")]
    );
}
