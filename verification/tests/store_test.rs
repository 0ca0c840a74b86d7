use riffy::sample::{RawSample, Timestamp};
use riffy::store::{sample_within, InMemorySampleStore};

/// The current time, read from the system clock.
fn now() -> Timestamp {
    let since = std::time::SystemTime::now().duration_since(std::time::UNIX_EPOCH).expect("clock after the epoch");
    Timestamp { secs: since.as_secs() as i64, nanos: since.subsec_nanos() }
}

fn sample_at(endpoint: &str, tag: &str, timestamp: Timestamp) -> RawSample {
    RawSample {
        id: String::new(),
        endpoint: endpoint.to_owned(),
        timestamp,
        baseline_status: 200,
        baseline_body: format!(r#"{{"v":"{tag}"}}"#),
        baseline_headers: r#"{"content-type":"application/json"}"#.to_owned(),
        candidate_status: Some(200),
        candidate_body: Some(format!(r#"{{"v":"{tag}-c"}}"#)),
        candidate_headers: Some(r#"{"content-type":"application/json"}"#.to_owned()),
        control_status: Some(200),
        control_body: Some(format!(r#"{{"v":"{tag}"}}"#)),
        control_headers: Some(r#"{"content-type":"application/json"}"#.to_owned()),
        request_curl: None,
    }
}

fn sample(endpoint: &str, tag: &str) -> RawSample {
    sample_at(endpoint, tag, now())
}

fn secs(secs: i64) -> Timestamp {
    Timestamp { secs, nanos: 0 }
}

#[test]
fn round_trip_newest_first() {
    let mut store = InMemorySampleStore::new();
    for i in 0..3 {
        store.append_sample(&sample("/e", &format!("s{i}")));
    }

    let got = store.fetch_samples("/e");
    assert_eq!(got.len(), 3);
    assert_eq!(got[0].baseline_body, r#"{"v":"s2"}"#);
    assert_eq!(got[2].baseline_body, r#"{"v":"s0"}"#);
    assert_eq!(got[0].candidate_body, Some(r#"{"v":"s2-c"}"#.to_owned()));
}

#[test]
fn list_and_delete_endpoints() {
    let mut store = InMemorySampleStore::new();
    store.append_sample(&sample("/a", "x"));
    store.append_sample(&sample("/b", "y"));

    let mut endpoints = store.list_endpoints();
    endpoints.sort();
    assert_eq!(endpoints, vec!["/a".to_owned(), "/b".to_owned()]);

    store.delete_endpoint("/a");
    assert_eq!(store.list_endpoints(), vec!["/b".to_owned()]);
    assert!(store.fetch_samples("/a").is_empty());
}

#[test]
fn cap_trims_oldest_per_endpoint() {
    let mut store = InMemorySampleStore::with_capacity(2);
    for i in 0..3 {
        store.append_sample(&sample("/e", &format!("s{i}")));
    }
    let got = store.fetch_samples("/e");
    assert_eq!(got.len(), 2);
    assert_eq!(got[0].baseline_body, r#"{"v":"s2"}"#);
    assert_eq!(got[1].baseline_body, r#"{"v":"s1"}"#);
}

#[test]
fn get_sample_by_id_hit_and_miss() {
    let mut store = InMemorySampleStore::new();
    store.append_sample(&sample("/e", "x"));
    store.append_sample(&sample("/e", "y"));

    let fetched = store.fetch_samples("/e");
    let id = &fetched[0].id;
    assert!(!id.is_empty());

    let got = store.get_sample("/e", id).expect("hit");
    assert_eq!(&got.id, id);
    assert_eq!(got.baseline_body, fetched[0].baseline_body);

    assert!(store.get_sample("/e", "does-not-exist").is_none());
    assert!(store.get_sample("/other", id).is_none());
}

#[test]
fn samples_outside_window_are_filtered() {
    let mut store = InMemorySampleStore::with_retention(usize::MAX, 60);

    let t = now();
    let old = sample_at("/e", "old", Timestamp { secs: t.secs - 120, nanos: t.nanos });
    let fresh = sample_at("/e", "fresh", t);
    store.append_sample(&old);
    store.append_sample(&fresh);

    let got = store.fetch_samples("/e");
    assert_eq!(got.len(), 1);
    assert_eq!(got[0].baseline_body, r#"{"v":"fresh"}"#);
}

#[test]
fn ids_are_decimal_counters_in_arrival_order() {
    let mut store = InMemorySampleStore::new();
    store.append_sample(&sample_at("/a", "x", secs(100)));
    store.append_sample(&sample_at("/b", "y", secs(100)));
    store.append_sample(&sample_at("/a", "z", secs(100)));
    let a = store.fetch_samples_at("/a", secs(100));
    assert_eq!(a.len(), 2);
    assert_eq!(a[0].id, "2");
    assert_eq!(a[1].id, "0");
    assert_eq!(store.fetch_samples_at("/b", secs(100))[0].id, "1");
}

#[test]
fn window_edge_is_inclusive_in_whole_seconds() {
    let mut store = InMemorySampleStore::with_retention(10, 60);
    store.append_sample(&sample_at("/e", "edge", secs(40)));
    store.append_sample(&sample_at("/e", "older", Timestamp { secs: 39, nanos: 0 }));
    let got = store.fetch_samples_at("/e", Timestamp { secs: 100, nanos: 999_999_999 });
    assert_eq!(got.len(), 1);
    assert_eq!(got[0].baseline_body, r#"{"v":"edge"}"#);
}

#[test]
fn zero_cap_and_window_are_raised_to_one() {
    let mut store = InMemorySampleStore::with_retention(0, 0);
    store.append_sample(&sample_at("/e", "a", secs(10)));
    store.append_sample(&sample_at("/e", "b", secs(10)));
    let got = store.fetch_samples_at("/e", secs(11));
    assert_eq!(got.len(), 1);
    assert_eq!(got[0].baseline_body, r#"{"v":"b"}"#);
    assert!(store.fetch_samples_at("/e", secs(12)).is_empty());
}

#[test]
fn sample_within_rounds_toward_zero() {
    assert!(sample_within(secs(100), secs(40), 60));
    assert!(!sample_within(secs(100), secs(39), 60));
    assert!(sample_within(Timestamp { secs: 100, nanos: 500 }, Timestamp { secs: 39, nanos: 600 }, 60));
    assert!(sample_within(secs(10), secs(50), 1));
}
