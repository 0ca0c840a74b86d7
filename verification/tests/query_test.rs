use riffy::engine::{DiffEngine, FieldCounts};
use riffy::errors::{AppError, ProxyError};
use riffy::json::{json_equal, JsonValue};
use riffy::query::{
    detail_for, detail_window, endpoints_overview, exclude_patterns, exclude_rules, found_sample, normalize_base,
    parse_body, paths_for_endpoint,
    reset_check, response_view, sample_view, update_suppress, UpstreamTargets,
};
use riffy::redis_store::StoreError;
use riffy::sample::{RawSample, Timestamp};
use riffy::suppress::SuppressRules;

/// Equality of JSON values with object members compared as a map, as
/// `serde_json` compares them.
fn same_json(a: &JsonValue, b: &JsonValue) -> bool {
    match (a, b) {
        (JsonValue::Object(x), JsonValue::Object(y)) => {
            x.len() == y.len() && x.iter().all(|(k, v)| y.iter().any(|(k2, v2)| k == k2 && same_json(v, v2)))
        }
        (JsonValue::Array(x), JsonValue::Array(y)) => {
            x.len() == y.len() && x.iter().zip(y.iter()).all(|(p, q)| same_json(p, q))
        }
        _ => json_equal(a, b),
    }
}

const EP: &str = "/x";

fn more_raw(field: &FieldCounts, _total: u64) -> bool {
    field.raw_count > field.noise_count
}

fn json(text: &str) -> JsonValue {
    parse_body(text)
}

fn sample(candidate: &str) -> RawSample {
    RawSample {
        id: "7".to_owned(),
        endpoint: EP.to_owned(),
        timestamp: Timestamp { secs: 1_700_000_000, nanos: 0 },
        baseline_status: 200,
        baseline_body: r#"{"a":1,"b":1}"#.to_owned(),
        baseline_headers: "{}".to_owned(),
        candidate_status: Some(200),
        candidate_body: Some(candidate.to_owned()),
        candidate_headers: Some("{}".to_owned()),
        control_status: Some(200),
        control_body: Some(r#"{"a":1,"b":1}"#.to_owned()),
        control_headers: Some("{}".to_owned()),
        request_curl: None,
    }
}

fn message_of(e: AppError) -> (u16, String) {
    e.status_and_message()
}

#[test]
fn exclude_lists_are_trimmed_and_compiled() {
    assert_eq!(exclude_patterns(Some(" a , ,b.c,")), vec!["a".to_owned(), "b.c".to_owned()]);
    assert!(exclude_patterns(None).is_empty());
    let rules = exclude_rules(EP, Some("a")).ok().unwrap();
    assert!(rules.is_suppressed(EP, "a.x"));
    assert!(exclude_rules(EP, Some("")).ok().unwrap().rules().is_empty());
    match exclude_rules(EP, Some("re:(")) {
        Err(e) => {
            let (status, message) = message_of(e);
            assert_eq!(status, 400);
            assert!(message.starts_with("invalid exclude pattern: "));
        }
        Ok(_) => panic!("expected a bad request"),
    }
}

#[test]
fn path_summary_lists_sorted_paths_with_verdicts() {
    let engine = DiffEngine::new(SuppressRules::new());
    let samples = vec![sample(r#"{"a":2,"b":2}"#)];
    let summary = paths_for_endpoint(&engine, EP, &samples, &SuppressRules::new(), &more_raw).ok().unwrap();
    assert_eq!(summary.endpoint, EP);
    assert_eq!(summary.total, 1);
    let paths: Vec<&str> = summary.paths.iter().map(|p| p.path.as_str()).collect();
    assert_eq!(paths, vec!["a", "b"]);
    assert_eq!(summary.regressions, 2);
    assert_eq!(summary.last_updated, Timestamp { secs: 1_700_000_000, nanos: 0 });

    match paths_for_endpoint(&engine, EP, &[], &SuppressRules::new(), &more_raw) {
        Err(e) => assert_eq!(message_of(e), (404, "no diffs recorded for endpoint '/x'".to_owned())),
        Ok(_) => panic!("expected not found"),
    }
}

#[test]
fn drill_down_window_is_bounded() {
    assert_eq!(detail_window(None, None), (20, 0));
    assert_eq!(detail_window(Some(0), Some(5)), (1, 5));
    assert_eq!(detail_window(Some(1000), Some(1_000_000)), (100, 100_000));
}

#[test]
fn drill_down_reports_missing_paths() {
    let engine = DiffEngine::new(SuppressRules::new());
    let samples = vec![sample(r#"{"a":2,"b":1}"#)];
    let d = detail_for(&engine, EP, "a", &samples, &SuppressRules::new(), 20, 0, &more_raw).ok().unwrap();
    assert_eq!((d.raw_count, d.noise_count, d.total), (1, 0, 1));
    assert!(d.is_regression);
    match detail_for(&engine, EP, "b", &samples, &SuppressRules::new(), 20, 0, &more_raw) {
        Err(e) => assert_eq!(message_of(e), (404, "no diffs recorded for endpoint '/x' path 'b'".to_owned())),
        Ok(_) => panic!("expected not found"),
    }
    match detail_for(&engine, EP, "a", &[], &SuppressRules::new(), 20, 0, &more_raw) {
        Err(e) => assert_eq!(message_of(e), (404, "no diffs recorded for endpoint '/x'".to_owned())),
        Ok(_) => panic!("expected not found"),
    }
}

#[test]
fn reset_needs_a_recorded_endpoint() {
    let known = vec!["/a".to_owned(), "/b".to_owned()];
    assert!(reset_check(&known, "/b").is_ok());
    match reset_check(&known, "/c") {
        Err(e) => assert_eq!(message_of(e), (404, "no statistics recorded for endpoint '/c'".to_owned())),
        Ok(_) => panic!("expected not found"),
    }
}

#[test]
fn suppress_updates_reject_bad_patterns() {
    let mut engine = DiffEngine::new(SuppressRules::new());
    assert!(update_suppress(&mut engine, EP, vec!["a".to_owned()]).is_ok());
    match update_suppress(&mut engine, EP, vec!["re:(".to_owned()]) {
        Err(e) => {
            let (status, message) = message_of(e);
            assert_eq!(status, 400);
            assert!(message.starts_with("invalid suppress pattern: "));
        }
        Ok(_) => panic!("expected a bad request"),
    }
    assert_eq!(engine.rules().paths_for(EP), vec!["a".to_owned()]);
}

#[test]
fn upstream_addresses_default_to_http() {
    assert_eq!(normalize_base("localhost:8080"), "http://localhost:8080");
    assert_eq!(normalize_base("https://svc"), "https://svc");
    let t = UpstreamTargets::from_addresses("a:1", "http://b", "c");
    assert_eq!((t.baseline.as_str(), t.candidate.as_str(), t.control.as_str()), ("http://a:1", "http://b", "http://c"));
}

#[test]
fn bodies_are_shown_as_json_or_text() {
    assert!(json_equal(&parse_body(r#"{"k":[1]}"#), &json(r#"{"k":[1]}"#)));
    assert!(json_equal(&parse_body("<html>"), &JsonValue::Str("<html>".to_owned())));
    let view = response_view(Some(404), Some("[]"), None);
    assert!(same_json(&view, &json(r#"{"status":404,"body":[]}"#)));
    assert!(json_equal(&response_view(None, None, None), &json("{}")));
}

#[test]
fn sample_view_shows_every_upstream() {
    let mut s = sample(r#"{"a":2}"#);
    s.control_status = None;
    s.control_body = None;
    s.control_headers = None;
    let view = sample_view(&s).unwrap();
    let expected = json(
        r#"{"id":"7","endpoint":"/x","timestamp":"2023-11-14T22:13:20Z","request_curl":null,
            "baseline":{"status":200,"body":{"a":1,"b":1},"headers":{}},
            "candidate":{"status":200,"body":{"a":2},"headers":{}},
            "control":{}}"#,
    );
    assert!(same_json(&view, &expected));
}

#[test]
fn errors_map_to_statuses() {
    let bad = reqwest::Client::new().get("not a url").build().unwrap_err();
    let e = ProxyError::from_send("candidate", bad);
    assert_eq!(e.status_code(), 502);
    assert!(e.message().starts_with("upstream candidate error: "));
    let (status, _) = AppError::from(e).status_and_message();
    assert_eq!(status, 502);

    let slow = reqwest::Client::new().get("not a url").build().unwrap_err();
    let t = ProxyError::timeout("baseline", slow);
    assert_eq!(t.status_code(), 504);
    assert!(t.message().starts_with("upstream baseline timeout: "));

    let late = reqwest::Client::new().get("not a url").build().unwrap_err();
    let o = ProxyError::from_outcome("control", late, true);
    assert_eq!(o.status_code(), 504);
    assert!(o.message().starts_with("upstream control timeout: "));
    let refused = reqwest::Client::new().get("not a url").build().unwrap_err();
    let c = ProxyError::from_outcome("control", refused, false);
    assert_eq!(c.status_code(), 502);
    assert!(c.message().starts_with("upstream control error: "));

    let storage = AppError::from(StoreError::Corrupt("x".to_owned()));
    assert_eq!(storage.status_and_message(), (500, "internal storage error".to_owned()));
    assert_eq!(AppError::NotFound("m".to_owned()).status_and_message(), (404, "m".to_owned()));
    assert_eq!(AppError::BadRequest("b".to_owned()).status_and_message(), (400, "b".to_owned()));
}

#[test]
fn overview_skips_endpoints_without_samples() {
    let engine = DiffEngine::new(SuppressRules::new());
    let fetched = vec![
        ("/a".to_owned(), vec![sample(r#"{"a":2,"b":1}"#)]),
        ("/b".to_owned(), Vec::new()),
        ("/c".to_owned(), vec![sample(r#"{"a":1,"b":1}"#), sample(r#"{"a":1,"b":3}"#)]),
    ];
    let never = |_: &FieldCounts, _: u64| false;
    let always = |_: &FieldCounts, _: u64| true;
    let per_endpoint: Vec<&dyn Fn(&FieldCounts, u64) -> bool> = vec![&never, &always, &more_raw];
    let overview = endpoints_overview(&engine, &fetched, &per_endpoint);
    assert_eq!(overview.len(), 2);
    assert_eq!((overview[0].endpoint.as_str(), overview[0].total), ("/a", 1));
    assert_eq!(overview[0].paths.len(), 1);
    assert_eq!((overview[1].endpoint.as_str(), overview[1].total), ("/c", 2));
    assert_eq!(overview[1].paths[0].path, "b");
    assert_eq!(overview[1].regressions, 1);
}

#[test]
fn missing_sample_is_not_found() {
    let s = sample("{}");
    assert_eq!(found_sample(Some(s), EP, "7").ok().unwrap().id, "7");
    match found_sample(None, EP, "9-0") {
        Err(e) => assert_eq!(message_of(e), (404, "no sample '9-0' for endpoint '/x'".to_owned())),
        Ok(_) => panic!("expected not found"),
    }
}
