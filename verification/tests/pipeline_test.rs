use riffy::curl::RequestSnapshot;
use riffy::endpoint::EndpointMatcher;
use riffy::pipeline::{
    assemble_at, classify, content_encoding, sample_for_message, secondary, storable_json, upstream_body,
    AnalysisMessage, ContentEncoding, DecodedResponse, UpstreamBody,
};
use riffy::sample::Timestamp;

const EP: &str = "/api/v1/users/:id";
const NO_CAP: usize = 1 << 20;

fn response(status: u16, body: &str) -> DecodedResponse {
    DecodedResponse { status, body: Some(body.as_bytes().to_vec()), headers_text: "{}".to_owned() }
}

fn message(path: &str, baseline: &str, candidate: Option<&str>, control: Option<&str>) -> AnalysisMessage {
    AnalysisMessage {
        path: path.to_owned(),
        baseline_response: response(200, baseline),
        candidate_response: candidate.map(|b| response(200, b)),
        control_response: control.map(|b| response(200, b)),
        request: None,
    }
}

fn matcher() -> EndpointMatcher {
    EndpointMatcher::new(&[EP.to_owned()])
}

#[test]
fn stores_sample_with_both_bodies_for_matching_status() {
    let msg = message(
        "/api/v1/users/42",
        r#"{"name": "alice"}"#,
        Some(r#"{"name": "bob"}"#),
        Some(r#"{"name": "alice"}"#),
    );
    let s = sample_for_message(&matcher(), &msg, NO_CAP).expect("stored");
    assert_eq!(s.endpoint, EP);
    assert_eq!(s.baseline_status, 200);
    assert_eq!(s.baseline_body, r#"{"name": "alice"}"#);
    assert_eq!(s.candidate_status, Some(200));
    assert_eq!(s.candidate_body, Some(r#"{"name": "bob"}"#.to_owned()));
    assert_eq!(s.control_status, Some(200));
    assert_eq!(s.control_body, Some(r#"{"name": "alice"}"#.to_owned()));
    assert!(s.id.is_empty());
}

#[test]
fn status_mismatch_keeps_status_without_body() {
    let body = r#"{"a": 1}"#;
    let mut msg = message("/api/v1/users/1", body, Some(body), Some(body));
    msg.candidate_response.as_mut().unwrap().status = 500;
    let s = sample_for_message(&matcher(), &msg, NO_CAP).expect("stored");
    assert_eq!(s.candidate_status, Some(500));
    assert_eq!(s.candidate_body, None);
    assert_eq!(s.candidate_headers, None);
}

#[test]
fn same_status_invalid_candidate_json_discards_sample() {
    let msg = message("/api/v1/users/1", r#"{"a": 1}"#, Some("<html>"), Some(r#"{"a": 1}"#));
    assert!(sample_for_message(&matcher(), &msg, NO_CAP).is_none());
}

#[test]
fn missing_candidate_kept_as_none() {
    let msg = message("/api/v1/users/1", r#"{"a": 1}"#, None, Some(r#"{"a": 2}"#));
    let s = sample_for_message(&matcher(), &msg, NO_CAP).expect("stored");
    assert_eq!(s.candidate_status, None);
    assert_eq!(s.candidate_body, None);
    assert_eq!(s.control_body, Some(r#"{"a": 2}"#.to_owned()));
}

#[test]
fn non_json_baseline_is_skipped() {
    let msg = message("/api/v1/users/9", "<html>", Some(r#"{"a": 1}"#), None);
    assert!(sample_for_message(&matcher(), &msg, NO_CAP).is_none());
}

#[test]
fn oversized_bodies_are_skipped() {
    let msg = message("/api/v1/users/1", r#"{"a":1}"#, Some(r#"{"a":"aaaaaaaaaaaaaaaaaaaaaaaaaaaaaa"}"#), Some(r#"{"a":1}"#));
    assert!(sample_for_message(&matcher(), &msg, 12).is_none());
    let msg = message("/api/v1/users/1", r#"{"a":"aaaaaaaaaaaaaaaaaaaaaaaaaaaaaa"}"#, Some(r#"{"a":1}"#), None);
    assert!(sample_for_message(&matcher(), &msg, 12).is_none());
}

#[test]
fn undecodable_baseline_is_skipped() {
    let mut msg = message("/api/v1/users/9", r#"{"a": 1}"#, Some(r#"{"a": 2}"#), None);
    msg.baseline_response.body = None;
    assert!(sample_for_message(&matcher(), &msg, NO_CAP).is_none());
}

#[test]
fn unregistered_path_yields_nothing() {
    let msg = message("/other/route?q=1", r#"{"a": 1}"#, Some(r#"{"a": 2}"#), None);
    assert!(sample_for_message(&matcher(), &msg, NO_CAP).is_none());
}

#[test]
fn captured_request_renders_curl() {
    let mut msg = message("/api/v1/users/1", r#"{"v": 1}"#, Some(r#"{"v": 2}"#), Some(r#"{"v": 1}"#));
    msg.request = Some(RequestSnapshot {
        method: "GET".to_owned(),
        path_and_query: "/api/v1/users/1?debug=1".to_owned(),
        headers: Vec::new(),
        body: Vec::new(),
        redact_credentials: true,
    });
    let s = sample_for_message(&matcher(), &msg, NO_CAP).expect("stored");
    let curl = s.request_curl.as_ref().expect("curl captured");
    assert!(curl.starts_with("curl -X GET"));
    assert!(curl.contains("'$RIFFY_TARGET/api/v1/users/1?debug=1'"));
}

#[test]
fn no_snapshot_means_no_curl_on_the_sample() {
    let msg = message("/api/v1/users/1", r#"{"v": 1}"#, Some(r#"{"v": 2}"#), Some(r#"{"v": 1}"#));
    let s = sample_for_message(&matcher(), &msg, NO_CAP).expect("stored");
    assert!(s.request_curl.is_none());
}

#[test]
fn assembled_sample_carries_headers_and_time() {
    let mut msg = message("/p", r#"{"a": 1}"#, Some(r#"{"a": 1}"#), None);
    msg.baseline_response.headers_text = r#"{"content-type":"application/json"}"#.to_owned();
    msg.candidate_response.as_mut().unwrap().headers_text = r#"{"content-type":"text/html"}"#.to_owned();
    let t = Timestamp { secs: 5, nanos: 6 };
    let s = assemble_at("/p", &msg, NO_CAP, t).expect("stored");
    assert_eq!(s.timestamp, t);
    assert_eq!(s.baseline_headers, r#"{"content-type":"application/json"}"#);
    assert_eq!(s.candidate_headers, Some(r#"{"content-type":"text/html"}"#.to_owned()));
    assert_eq!(s.control_headers, None);
}

#[test]
fn content_encoding_is_read_from_the_header() {
    assert_eq!(content_encoding(None), Some(ContentEncoding::Identity));
    assert_eq!(content_encoding(Some(b"")), Some(ContentEncoding::Identity));
    assert_eq!(content_encoding(Some(b"identity")), Some(ContentEncoding::Identity));
    assert_eq!(content_encoding(Some(b" GZip ")), Some(ContentEncoding::Gzip));
    assert_eq!(content_encoding(Some(b"x-gzip")), Some(ContentEncoding::Gzip));
    assert_eq!(content_encoding(Some(b"deflate")), Some(ContentEncoding::Deflate));
    assert_eq!(content_encoding(Some(b"br")), Some(ContentEncoding::Brotli));
    assert_eq!(content_encoding(Some(b"zstd")), Some(ContentEncoding::Zstd));
    assert_eq!(content_encoding(Some(b"compress")), None);
    assert_eq!(content_encoding(Some(b"gzip\x01")), None);
}

#[test]
fn storable_bodies_are_small_json_text() {
    assert_eq!(storable_json(&Some(b"[1,2]".to_vec()), 5), Some("[1,2]".to_owned()));
    assert_eq!(storable_json(&Some(b"[1,2]".to_vec()), 4), None);
    assert_eq!(storable_json(&Some(b"{".to_vec()), 100), None);
    assert_eq!(storable_json(&None, 100), None);
}

#[test]
fn upstream_answers_are_classified() {
    assert!(matches!(upstream_body(&None, 200, NO_CAP), UpstreamBody::Failed));
    assert!(matches!(upstream_body(&Some(response(404, "x")), 200, NO_CAP), UpstreamBody::StatusOnly(404)));
    match upstream_body(&Some(response(200, "1")), 200, NO_CAP) {
        UpstreamBody::Matched(200, text) => assert_eq!(text, "1"),
        _ => panic!("expected a matched body"),
    }
    assert!(matches!(upstream_body(&Some(response(200, "<p>")), 200, NO_CAP), UpstreamBody::Discard));

    assert_eq!(classify(EP, "candidate", UpstreamBody::Failed), Some((None, None)));
    assert_eq!(classify(EP, "candidate", UpstreamBody::StatusOnly(500)), Some((Some(500), None)));
    assert_eq!(classify(EP, "candidate", UpstreamBody::Matched(200, "1".to_owned())), Some((Some(200), Some("1".to_owned()))));
    assert_eq!(classify(EP, "candidate", UpstreamBody::Discard), None);

    let failed = secondary(&None, 200, NO_CAP).unwrap();
    assert!(failed.status.is_none() && failed.body.is_none() && failed.headers.is_none());
    assert!(secondary(&Some(response(200, "nope")), 200, NO_CAP).is_none());
}
