use riffy::config::EndpointSettings;
use riffy::proxy::{
    blocks_side_effect, capture_settings, endpoint_label, forward_headers, forwards_request_header, headers_text,
    keeps_response_header, plan_dispatch, request_snapshot, upstream_url, ResolvedEndpoint, UNMATCHED_ENDPOINT,
};

fn endpoint(pattern: &str, capture: bool, store: bool) -> EndpointSettings {
    EndpointSettings {
        pattern: pattern.to_owned(),
        suppress_paths: Vec::new(),
        capture_request_curl: capture,
        store_credentials_header: store,
    }
}

#[test]
fn mutating_methods_are_refused_unless_allowed() {
    for m in ["POST", "PUT", "PATCH", "DELETE"] {
        assert!(blocks_side_effect(m, false));
        assert!(!blocks_side_effect(m, true));
    }
    for m in ["GET", "HEAD", "OPTIONS", "post"] {
        assert!(!blocks_side_effect(m, false));
    }
}

#[test]
fn unmatched_requests_are_labelled_undefined() {
    assert_eq!(endpoint_label(&ResolvedEndpoint(None)), UNMATCHED_ENDPOINT);
    assert_eq!(endpoint_label(&ResolvedEndpoint(Some("/a/:id".to_owned()))), "/a/:id");
}

#[test]
fn hop_by_hop_headers_stay_behind() {
    for h in ["connection", "keep-alive", "transfer-encoding", "te", "upgrade"] {
        assert!(!forwards_request_header(h));
        assert!(!keeps_response_header(h));
    }
    assert!(forwards_request_header("accept"));
    assert!(keeps_response_header("content-type"));
    let headers = vec![
        ("accept".to_owned(), b"*/*".to_vec()),
        ("connection".to_owned(), b"close".to_vec()),
        ("x-id".to_owned(), b"1".to_vec()),
    ];
    let kept = forward_headers(&headers);
    let names: Vec<&str> = kept.iter().map(|(n, _)| n.as_str()).collect();
    assert_eq!(names, vec!["accept", "x-id"]);
}

#[test]
fn upstream_urls_join_their_parts() {
    assert_eq!(upstream_url("http", "svc:80", "/a?b=1"), "http://svc:80/a?b=1");
}

#[test]
fn capture_follows_the_first_matching_endpoint() {
    let endpoints = vec![endpoint("/a", true, false), endpoint("/a", false, true), endpoint("/b", true, true)];
    assert_eq!(capture_settings(&endpoints, "/a"), (true, false));
    assert_eq!(capture_settings(&endpoints, "/b"), (true, true));
    assert_eq!(capture_settings(&endpoints, "/c"), (false, false));

    let plan = plan_dispatch(&endpoints, &ResolvedEndpoint(Some("/b".to_owned()))).unwrap();
    assert_eq!(plan.endpoint, "/b");
    assert!(plan.capture_request_curl && plan.store_credentials_header);
    assert!(plan_dispatch(&endpoints, &ResolvedEndpoint(None)).is_none());
}

#[test]
fn snapshots_are_taken_only_when_capturing() {
    let none = request_snapshot("GET".to_owned(), "/a".to_owned(), Vec::new(), Vec::new(), false, true);
    assert!(none.is_none());
    let snap = request_snapshot("GET".to_owned(), "/a?x".to_owned(), Vec::new(), b"{}".to_vec(), true, false).unwrap();
    assert!(snap.redact_credentials);
    assert_eq!(snap.path_and_query, "/a?x");
    assert_eq!(snap.body, b"{}".to_vec());
    let kept = request_snapshot("GET".to_owned(), "/a".to_owned(), Vec::new(), Vec::new(), true, true).unwrap();
    assert!(!kept.redact_credentials);
}

#[test]
fn volatile_headers_are_not_recorded() {
    let headers = vec![
        ("content-type".to_owned(), b"application/json".to_vec()),
        ("date".to_owned(), b"Wed, 25 Jun 2026 00:00:00 GMT".to_vec()),
        ("set-cookie".to_owned(), b"session=secret".to_vec()),
        ("x-bin".to_owned(), vec![0xff]),
    ];
    let kept = riffy::proxy::recorded_headers(&headers);
    assert_eq!(
        kept,
        vec![("content-type".to_owned(), "application/json".to_owned()), ("x-bin".to_owned(), "\u{fffd}".to_owned())]
    );
}

#[test]
fn headers_text_writes_recorded_headers_as_an_object() {
    let headers = vec![
        ("content-type".to_owned(), b"application/json".to_vec()),
        ("date".to_owned(), b"Tue, 1 Jul 2003".to_vec()),
        ("x-a".to_owned(), b"1".to_vec()),
    ];
    assert_eq!(headers_text(&headers), r#"{"content-type":"application/json","x-a":"1"}"#);
    assert_eq!(headers_text(&Vec::new()), "{}");
}
