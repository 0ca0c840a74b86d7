use riffy::curl::{build_curl, RequestSnapshot, MAX_CURL_BODY_BYTES, REDACTED, TARGET_PLACEHOLDER};

fn snapshot(
    method: &str,
    path_and_query: &str,
    headers: &[(&str, &str)],
    body: &[u8],
    redact_credentials: bool,
) -> RequestSnapshot {
    RequestSnapshot {
        method: method.to_owned(),
        path_and_query: path_and_query.to_owned(),
        headers: headers.iter().map(|(n, v)| (n.to_string(), v.as_bytes().to_vec())).collect(),
        body: body.to_vec(),
        redact_credentials,
    }
}

#[test]
fn renders_method_url_and_sorted_headers() {
    let curl = build_curl(&snapshot(
        "GET",
        "/api/v1/users/42?x=1",
        &[("x-trace", "abc"), ("accept", "application/json")],
        b"",
        true,
    ));

    let expected = format!(
        "curl -X GET \\\n  '{TARGET_PLACEHOLDER}/api/v1/users/42?x=1' \\\n  -H 'accept: application/json' \\\n  -H 'x-trace: abc'"
    );
    assert_eq!(curl, expected);
}

#[test]
fn redacts_credential_headers_when_enabled() {
    let curl = build_curl(&snapshot(
        "GET",
        "/x",
        &[
            ("authorization", "Bearer secret"),
            ("cookie", "session=abc"),
            ("x-api-key", "k"),
            ("accept", "application/json"),
        ],
        b"",
        true,
    ));

    assert!(curl.contains("-H 'authorization: <redacted>'"));
    assert!(curl.contains("-H 'cookie: <redacted>'"));
    assert!(curl.contains("-H 'x-api-key: <redacted>'"));
    assert!(curl.contains("-H 'accept: application/json'"));
    assert!(!curl.contains("Bearer secret"));
    assert!(!curl.contains("session=abc"));
}

#[test]
fn stores_credential_headers_verbatim_when_disabled() {
    let curl = build_curl(&snapshot("GET", "/x", &[("authorization", "Bearer secret")], b"", false));

    assert!(curl.contains("-H 'authorization: Bearer secret'"));
    assert!(!curl.contains(REDACTED));
}

#[test]
fn skips_host_content_length_and_hop_by_hop_headers() {
    let curl = build_curl(&snapshot(
        "GET",
        "/x",
        &[
            ("host", "proxy.internal"),
            ("content-length", "3"),
            ("connection", "keep-alive"),
            ("transfer-encoding", "chunked"),
            ("accept", "application/json"),
        ],
        b"",
        true,
    ));

    assert!(!curl.contains("host:"));
    assert!(!curl.contains("content-length:"));
    assert!(!curl.contains("connection:"));
    assert!(!curl.contains("transfer-encoding:"));
    assert!(curl.contains("-H 'accept: application/json'"));
}

#[test]
fn inlines_text_body() {
    let curl = build_curl(&snapshot("POST", "/x", &[("content-type", "application/json")], br#"{"q":1}"#, true));

    assert!(curl.starts_with("curl -X POST"));
    assert!(curl.contains(r#"--data-raw '{"q":1}'"#));
}

#[test]
fn escapes_single_quotes_in_body_and_headers() {
    let curl = build_curl(&snapshot("POST", "/x?name=o'brien", &[("x-note", "it's fine")], b"a'b", true));

    assert!(curl.contains(r"'$RIFFY_TARGET/x?name=o'\''brien'"));
    assert!(curl.contains(r"-H 'x-note: it'\''s fine'"));
    assert!(curl.contains(r"--data-raw 'a'\''b'"));
}

#[test]
fn omits_binary_body_with_comment() {
    let curl = build_curl(&snapshot("POST", "/x", &[], &[0xff, 0xfe, 0x00], true));

    assert!(curl.contains("# body omitted (binary)"));
    assert!(!curl.contains("--data-raw"));
    assert!(!curl.contains(" \\\n  # body omitted"));
}

#[test]
fn omits_oversized_body_with_comment() {
    let big = vec![b'a'; 64 * 1024 + 1];
    let curl = build_curl(&snapshot("POST", "/x", &[], &big, true));

    assert!(curl.contains("# body omitted ("));
    assert!(curl.contains("limit)"));
    assert!(!curl.contains("--data-raw"));
}

#[test]
fn empty_body_emits_no_data_flag() {
    let curl = build_curl(&snapshot("GET", "/x", &[], b"", true));
    assert!(!curl.contains("--data-raw"));
    assert!(!curl.contains("# body omitted"));
}

#[test]
fn body_at_the_limit_is_still_inlined() {
    let exact = vec![b'a'; MAX_CURL_BODY_BYTES];
    let curl = build_curl(&snapshot("PUT", "/x", &[], &exact, true));
    assert!(curl.contains(" \\\n  --data-raw aaaa"));
    assert!(!curl.contains("# body omitted"));
}

#[test]
fn equal_header_names_sort_by_value() {
    let curl = build_curl(&snapshot("GET", "/x", &[("x-b", "2"), ("x-a", "1"), ("x-b", "1")], b"", true));
    let expected = format!(
        "curl -X GET \\\n  '{TARGET_PLACEHOLDER}/x' \\\n  -H 'x-a: 1' \\\n  -H 'x-b: 1' \\\n  -H 'x-b: 2'"
    );
    assert_eq!(curl, expected);
}

#[test]
fn header_arrival_order_does_not_change_the_command() {
    let a = build_curl(&snapshot("GET", "/x", &[("x-b", "2"), ("accept", "*/*"), ("x-b", "1")], b"{}", true));
    let b = build_curl(&snapshot("GET", "/x", &[("x-b", "1"), ("x-b", "2"), ("accept", "*/*")], b"{}", true));
    assert_eq!(a, b);
}
