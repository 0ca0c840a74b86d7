use riffy::config::{check_cross_fields, check_fields, cli_override_json, CliOverrides, ConfigError, EndpointSettings, FieldRule};
use riffy::json::{json_equal, JsonValue};
use riffy::query::parse_body;

/// Equality of JSON values with object members compared as a map, as
/// `serde_json` compares them.
fn same_json(a: &JsonValue, b: &JsonValue) -> bool {
    match (a, b) {
        (JsonValue::Object(x), JsonValue::Object(y)) => {
            x.len() == y.len() && x.iter().all(|(k, v)| y.iter().any(|(k2, v2)| k == k2 && same_json(v, v2)))
        }
        (JsonValue::Array(x), JsonValue::Array(y)) => {
            x.len() == y.len() && x.iter().zip(y.iter()).all(|(p, q)| same_json(p, q))
        }
        _ => json_equal(a, b),
    }
}

fn endpoint(pattern: &str, suppress: &[&str]) -> EndpointSettings {
    EndpointSettings {
        pattern: pattern.to_owned(),
        suppress_paths: suppress.iter().map(|s| s.to_string()).collect(),
        capture_request_curl: false,
        store_credentials_header: false,
    }
}

const PROXY_PORT: u16 = 7677;
const ADMIN_PORT: u16 = 7678;

fn valid_endpoints() -> Vec<EndpointSettings> {
    vec![endpoint("/api/v1/users/:id", &[])]
}

#[test]
fn valid_config_passes_cross_field_checks() {
    assert!(check_cross_fields(PROXY_PORT, ADMIN_PORT, &valid_endpoints()).is_ok());
}

#[test]
fn conflicting_ports_fail() {
    let result = check_cross_fields(PROXY_PORT, PROXY_PORT, &valid_endpoints());
    assert!(result.is_err());
    let err = result.unwrap_err();
    assert!(matches!(err, ConfigError::SamePorts));
    assert_eq!(err.message(), "server.proxy-port and server.admin-port must differ");
}

#[test]
fn invalid_suppress_regex_fails() {
    let mut endpoints = valid_endpoints();
    endpoints[0].suppress_paths = vec!["re:(".to_owned()];
    assert!(check_cross_fields(PROXY_PORT, ADMIN_PORT, &endpoints).is_err());
}

#[test]
fn valid_suppress_regex_passes() {
    let mut endpoints = valid_endpoints();
    endpoints[0].suppress_paths = vec!["re:.*_at$".to_owned(), "meta.*".to_owned()];
    assert!(check_cross_fields(PROXY_PORT, ADMIN_PORT, &endpoints).is_ok());
}

#[test]
fn first_endpoint_with_bad_rules_is_named() {
    let endpoints = vec![endpoint("/a", &["ok"]), endpoint("/b", &["re:["]), endpoint("/c", &["re:("])];
    match check_cross_fields(PROXY_PORT, ADMIN_PORT, &endpoints) {
        Err(ConfigError::InvalidSuppressPaths(p)) => {
            assert_eq!(p, "/b");
            assert_eq!(ConfigError::InvalidSuppressPaths(p).message(), "invalid suppress_paths for endpoint '/b'");
        }
        _ => panic!("expected invalid suppress paths"),
    }
}

#[test]
fn command_line_layer_holds_only_what_was_given() {
    assert!(cli_override_json(&CliOverrides::empty()).is_none());

    let mut cli = CliOverrides::empty();
    cli.candidate = Some("http://c".to_owned());
    cli.endpoints = vec!["/a".to_owned(), "/b/:id".to_owned()];
    let layer = cli_override_json(&cli).unwrap();
    let expected = parse_body(r#"{"upstream":{"candidate":"http://c"},"endpoints":[{"pattern":"/a"},{"pattern":"/b/:id"}]}"#);
    assert!(same_json(&layer, &expected));

    let mut only_upstream = CliOverrides::empty();
    only_upstream.baseline = Some("b".to_owned());
    only_upstream.control = Some("k".to_owned());
    let layer = cli_override_json(&only_upstream).unwrap();
    let expected = parse_body(r#"{"upstream":{"baseline":"b","control":"k"}}"#);
    assert!(same_json(&layer, &expected));
}

fn field_error(r: Result<(), ConfigError>) -> Option<String> {
    match r {
        Ok(()) => None,
        Err(e) => Some(e.message()),
    }
}

#[test]
fn field_rules_accept_a_valid_configuration() {
    let eps = valid_endpoints();
    assert!(check_fields(16, "b:1", "c:2", "d:3", &eps, 100, 1024, Some("redis://x")).is_ok());
    assert!(check_fields(16, "b:1", "c:2", "d:3", &eps, 100, 1024, None).is_ok());
}

#[test]
fn field_rules_name_the_first_broken_field() {
    let eps = valid_endpoints();
    assert_eq!(
        field_error(check_fields(0, "b", "c", "d", &eps, 1, 1, None)).as_deref(),
        Some("pipeline.channel_capacity: lower than 1")
    );
    assert_eq!(
        field_error(check_fields(1, "b", "", "d", &eps, 0, 1, None)).as_deref(),
        Some("upstream.control: length is lower than 1")
    );
    let bad = vec![endpoint("/ok", &[]), endpoint("nope", &[])];
    match check_fields(1, "b", "c", "d", &bad, 1, 1, None) {
        Err(ConfigError::InvalidField { field, rule }) => {
            assert_eq!(field, "endpoints[1].pattern");
            assert!(matches!(rule, FieldRule::LeadingSlash));
        }
        _ => panic!("expected InvalidField"),
    }
    assert_eq!(
        field_error(check_fields(1, "b", "c", "d", &bad, 1, 1, None)).as_deref(),
        Some("endpoints[1].pattern: value does not begin with \"/\"")
    );
    assert_eq!(
        field_error(check_fields(1, "b", "c", "d", &eps, 1, 0, None)).as_deref(),
        Some("storage.max_body_bytes: lower than 1")
    );
    assert_eq!(
        field_error(check_fields(1, "b", "c", "d", &eps, 1, 1, Some(""))).as_deref(),
        Some("storage.backend.uri: length is lower than 1")
    );
}
