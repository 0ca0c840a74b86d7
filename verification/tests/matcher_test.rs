use riffy::endpoint::{canonical, split_segments, EndpointMatcher};

fn patterns(raw: &[&str]) -> Vec<String> {
    raw.iter().map(|p| p.to_string()).collect()
}

fn matcher() -> EndpointMatcher {
    EndpointMatcher::new(&patterns(&[
        "/api/v1/users/:id",
        "/api/v1/orders/:order_id/items/:item_id",
        "/api/v1/health",
    ]))
}

#[test]
fn matches_single_param() {
    assert_eq!(matcher().resolve("/api/v1/users/42").as_deref(), Some("/api/v1/users/:id"));
}

#[test]
fn matches_multiple_params() {
    assert_eq!(
        matcher().resolve("/api/v1/orders/7/items/99").as_deref(),
        Some("/api/v1/orders/:order_id/items/:item_id")
    );
}

#[test]
fn matches_literal_pattern() {
    assert_eq!(matcher().resolve("/api/v1/health").as_deref(), Some("/api/v1/health"));
}

#[test]
fn strips_query_string_before_matching() {
    assert_eq!(matcher().resolve("/api/v1/users/42?verbose=true").as_deref(), Some("/api/v1/users/:id"));
}

#[test]
fn unmatched_path_returns_none() {
    assert_eq!(matcher().resolve("/api/v2/unknown"), None);
}

#[test]
fn unmatched_path_with_query_returns_none() {
    assert_eq!(matcher().resolve("/api/v2/unknown?a=1"), None);
}

#[test]
fn segment_count_must_match() {
    assert_eq!(matcher().resolve("/api/v1/users/42/extra"), None);
}

#[test]
fn trailing_slash_is_normalized() {
    assert_eq!(matcher().resolve("/api/v1/users/42/").as_deref(), Some("/api/v1/users/:id"));
}

/// A static segment outranks a `:param` segment at the same position, as the
/// endpoint module documents and the router resolves it: `/a/b` resolves to
/// the template `/a/b` even when `/a/:x` was configured first, and only paths
/// that no static template takes fall to `/a/:x`.
#[test]
fn static_segment_beats_parameter_in_any_order() {
    let m = EndpointMatcher::new(&patterns(&["/a/:x", "/a/b"]));
    assert_eq!(m.resolve("/a/b").as_deref(), Some("/a/b"));
    assert_eq!(m.resolve("/a/c").as_deref(), Some("/a/:x"));
    let m = EndpointMatcher::new(&patterns(&["/a/b", "/a/:x"]));
    assert_eq!(m.resolve("/a/b").as_deref(), Some("/a/b"));
}

#[test]
fn conflicting_parameter_template_is_skipped() {
    let m = EndpointMatcher::new(&patterns(&["/a/:x", "/a/:y"]));
    assert_eq!(m.resolve("/a/1").as_deref(), Some("/a/:x"));
}

#[test]
fn empty_matcher_matches_nothing() {
    let m = EndpointMatcher::new(&[]);
    assert_eq!(m.resolve("/anything"), None);
}

#[test]
fn canonical_collapses_slashes_and_strips_query() {
    assert_eq!(canonical("/a//b/"), "/a/b");
    assert_eq!(canonical("/a/b?x=1/2"), "/a/b");
    assert_eq!(canonical(""), "/");
    assert_eq!(canonical("///"), "/");
    assert_eq!(canonical("?q"), "/");
}

#[test]
fn split_segments_drops_empty_pieces() {
    let segs = split_segments("//a/bc//d/");
    let texts: Vec<String> = segs.iter().map(|s| s.iter().collect()).collect();
    assert_eq!(texts, vec!["a".to_owned(), "bc".to_owned(), "d".to_owned()]);
    assert!(split_segments("/").is_empty());
}

#[test]
fn duplicate_slashes_in_a_request_resolve() {
    assert_eq!(matcher().resolve("//api/v1//users/42").as_deref(), Some("/api/v1/users/:id"));
    let m = EndpointMatcher::new(&patterns(&["/x/"]));
    assert_eq!(m.resolve("/x").as_deref(), Some("/x/"));
}

#[test]
fn canonical_form_is_stable() {
    for p in ["/a//b/?q=1", "", "?x=1", "a/b/", "//x//y//", "/", "/a?b?c", "x"] {
        let c = canonical(p);
        assert!(c.starts_with('/'));
        assert!(!c.contains('?'));
        assert!(!c.contains("//"));
        assert!(!c.ends_with('/') || c == "/");
        assert_eq!(canonical(&c), c);
    }
    assert_eq!(canonical("/a//b/?q=1"), "/a/b");
    assert_eq!(canonical("?x=1"), "/");
}

/// Overlapping templates resolve to the more specific one, as the endpoint
/// module documents: a static segment beats a `:param` at the same
/// position, so `/a/b` resolves to `/a/b` though `/a/:x` is configured first.
#[test]
fn first_matching_pattern_wins() {
    let m = EndpointMatcher::new(&patterns(&["/a/:x", "/a/b"]));
    assert_eq!(m.resolve("/a/b").as_deref(), Some("/a/b"));
}
