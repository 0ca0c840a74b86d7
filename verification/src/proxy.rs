//! The decisions of the proxy path: which requests are refused for their side
//! effects, which headers travel to and from an upstream, the upstream URL,
//! the metric label of a request, and what is fanned out for analysis.
use vstd::prelude::*;
use crate::config::EndpointSettings;
use crate::curl::RequestSnapshot;
use crate::order::texts;
use crate::text::{concat, str_eq};

verus! {

broadcast use vstd::std_specs::vec::group_vec_axioms;

/// Label of requests whose path matches no configured endpoint.
pub const UNMATCHED_ENDPOINT: &'static str = "undefined";

/// The endpoint a request resolved to, if any.
pub struct ResolvedEndpoint(pub Option<String>);

/// Methods that change state upstream.
pub open spec fn is_mutating(method: Seq<char>) -> bool {
    method == "POST"@ || method == "PUT"@ || method == "PATCH"@ || method == "DELETE"@
}

/// Whether a request is refused with 405: a mutating method while side
/// effects are not allowed.
pub fn blocks_side_effect(method: &str, allow_http_side_effects: bool) -> (b: bool)
    ensures
        b == (!allow_http_side_effects && is_mutating(method@)),
{
    !allow_http_side_effects
        && (str_eq(method, "POST") || str_eq(method, "PUT") || str_eq(method, "PATCH") || str_eq(method, "DELETE"))
}

/// The metric label of a request: its endpoint template, or `undefined`.
pub fn endpoint_label(resolved: &ResolvedEndpoint) -> (r: String)
    ensures
        r@ == match resolved.0 {
            Some(e) => e@,
            None => "undefined"@,
        },
{
    match &resolved.0 {
        Some(e) => e.clone(),
        None => {
            proof {
                reveal_strlit("undefined");
            }
            UNMATCHED_ENDPOINT.to_string()
        },
    }
}

/// Hop-by-hop headers, which a proxy must not forward.
pub open spec fn is_hop_by_hop(name: Seq<char>) -> bool {
    name == "connection"@ || name == "keep-alive"@ || name == "transfer-encoding"@ || name == "te"@ || name == "upgrade"@
}

fn hop_by_hop(name: &str) -> (b: bool)
    ensures
        b == is_hop_by_hop(name@),
{
    str_eq(name, "connection") || str_eq(name, "keep-alive") || str_eq(name, "transfer-encoding") || str_eq(name, "te")
        || str_eq(name, "upgrade")
}

/// Whether a request header is forwarded to an upstream.
pub fn forwards_request_header(name: &str) -> (b: bool)
    ensures
        b == !is_hop_by_hop(name@),
{
    !hop_by_hop(name)
}

/// Whether an upstream's response header is kept (the body is buffered, so
/// `transfer-encoding` never is).
pub fn keeps_response_header(name: &str) -> (b: bool)
    ensures
        b == !is_hop_by_hop(name@),
{
    !hop_by_hop(name)
}

/// The URL of `path` on `target`: `<protocol>://<target><path>`.
pub fn upstream_url(protocol: &str, target: &str, path: &str) -> (r: String)
    ensures
        r@ == protocol@ + "://"@ + target@ + path@,
{
    let a = concat(protocol, "://");
    let b = concat(a.as_str(), target);
    concat(b.as_str(), path)
}

/// The request-capture switches of `endpoint`: those of the first configured
/// endpoint with that template, or both off.
pub open spec fn capture_of(endpoints: Seq<EndpointSettings>, endpoint: Seq<char>) -> (bool, bool)
    decreases endpoints.len(),
{
    if endpoints.len() == 0 {
        (false, false)
    } else if endpoints[0].pattern@ == endpoint {
        (endpoints[0].capture_request_curl, endpoints[0].store_credentials_header)
    } else {
        capture_of(endpoints.drop_first(), endpoint)
    }
}

pub fn capture_settings(endpoints: &[EndpointSettings], endpoint: &str) -> (r: (bool, bool))
    ensures
        r == capture_of(endpoints@, endpoint@),
{
    let mut i: usize = 0;
    assert(endpoints@.skip(0) =~= endpoints@);
    while i < endpoints.len()
        invariant
            i <= endpoints@.len(),
            capture_of(endpoints@, endpoint@) == capture_of(endpoints@.skip(i as int), endpoint@),
        decreases endpoints@.len() - i,
    {
        assert(endpoints@.skip(i as int)[0] == endpoints@[i as int]);
        if str_eq(endpoints[i].pattern.as_str(), endpoint) {
            return (endpoints[i].capture_request_curl, endpoints[i].store_credentials_header);
        }
        assert(endpoints@.skip(i as int).drop_first() =~= endpoints@.skip(i as int + 1));
        i += 1;
    }
    (false, false)
}

/// The captured request, when the endpoint captures requests; credential
/// values are redacted unless the endpoint stores them.
pub fn request_snapshot(
    method: String,
    path_and_query: String,
    headers: Vec<(String, Vec<u8>)>,
    body: Vec<u8>,
    capture_request_curl: bool,
    store_credentials_header: bool,
) -> (r: Option<RequestSnapshot>)
    ensures
        r is Some <==> capture_request_curl,
        r matches Some(s) ==> s.method == method && s.path_and_query == path_and_query && s.headers == headers
            && s.body == body && s.redact_credentials == !store_credentials_header,
{
    if capture_request_curl {
        Some(RequestSnapshot { method, path_and_query, headers, body, redact_credentials: !store_credentials_header })
    } else {
        None
    }
}

/// What the analysis of one request needs decided up front: the endpoint it
/// resolved to and its capture switches.
pub struct DispatchPlan {
    pub endpoint: String,
    pub capture_request_curl: bool,
    pub store_credentials_header: bool,
}

/// Only a request that resolved to a configured endpoint fans out to the
/// candidate and control upstreams.
pub fn plan_dispatch(endpoints: &[EndpointSettings], resolved: &ResolvedEndpoint) -> (r: Option<DispatchPlan>)
    ensures
        r is Some <==> resolved.0 is Some,
        r matches Some(p) ==> p.endpoint@ == resolved.0->0@ && (p.capture_request_curl, p.store_credentials_header)
            == capture_of(endpoints@, resolved.0->0@),
{
    match &resolved.0 {
        None => None,
        Some(e) => {
            let (capture, store) = capture_settings(endpoints, e.as_str());
            Some(DispatchPlan { endpoint: e.clone(), capture_request_curl: capture, store_credentials_header: store })
        },
    }
}

/// The headers forwarded to an upstream: all but the hop-by-hop ones, in order.
pub open spec fn forwarded(hs: Seq<(Seq<char>, Seq<u8>)>) -> Seq<(Seq<char>, Seq<u8>)>
    decreases hs.len(),
{
    if hs.len() == 0 {
        Seq::empty()
    } else {
        let prev = forwarded(hs.drop_last());
        if is_hop_by_hop(hs.last().0) {
            prev
        } else {
            prev.push(hs.last())
        }
    }
}

pub fn forward_headers(headers: &Vec<(String, Vec<u8>)>) -> (r: Vec<(String, Vec<u8>)>)
    ensures
        crate::curl::raw_headers(r@) == forwarded(crate::curl::raw_headers(headers@)),
{
    let ghost hs = crate::curl::raw_headers(headers@);
    let mut out: Vec<(String, Vec<u8>)> = Vec::new();
    let mut i: usize = 0;
    assert(hs.take(0) =~= Seq::<(Seq<char>, Seq<u8>)>::empty());
    assert(crate::curl::raw_headers(out@) =~= forwarded(hs.take(0)));
    while i < headers.len()
        invariant
            hs == crate::curl::raw_headers(headers@),
            i <= headers@.len(),
            crate::curl::raw_headers(out@) == forwarded(hs.take(i as int)),
        decreases headers@.len() - i,
    {
        assert(hs.take(i as int + 1).drop_last() =~= hs.take(i as int));
        assert(hs.take(i as int + 1).last() == hs[i as int]);
        if forwards_request_header(headers[i].0.as_str()) {
            let ghost before = crate::curl::raw_headers(out@);
            out.push((headers[i].0.clone(), headers[i].1.clone()));
            assert(crate::curl::raw_headers(out@) =~= before.push(hs[i as int]));
        }
        i += 1;
    }
    assert(hs.take(headers@.len() as int) =~= hs);
    out
}

/// Response headers whose values change from one call to the next, and so
/// are not recorded for comparison.
pub open spec fn is_volatile_header(name: Seq<char>) -> bool {
    name == "date"@ || name == "set-cookie"@
}

/// The headers recorded of an upstream's answer, in order: all but the
/// volatile ones, each value read as text (`String::from_utf8_lossy`).
pub open spec fn recorded(hs: Seq<(Seq<char>, Seq<u8>)>) -> Seq<(Seq<char>, Seq<char>)>
    decreases hs.len(),
{
    if hs.len() == 0 {
        Seq::empty()
    } else {
        let prev = recorded(hs.drop_last());
        if is_volatile_header(hs.last().0) {
            prev
        } else {
            prev.push((hs.last().0, crate::curl::lossy_text(hs.last().1)))
        }
    }
}

pub fn recorded_headers(headers: &Vec<(String, Vec<u8>)>) -> (r: Vec<(String, String)>)
    ensures
        crate::order::text_pairs(r@) == recorded(crate::curl::raw_headers(headers@)),
{
    let ghost hs = crate::curl::raw_headers(headers@);
    let mut out: Vec<(String, String)> = Vec::new();
    let mut i: usize = 0;
    assert(hs.take(0) =~= Seq::<(Seq<char>, Seq<u8>)>::empty());
    assert(crate::order::text_pairs(out@) =~= recorded(hs.take(0)));
    while i < headers.len()
        invariant
            hs == crate::curl::raw_headers(headers@),
            i <= headers@.len(),
            crate::order::text_pairs(out@) == recorded(hs.take(i as int)),
        decreases headers@.len() - i,
    {
        let ghost before = crate::order::text_pairs(out@);
        assert(hs.take(i as int + 1).drop_last() =~= hs.take(i as int));
        assert(hs.take(i as int + 1).last() == hs[i as int]);
        let name = &headers[i].0;
        let volatile = str_eq(name.as_str(), "date") || str_eq(name.as_str(), "set-cookie");
        if !volatile {
            let value = crate::curl::lossy_string(headers[i].1.as_slice());
            out.push((name.clone(), value));
            assert(crate::order::text_pairs(out@) =~= before.push((hs[i as int].0, crate::curl::lossy_text(hs[i as int].1))));
        } else {
            assert(is_volatile_header(hs[i as int].0));
        }
        i += 1;
    }
    assert(hs.take(headers@.len() as int) =~= hs);
    out
}


/// The text `serde_json` writes for a JSON object whose members map each
/// name in `members` to its text as a string, a later member replacing an
/// earlier one of the same name.
pub uninterp spec fn object_text(members: Seq<(Seq<char>, Seq<char>)>) -> Seq<char>;

/// Writes `members` as a JSON object of strings: a `serde_json::Map` built
/// from them, printed by `serde_json::Value::to_string`.
#[verifier::external_body]
fn render_object(members: Vec<(String, String)>) -> (r: String)
    ensures
        r@ == object_text(crate::order::text_pairs(members@)),
{
    let map: serde_json::Map<String, serde_json::Value> =
        members.into_iter().map(|(name, value)| (name, serde_json::Value::String(value))).collect();
    serde_json::Value::Object(map).to_string()
}

/// The recorded headers of an upstream's answer as the JSON object text a
/// sample stores.
pub fn headers_text(headers: &Vec<(String, Vec<u8>)>) -> (r: String)
    ensures
        r@ == object_text(recorded(crate::curl::raw_headers(headers@))),
{
    render_object(recorded_headers(headers))
}

} // verus!
