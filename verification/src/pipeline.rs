//! Turning one proxied request's upstream answers into a stored sample: which
//! content encoding a body carries, whether a decoded body can be stored,
//! what each secondary upstream contributes, and the assembled sample.
use vstd::prelude::*;
use crate::curl::{build_curl, is_curl_of, RequestSnapshot};
use crate::endpoint::{canonical_path, route_lookup, EndpointMatcher};
use crate::json::{is_json, json_accepts};
use crate::sample::{RawSample, SampleView, SideView, Timestamp, now, text_opt};
use crate::text::{str_eq, string_from_chars, utf8_text};
use vstd::utf8::{decode_utf8, valid_utf8};

verus! {

broadcast use vstd::std_specs::vec::group_vec_axioms;

/// A supported `content-encoding`.
#[derive(Debug, Clone, Copy, PartialEq, Eq, Structural)]
pub enum ContentEncoding {
    Identity,
    Gzip,
    Deflate,
    Brotli,
    Zstd,
}

/// A byte that a header value may hold to be read as text.
pub open spec fn visible_ascii(b: u8) -> bool {
    (32 <= b && b < 127) || b == 9
}

pub open spec fn is_blank(b: u8) -> bool {
    b == 32 || (9 <= b && b <= 13)
}

pub open spec fn trim_start(s: Seq<u8>) -> Seq<u8>
    decreases s.len(),
{
    if s.len() > 0 && is_blank(s[0]) {
        trim_start(s.drop_first())
    } else {
        s
    }
}

pub open spec fn trim_end(s: Seq<u8>) -> Seq<u8>
    decreases s.len(),
{
    if s.len() > 0 && is_blank(s.last()) {
        trim_end(s.drop_last())
    } else {
        s
    }
}

pub open spec fn lower_byte(b: u8) -> u8 {
    if 65 <= b && b <= 90 {
        (b + 32) as u8
    } else {
        b
    }
}

/// The characters of ASCII bytes.
pub open spec fn ascii_chars(b: Seq<u8>) -> Seq<char> {
    Seq::new(b.len(), |i: int| b[i] as char)
}

/// A header value's token: its text without surrounding whitespace, in
/// ASCII lower case.
pub open spec fn encoding_token(value: Seq<u8>) -> Seq<char> {
    let t = trim_end(trim_start(value));
    ascii_chars(Seq::new(t.len(), |i: int| lower_byte(t[i])))
}

/// The decoder a `content-encoding` value calls for: none needed without
/// the header or for `identity`; `None` for a value that is not text or
/// names an unsupported encoding.
pub open spec fn encoding_choice(value: Option<Seq<u8>>) -> Option<ContentEncoding> {
    match value {
        None => Some(ContentEncoding::Identity),
        Some(b) => if !(forall|i: int| 0 <= i < b.len() ==> visible_ascii(#[trigger] b[i])) {
            None
        } else {
            let t = encoding_token(b);
            if t.len() == 0 || t == "identity"@ {
                Some(ContentEncoding::Identity)
            } else if t == "gzip"@ || t == "x-gzip"@ {
                Some(ContentEncoding::Gzip)
            } else if t == "deflate"@ {
                Some(ContentEncoding::Deflate)
            } else if t == "br"@ {
                Some(ContentEncoding::Brotli)
            } else if t == "zstd"@ {
                Some(ContentEncoding::Zstd)
            } else {
                None
            }
        },
    }
}

/// The text of `value` without surrounding whitespace, in ASCII lower case.
fn token_of(value: &[u8]) -> (r: String)
    ensures
        r@ == encoding_token(value@),
{
    let ghost cs = value@;
    let n = value.len();
    let mut i: usize = 0;
    assert(cs.skip(0) =~= cs);
    while i < n && (value[i] == 32 || (9 <= value[i] && value[i] <= 13))
        invariant
            value@ == cs,
            n == cs.len(),
            i <= n,
            trim_start(cs) == trim_start(cs.skip(i as int)),
        decreases n - i,
    {
        assert(cs.skip(i as int).drop_first() =~= cs.skip(i as int + 1));
        i += 1;
    }
    let ghost w = cs.skip(i as int);
    assert(trim_start(cs) == w);
    let mut j: usize = n;
    assert(w.take(w.len() as int) =~= w);
    while j > i && (value[j - 1] == 32 || (9 <= value[j - 1] && value[j - 1] <= 13))
        invariant
            value@ == cs,
            n == cs.len(),
            i <= j <= n,
            w == cs.skip(i as int),
            trim_end(w) == trim_end(w.take(j - i)),
        decreases j,
    {
        assert(w.take(j - i).drop_last() =~= w.take(j - i - 1));
        assert(w.take(j - i).last() == cs[j - 1]);
        j -= 1;
    }
    assert(trim_end(w.take(j - i)) == w.take(j - i)) by {
        if j > i {
            assert(w.take(j - i).last() == cs[j - 1]);
        }
    }
    let ghost t = w.take(j - i);
    assert(t =~= cs.subrange(i as int, j as int));
    let mut out: Vec<char> = Vec::new();
    let mut p: usize = i;
    while p < j
        invariant
            value@ == cs,
            i <= p <= j <= n,
            n == cs.len(),
            t == cs.subrange(i as int, j as int),
            out@ == ascii_chars(Seq::new((p - i) as nat, |q: int| lower_byte(t[q]))),
        decreases j - p,
    {
        let b = value[p];
        let lb: u8 = if 65 <= b && b <= 90 { b + 32 } else { b };
        out.push(lb as char);
        assert(out@ =~= ascii_chars(Seq::new((p + 1 - i) as nat, |q: int| lower_byte(t[q]))));
        p += 1;
    }
    string_from_chars(&out)
}

/// The decoder that the `content-encoding` header value calls for.
pub fn content_encoding(value: Option<&[u8]>) -> (r: Option<ContentEncoding>)
    ensures
        r == encoding_choice(match value {
            Some(b) => Some(b@),
            None => None,
        }),
{
    let bytes = match value {
        None => {
            return Some(ContentEncoding::Identity);
        },
        Some(b) => b,
    };
    let mut k: usize = 0;
    while k < bytes.len()
        invariant
            value == Some(bytes),
            k <= bytes@.len(),
            forall|i: int| 0 <= i < k ==> visible_ascii(#[trigger] bytes@[i]),
        decreases bytes@.len() - k,
    {
        let b = bytes[k];
        if !((32 <= b && b < 127) || b == 9) {
            assert(!visible_ascii(bytes@[k as int]));
            return None;
        }
        k += 1;
    }
    let t = token_of(bytes);
    if t.as_str().is_empty() || str_eq(t.as_str(), "identity") {
        Some(ContentEncoding::Identity)
    } else if str_eq(t.as_str(), "gzip") || str_eq(t.as_str(), "x-gzip") {
        Some(ContentEncoding::Gzip)
    } else if str_eq(t.as_str(), "deflate") {
        Some(ContentEncoding::Deflate)
    } else if str_eq(t.as_str(), "br") {
        Some(ContentEncoding::Brotli)
    } else if str_eq(t.as_str(), "zstd") {
        Some(ContentEncoding::Zstd)
    } else {
        None
    }
}

/// One upstream's answer, its body already decoded (`None` when decoding
/// failed) and its headers rendered as JSON text.
pub struct DecodedResponse {
    pub status: u16,
    pub body: Option<Vec<u8>>,
    pub headers_text: String,
}

/// Mathematical form of a [`DecodedResponse`].
pub ghost struct ResponseView {
    pub status: u16,
    pub body: Option<Seq<u8>>,
    pub headers_text: Seq<char>,
}

impl View for DecodedResponse {
    type V = ResponseView;

    open spec fn view(&self) -> ResponseView {
        ResponseView {
            status: self.status,
            body: match self.body {
                Some(b) => Some(b@),
                None => None,
            },
            headers_text: self.headers_text@,
        }
    }
}

pub open spec fn response_opt(r: Option<DecodedResponse>) -> Option<ResponseView> {
    match r {
        Some(x) => Some(x@),
        None => None,
    }
}

/// The text of a decoded body that may be stored: within the size cap,
/// well-formed JSON and UTF-8.
pub open spec fn storable(body: Option<Seq<u8>>, max_body_bytes: usize) -> Option<Seq<char>> {
    match body {
        None => None,
        Some(b) => if b.len() > max_body_bytes || !json_accepts(b) || !valid_utf8(b) {
            None
        } else {
            Some(decode_utf8(b))
        },
    }
}

/// The text of a decoded body, when it may be stored.
pub fn storable_json(body: &Option<Vec<u8>>, max_body_bytes: usize) -> (r: Option<String>)
    ensures
        text_opt(r) == storable(match body {
            Some(b) => Some(b@),
            None => None,
        }, max_body_bytes),
{
    let bytes = match body {
        Some(b) => b,
        None => {
            return None;
        },
    };
    if bytes.len() > max_body_bytes {
        return None;
    }
    if !is_json(bytes.as_slice()) {
        return None;
    }
    utf8_text(bytes.as_slice())
}

/// What one secondary upstream contributes to a sample.
pub struct Secondary {
    pub status: Option<u16>,
    pub body: Option<String>,
    pub headers: Option<String>,
}

impl View for Secondary {
    type V = SideView;

    open spec fn view(&self) -> SideView {
        SideView { status: self.status, body: text_opt(self.body), headers: text_opt(self.headers) }
    }
}

impl Secondary {
    /// The upstream call failed: nothing recorded.
    pub fn failed() -> (r: Secondary)
        ensures
            r@ == (SideView { status: None, body: None, headers: None }),
    {
        Secondary { status: None, body: None, headers: None }
    }

    /// The upstream's status diverged: only the status is recorded.
    pub fn status_only(status: u16) -> (r: Secondary)
        ensures
            r@ == (SideView { status: Some(status), body: None, headers: None }),
    {
        Secondary { status: Some(status), body: None, headers: None }
    }
}

/// What a secondary upstream contributes: nothing when its call failed; its
/// status alone when that diverged from baseline's; otherwise its status,
/// storable body and headers. `None` discards the whole sample: a matching
/// status with an unstorable body would hide a real difference.
pub open spec fn secondary_of(response: Option<ResponseView>, baseline_status: u16, max_body_bytes: usize) -> Option<SideView> {
    match response {
        None => Some(SideView { status: None, body: None, headers: None }),
        Some(r) => if r.status != baseline_status {
            Some(SideView { status: Some(r.status), body: None, headers: None })
        } else {
            match storable(r.body, max_body_bytes) {
                Some(t) => Some(SideView { status: Some(r.status), body: Some(t), headers: Some(r.headers_text) }),
                None => None,
            }
        },
    }
}

pub fn secondary(response: &Option<DecodedResponse>, baseline_status: u16, max_body_bytes: usize) -> (r: Option<Secondary>)
    ensures
        match r {
            Some(s) => secondary_of(response_opt(*response), baseline_status, max_body_bytes) == Some(s@),
            None => secondary_of(response_opt(*response), baseline_status, max_body_bytes) is None,
        },
{
    let response = match response {
        None => {
            return Some(Secondary::failed());
        },
        Some(r) => r,
    };
    if response.status != baseline_status {
        return Some(Secondary::status_only(response.status));
    }
    match storable_json(&response.body, max_body_bytes) {
        Some(body) => Some(Secondary {
            status: Some(response.status),
            body: Some(body),
            headers: Some(response.headers_text.clone()),
        }),
        None => None,
    }
}

/// How an upstream's answer compares with baseline, for storage.
pub enum UpstreamBody {
    /// The call failed.
    Failed,
    /// The status diverged; the body is not compared.
    StatusOnly(u16),
    /// The status matched and the body is storable.
    Matched(u16, String),
    /// The status matched but the body is not storable.
    Discard,
}

/// Compares one upstream's answer with the baseline status.
pub fn upstream_body(response: &Option<DecodedResponse>, baseline_status: u16, max_body_bytes: usize) -> (r: UpstreamBody)
    ensures
        match (r, secondary_of(response_opt(*response), baseline_status, max_body_bytes)) {
            (UpstreamBody::Failed, Some(s)) => s.status is None,
            (UpstreamBody::StatusOnly(st), Some(s)) => s.status == Some(st) && s.body is None,
            (UpstreamBody::Matched(st, b), Some(s)) => s.status == Some(st) && s.body == Some(b@),
            (UpstreamBody::Discard, None) => true,
            _ => false,
        },
{
    match response {
        None => UpstreamBody::Failed,
        Some(r) => {
            if r.status == baseline_status {
                match storable_json(&r.body, max_body_bytes) {
                    Some(body) => UpstreamBody::Matched(r.status, body),
                    None => UpstreamBody::Discard,
                }
            } else {
                UpstreamBody::StatusOnly(r.status)
            }
        },
    }
}

/// The stored status and body for an upstream's comparison, or `None` to
/// discard the sample.
pub fn classify(endpoint: &str, upstream: &str, body: UpstreamBody) -> (r: Option<(Option<u16>, Option<String>)>)
    ensures
        match (body, r) {
            (UpstreamBody::Failed, Some((st, b))) => st is None && b is None,
            (UpstreamBody::StatusOnly(s), Some((st, b))) => st == Some(s) && b is None,
            (UpstreamBody::Matched(s, t), Some((st, b))) => st == Some(s) && text_opt(b) == Some(t@),
            (UpstreamBody::Discard, None) => true,
            _ => false,
        },
{
    match body {
        UpstreamBody::Failed => Some((None, None)),
        UpstreamBody::StatusOnly(status) => Some((Some(status), None)),
        UpstreamBody::Matched(status, text) => Some((Some(status), Some(text))),
        UpstreamBody::Discard => None,
    }
}

/// Everything the pipeline knows of one proxied request.
pub struct AnalysisMessage {
    /// The raw request path; the endpoint is resolved from it.
    pub path: String,
    pub baseline_response: DecodedResponse,
    pub candidate_response: Option<DecodedResponse>,
    pub control_response: Option<DecodedResponse>,
    /// The captured request, when the endpoint captures requests.
    pub request: Option<RequestSnapshot>,
}

/// Whether `s` is the sample assembled for `endpoint` from `msg` at `now`.
pub open spec fn is_assembled(s: SampleView, endpoint: Seq<char>, msg: AnalysisMessage, max_body_bytes: usize, now: Timestamp) -> bool {
    let base = msg.baseline_response@;
    &&& s.id.len() == 0
    &&& s.endpoint == endpoint
    &&& s.timestamp == now
    &&& s.baseline_status == base.status
    &&& storable(base.body, max_body_bytes) == Some(s.baseline_body)
    &&& s.baseline_headers == base.headers_text
    &&& secondary_of(response_opt(msg.candidate_response), base.status, max_body_bytes) == Some(s.candidate)
    &&& secondary_of(response_opt(msg.control_response), base.status, max_body_bytes) == Some(s.control)
    &&& match msg.request {
        Some(req) => s.request_curl matches Some(c) && is_curl_of(req, c),
        None => s.request_curl is None,
    }
}

/// Whether a sample can be assembled: the baseline body is storable and
/// neither secondary upstream discards the sample.
pub open spec fn assembles(msg: AnalysisMessage, max_body_bytes: usize) -> bool {
    let base = msg.baseline_response@;
    &&& storable(base.body, max_body_bytes) is Some
    &&& secondary_of(response_opt(msg.candidate_response), base.status, max_body_bytes) is Some
    &&& secondary_of(response_opt(msg.control_response), base.status, max_body_bytes) is Some
}

/// The sample for `endpoint` recorded at `now`, or `None` when it is skipped.
pub fn assemble_at(endpoint: &str, msg: &AnalysisMessage, max_body_bytes: usize, now: Timestamp) -> (r: Option<RawSample>)
    ensures
        r is Some <==> assembles(*msg, max_body_bytes),
        r matches Some(s) ==> is_assembled(s@, endpoint@, *msg, max_body_bytes, now),
{
    let baseline_status = msg.baseline_response.status;
    let baseline_body = match storable_json(&msg.baseline_response.body, max_body_bytes) {
        Some(b) => b,
        None => {
            return None;
        },
    };
    let candidate = match secondary(&msg.candidate_response, baseline_status, max_body_bytes) {
        Some(c) => c,
        None => {
            return None;
        },
    };
    let control = match secondary(&msg.control_response, baseline_status, max_body_bytes) {
        Some(c) => c,
        None => {
            return None;
        },
    };
    let request_curl = match &msg.request {
        Some(req) => Some(build_curl(req)),
        None => None,
    };
    let s = RawSample {
        id: String::new(),
        endpoint: endpoint.to_string(),
        timestamp: now,
        baseline_status,
        baseline_body,
        baseline_headers: msg.baseline_response.headers_text.clone(),
        candidate_status: candidate.status,
        candidate_body: candidate.body,
        candidate_headers: candidate.headers,
        control_status: control.status,
        control_body: control.body,
        control_headers: control.headers,
        request_curl,
    };
    Some(s)
}

/// The sample for `endpoint`, stamped with the current time.
pub fn assemble(endpoint: &str, msg: &AnalysisMessage, max_body_bytes: usize) -> (r: Option<RawSample>)
    ensures
        r is Some <==> assembles(*msg, max_body_bytes),
        r matches Some(s) ==> is_assembled(s@, endpoint@, *msg, max_body_bytes, s.timestamp),
{
    let t = now();
    assemble_at(endpoint, msg, max_body_bytes, t)
}

/// The sample a message yields: `None` when its path resolves to no
/// configured endpoint or the sample is skipped.
pub fn sample_for_message(matcher: &EndpointMatcher, msg: &AnalysisMessage, max_body_bytes: usize) -> (r: Option<RawSample>)
    ensures
        route_lookup(matcher.history(), canonical_path(msg.path@)) is None ==> r is None,
        route_lookup(matcher.history(), canonical_path(msg.path@)) matches Some(ep) ==> {
            &&& (r is Some <==> assembles(*msg, max_body_bytes))
            &&& r matches Some(s) ==> is_assembled(s@, ep, *msg, max_body_bytes, s.timestamp)
        },
{
    let endpoint = match matcher.resolve(msg.path.as_str()) {
        Some(e) => e,
        None => {
            return None;
        },
    };
    assemble(endpoint.as_str(), msg, max_body_bytes)
}

} // verus!
