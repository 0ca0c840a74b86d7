//! A recorded sample: the baseline response of one proxied request, what the
//! candidate and control upstreams answered, and when it was recorded.
use vstd::prelude::*;

verus! {

/// A point in time: whole seconds since the Unix epoch and the nanoseconds
/// past that second (above 999,999,999 only within a leap second).
#[derive(Debug, Clone, Copy, PartialEq, Eq, Structural)]
pub struct Timestamp {
    pub secs: i64,
    pub nanos: u32,
}

/// `a` is no later than `b`.
pub open spec fn ts_le(a: Timestamp, b: Timestamp) -> bool {
    a.secs < b.secs || (a.secs == b.secs && a.nanos <= b.nanos)
}

/// Whether `a` is no later than `b`.
pub fn timestamp_le(a: Timestamp, b: Timestamp) -> (r: bool)
    ensures
        r == ts_le(a, b),
{
    a.secs < b.secs || (a.secs == b.secs && a.nanos <= b.nanos)
}

/// The current time, read from the system clock (`chrono::Utc::now`).
/// Nothing is promised of the reading beyond the range of its nanoseconds.
#[verifier::external_body]
pub(crate) fn now() -> (t: Timestamp)
    ensures
        t.nanos < 2_000_000_000,
{
    let n = chrono::Utc::now();
    Timestamp { secs: n.timestamp(), nanos: n.timestamp_subsec_nanos() }
}

/// The text of an optional string.
pub open spec fn text_opt(o: Option<String>) -> Option<Seq<char>> {
    match o {
        Some(s) => Some(s@),
        None => None,
    }
}

pub fn clone_text_opt(o: &Option<String>) -> (r: Option<String>)
    ensures
        text_opt(r) == text_opt(*o),
{
    match o {
        Some(s) => Some(s.clone()),
        None => None,
    }
}

/// What one secondary upstream answered, as stored.
pub ghost struct SideView {
    pub status: Option<u16>,
    pub body: Option<Seq<char>>,
    pub headers: Option<Seq<char>>,
}

/// Mathematical form of a [`RawSample`].
pub ghost struct SampleView {
    pub id: Seq<char>,
    pub endpoint: Seq<char>,
    pub timestamp: Timestamp,
    pub baseline_status: u16,
    pub baseline_body: Seq<char>,
    pub baseline_headers: Seq<char>,
    pub candidate: SideView,
    pub control: SideView,
    pub request_curl: Option<Seq<char>>,
}

/// One recorded request. Bodies are JSON text; headers are a JSON object
/// rendered as text. A missing status means the upstream call failed; a
/// missing body means the status diverged from the baseline's.
#[derive(Debug)]
pub struct RawSample {
    pub id: String,
    pub endpoint: String,
    pub timestamp: Timestamp,
    pub baseline_status: u16,
    pub baseline_body: String,
    pub baseline_headers: String,
    pub candidate_status: Option<u16>,
    pub candidate_body: Option<String>,
    pub candidate_headers: Option<String>,
    pub control_status: Option<u16>,
    pub control_body: Option<String>,
    pub control_headers: Option<String>,
    pub request_curl: Option<String>,
}

impl View for RawSample {
    type V = SampleView;

    open spec fn view(&self) -> SampleView {
        SampleView {
            id: self.id@,
            endpoint: self.endpoint@,
            timestamp: self.timestamp,
            baseline_status: self.baseline_status,
            baseline_body: self.baseline_body@,
            baseline_headers: self.baseline_headers@,
            candidate: SideView {
                status: self.candidate_status,
                body: text_opt(self.candidate_body),
                headers: text_opt(self.candidate_headers),
            },
            control: SideView {
                status: self.control_status,
                body: text_opt(self.control_body),
                headers: text_opt(self.control_headers),
            },
            request_curl: text_opt(self.request_curl),
        }
    }
}

impl RawSample {
    pub fn duplicate(&self) -> (r: RawSample)
        ensures
            r@ == self@,
    {
        RawSample {
            id: self.id.clone(),
            endpoint: self.endpoint.clone(),
            timestamp: self.timestamp,
            baseline_status: self.baseline_status,
            baseline_body: self.baseline_body.clone(),
            baseline_headers: self.baseline_headers.clone(),
            candidate_status: self.candidate_status,
            candidate_body: clone_text_opt(&self.candidate_body),
            candidate_headers: clone_text_opt(&self.candidate_headers),
            control_status: self.control_status,
            control_body: clone_text_opt(&self.control_body),
            control_headers: clone_text_opt(&self.control_headers),
            request_curl: clone_text_opt(&self.request_curl),
        }
    }
}

impl Clone for RawSample {
    fn clone(&self) -> (r: Self)
        ensures
            r@ == self@,
    {
        self.duplicate()
    }
}

/// The views of a sequence of samples.
pub open spec fn sample_views(s: Seq<RawSample>) -> Seq<SampleView> {
    Seq::new(s.len(), |i: int| s[i]@)
}

} // verus!
