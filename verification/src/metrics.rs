//! Request metrics: each proxied request is counted and timed exactly once,
//! with its response status when it completes, or as `cancelled` when it is
//! dropped before completing; stored samples are counted with their lag.
use vstd::prelude::*;
use std::time::{Duration, Instant};

verus! {

/// Counter of proxied requests, by method, endpoint and status.
pub const PROXY_REQUEST_TOTAL: &'static str = "riffy_proxy_request_total";

/// Histogram of proxied request durations, by method and endpoint.
pub const PROXY_REQUEST_DURATION: &'static str = "riffy_proxy_request_duration_seconds";

/// Histogram of the lag between receiving a request and storing its sample.
pub const SAMPLE_STORE_LAG: &'static str = "riffy_sample_store_lag_seconds";

/// Counter of stored samples, by endpoint.
pub const SAMPLES_STORED_TOTAL: &'static str = "riffy_samples_stored_total";

/// Status recorded for a request dropped before it completed.
pub const CANCELLED_STATUS: &'static str = "cancelled";

/// `std::time::Instant`, a reading of the monotonic clock.
#[verifier::external_type_specification]
#[verifier::external_body]
pub struct ExInstant(std::time::Instant);

/// Reads the monotonic clock (`Instant::now`).
#[verifier::external_body]
fn instant_now() -> Instant {
    Instant::now()
}

/// Time elapsed since `start` (`Instant::elapsed`).
#[verifier::external_body]
fn elapsed_since(start: &Instant) -> Duration
    opens_invariants none
    no_unwind
{
    start.elapsed()
}

/// Adds one to the proxied-request counter of `method`, `endpoint` and
/// `status` in the installed `metrics` recorder.
#[verifier::external_body]
fn count_proxy_request(method: &String, endpoint: &String, status: &str)
    opens_invariants none
    no_unwind
{
    let labels = [("method", method.clone()), ("endpoint", endpoint.clone()), ("status", status.to_owned())];
    let key = metrics::Key::from_parts(PROXY_REQUEST_TOTAL, &labels);
    let meta = metrics::Metadata::new("riffy", metrics::Level::INFO, None);
    metrics::with_recorder(|r| r.register_counter(&key, &meta)).increment(1);
}

/// Records `elapsed` in the proxied-request duration histogram of `method`
/// and `endpoint` in the installed `metrics` recorder.
#[verifier::external_body]
fn time_proxy_request(method: &String, endpoint: &String, elapsed: Duration)
    opens_invariants none
    no_unwind
{
    let labels = [("method", method.clone()), ("endpoint", endpoint.clone())];
    let key = metrics::Key::from_parts(PROXY_REQUEST_DURATION, &labels);
    let meta = metrics::Metadata::new("riffy", metrics::Level::INFO, None);
    metrics::with_recorder(|r| r.register_histogram(&key, &meta)).record(elapsed);
}

/// Records `lag` in the sample-store lag histogram.
#[verifier::external_body]
fn time_sample_store(lag: Duration) {
    let key = metrics::Key::from_name(SAMPLE_STORE_LAG);
    let meta = metrics::Metadata::new("riffy", metrics::Level::INFO, None);
    metrics::with_recorder(|r| r.register_histogram(&key, &meta)).record(lag);
}

/// Adds one to the stored-samples counter of `endpoint`.
#[verifier::external_body]
fn count_sample_stored(endpoint: &str) {
    let labels = [("endpoint", endpoint.to_owned())];
    let key = metrics::Key::from_parts(SAMPLES_STORED_TOTAL, &labels);
    let meta = metrics::Metadata::new("riffy", metrics::Level::INFO, None);
    metrics::with_recorder(|r| r.register_counter(&key, &meta)).increment(1);
}

/// Times one proxied request. [`ProxyTimer::finish`] records the response
/// status; a timer dropped without finishing records `cancelled`. Either way
/// the count and the duration are recorded once.
pub struct ProxyTimer {
    method: String,
    endpoint: String,
    started: Instant,
    finished: bool,
}

impl ProxyTimer {
    pub closed spec fn method_view(&self) -> Seq<char> {
        self.method@
    }

    pub closed spec fn endpoint_view(&self) -> Seq<char> {
        self.endpoint@
    }

    /// Whether the count and duration have been recorded.
    pub closed spec fn is_finished(&self) -> bool {
        self.finished
    }

    fn record(&self, status: &str)
        opens_invariants none
        no_unwind
    {
        count_proxy_request(&self.method, &self.endpoint, status);
        let elapsed = elapsed_since(&self.started);
        time_proxy_request(&self.method, &self.endpoint, elapsed);
    }

    /// Records the request with `status` and retires the timer.
    pub fn finish(self, status: &str) {
        let mut timer = self;
        timer.record(status);
        timer.finished = true;
    }
}

impl Drop for ProxyTimer {
    fn drop(&mut self)
        opens_invariants none
        no_unwind
    {
        if !self.finished {
            self.record(CANCELLED_STATUS);
            self.finished = true;
        }
    }
}

/// Starts timing a proxied request of `method` to `endpoint`.
pub fn proxy_request_timer(method: String, endpoint: String) -> (r: ProxyTimer)
    ensures
        r.method_view() == method@,
        r.endpoint_view() == endpoint@,
        !r.is_finished(),
{
    ProxyTimer { method, endpoint, started: instant_now(), finished: false }
}

/// Records that a sample of `endpoint` was stored `lag` after its request
/// arrived.
pub fn record_sample_stored(endpoint: &str, lag: Duration) {
    time_sample_store(lag);
    count_sample_stored(endpoint);
}

} // verus!
