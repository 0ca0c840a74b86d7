//! Errors of upstream calls and of the HTTP layer, and the status and message
//! each is answered with.
use vstd::prelude::*;
use crate::redis_store::StoreError;
use crate::text::concat;

verus! {

/// `reqwest::Error`, the failure of an upstream call.
#[verifier::external_type_specification]
#[verifier::external_body]
pub struct ExReqwestError(reqwest::Error);

/// Whether `reqwest::Error::is_timeout` holds; nothing is promised of it.
#[verifier::external_body]
fn reqwest_is_timeout(e: &reqwest::Error) -> bool {
    e.is_timeout()
}

/// The `Display` text of a `reqwest::Error`; nothing is promised of it.
#[verifier::external_body]
fn reqwest_error_text(e: &reqwest::Error) -> String {
    e.to_string()
}

/// A failed upstream call.
pub enum ProxyError {
    Timeout { target: String, source: reqwest::Error },
    Connection { target: String, source: reqwest::Error },
}

impl ProxyError {
    pub open spec fn target_view(&self) -> Seq<char> {
        match self {
            ProxyError::Timeout { target, .. } => target@,
            ProxyError::Connection { target, .. } => target@,
        }
    }

    pub fn timeout(target: &str, source: reqwest::Error) -> (r: ProxyError)
        ensures
            r is Timeout,
            r.target_view() == target@,
    {
        ProxyError::Timeout { target: target.to_string(), source }
    }

    pub fn connection(target: &str, source: reqwest::Error) -> (r: ProxyError)
        ensures
            r is Connection,
            r.target_view() == target@,
    {
        ProxyError::Connection { target: target.to_string(), source }
    }

    /// A failed call to `target` whose failure was (`timed_out`) or was not
    /// a timeout.
    pub fn from_outcome(target: &str, source: reqwest::Error, timed_out: bool) -> (r: ProxyError)
        ensures
            r.target_view() == target@,
            (r is Timeout) == timed_out,
    {
        if timed_out {
            ProxyError::timeout(target, source)
        } else {
            ProxyError::connection(target, source)
        }
    }

    /// A failed call to `target`: a timeout when `reqwest` reports one,
    /// otherwise a connection failure.
    pub fn from_send(target: &str, source: reqwest::Error) -> (r: ProxyError)
        ensures
            r.target_view() == target@,
    {
        let timed_out = reqwest_is_timeout(&source);
        ProxyError::from_outcome(target, source, timed_out)
    }

    /// The HTTP status answered for this failure: 504 for a timeout, 502
    /// otherwise.
    pub fn status_code(&self) -> (r: u16)
        ensures
            r == if self is Timeout { 504u16 } else { 502u16 },
    {
        match self {
            ProxyError::Timeout { .. } => 504,
            ProxyError::Connection { .. } => 502,
        }
    }

    /// How the message of this failure begins.
    pub open spec fn message_head(&self) -> Seq<char> {
        "upstream "@ + self.target_view() + if self is Timeout { " timeout: "@ } else { " error: "@ }
    }

    /// `upstream <target> timeout: <reason>` or `upstream <target> error: <reason>`.
    pub fn message(&self) -> (r: String)
        ensures
            self.message_head().len() <= r@.len(),
            r@.take(self.message_head().len() as int) == self.message_head(),
    {
        let (target, kind, source) = match self {
            ProxyError::Timeout { target, source } => (target, " timeout: ", source),
            ProxyError::Connection { target, source } => (target, " error: ", source),
        };
        let a = concat("upstream ", target.as_str());
        let head = concat(a.as_str(), kind);
        let reason = reqwest_error_text(source);
        let r = concat(head.as_str(), reason.as_str());
        assert(r@.take(head@.len() as int) =~= head@);
        r
    }
}

/// An error answered to an HTTP client.
pub enum AppError {
    Upstream(ProxyError),
    Storage(StoreError),
    NotFound(String),
    BadRequest(String),
}

impl AppError {
    /// The HTTP status and the message answered for this error; storage
    /// details stay out of the message.
    pub fn status_and_message(&self) -> (r: (u16, String))
        ensures
            match self {
                AppError::Upstream(e) => r.0 == (if e is Timeout { 504u16 } else { 502u16 })
                    && e.message_head().len() <= r.1@.len() && r.1@.take(e.message_head().len() as int) == e.message_head(),
                AppError::Storage(_) => r.0 == 500 && r.1@ == "internal storage error"@,
                AppError::NotFound(m) => r.0 == 404 && r.1@ == m@,
                AppError::BadRequest(m) => r.0 == 400 && r.1@ == m@,
            },
    {
        match self {
            AppError::Upstream(e) => (e.status_code(), e.message()),
            AppError::Storage(_) => (500, "internal storage error".to_string()),
            AppError::NotFound(m) => (404, m.clone()),
            AppError::BadRequest(m) => (400, m.clone()),
        }
    }
}

impl From<ProxyError> for AppError {
    fn from(e: ProxyError) -> (r: AppError) {
        AppError::Upstream(e)
    }
}

impl vstd::std_specs::convert::FromSpecImpl<ProxyError> for AppError {
    open spec fn obeys_from_spec() -> bool {
        true
    }

    open spec fn from_spec(e: ProxyError) -> AppError {
        AppError::Upstream(e)
    }
}

impl From<StoreError> for AppError {
    fn from(e: StoreError) -> (r: AppError) {
        AppError::Storage(e)
    }
}

impl vstd::std_specs::convert::FromSpecImpl<StoreError> for AppError {
    open spec fn obeys_from_spec() -> bool {
        true
    }

    open spec fn from_spec(e: StoreError) -> AppError {
        AppError::Storage(e)
    }
}

} // verus!
