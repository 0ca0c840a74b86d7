//! The Redis layout of recorded samples: one stream per endpoint, one entry
//! per sample with a field per stored value, and the reading of entries back
//! into samples, with corrupt entries reported.
use vstd::prelude::*;
use crate::sample::{RawSample, SampleView, SideView, Timestamp, sample_views, text_opt};
use crate::store::{recent, sample_within, within_window};
use crate::text::{concat, decimal, decimal_string, digit_value, is_digit, str_eq};

verus! {

broadcast use vstd::std_specs::vec::group_vec_axioms;

/// Prefix of every sample stream key.
pub const SAMPLE_KEY_PREFIX: &'static str = "riffy:samples";

/// The set that lists the endpoints having a sample stream.
pub const ENDPOINTS_INDEX: &'static str = "riffy:samples:__endpoints__";

/// `redis::RedisError`, a failed command or an unreadable reply value.
#[verifier::external_type_specification]
#[verifier::external_body]
pub struct ExRedisError(redis::RedisError);

/// `redis::aio::ConnectionManager`, a reconnecting connection handle.
#[verifier::external_type_specification]
#[verifier::external_body]
pub struct ExConnectionManager(redis::aio::ConnectionManager);

/// Why a store operation failed.
pub enum StoreError {
    /// A Redis command failed, or a reply value could not be read as text.
    Redis(redis::RedisError),
    /// Stored data does not read back as a sample.
    Corrupt(String),
}

/// The stream key of `endpoint`'s samples: the prefix, a colon, the endpoint.
pub open spec fn stream_key_of(endpoint: Seq<char>) -> Seq<char> {
    "riffy:samples:"@ + endpoint
}

pub fn stream_key(endpoint: &str) -> (r: String)
    ensures
        r@ == stream_key_of(endpoint@),
{
    concat("riffy:samples:", endpoint)
}

/// Why text does not parse as a `u16` (the kinds of `ParseIntError`).
#[derive(Debug, Clone, Copy, PartialEq, Eq, Structural)]
pub enum ParseIntKind {
    Empty,
    InvalidDigit,
    PosOverflow,
}

/// The value of the digits `d`, or `None` once it exceeds `u16::MAX`.
pub open spec fn prefix_value(d: Seq<char>) -> int
    decreases d.len(),
{
    if d.len() == 0 {
        0
    } else {
        prefix_value(d.drop_last()) * 10 + digit_value(d.last())
    }
}

/// The first failure reading the digits `d` left to right: an invalid
/// digit, or a value grown past `u16::MAX`, whichever comes first.
pub open spec fn digits_failure(d: Seq<char>) -> Option<ParseIntKind>
    decreases d.len(),
{
    if d.len() == 0 {
        None
    } else {
        match digits_failure(d.drop_last()) {
            Some(k) => Some(k),
            None => if !is_digit(d.last()) {
                Some(ParseIntKind::InvalidDigit)
            } else if prefix_value(d) > u16::MAX {
                Some(ParseIntKind::PosOverflow)
            } else {
                None
            },
        }
    }
}

/// `str::parse::<u16>` on `s`: an optional leading `+`, then decimal digits.
pub open spec fn parsed_u16(s: Seq<char>) -> Result<u16, ParseIntKind> {
    if s.len() == 0 {
        Err(ParseIntKind::Empty)
    } else if (s[0] == '+' || s[0] == '-') && s.len() == 1 {
        Err(ParseIntKind::InvalidDigit)
    } else {
        let d = if s[0] == '+' { s.drop_first() } else { s };
        match digits_failure(d) {
            Some(k) => Err(k),
            None => Ok(prefix_value(d) as u16),
        }
    }
}

proof fn lemma_prefix_value_nonneg(d: Seq<char>)
    requires
        forall|i: int| 0 <= i < d.len() ==> is_digit(#[trigger] d[i]),
    ensures
        prefix_value(d) >= 0,
    decreases d.len(),
{
    if d.len() > 0 {
        lemma_prefix_value_nonneg(d.drop_last());
    }
}

/// Parses `s` as a `u16` the way `str::parse` does.
pub fn parse_u16(s: &str) -> (r: Result<u16, ParseIntKind>)
    ensures
        r == parsed_u16(s@),
{
    let cs = crate::text::chars_of(s);
    if cs.len() == 0 {
        return Err(ParseIntKind::Empty);
    }
    if (cs[0] == '+' || cs[0] == '-') && cs.len() == 1 {
        return Err(ParseIntKind::InvalidDigit);
    }
    let start: usize = if cs[0] == '+' { 1 } else { 0 };
    let ghost d = if cs@[0] == '+' { cs@.drop_first() } else { cs@ };
    assert(d =~= cs@.skip(start as int));
    let mut value: u32 = 0;
    let mut i: usize = start;
    assert(d.take(0) =~= Seq::<char>::empty());
    while i < cs.len()
        invariant
            cs@ == s@,
            s@.len() > 0,
            !((s@[0] == '+' || s@[0] == '-') && s@.len() == 1),
            start == (if s@[0] == '+' { 1usize } else { 0usize }),
            d == (if s@[0] == '+' { s@.drop_first() } else { s@ }),
            start <= i <= cs@.len(),
            d == cs@.skip(start as int),
            digits_failure(d.take(i - start)) is None,
            value == prefix_value(d.take(i - start)),
            value <= u16::MAX,
            forall|k: int| 0 <= k < i - start ==> is_digit(#[trigger] d[k]),
        decreases cs@.len() - i,
    {
        let ghost p = d.take(i - start + 1);
        assert(p.drop_last() =~= d.take(i - start));
        assert(p.last() == cs@[i as int]);
        let c = cs[i];
        if !('0' <= c && c <= '9') {
            proof {
                lemma_failure_extends(d, i - start + 1);
            }
            return Err(ParseIntKind::InvalidDigit);
        }
        let digit = (c as u32) - ('0' as u32);
        assert(digit == digit_value(c));
        assert(prefix_value(p) == value * 10 + digit);
        let next = value * 10 + digit;
        if next > 65535 {
            proof {
                lemma_failure_extends(d, i - start + 1);
            }
            return Err(ParseIntKind::PosOverflow);
        }
        value = next;
        i += 1;
    }
    assert(d.take(cs@.len() - start) =~= d);
    Ok(value as u16)
}

/// Once reading fails at some digit, the failure stands for any longer text.
proof fn lemma_failure_extends(d: Seq<char>, n: int)
    requires
        0 < n <= d.len(),
        digits_failure(d.take(n)) is Some,
    ensures
        digits_failure(d) == digits_failure(d.take(n)),
    decreases d.len() - n,
{
    if n < d.len() {
        assert(d.take(n + 1).drop_last() =~= d.take(n));
        lemma_failure_extends(d, n + 1);
    } else {
        assert(d.take(n) =~= d);
    }
}

/// The text `ParseIntError` displays for each kind.
pub open spec fn parse_error_text(k: ParseIntKind) -> Seq<char> {
    match k {
        ParseIntKind::Empty => "cannot parse integer from empty string"@,
        ParseIntKind::InvalidDigit => "invalid digit found in string"@,
        ParseIntKind::PosOverflow => "number too large to fit in target type"@,
    }
}

fn parse_error_message(k: ParseIntKind) -> (r: String)
    ensures
        r@ == parse_error_text(k),
{
    match k {
        ParseIntKind::Empty => "cannot parse integer from empty string".to_string(),
        ParseIntKind::InvalidDigit => "invalid digit found in string".to_string(),
        ParseIntKind::PosOverflow => "number too large to fit in target type".to_string(),
    }
}

/// The instant `chrono::DateTime::parse_from_rfc3339` reads from `text`,
/// converted to UTC, or `None` when it does not parse.
pub uninterp spec fn rfc3339_instant(text: Seq<char>) -> Option<Timestamp>;

/// The message of the error `chrono::DateTime::parse_from_rfc3339` reports
/// for `text`.
pub uninterp spec fn rfc3339_error_text(text: Seq<char>) -> Seq<char>;

/// Reads an RFC 3339 timestamp with `chrono::DateTime::parse_from_rfc3339`.
#[verifier::external_body]
fn parse_rfc3339(text: &str) -> (r: Result<Timestamp, String>)
    ensures
        match r {
            Ok(t) => rfc3339_instant(text@) == Some(t),
            Err(m) => rfc3339_instant(text@) is None && m@ == rfc3339_error_text(text@),
        },
{
    match chrono::DateTime::parse_from_rfc3339(text) {
        Ok(d) => Ok(Timestamp { secs: d.timestamp(), nanos: d.timestamp_subsec_nanos() }),
        Err(e) => Err(e.to_string()),
    }
}

/// The RFC 3339 text `chrono` renders for an instant, or `None` for an
/// instant `chrono` cannot represent.
pub uninterp spec fn rfc3339_text(t: Timestamp) -> Option<Seq<char>>;

/// Whether `t` falls in the years 0000 to 9999, with its sub-second part
/// under one second: the instants whose RFC 3339 text `chrono` writes with
/// a four-digit year, which its parser reads back.
pub open spec fn rfc3339_round_trips(t: Timestamp) -> bool {
    -62167219200 <= t.secs <= 253402300799 && t.nanos < 1_000_000_000
}

/// Renders `t` with `chrono::DateTime::<Utc>::to_rfc3339`. For an instant in
/// the years 0000 to 9999 the text holds a four-digit year, every non-zero
/// sub-second digit group and the offset `+00:00`, so
/// `parse_from_rfc3339` reads back the same instant.
#[verifier::external_body]
pub(crate) fn format_rfc3339(t: Timestamp) -> (r: Option<String>)
    ensures
        match r {
            Some(s) => rfc3339_text(t) == Some(s@),
            None => rfc3339_text(t) is None,
        },
        rfc3339_round_trips(t) ==> (r matches Some(s) ==> rfc3339_instant(s@) == Some(t)),
{
    chrono::DateTime::<chrono::Utc>::from_timestamp(t.secs, t.nanos).map(|d| d.to_rfc3339())
}

/// One stream entry as read back: its id and its fields, each value read as
/// text or the error met reading it.
pub struct StreamEntry {
    pub id: String,
    pub fields: Vec<(String, Result<String, redis::RedisError>)>,
}

/// The fields of an entry: names, and texts (`None` for an unreadable value).
pub open spec fn field_views(v: Seq<(String, Result<String, redis::RedisError>)>) -> Seq<(Seq<char>, Option<Seq<char>>)> {
    Seq::new(v.len(), |i: int| (v[i].0@, match v[i].1 {
        Ok(t) => Some(t@),
        Err(_) => None,
    }))
}

/// The first field called `name`: absent, unreadable (`Some(None)`), or its text.
pub open spec fn field_lookup(fs: Seq<(Seq<char>, Option<Seq<char>>)>, name: Seq<char>) -> Option<Option<Seq<char>>>
    decreases fs.len(),
{
    if fs.len() == 0 {
        None
    } else if fs[0].0 == name {
        Some(fs[0].1)
    } else {
        field_lookup(fs.drop_first(), name)
    }
}

/// Why an entry does not read back as a sample.
pub ghost enum ReadError {
    Redis,
    Corrupt(Seq<char>),
}

pub open spec fn error_view(e: StoreError) -> ReadError {
    match e {
        StoreError::Redis(_) => ReadError::Redis,
        StoreError::Corrupt(m) => ReadError::Corrupt(m@),
    }
}

/// Reads the text field `name`.
pub open spec fn text_read(fs: Seq<(Seq<char>, Option<Seq<char>>)>, name: Seq<char>) -> Result<Option<Seq<char>>, ReadError> {
    match field_lookup(fs, name) {
        None => Ok(None),
        Some(None) => Err(ReadError::Redis),
        Some(Some(t)) => Ok(Some(t)),
    }
}

/// Reads the status field `name` of entry `id`.
pub open spec fn status_read(fs: Seq<(Seq<char>, Option<Seq<char>>)>, name: Seq<char>, id: Seq<char>) -> Result<Option<u16>, ReadError> {
    match text_read(fs, name) {
        Err(e) => Err(e),
        Ok(None) => Ok(None),
        Ok(Some(t)) => match parsed_u16(t) {
            Ok(v) => Ok(Some(v)),
            Err(k) => Err(ReadError::Corrupt("sample "@ + id + " invalid "@ + name + ": "@ + parse_error_text(k))),
        },
    }
}

proof fn lemma_lookup_remove(fs: Seq<(Seq<char>, Option<Seq<char>>)>, i: int, other: Seq<char>)
    requires
        0 <= i < fs.len(),
        fs[i].0 != other,
        forall|j: int| 0 <= j < i ==> fs[j].0 != fs[i].0,
    ensures
        field_lookup(fs.remove(i), other) == field_lookup(fs, other),
    decreases fs.len(),
{
    if i == 0 {
        assert(fs.remove(0) =~= fs.drop_first());
    } else if fs[0].0 != other {
        assert(fs.remove(i).drop_first() =~= fs.drop_first().remove(i - 1));
        lemma_lookup_remove(fs.drop_first(), i - 1, other);
    } else {
        assert(fs.remove(i)[0] == fs[0]);
    }
}

/// Takes the first field called `name` out of `fields` and reads it as text.
pub fn stream_field(fields: &mut Vec<(String, Result<String, redis::RedisError>)>, name: &str) -> (r: Result<Option<String>, StoreError>)
    ensures
        match (r, text_read(field_views(old(fields)@), name@)) {
            (Ok(x), Ok(y)) => text_opt(x) == y,
            (Err(e), Err(y)) => error_view(e) == y,
            _ => false,
        },
        forall|other: Seq<char>| other != name@ ==> #[trigger] field_lookup(field_views(final(fields)@), other)
            == field_lookup(field_views(old(fields)@), other),
{
    let ghost fs = field_views(fields@);
    let mut i: usize = 0;
    assert(fs.skip(0) =~= fs);
    while i < fields.len()
        invariant
            fs == field_views(fields@),
            fields@ == old(fields)@,
            i <= fields@.len(),
            forall|j: int| 0 <= j < i ==> fs[j].0 != name@,
            field_lookup(fs, name@) == field_lookup(fs.skip(i as int), name@),
        decreases fields@.len() - i,
    {
        if str_eq(fields[i].0.as_str(), name) {
            let ghost before = fields@;
            let (_, value) = fields.remove(i);
            proof {
                assert(before[i as int].1 == value);
                assert(fs.skip(i as int)[0] == fs[i as int]);
                assert forall|other: Seq<char>| other != name@ implies #[trigger] field_lookup(field_views(fields@), other)
                    == field_lookup(fs, other) by {
                    assert(field_views(fields@) =~= fs.remove(i as int));
                    lemma_lookup_remove(fs, i as int, other);
                }
            }
            return match value {
                Ok(text) => Ok(Some(text)),
                Err(e) => Err(StoreError::Redis(e)),
            };
        }
        assert(fs.skip(i as int).drop_first() =~= fs.skip(i as int + 1));
        i += 1;
    }
    assert(fs.skip(i as int) =~= Seq::<(Seq<char>, Option<Seq<char>>)>::empty());
    Ok(None)
}

/// Takes the status field `name` of entry `id` out of `fields` and parses it.
pub fn parse_status(fields: &mut Vec<(String, Result<String, redis::RedisError>)>, name: &str, id: &str) -> (r: Result<Option<u16>, StoreError>)
    ensures
        match (r, status_read(field_views(old(fields)@), name@, id@)) {
            (Ok(x), Ok(y)) => x == y,
            (Err(e), Err(y)) => error_view(e) == y,
            _ => false,
        },
        forall|other: Seq<char>| other != name@ ==> #[trigger] field_lookup(field_views(final(fields)@), other)
            == field_lookup(field_views(old(fields)@), other),
{
    match stream_field(fields, name)? {
        Some(text) => match parse_u16(text.as_str()) {
            Ok(v) => Ok(Some(v)),
            Err(k) => {
                let msg = parse_error_message(k);
                let a = concat("sample ", id);
                let b = concat(a.as_str(), " invalid ");
                let c = concat(b.as_str(), name);
                let d = concat(c.as_str(), ": ");
                Err(StoreError::Corrupt(concat(d.as_str(), msg.as_str())))
            },
        },
        None => Ok(None),
    }
}

/// A corrupt-entry message: `sample <id> <what>`.
pub open spec fn corrupt(id: Seq<char>, what: Seq<char>) -> ReadError {
    ReadError::Corrupt("sample "@ + id + " "@ + what)
}

/// The secondary side read from fields prefixed `side`.
pub open spec fn side_read(
    status: Result<Option<u16>, ReadError>,
    body: Result<Option<Seq<char>>, ReadError>,
    headers: Result<Option<Seq<char>>, ReadError>,
) -> Result<SideView, ReadError> {
    match status {
        Err(e) => Err(e),
        Ok(st) => match body {
            Err(e) => Err(e),
            Ok(b) => match headers {
                Err(e) => Err(e),
                Ok(h) => Ok(SideView { status: st, body: b, headers: h }),
            },
        },
    }
}

/// What entry `id` of `endpoint`'s stream reads back as, checking its
/// fields in order: timestamp, baseline status, body and headers, candidate
/// status, body and headers, control status, body and headers, request curl.
/// Missing baseline headers read as the empty object.
pub open spec fn entry_read(id: Seq<char>, fs: Seq<(Seq<char>, Option<Seq<char>>)>, endpoint: Seq<char>) -> Result<SampleView, ReadError> {
    match text_read(fs, "timestamp"@) {
        Err(e) => Err(e),
        Ok(None) => Err(corrupt(id, "missing timestamp"@)),
        Ok(Some(ts)) => match rfc3339_instant(ts) {
            None => Err(corrupt(id, "invalid timestamp: "@ + rfc3339_error_text(ts))),
            Some(t) => match status_read(fs, "baseline_status"@, id) {
                Err(e) => Err(e),
                Ok(None) => Err(corrupt(id, "missing baseline_status"@)),
                Ok(Some(bs)) => match text_read(fs, "baseline_body"@) {
                    Err(e) => Err(e),
                    Ok(None) => Err(corrupt(id, "missing baseline_body"@)),
                    Ok(Some(bb)) => match text_read(fs, "baseline_headers"@) {
                        Err(e) => Err(e),
                        Ok(bh) => match side_read(
                            status_read(fs, "candidate_status"@, id),
                            text_read(fs, "candidate_body"@),
                            text_read(fs, "candidate_headers"@),
                        ) {
                            Err(e) => Err(e),
                            Ok(cand) => match side_read(
                                status_read(fs, "control_status"@, id),
                                text_read(fs, "control_body"@),
                                text_read(fs, "control_headers"@),
                            ) {
                                Err(e) => Err(e),
                                Ok(ctrl) => match text_read(fs, "request_curl"@) {
                                    Err(e) => Err(e),
                                    Ok(curl) => Ok(SampleView {
                                        id,
                                        endpoint,
                                        timestamp: t,
                                        baseline_status: bs,
                                        baseline_body: bb,
                                        baseline_headers: match bh {
                                            Some(h) => h,
                                            None => "{}"@,
                                        },
                                        candidate: cand,
                                        control: ctrl,
                                        request_curl: curl,
                                    }),
                                },
                            },
                        },
                    },
                },
            },
        },
    }
}

fn corrupt_error(id: &str, what: &str) -> (r: StoreError)
    ensures
        error_view(r) == corrupt(id@, what@),
{
    let a = concat("sample ", id);
    let b = concat(a.as_str(), " ");
    StoreError::Corrupt(concat(b.as_str(), what))
}

/// The field names of a stored sample are pairwise distinct.
proof fn lemma_field_names_distinct()
    ensures
        "timestamp"@ != "baseline_status"@,
        "timestamp"@ != "baseline_body"@,
        "timestamp"@ != "baseline_headers"@,
        "timestamp"@ != "candidate_status"@,
        "timestamp"@ != "candidate_body"@,
        "timestamp"@ != "candidate_headers"@,
        "timestamp"@ != "control_status"@,
        "timestamp"@ != "control_body"@,
        "timestamp"@ != "control_headers"@,
        "timestamp"@ != "request_curl"@,
        "baseline_status"@ != "baseline_body"@,
        "baseline_status"@ != "baseline_headers"@,
        "baseline_status"@ != "candidate_status"@,
        "baseline_status"@ != "candidate_body"@,
        "baseline_status"@ != "candidate_headers"@,
        "baseline_status"@ != "control_status"@,
        "baseline_status"@ != "control_body"@,
        "baseline_status"@ != "control_headers"@,
        "baseline_status"@ != "request_curl"@,
        "baseline_body"@ != "baseline_headers"@,
        "baseline_body"@ != "candidate_status"@,
        "baseline_body"@ != "candidate_body"@,
        "baseline_body"@ != "candidate_headers"@,
        "baseline_body"@ != "control_status"@,
        "baseline_body"@ != "control_body"@,
        "baseline_body"@ != "control_headers"@,
        "baseline_body"@ != "request_curl"@,
        "baseline_headers"@ != "candidate_status"@,
        "baseline_headers"@ != "candidate_body"@,
        "baseline_headers"@ != "candidate_headers"@,
        "baseline_headers"@ != "control_status"@,
        "baseline_headers"@ != "control_body"@,
        "baseline_headers"@ != "control_headers"@,
        "baseline_headers"@ != "request_curl"@,
        "candidate_status"@ != "candidate_body"@,
        "candidate_status"@ != "candidate_headers"@,
        "candidate_status"@ != "control_status"@,
        "candidate_status"@ != "control_body"@,
        "candidate_status"@ != "control_headers"@,
        "candidate_status"@ != "request_curl"@,
        "candidate_body"@ != "candidate_headers"@,
        "candidate_body"@ != "control_status"@,
        "candidate_body"@ != "control_body"@,
        "candidate_body"@ != "control_headers"@,
        "candidate_body"@ != "request_curl"@,
        "candidate_headers"@ != "control_status"@,
        "candidate_headers"@ != "control_body"@,
        "candidate_headers"@ != "control_headers"@,
        "candidate_headers"@ != "request_curl"@,
        "control_status"@ != "control_body"@,
        "control_status"@ != "control_headers"@,
        "control_status"@ != "request_curl"@,
        "control_body"@ != "control_headers"@,
        "control_body"@ != "request_curl"@,
        "control_headers"@ != "request_curl"@,
{
    reveal_strlit("timestamp");
    reveal_strlit("baseline_status");
    reveal_strlit("baseline_body");
    reveal_strlit("baseline_headers");
    reveal_strlit("candidate_status");
    reveal_strlit("candidate_body");
    reveal_strlit("candidate_headers");
    reveal_strlit("control_status");
    reveal_strlit("control_body");
    reveal_strlit("control_headers");
    reveal_strlit("request_curl");
    assert("timestamp"@.len() == 9);
    assert("baseline_status"@.len() == 15);
    assert("baseline_body"@.len() == 13);
    assert("baseline_headers"@.len() == 16);
    assert("candidate_status"@.len() == 16);
    assert("candidate_body"@.len() == 14);
    assert("candidate_headers"@.len() == 17);
    assert("control_status"@.len() == 14);
    assert("control_body"@.len() == 12);
    assert("control_headers"@.len() == 15);
    assert("request_curl"@.len() == 12);
    assert("baseline_status"@[0] == 'b' && "control_headers"@[0] == 'c');
    assert("baseline_headers"@[0] == 'b' && "candidate_status"@[0] == 'c');
    assert("candidate_body"@[1] == 'a' && "control_status"@[1] == 'o');
    assert("control_body"@[0] == 'c' && "request_curl"@[0] == 'r');
}

/// Reads a stream entry back into a sample of `endpoint`.
pub fn sample_from_entry(entry: StreamEntry, endpoint: &str) -> (r: Result<RawSample, StoreError>)
    ensures
        match (r, entry_read(entry.id@, field_views(entry.fields@), endpoint@)) {
            (Ok(s), Ok(v)) => s@ == v,
            (Err(e), Err(v)) => error_view(e) == v,
            _ => false,
        },
{
    let ghost fs = field_views(entry.fields@);
    let id = entry.id;
    let mut fields = entry.fields;
    proof {
        lemma_field_names_distinct();
    }
    let timestamp = match stream_field(&mut fields, "timestamp")? {
        Some(ts) => match parse_rfc3339(ts.as_str()) {
            Ok(t) => t,
            Err(msg) => {
                let what = concat("invalid timestamp: ", msg.as_str());
                return Err(corrupt_error(id.as_str(), what.as_str()));
            },
        },
        None => {
            return Err(corrupt_error(id.as_str(), "missing timestamp"));
        },
    };
    proof {
        assert(field_lookup(field_views(fields@), "baseline_status"@) == field_lookup(fs, "baseline_status"@));
        assert(field_lookup(field_views(fields@), "baseline_body"@) == field_lookup(fs, "baseline_body"@));
        assert(field_lookup(field_views(fields@), "baseline_headers"@) == field_lookup(fs, "baseline_headers"@));
        assert(field_lookup(field_views(fields@), "candidate_status"@) == field_lookup(fs, "candidate_status"@));
        assert(field_lookup(field_views(fields@), "candidate_body"@) == field_lookup(fs, "candidate_body"@));
        assert(field_lookup(field_views(fields@), "candidate_headers"@) == field_lookup(fs, "candidate_headers"@));
        assert(field_lookup(field_views(fields@), "control_status"@) == field_lookup(fs, "control_status"@));
        assert(field_lookup(field_views(fields@), "control_body"@) == field_lookup(fs, "control_body"@));
        assert(field_lookup(field_views(fields@), "control_headers"@) == field_lookup(fs, "control_headers"@));
        assert(field_lookup(field_views(fields@), "request_curl"@) == field_lookup(fs, "request_curl"@));
    }
    let baseline_status = match parse_status(&mut fields, "baseline_status", id.as_str())? {
        Some(st) => st,
        None => {
            return Err(corrupt_error(id.as_str(), "missing baseline_status"));
        },
    };
    proof {
        assert(field_lookup(field_views(fields@), "baseline_body"@) == field_lookup(fs, "baseline_body"@));
        assert(field_lookup(field_views(fields@), "baseline_headers"@) == field_lookup(fs, "baseline_headers"@));
        assert(field_lookup(field_views(fields@), "candidate_status"@) == field_lookup(fs, "candidate_status"@));
        assert(field_lookup(field_views(fields@), "candidate_body"@) == field_lookup(fs, "candidate_body"@));
        assert(field_lookup(field_views(fields@), "candidate_headers"@) == field_lookup(fs, "candidate_headers"@));
        assert(field_lookup(field_views(fields@), "control_status"@) == field_lookup(fs, "control_status"@));
        assert(field_lookup(field_views(fields@), "control_body"@) == field_lookup(fs, "control_body"@));
        assert(field_lookup(field_views(fields@), "control_headers"@) == field_lookup(fs, "control_headers"@));
        assert(field_lookup(field_views(fields@), "request_curl"@) == field_lookup(fs, "request_curl"@));
    }
    let baseline_body = match stream_field(&mut fields, "baseline_body")? {
        Some(b) => b,
        None => {
            return Err(corrupt_error(id.as_str(), "missing baseline_body"));
        },
    };
    proof {
        assert(field_lookup(field_views(fields@), "baseline_headers"@) == field_lookup(fs, "baseline_headers"@));
        assert(field_lookup(field_views(fields@), "candidate_status"@) == field_lookup(fs, "candidate_status"@));
        assert(field_lookup(field_views(fields@), "candidate_body"@) == field_lookup(fs, "candidate_body"@));
        assert(field_lookup(field_views(fields@), "candidate_headers"@) == field_lookup(fs, "candidate_headers"@));
        assert(field_lookup(field_views(fields@), "control_status"@) == field_lookup(fs, "control_status"@));
        assert(field_lookup(field_views(fields@), "control_body"@) == field_lookup(fs, "control_body"@));
        assert(field_lookup(field_views(fields@), "control_headers"@) == field_lookup(fs, "control_headers"@));
        assert(field_lookup(field_views(fields@), "request_curl"@) == field_lookup(fs, "request_curl"@));
    }
    let baseline_headers = match stream_field(&mut fields, "baseline_headers")? {
        Some(h) => h,
        None => "{}".to_string(),
    };
    proof {
        assert(field_lookup(field_views(fields@), "candidate_status"@) == field_lookup(fs, "candidate_status"@));
        assert(field_lookup(field_views(fields@), "candidate_body"@) == field_lookup(fs, "candidate_body"@));
        assert(field_lookup(field_views(fields@), "candidate_headers"@) == field_lookup(fs, "candidate_headers"@));
        assert(field_lookup(field_views(fields@), "control_status"@) == field_lookup(fs, "control_status"@));
        assert(field_lookup(field_views(fields@), "control_body"@) == field_lookup(fs, "control_body"@));
        assert(field_lookup(field_views(fields@), "control_headers"@) == field_lookup(fs, "control_headers"@));
        assert(field_lookup(field_views(fields@), "request_curl"@) == field_lookup(fs, "request_curl"@));
    }
    let candidate_status = parse_status(&mut fields, "candidate_status", id.as_str())?;
    proof {
        assert(field_lookup(field_views(fields@), "candidate_body"@) == field_lookup(fs, "candidate_body"@));
        assert(field_lookup(field_views(fields@), "candidate_headers"@) == field_lookup(fs, "candidate_headers"@));
        assert(field_lookup(field_views(fields@), "control_status"@) == field_lookup(fs, "control_status"@));
        assert(field_lookup(field_views(fields@), "control_body"@) == field_lookup(fs, "control_body"@));
        assert(field_lookup(field_views(fields@), "control_headers"@) == field_lookup(fs, "control_headers"@));
        assert(field_lookup(field_views(fields@), "request_curl"@) == field_lookup(fs, "request_curl"@));
    }
    let candidate_body = stream_field(&mut fields, "candidate_body")?;
    proof {
        assert(field_lookup(field_views(fields@), "candidate_headers"@) == field_lookup(fs, "candidate_headers"@));
        assert(field_lookup(field_views(fields@), "control_status"@) == field_lookup(fs, "control_status"@));
        assert(field_lookup(field_views(fields@), "control_body"@) == field_lookup(fs, "control_body"@));
        assert(field_lookup(field_views(fields@), "control_headers"@) == field_lookup(fs, "control_headers"@));
        assert(field_lookup(field_views(fields@), "request_curl"@) == field_lookup(fs, "request_curl"@));
    }
    let candidate_headers = stream_field(&mut fields, "candidate_headers")?;
    proof {
        assert(field_lookup(field_views(fields@), "control_status"@) == field_lookup(fs, "control_status"@));
        assert(field_lookup(field_views(fields@), "control_body"@) == field_lookup(fs, "control_body"@));
        assert(field_lookup(field_views(fields@), "control_headers"@) == field_lookup(fs, "control_headers"@));
        assert(field_lookup(field_views(fields@), "request_curl"@) == field_lookup(fs, "request_curl"@));
    }
    let control_status = parse_status(&mut fields, "control_status", id.as_str())?;
    proof {
        assert(field_lookup(field_views(fields@), "control_body"@) == field_lookup(fs, "control_body"@));
        assert(field_lookup(field_views(fields@), "control_headers"@) == field_lookup(fs, "control_headers"@));
        assert(field_lookup(field_views(fields@), "request_curl"@) == field_lookup(fs, "request_curl"@));
    }
    let control_body = stream_field(&mut fields, "control_body")?;
    proof {
        assert(field_lookup(field_views(fields@), "control_headers"@) == field_lookup(fs, "control_headers"@));
        assert(field_lookup(field_views(fields@), "request_curl"@) == field_lookup(fs, "request_curl"@));
    }
    let control_headers = stream_field(&mut fields, "control_headers")?;
    proof {
        assert(field_lookup(field_views(fields@), "request_curl"@) == field_lookup(fs, "request_curl"@));
    }
    let request_curl = stream_field(&mut fields, "request_curl")?;
    Ok(RawSample {
        id,
        endpoint: endpoint.to_string(),
        timestamp,
        baseline_status,
        baseline_body,
        baseline_headers,
        candidate_status,
        candidate_body,
        candidate_headers,
        control_status,
        control_body,
        control_headers,
        request_curl,
    })
}

/// A field to write when the value is present.
pub open spec fn opt_field(name: Seq<char>, v: Option<Seq<char>>) -> Seq<(Seq<char>, Seq<char>)> {
    match v {
        Some(t) => seq![(name, t)],
        None => Seq::empty(),
    }
}

pub open spec fn status_text(st: Option<u16>) -> Option<Seq<char>> {
    match st {
        Some(v) => Some(decimal(v as nat)),
        None => None,
    }
}

/// The fields written for a sample whose timestamp renders as `ts`: the
/// baseline fields always, each optional value only when present.
pub open spec fn sample_field_list(s: SampleView, ts: Seq<char>) -> Seq<(Seq<char>, Seq<char>)> {
    seq![
        ("timestamp"@, ts),
        ("baseline_status"@, decimal(s.baseline_status as nat)),
        ("baseline_body"@, s.baseline_body),
        ("baseline_headers"@, s.baseline_headers),
    ] + opt_field("candidate_status"@, status_text(s.candidate.status))
        + opt_field("candidate_body"@, s.candidate.body)
        + opt_field("candidate_headers"@, s.candidate.headers)
        + opt_field("control_status"@, status_text(s.control.status))
        + opt_field("control_body"@, s.control.body)
        + opt_field("control_headers"@, s.control.headers)
        + opt_field("request_curl"@, s.request_curl)
}

fn push_opt(fields: &mut Vec<(String, String)>, name: &str, v: &Option<String>)
    ensures
        crate::order::text_pairs(final(fields)@) == crate::order::text_pairs(old(fields)@) + opt_field(name@, text_opt(*v)),
{
    let ghost before = crate::order::text_pairs(fields@);
    match v {
        Some(t) => {
            fields.push((name.to_string(), t.clone()));
            assert(crate::order::text_pairs(fields@) =~= before + opt_field(name@, text_opt(*v)));
        },
        None => {
            assert(crate::order::text_pairs(fields@) =~= before + opt_field(name@, text_opt(*v)));
        },
    }
}

fn status_string(st: Option<u16>) -> (r: Option<String>)
    ensures
        text_opt(r) == status_text(st),
{
    match st {
        Some(v) => Some(decimal_string(v as u64)),
        None => None,
    }
}

/// The fields to write for `sample`, in order; `None` when its timestamp
/// cannot be rendered.
#[verifier::rlimit(40)]
pub fn sample_fields(sample: &RawSample) -> (r: Option<Vec<(String, String)>>)
    ensures
        match (r, rfc3339_text(sample.timestamp)) {
            (Some(v), Some(ts)) => crate::order::text_pairs(v@) == sample_field_list(sample@, ts)
                && (rfc3339_round_trips(sample.timestamp) ==> rfc3339_instant(ts) == Some(sample.timestamp)),
            (None, None) => true,
            _ => false,
        },
{
    let ts = format_rfc3339(sample.timestamp)?;
    let mut fields: Vec<(String, String)> = Vec::new();
    fields.push(("timestamp".to_string(), ts));
    fields.push(("baseline_status".to_string(), decimal_string(sample.baseline_status as u64)));
    fields.push(("baseline_body".to_string(), sample.baseline_body.clone()));
    fields.push(("baseline_headers".to_string(), sample.baseline_headers.clone()));
    let ghost base = crate::order::text_pairs(fields@);
    assert(base =~= seq![
        ("timestamp"@, ts@),
        ("baseline_status"@, decimal(sample.baseline_status as nat)),
        ("baseline_body"@, sample.baseline_body@),
        ("baseline_headers"@, sample.baseline_headers@),
    ]);
    push_opt(&mut fields, "candidate_status", &status_string(sample.candidate_status));
    push_opt(&mut fields, "candidate_body", &sample.candidate_body);
    push_opt(&mut fields, "candidate_headers", &sample.candidate_headers);
    push_opt(&mut fields, "control_status", &status_string(sample.control_status));
    push_opt(&mut fields, "control_body", &sample.control_body);
    push_opt(&mut fields, "control_headers", &sample.control_headers);
    push_opt(&mut fields, "request_curl", &sample.request_curl);
    Some(fields)
}

/// The samples a range read returns, newest first, that fall within the
/// window at `now`; the first entry that does not read back fails the read.
pub open spec fn reply_read(
    entries: Seq<(Seq<char>, Seq<(Seq<char>, Option<Seq<char>>)>)>,
    endpoint: Seq<char>,
    window_secs: u64,
    now: Timestamp,
) -> Result<Seq<SampleView>, ReadError>
    decreases entries.len(),
{
    if entries.len() == 0 {
        Ok(Seq::empty())
    } else {
        match reply_read(entries.drop_last(), endpoint, window_secs, now) {
            Err(e) => Err(e),
            Ok(prev) => match entry_read(entries.last().0, entries.last().1, endpoint) {
                Err(e) => Err(e),
                Ok(s) => Ok(if within_window(now, s.timestamp, window_secs) { prev.push(s) } else { prev }),
            },
        }
    }
}

pub open spec fn entry_views(v: Seq<StreamEntry>) -> Seq<(Seq<char>, Seq<(Seq<char>, Option<Seq<char>>)>)> {
    Seq::new(v.len(), |i: int| (v[i].id@, field_views(v[i].fields@)))
}

proof fn lemma_reply_error_sticks(
    all: Seq<(Seq<char>, Seq<(Seq<char>, Option<Seq<char>>)>)>,
    endpoint: Seq<char>,
    window_secs: u64,
    now: Timestamp,
    m: int,
)
    requires
        0 < m <= all.len(),
        reply_read(all.take(m), endpoint, window_secs, now) is Err,
    ensures
        reply_read(all, endpoint, window_secs, now) == reply_read(all.take(m), endpoint, window_secs, now),
    decreases all.len() - m,
{
    if m < all.len() {
        assert(all.take(m + 1).drop_last() =~= all.take(m));
        lemma_reply_error_sticks(all, endpoint, window_secs, now, m + 1);
    } else {
        assert(all.take(m) =~= all);
    }
}

/// Reads the entries of a range read, in the order given, keeping the
/// samples within the window at `now`.
pub fn samples_from_reply(entries: Vec<StreamEntry>, endpoint: &str, window_secs: u64, now: Timestamp) -> (r: Result<Vec<RawSample>, StoreError>)
    ensures
        match (r, reply_read(entry_views(entries@), endpoint@, window_secs, now)) {
            (Ok(v), Ok(w)) => sample_views(v@) == w,
            (Err(e), Err(w)) => error_view(e) == w,
            _ => false,
        },
{
    let ghost all = entry_views(entries@);
    let ghost n = all.len();
    let mut rest = entries;
    let mut out: Vec<RawSample> = Vec::new();
    let mut k: usize = 0;
    assert(all.take(0) =~= Seq::<(Seq<char>, Seq<(Seq<char>, Option<Seq<char>>)>)>::empty());
    assert(entry_views(rest@) =~= all.skip(0));
    assert(sample_views(out@) =~= Seq::<SampleView>::empty());
    let len0 = rest.len();
    while rest.len() > 0
        invariant
            all == entry_views(entries@),
            n == all.len(),
            n == len0,
            k + rest@.len() == n,
            entry_views(rest@) == all.skip(k as int),
            reply_read(all.take(k as int), endpoint@, window_secs, now) == Ok::<Seq<SampleView>, ReadError>(sample_views(out@)),
        decreases rest@.len(),
    {
        let ghost before_rest = rest@;
        let e = rest.remove(0);
        let ghost ev = (e.id@, field_views(e.fields@));
        proof {
            assert(all.skip(k as int)[0] == ev);
            assert(all[k as int] == ev);
            assert(all.take(k + 1).drop_last() =~= all.take(k as int));
            assert(all.take(k + 1).last() == ev);
            assert(rest@ =~= before_rest.remove(0));
            assert(entry_views(rest@) =~= entry_views(before_rest).skip(1));
            assert(entry_views(rest@) =~= all.skip(k + 1));
        }
        let sample = match sample_from_entry(e, endpoint) {
            Ok(s) => s,
            Err(err) => {
                proof {
                    assert(reply_read(all.take(k + 1), endpoint@, window_secs, now) == Err::<Seq<SampleView>, ReadError>(error_view(err)));
                    lemma_reply_error_sticks(all, endpoint@, window_secs, now, k + 1);
                }
                return Err(err);
            },
        };
        let ghost before = sample_views(out@);
        if sample_within(now, sample.timestamp, window_secs) {
            out.push(sample);
            assert(sample_views(out@) =~= before.push(sample@));
        }
        k += 1;
    }
    assert(all.take(n as int) =~= all);
    Ok(out)
}

/// A sample store backed by Redis streams: the connection, the per-endpoint
/// cap on retained samples and the read window, both at least one.
pub struct RedisSampleStore {
    conn: redis::aio::ConnectionManager,
    sample_cap: usize,
    window_secs: u64,
}

impl RedisSampleStore {
    pub closed spec fn cap(&self) -> usize {
        self.sample_cap
    }

    pub closed spec fn window(&self) -> u64 {
        self.window_secs
    }

    /// The connection the store talks over.
    pub closed spec fn conn_of(&self) -> redis::aio::ConnectionManager {
        self.conn
    }

    /// A store over an established connection.
    pub fn from_connection(conn: redis::aio::ConnectionManager, sample_cap: usize, window_secs: u64) -> (r: RedisSampleStore)
        ensures
            r.conn_of() == conn,
            r.cap() == if sample_cap >= 1 { sample_cap } else { 1 },
            r.window() == if window_secs >= 1 { window_secs } else { 1 },
    {
        RedisSampleStore {
            conn,
            sample_cap: if sample_cap >= 1 { sample_cap } else { 1 },
            window_secs: if window_secs >= 1 { window_secs } else { 1 },
        }
    }

    pub fn connection(&self) -> (r: &redis::aio::ConnectionManager)
        ensures
            *r == self.conn_of(),
    {
        &self.conn
    }

    pub fn sample_cap(&self) -> (r: usize)
        ensures
            r == self.cap(),
    {
        self.sample_cap
    }

    pub fn window_secs(&self) -> (r: u64)
        ensures
            r == self.window(),
    {
        self.window_secs
    }

    /// The samples of a newest-first range read that fall within the
    /// window, as of the current time.
    pub fn samples_in_window(&self, entries: Vec<StreamEntry>, endpoint: &str) -> (r: Result<Vec<RawSample>, StoreError>)
        ensures
            exists|t: Timestamp| match (r, #[trigger] reply_read(entry_views(entries@), endpoint@, self.window(), t)) {
                (Ok(v), Ok(w)) => sample_views(v@) == w,
                (Err(e), Err(w)) => error_view(e) == w,
                _ => false,
            },
    {
        let t = crate::sample::now();
        let r = samples_from_reply(entries, endpoint, self.window_secs, t);
        assert(match (r, reply_read(entry_views(entries@), endpoint@, self.window(), t)) {
            (Ok(v), Ok(w)) => sample_views(v@) == w,
            (Err(e), Err(w)) => error_view(e) == w,
            _ => false,
        });
        r
    }
}

/// The sample of a single-id range read: none when the reply is empty.
pub fn sample_from_reply(entries: Vec<StreamEntry>, endpoint: &str) -> (r: Result<Option<RawSample>, StoreError>)
    ensures
        entries@.len() == 0 ==> r matches Ok(None),
        entries@.len() > 0 ==> match (r, entry_read(entries@[0].id@, field_views(entries@[0].fields@), endpoint@)) {
            (Ok(Some(s)), Ok(v)) => s@ == v,
            (Err(e), Err(v)) => error_view(e) == v,
            _ => false,
        },
{
    let mut entries = entries;
    if entries.len() == 0 {
        return Ok(None);
    }
    let first = entries.remove(0);
    let s = sample_from_entry(first, endpoint)?;
    Ok(Some(s))
}

} // verus!

verus! {

/// Written fields as they read back: every value readable as its text.
pub open spec fn readable(fs: Seq<(Seq<char>, Seq<char>)>) -> Seq<(Seq<char>, Option<Seq<char>>)> {
    Seq::new(fs.len(), |i: int| (fs[i].0, Some(fs[i].1)))
}

proof fn lemma_lookup_concat(a: Seq<(Seq<char>, Option<Seq<char>>)>, b: Seq<(Seq<char>, Option<Seq<char>>)>, name: Seq<char>)
    ensures
        field_lookup(a + b, name) == match field_lookup(a, name) {
            Some(x) => Some(x),
            None => field_lookup(b, name),
        },
    decreases a.len(),
{
    if a.len() == 0 {
        assert(a + b =~= b);
    } else if a[0].0 == name {
        assert((a + b)[0] == a[0]);
    } else {
        assert((a + b).drop_first() =~= a.drop_first() + b);
        lemma_lookup_concat(a.drop_first(), b, name);
    }
}

proof fn lemma_lookup_opt(n: Seq<char>, v: Option<Seq<char>>, name: Seq<char>)
    ensures
        field_lookup(readable(opt_field(n, v)), name) == if n == name && v is Some {
            Some(v)
        } else {
            None::<Option<Seq<char>>>
        },
{
    let e = Seq::<(Seq<char>, Option<Seq<char>>)>::empty();
    assert(field_lookup(e, name) is None);
    if v is Some {
        let r = readable(opt_field(n, v));
        assert(r.len() == 1);
        assert(r[0] == (n, v));
        assert(r.drop_first() =~= e);
        if n != name {
            assert(field_lookup(r, name) == field_lookup(r.drop_first(), name));
        }
    } else {
        assert(readable(opt_field(n, v)) =~= e);
    }
}

proof fn lemma_decimal_digits(n: nat)
    ensures
        prefix_value(decimal(n)) == n,
        forall|i: int| 0 <= i < decimal(n).len() ==> is_digit(#[trigger] decimal(n)[i]),
        decimal(n).len() > 0,
    decreases n,
{
    if n >= 10 {
        lemma_decimal_digits(n / 10);
        let d = decimal(n / 10);
        assert(decimal(n).drop_last() =~= d);
        assert(decimal(n).last() == crate::text::digit_char(n % 10));
        assert(digit_value(crate::text::digit_char(n % 10)) == n % 10);
        assert((n / 10) * 10 + n % 10 == n);
        assert forall|i: int| 0 <= i < decimal(n).len() implies is_digit(#[trigger] decimal(n)[i]) by {
            if i < d.len() {
                assert(decimal(n)[i] == d[i]);
            }
        }
    } else {
        assert(digit_value(crate::text::digit_char(n)) == n);
        assert(decimal(n).drop_last() =~= Seq::<char>::empty());
        assert(prefix_value(Seq::<char>::empty()) == 0);
    }
}

proof fn lemma_no_failure(d: Seq<char>)
    requires
        forall|i: int| 0 <= i < d.len() ==> is_digit(#[trigger] d[i]),
        forall|k: int| 0 <= k <= d.len() ==> prefix_value(#[trigger] d.take(k)) <= u16::MAX,
    ensures
        digits_failure(d) is None,
    decreases d.len(),
{
    if d.len() > 0 {
        let p = d.drop_last();
        assert forall|k: int| 0 <= k <= p.len() implies prefix_value(#[trigger] p.take(k)) <= u16::MAX by {
            assert(p.take(k) =~= d.take(k));
        }
        lemma_no_failure(p);
        assert(d.take(d.len() as int) =~= d);
    }
}

proof fn lemma_prefix_monotone(d: Seq<char>, k: int)
    requires
        0 <= k <= d.len(),
        forall|i: int| 0 <= i < d.len() ==> is_digit(#[trigger] d[i]),
    ensures
        prefix_value(d.take(k)) <= prefix_value(d),
    decreases d.len() - k,
{
    lemma_prefix_value_nonneg(d.take(k));
    if k < d.len() {
        lemma_prefix_monotone(d, k + 1);
        assert(d.take(k + 1).drop_last() =~= d.take(k));
        assert forall|i: int| 0 <= i < d.take(k + 1).len() implies is_digit(#[trigger] d.take(k + 1)[i]) by {
            assert(d.take(k + 1)[i] == d[i]);
        }
        lemma_prefix_value_nonneg(d.take(k));
    } else {
        assert(d.take(k) =~= d);
    }
}

/// A status written as its decimal text parses back to itself.
pub proof fn lemma_status_text_parses(v: u16)
    ensures
        parsed_u16(decimal(v as nat)) == Ok::<u16, ParseIntKind>(v),
{
    let d = decimal(v as nat);
    lemma_decimal_digits(v as nat);
    assert forall|k: int| 0 <= k <= d.len() implies prefix_value(#[trigger] d.take(k)) <= u16::MAX by {
        lemma_prefix_monotone(d, k);
    }
    lemma_no_failure(d);
    assert(is_digit(d[0]));
}

/// The text a written sample's field `name` reads back as.
pub open spec fn written_lookup(s: SampleView, ts: Seq<char>, name: Seq<char>) -> Option<Option<Seq<char>>> {
    let some = |o: Option<Seq<char>>| match o {
        Some(t) => Some(Some(t)),
        None => None,
    };
    if name == "timestamp"@ {
        Some(Some(ts))
    } else if name == "baseline_status"@ {
        Some(Some(decimal(s.baseline_status as nat)))
    } else if name == "baseline_body"@ {
        Some(Some(s.baseline_body))
    } else if name == "baseline_headers"@ {
        Some(Some(s.baseline_headers))
    } else if name == "candidate_status"@ {
        some(status_text(s.candidate.status))
    } else if name == "candidate_body"@ {
        some(s.candidate.body)
    } else if name == "candidate_headers"@ {
        some(s.candidate.headers)
    } else if name == "control_status"@ {
        some(status_text(s.control.status))
    } else if name == "control_body"@ {
        some(s.control.body)
    } else if name == "control_headers"@ {
        some(s.control.headers)
    } else if name == "request_curl"@ {
        some(s.request_curl)
    } else {
        None
    }
}

#[verifier::rlimit(60)]
proof fn lemma_written_lookup(s: SampleView, ts: Seq<char>, name: Seq<char>)
    ensures
        field_lookup(readable(sample_field_list(s, ts)), name) == written_lookup(s, ts, name),
{
    lemma_field_names_distinct();
    let base: Seq<(Seq<char>, Seq<char>)> = seq![
        ("timestamp"@, ts),
        ("baseline_status"@, decimal(s.baseline_status as nat)),
        ("baseline_body"@, s.baseline_body),
        ("baseline_headers"@, s.baseline_headers),
    ];
    let o1 = opt_field("candidate_status"@, status_text(s.candidate.status));
    let o2 = opt_field("candidate_body"@, s.candidate.body);
    let o3 = opt_field("candidate_headers"@, s.candidate.headers);
    let o4 = opt_field("control_status"@, status_text(s.control.status));
    let o5 = opt_field("control_body"@, s.control.body);
    let o6 = opt_field("control_headers"@, s.control.headers);
    let o7 = opt_field("request_curl"@, s.request_curl);
    let rb = readable(base);
    assert(readable(sample_field_list(s, ts)) =~= rb + readable(o1) + readable(o2) + readable(o3) + readable(o4) + readable(o5) + readable(o6) + readable(o7));
    lemma_lookup_concat(rb + readable(o1) + readable(o2) + readable(o3) + readable(o4) + readable(o5) + readable(o6), readable(o7), name);
    lemma_lookup_concat(rb + readable(o1) + readable(o2) + readable(o3) + readable(o4) + readable(o5), readable(o6), name);
    lemma_lookup_concat(rb + readable(o1) + readable(o2) + readable(o3) + readable(o4), readable(o5), name);
    lemma_lookup_concat(rb + readable(o1) + readable(o2) + readable(o3), readable(o4), name);
    lemma_lookup_concat(rb + readable(o1) + readable(o2), readable(o3), name);
    lemma_lookup_concat(rb + readable(o1), readable(o2), name);
    lemma_lookup_concat(rb, readable(o1), name);
    lemma_lookup_opt("candidate_status"@, status_text(s.candidate.status), name);
    lemma_lookup_opt("candidate_body"@, s.candidate.body, name);
    lemma_lookup_opt("candidate_headers"@, s.candidate.headers, name);
    lemma_lookup_opt("control_status"@, status_text(s.control.status), name);
    lemma_lookup_opt("control_body"@, s.control.body, name);
    lemma_lookup_opt("control_headers"@, s.control.headers, name);
    lemma_lookup_opt("request_curl"@, s.request_curl, name);
    let r1 = rb.drop_first();
    let r2 = r1.drop_first();
    let r3 = r2.drop_first();
    assert(rb[0] == ("timestamp"@, Some(ts)));
    assert(r1[0] == ("baseline_status"@, Some(decimal(s.baseline_status as nat))));
    assert(r2[0] == ("baseline_body"@, Some(s.baseline_body)));
    assert(r3[0] == ("baseline_headers"@, Some(s.baseline_headers)));
    assert(r3.drop_first() =~= Seq::<(Seq<char>, Option<Seq<char>>)>::empty());
    assert(field_lookup(r3.drop_first(), name) is None);
    assert(field_lookup(r3, name) == if name == "baseline_headers"@ { Some(Some(s.baseline_headers)) } else { None::<Option<Seq<char>>> });
    assert(field_lookup(r2, name) == if name == "baseline_body"@ { Some(Some(s.baseline_body)) } else { field_lookup(r3, name) });
    assert(field_lookup(r1, name) == if name == "baseline_status"@ { Some(Some(decimal(s.baseline_status as nat))) } else { field_lookup(r2, name) });
    assert(field_lookup(rb, name) == if name == "timestamp"@ { Some(Some(ts)) } else { field_lookup(r1, name) });
}

/// What is written for a sample reads back as that sample, under the id
/// the stream assigned, provided the timestamp text reads back as the
/// sample's instant, as `sample_fields` ensures for every instant in the
/// years 0000 to 9999.
pub proof fn lemma_written_sample_reads_back(s: SampleView, ts: Seq<char>, id: Seq<char>)
    requires
        rfc3339_instant(ts) == Some(s.timestamp),
    ensures
        entry_read(id, readable(sample_field_list(s, ts)), s.endpoint) == Ok::<SampleView, ReadError>(crate::store::with_id(s, id)),
{
    let r = readable(sample_field_list(s, ts));
    lemma_written_lookup(s, ts, "timestamp"@);
    lemma_written_lookup(s, ts, "baseline_status"@);
    lemma_written_lookup(s, ts, "baseline_body"@);
    lemma_written_lookup(s, ts, "baseline_headers"@);
    lemma_written_lookup(s, ts, "candidate_status"@);
    lemma_written_lookup(s, ts, "candidate_body"@);
    lemma_written_lookup(s, ts, "candidate_headers"@);
    lemma_written_lookup(s, ts, "control_status"@);
    lemma_written_lookup(s, ts, "control_body"@);
    lemma_written_lookup(s, ts, "control_headers"@);
    lemma_written_lookup(s, ts, "request_curl"@);
    lemma_field_names_distinct();
    lemma_status_text_parses(s.baseline_status);
    match s.candidate.status {
        Some(v) => lemma_status_text_parses(v),
        None => {},
    }
    match s.control.status {
        Some(v) => lemma_status_text_parses(v),
        None => {},
    }
    let cand = side_read(
        status_read(r, "candidate_status"@, id),
        text_read(r, "candidate_body"@),
        text_read(r, "candidate_headers"@),
    );
    assert(cand == Ok::<SideView, ReadError>(s.candidate));
    let ctrl = side_read(
        status_read(r, "control_status"@, id),
        text_read(r, "control_body"@),
        text_read(r, "control_headers"@),
    );
    assert(ctrl == Ok::<SideView, ReadError>(s.control));
}

} // verus!
