//! The Redis layout of per-request difference records and of the periodic
//! per-endpoint aggregation snapshots.
use vstd::prelude::*;
use crate::counters::EndpointAggregation;
use crate::flatten::FieldDiffs;
use crate::redis_store::{format_rfc3339, rfc3339_text, opt_field, status_text};
use crate::sample::{Timestamp, text_opt};
use crate::text::{concat, decimal, decimal_string};

verus! {

broadcast use vstd::std_specs::vec::group_vec_axioms;

/// One request's differences, destined for the difference stream.
pub struct DiffEntry {
    pub endpoint: String,
    pub timestamp: Timestamp,
    /// Baseline against candidate.
    pub raw_fields: FieldDiffs,
    /// Baseline against control.
    pub noise_fields: FieldDiffs,
    pub primary_status: u16,
    pub candidate_status: Option<u16>,
    pub secondary_status: Option<u16>,
}

/// Difference records go to one stream; aggregation snapshots to one hash
/// per endpoint under a key prefix.
pub struct RedisDiffStore {
    conn: redis::aio::ConnectionManager,
    stream_key: String,
    aggregation_key_prefix: String,
}

impl RedisDiffStore {
    pub closed spec fn stream_key_view(&self) -> Seq<char> {
        self.stream_key@
    }

    pub closed spec fn prefix_view(&self) -> Seq<char> {
        self.aggregation_key_prefix@
    }

    /// The connection the store talks over.
    pub closed spec fn conn_of(&self) -> redis::aio::ConnectionManager {
        self.conn
    }

    /// A store over an established connection.
    pub fn from_connection(conn: redis::aio::ConnectionManager, stream_key: String, aggregation_key_prefix: String) -> (r: RedisDiffStore)
        ensures
            r.conn_of() == conn,
            r.stream_key_view() == stream_key@,
            r.prefix_view() == aggregation_key_prefix@,
    {
        RedisDiffStore { conn, stream_key, aggregation_key_prefix }
    }

    pub fn connection(&self) -> (r: &redis::aio::ConnectionManager)
        ensures
            *r == self.conn_of(),
    {
        &self.conn
    }

    pub fn stream_key(&self) -> (r: &String)
        ensures
            r@ == self.stream_key_view(),
    {
        &self.stream_key
    }

    /// The hash key of `endpoint`'s snapshot: the prefix, a colon, the endpoint.
    pub fn aggregation_key(&self, endpoint: &str) -> (r: String)
        ensures
            r@ == self.prefix_view() + ":"@ + endpoint@,
    {
        let a = concat(self.aggregation_key_prefix.as_str(), ":");
        concat(a.as_str(), endpoint)
    }
}

/// The fields of a difference record whose timestamp renders as `ts`,
/// given the JSON texts of its raw and noise differences.
pub open spec fn diff_field_list(
    endpoint: Seq<char>,
    ts: Seq<char>,
    raw_json: Seq<char>,
    noise_json: Seq<char>,
    primary_status: u16,
    candidate_status: Option<u16>,
    secondary_status: Option<u16>,
) -> Seq<(Seq<char>, Seq<char>)> {
    seq![
        ("endpoint"@, endpoint),
        ("timestamp"@, ts),
        ("raw_fields"@, raw_json),
        ("noise_fields"@, noise_json),
        ("primary_status"@, decimal(primary_status as nat)),
    ] + opt_field("candidate_status"@, status_text(candidate_status))
        + opt_field("secondary_status"@, status_text(secondary_status))
}

fn push_status(fields: &mut Vec<(String, String)>, name: &str, st: Option<u16>)
    ensures
        crate::order::text_pairs(final(fields)@) == crate::order::text_pairs(old(fields)@) + opt_field(name@, status_text(st)),
{
    let ghost before = crate::order::text_pairs(fields@);
    match st {
        Some(v) => {
            fields.push((String::from_str(name), decimal_string(v as u64)));
        },
        None => {},
    }
    assert(crate::order::text_pairs(fields@) =~= before + opt_field(name@, status_text(st)));
}

/// The fields written for `entry`, given the JSON of its differences; `None`
/// when its timestamp cannot be rendered.
pub fn diff_entry_fields(entry: &DiffEntry, raw_json: String, noise_json: String) -> (r: Option<Vec<(String, String)>>)
    ensures
        match (r, rfc3339_text(entry.timestamp)) {
            (Some(v), Some(ts)) => crate::order::text_pairs(v@) == diff_field_list(
                entry.endpoint@,
                ts,
                raw_json@,
                noise_json@,
                entry.primary_status,
                entry.candidate_status,
                entry.secondary_status,
            ),
            (None, None) => true,
            _ => false,
        },
{
    let ts = format_rfc3339(entry.timestamp)?;
    let ghost tsv = ts@;
    let mut fields: Vec<(String, String)> = Vec::new();
    fields.push((String::from_str("endpoint"), entry.endpoint.clone()));
    fields.push((String::from_str("timestamp"), ts));
    fields.push((String::from_str("raw_fields"), raw_json));
    fields.push((String::from_str("noise_fields"), noise_json));
    fields.push((String::from_str("primary_status"), decimal_string(entry.primary_status as u64)));
    assert(crate::order::text_pairs(fields@) =~= seq![
        ("endpoint"@, entry.endpoint@),
        ("timestamp"@, tsv),
        ("raw_fields"@, raw_json@),
        ("noise_fields"@, noise_json@),
        ("primary_status"@, decimal(entry.primary_status as nat)),
    ]);
    push_status(&mut fields, "candidate_status", entry.candidate_status);
    push_status(&mut fields, "secondary_status", entry.secondary_status);
    Some(fields)
}

/// The fields of an aggregation snapshot: its total, the JSON of its
/// fields, and when it was taken; `None` when that instant cannot be
/// rendered.
pub fn aggregation_fields(aggregation: &EndpointAggregation, fields_json: String) -> (r: Option<Vec<(String, String)>>)
    ensures
        match (r, rfc3339_text(aggregation.last_updated)) {
            (Some(v), Some(ts)) => crate::order::text_pairs(v@) == seq![
                ("total"@, decimal(aggregation.total as nat)),
                ("fields"@, fields_json@),
                ("last_updated"@, ts),
            ],
            (None, None) => true,
            _ => false,
        },
{
    let ts = format_rfc3339(aggregation.last_updated)?;
    let ghost tsv = ts@;
    let mut fields: Vec<(String, String)> = Vec::new();
    fields.push((String::from_str("total"), decimal_string(aggregation.total)));
    fields.push((String::from_str("fields"), fields_json));
    fields.push((String::from_str("last_updated"), ts));
    assert(crate::order::text_pairs(fields@) =~= seq![
        ("total"@, decimal(aggregation.total as nat)),
        ("fields"@, fields_json@),
        ("last_updated"@, tsv),
    ]);
    Some(fields)
}

} // verus!
