//! Read-time analysis of recorded samples: per-sample field differences of
//! candidate (raw) and control (noise) against the baseline, per-field
//! counts for an endpoint, and the drill-down into one field.
use vstd::prelude::*;
use crate::compare::diff_of;
use crate::flatten::{DiffType, FieldDiff, FieldDiffs, FieldDiffView, flat_map, flatten_value, HEADER_FIELD_PREFIX, STATUS_FIELD};
use crate::json::{Json, JsonValue, parse_json, parsed_json};
use crate::maps::entries_map;
use crate::keyed::TextMap;
use crate::sample::{RawSample, SampleView, SideView, Timestamp, sample_views, timestamp_le, ts_le};
use crate::suppress::{path_suppressed, SuppressRules};
use crate::text::{concat, decimal};

verus! {

broadcast use vstd::std_specs::vec::group_vec_axioms;

/// The path of a status divergence.
pub open spec fn status_path() -> Seq<char> {
    seq![':', 's', 't', 'a', 't', 'u', 's']
}

/// The prefix of every header path: `:headers` and a dot.
pub open spec fn header_prefix() -> Seq<char> {
    seq![':', 'h', 'e', 'a', 'd', 'e', 'r', 's', '.']
}

pub open spec fn is_header_path(k: Seq<char>) -> bool {
    k.len() >= 9 && k.take(9) == header_prefix()
}

/// `body` with every header difference added under `:headers.<path>`;
/// a header difference replaces a body difference at the same path.
pub open spec fn with_headers(body: Map<Seq<char>, FieldDiffView>, headers: Map<Seq<char>, FieldDiffView>) -> Map<Seq<char>, FieldDiffView> {
    Map::new(
        |k: Seq<char>| body.dom().contains(k) || (is_header_path(k) && headers.dom().contains(k.skip(9))),
        |k: Seq<char>| if is_header_path(k) && headers.dom().contains(k.skip(9)) { headers[k.skip(9)] } else { body[k] },
    )
}

/// The value a piece of optional JSON text parses to, if any.
pub open spec fn parsed_opt(text: Option<Seq<char>>) -> Option<Json> {
    match text {
        Some(t) => parsed_json(t),
        None => None,
    }
}

/// The difference recorded when an upstream's status differs from baseline's.
pub open spec fn status_difference(baseline: u16, other: u16) -> FieldDiffView {
    FieldDiffView {
        left: Some(Json::Number(decimal(baseline as nat))),
        right: Some(Json::Number(decimal(other as nat))),
        diff_type: DiffType::StatusMismatch,
    }
}

/// Differences of one secondary upstream against baseline, before
/// suppression: nothing when the upstream failed; only the status when it
/// diverged; otherwise body differences (when its body parses) and header
/// differences (when its headers parse).
pub open spec fn raw_side_diffs(base_body: Json, base_headers: Json, base_status: u16, other: SideView) -> Map<Seq<char>, FieldDiffView> {
    match other.status {
        None => Map::empty(),
        Some(s) => if s == base_status {
            let body = match parsed_opt(other.body) {
                Some(o) => flat_map(diff_of(base_body, o), Seq::empty()),
                None => Map::empty(),
            };
            match parsed_opt(other.headers) {
                Some(h) => with_headers(body, flat_map(diff_of(base_headers, h), Seq::empty())),
                None => body,
            }
        } else {
            Map::empty().insert(status_path(), status_difference(base_status, s))
        },
    }
}

/// `m` without the paths that either rule set suppresses for `endpoint`.
pub open spec fn unsuppressed(
    m: Map<Seq<char>, FieldDiffView>,
    endpoint: Seq<char>,
    rules: Map<Seq<char>, Seq<Seq<char>>>,
    extra: Map<Seq<char>, Seq<Seq<char>>>,
) -> Map<Seq<char>, FieldDiffView> {
    m.restrict(m.dom().filter(|k: Seq<char>| !path_suppressed(rules, endpoint, k) && !path_suppressed(extra, endpoint, k)))
}

/// The baseline headers as parsed, or the empty object when they do not parse.
pub open spec fn baseline_headers_json(text: Seq<char>) -> Json {
    match parsed_json(text) {
        Some(h) => h,
        None => Json::Object(Seq::empty()),
    }
}

/// The raw (candidate) and noise (control) differences of one sample; both
/// empty when the baseline body does not parse.
pub open spec fn sample_diffs(
    endpoint: Seq<char>,
    s: SampleView,
    rules: Map<Seq<char>, Seq<Seq<char>>>,
    extra: Map<Seq<char>, Seq<Seq<char>>>,
) -> (Map<Seq<char>, FieldDiffView>, Map<Seq<char>, FieldDiffView>) {
    match parsed_json(s.baseline_body) {
        None => (Map::empty(), Map::empty()),
        Some(bb) => {
            let bh = baseline_headers_json(s.baseline_headers);
            (
                unsuppressed(raw_side_diffs(bb, bh, s.baseline_status, s.candidate), endpoint, rules, extra),
                unsuppressed(raw_side_diffs(bb, bh, s.baseline_status, s.control), endpoint, rules, extra),
            )
        },
    }
}

proof fn lemma_with_headers_insert(
    body: Map<Seq<char>, FieldDiffView>,
    m: Map<Seq<char>, FieldDiffView>,
    k: Seq<char>,
    v: FieldDiffView,
)
    ensures
        with_headers(body, m.insert(k, v)) == with_headers(body, m).insert(header_prefix() + k, v),
{
    let hk = header_prefix() + k;
    assert(hk.take(9) =~= header_prefix());
    assert(hk.skip(9) =~= k);
    assert forall|x: Seq<char>| is_header_path(x) && x.skip(9) == k implies x == hk by {
        assert(x =~= x.take(9) + x.skip(9));
    }
    assert(with_headers(body, m.insert(k, v)) =~= with_headers(body, m).insert(hk, v));
}

proof fn lemma_with_headers_empty(body: Map<Seq<char>, FieldDiffView>)
    ensures
        with_headers(body, Map::empty()) == body,
{
    assert(with_headers(body, Map::empty()) =~= body);
}

/// Adds every difference of `headers` to `diffs` under `:headers.<path>`.
fn add_header_diffs(diffs: &mut FieldDiffs, headers: &FieldDiffs)
    ensures
        final(diffs)@ == with_headers(old(diffs)@, headers@),
{
    let prefix = concat(HEADER_FIELD_PREFIX, ".");
    proof {
        reveal_strlit(":headers");
        reveal_strlit(".");
        assert(prefix@ =~= header_prefix());
    }
    let n = headers.len();
    let ghost es = headers.entry_seq();
    let ghost body = diffs@;
    proof {
        assert(es.take(0) =~= Seq::<(Seq<char>, FieldDiffView)>::empty());
        lemma_with_headers_empty(body);
    }
    let mut i: usize = 0;
    while i < n
        invariant
            n == es.len(),
            n == headers@.dom().len(),
            es == headers.entry_seq(),
            headers@ == entries_map(es),
            prefix@ == header_prefix(),
            i <= n,
            diffs@ == with_headers(body, entries_map(es.take(i as int))),
        decreases n - i,
    {
        let (path, d) = headers.entry(i);
        let key = concat(prefix.as_str(), path.as_str());
        proof {
            assert(es.take(i as int + 1).drop_last() =~= es.take(i as int));
            lemma_with_headers_insert(body, entries_map(es.take(i as int)), es[i as int].0, es[i as int].1);
        }
        diffs.insert(key, d.duplicate());
        i += 1;
    }
    assert(es.take(n as int) =~= es);
}

/// The single status difference between `baseline` and `other`.
fn status_diffs(baseline: u16, other: u16) -> (r: FieldDiffs)
    ensures
        r@ == Map::<Seq<char>, FieldDiffView>::empty().insert(status_path(), status_difference(baseline, other)),
{
    let mut m = FieldDiffs::new();
    let path = String::from_str(STATUS_FIELD);
    proof {
        reveal_strlit(":status");
        assert(path@ =~= status_path());
    }
    m.insert(path, FieldDiff {
        left: Some(JsonValue::from_u16(baseline)),
        right: Some(JsonValue::from_u16(other)),
        diff_type: DiffType::StatusMismatch,
    });
    m
}

/// Parses optional JSON text.
fn parse_opt(text: &Option<String>) -> (r: Option<JsonValue>)
    ensures
        match r {
            Some(v) => parsed_opt(crate::sample::text_opt(*text)) == Some(v@),
            None => parsed_opt(crate::sample::text_opt(*text)) is None,
        },
{
    match text {
        Some(t) => parse_json(t.as_str()),
        None => None,
    }
}

/// The differences of `d` that neither rule set suppresses for `endpoint`.
fn keep_unsuppressed(d: &FieldDiffs, endpoint: &str, rules: &SuppressRules, extra: &SuppressRules) -> (r: FieldDiffs)
    ensures
        r@ == unsuppressed(d@, endpoint@, rules@, extra@),
{
    let n = d.len();
    let ghost es = d.entry_seq();
    let mut out = FieldDiffs::new();
    assert(es.take(0) =~= Seq::<(Seq<char>, FieldDiffView)>::empty());
    assert(unsuppressed(entries_map(es.take(0)), endpoint@, rules@, extra@) =~= Map::<Seq<char>, FieldDiffView>::empty());
    let mut i: usize = 0;
    while i < n
        invariant
            n == es.len(),
            n == d@.dom().len(),
            es == d.entry_seq(),
            d@ == entries_map(es),
            i <= n,
            out@ == unsuppressed(entries_map(es.take(i as int)), endpoint@, rules@, extra@),
        decreases n - i,
    {
        let (path, diff) = d.entry(i);
        let ghost prev = entries_map(es.take(i as int));
        assert(es.take(i as int + 1).drop_last() =~= es.take(i as int));
        let hidden = rules.is_suppressed(endpoint, path.as_str()) || extra.is_suppressed(endpoint, path.as_str());
        if !hidden {
            out.insert(path.clone(), diff.duplicate());
            assert(unsuppressed(prev.insert(path@, diff@), endpoint@, rules@, extra@)
                =~= unsuppressed(prev, endpoint@, rules@, extra@).insert(path@, diff@));
        } else {
            assert(unsuppressed(prev.insert(path@, diff@), endpoint@, rules@, extra@)
                =~= unsuppressed(prev, endpoint@, rules@, extra@));
        }
        i += 1;
    }
    assert(es.take(n as int) =~= es);
    out
}

/// Differences of one secondary upstream against the baseline, with the
/// suppressed paths removed.
fn diff_one(
    endpoint: &str,
    base_body: &JsonValue,
    base_headers: &JsonValue,
    base_status: u16,
    status: Option<u16>,
    body: &Option<String>,
    headers: &Option<String>,
    rules: &SuppressRules,
    extra: &SuppressRules,
) -> (r: FieldDiffs)
    ensures
        r@ == unsuppressed(
            raw_side_diffs(base_body@, base_headers@, base_status, SideView {
                status,
                body: crate::sample::text_opt(*body),
                headers: crate::sample::text_opt(*headers),
            }),
            endpoint@,
            rules@,
            extra@,
        ),
{
    let diffs = match status {
        None => FieldDiffs::new(),
        Some(s) => {
            if s == base_status {
                let mut d = match parse_opt(body) {
                    Some(other) => flatten_value(base_body, &other),
                    None => FieldDiffs::new(),
                };
                match parse_opt(headers) {
                    Some(other) => {
                        let h = flatten_value(base_headers, &other);
                        add_header_diffs(&mut d, &h);
                    },
                    None => {},
                }
                d
            } else {
                status_diffs(base_status, s)
            }
        },
    };
    keep_unsuppressed(&diffs, endpoint, rules, extra)
}

/// The raw (candidate) and noise (control) differences of one sample.
pub fn diff_sample(endpoint: &str, sample: &RawSample, rules: &SuppressRules, extra: &SuppressRules) -> (r: (FieldDiffs, FieldDiffs))
    ensures
        (r.0@, r.1@) == sample_diffs(endpoint@, sample@, rules@, extra@),
{
    let base_body = match parse_json(sample.baseline_body.as_str()) {
        Some(v) => v,
        None => {
            return (FieldDiffs::new(), FieldDiffs::new());
        },
    };
    let base_headers = match parse_json(sample.baseline_headers.as_str()) {
        Some(v) => v,
        None => {
            let empty = JsonValue::Object(Vec::new());
            assert(empty@ == Json::Object(Seq::empty())) by {
                assert(empty@->Object_0 =~= Seq::<(Seq<char>, Json)>::empty());
            }
            empty
        },
    };
    let raw = diff_one(
        endpoint,
        &base_body,
        &base_headers,
        sample.baseline_status,
        sample.candidate_status,
        &sample.candidate_body,
        &sample.candidate_headers,
        rules,
        extra,
    );
    let noise = diff_one(
        endpoint,
        &base_body,
        &base_headers,
        sample.baseline_status,
        sample.control_status,
        &sample.control_body,
        &sample.control_headers,
        rules,
        extra,
    );
    (raw, noise)
}

/// How many samples differ at one field path: against the candidate (raw)
/// and against the control (noise).
#[derive(Debug, Clone, Copy, PartialEq, Eq, Structural)]
pub struct FieldCounts {
    pub raw_count: u64,
    pub noise_count: u64,
}

impl Default for FieldCounts {
    fn default() -> (r: Self)
        ensures
            r.raw_count == 0,
            r.noise_count == 0,
    {
        FieldCounts { raw_count: 0, noise_count: 0 }
    }
}

/// The per-sample differences of a run of samples.
pub open spec fn all_diffs(
    endpoint: Seq<char>,
    samples: Seq<SampleView>,
    rules: Map<Seq<char>, Seq<Seq<char>>>,
    extra: Map<Seq<char>, Seq<Seq<char>>>,
) -> Seq<(Map<Seq<char>, FieldDiffView>, Map<Seq<char>, FieldDiffView>)> {
    Seq::new(samples.len(), |i: int| sample_diffs(endpoint, samples[i], rules, extra))
}

/// Number of samples whose raw differences include `p`.
pub open spec fn raw_hits(d: Seq<(Map<Seq<char>, FieldDiffView>, Map<Seq<char>, FieldDiffView>)>, p: Seq<char>) -> nat
    decreases d.len(),
{
    if d.len() == 0 {
        0
    } else {
        raw_hits(d.drop_last(), p) + if d.last().0.dom().contains(p) { 1nat } else { 0nat }
    }
}

/// Number of samples whose noise differences include `p`.
pub open spec fn noise_hits(d: Seq<(Map<Seq<char>, FieldDiffView>, Map<Seq<char>, FieldDiffView>)>, p: Seq<char>) -> nat
    decreases d.len(),
{
    if d.len() == 0 {
        0
    } else {
        noise_hits(d.drop_last(), p) + if d.last().1.dom().contains(p) { 1nat } else { 0nat }
    }
}

/// Per-path counts over a run of per-sample differences: every path that
/// differs in some sample, with how many samples differ there.
pub open spec fn tally(d: Seq<(Map<Seq<char>, FieldDiffView>, Map<Seq<char>, FieldDiffView>)>) -> Map<Seq<char>, FieldCounts> {
    Map::new(
        |p: Seq<char>| raw_hits(d, p) > 0 || noise_hits(d, p) > 0,
        |p: Seq<char>| FieldCounts { raw_count: raw_hits(d, p) as u64, noise_count: noise_hits(d, p) as u64 },
    )
}

/// The latest timestamp of a non-empty run of samples.
pub open spec fn latest(s: Seq<SampleView>) -> Timestamp
    decreases s.len(),
{
    if s.len() <= 1 {
        s[0].timestamp
    } else {
        let m = latest(s.drop_last());
        if ts_le(m, s.last().timestamp) {
            s.last().timestamp
        } else {
            m
        }
    }
}

/// `m` with one more raw (or noise) hit for every path in `keys`.
pub open spec fn bump(m: Map<Seq<char>, FieldCounts>, keys: Set<Seq<char>>, raw: bool) -> Map<Seq<char>, FieldCounts> {
    Map::new(
        |p: Seq<char>| m.dom().contains(p) || keys.contains(p),
        |p: Seq<char>| {
            let c = if m.dom().contains(p) { m[p] } else { FieldCounts { raw_count: 0, noise_count: 0 } };
            if keys.contains(p) {
                if raw {
                    FieldCounts { raw_count: (c.raw_count + 1) as u64, noise_count: c.noise_count }
                } else {
                    FieldCounts { raw_count: c.raw_count, noise_count: (c.noise_count + 1) as u64 }
                }
            } else {
                c
            }
        },
    )
}

pub open spec fn counts_below(m: Map<Seq<char>, FieldCounts>, bound: nat) -> bool {
    forall|p: Seq<char>| m.dom().contains(p) ==> (#[trigger] m[p]).raw_count <= bound && m[p].noise_count <= bound
}

/// Every counter that `bump` would raise is below its maximum.
pub open spec fn can_bump(m: Map<Seq<char>, FieldCounts>, raw: bool) -> bool {
    forall|p: Seq<char>| m.dom().contains(p) ==> if raw {
        (#[trigger] m[p]).raw_count < u64::MAX
    } else {
        m[p].noise_count < u64::MAX
    }
}

proof fn lemma_hits_bound(d: Seq<(Map<Seq<char>, FieldDiffView>, Map<Seq<char>, FieldDiffView>)>, p: Seq<char>)
    ensures
        raw_hits(d, p) <= d.len(),
        noise_hits(d, p) <= d.len(),
    decreases d.len(),
{
    if d.len() > 0 {
        lemma_hits_bound(d.drop_last(), p);
    }
}

proof fn lemma_tally_step(d: Seq<(Map<Seq<char>, FieldDiffView>, Map<Seq<char>, FieldDiffView>)>, i: int)
    requires
        0 <= i < d.len(),
        d.len() <= u64::MAX,
    ensures
        tally(d.take(i + 1)) == bump(bump(tally(d.take(i)), d[i].0.dom(), true), d[i].1.dom(), false),
        counts_below(tally(d.take(i + 1)), (i + 1) as nat),
{
    let a = d.take(i);
    let b = d.take(i + 1);
    assert(b.drop_last() =~= a);
    assert(b.last() == d[i]);
    assert forall|p: Seq<char>| true implies raw_hits(a, p) <= i && noise_hits(a, p) <= i && raw_hits(b, p) <= i + 1 && noise_hits(b, p) <= i + 1 by {
        lemma_hits_bound(a, p);
        lemma_hits_bound(b, p);
    }
    assert(tally(b) =~= bump(bump(tally(a), d[i].0.dom(), true), d[i].1.dom(), false));
}

/// `bump` with one key added to the set, for a key not yet in it.
proof fn lemma_bump_insert(m: Map<Seq<char>, FieldCounts>, keys: Set<Seq<char>>, k: Seq<char>, raw: bool)
    requires
        !keys.contains(k),
    ensures
        bump(m, keys.insert(k), raw) == bump(m, keys, raw).insert(k, {
            let c = if m.dom().contains(k) { m[k] } else { FieldCounts { raw_count: 0, noise_count: 0 } };
            if raw {
                FieldCounts { raw_count: (c.raw_count + 1) as u64, noise_count: c.noise_count }
            } else {
                FieldCounts { raw_count: c.raw_count, noise_count: (c.noise_count + 1) as u64 }
            }
        }),
{
    assert(bump(m, keys.insert(k), raw) =~= bump(m, keys, raw).insert(k, {
        let c = if m.dom().contains(k) { m[k] } else { FieldCounts { raw_count: 0, noise_count: 0 } };
        if raw {
            FieldCounts { raw_count: (c.raw_count + 1) as u64, noise_count: c.noise_count }
        } else {
            FieldCounts { raw_count: c.raw_count, noise_count: (c.noise_count + 1) as u64 }
        }
    }));
}

/// Adds one raw (or noise) hit for every path of `diffs`.
fn add_hits(fields: &mut TextMap<FieldCounts>, diffs: &FieldDiffs, raw: bool)
    requires
        can_bump(old(fields).map(), raw),
    ensures
        final(fields).map() == bump(old(fields).map(), diffs@.dom(), raw),
{
    let n = diffs.len();
    let ghost es = diffs.entry_seq();
    let ghost m0 = fields.map();
    assert(es.take(0) =~= Seq::<(Seq<char>, FieldDiffView)>::empty());
    assert(bump(m0, entries_map(es.take(0)).dom(), raw) =~= m0);
    let mut i: usize = 0;
    while i < n
        invariant
            n == es.len(),
            n == diffs@.dom().len(),
            es == diffs.entry_seq(),
            diffs@ == entries_map(es),
            crate::maps::keys_unique(es),
            i <= n,
            can_bump(m0, raw),
            fields.map() == bump(m0, entries_map(es.take(i as int)).dom(), raw),
        decreases n - i,
    {
        let (path, _d) = diffs.entry(i);
        let ghost prev = entries_map(es.take(i as int));
        proof {
            assert(es.take(i as int + 1).drop_last() =~= es.take(i as int));
            crate::maps::lemma_entries_map_dom(es.take(i as int), path@);
            if prev.dom().contains(path@) {
                let j = choose|j: int| 0 <= j < es.take(i as int).len() && es.take(i as int)[j].0 == path@;
                assert(es[j].0 == es[i as int].0);
            }
            assert(entries_map(es.take(i as int + 1)).dom() =~= prev.dom().insert(path@));
            lemma_bump_insert(m0, prev.dom(), path@, raw);
        }
        let c = match fields.get(path.as_str()) {
            Some(c) => *c,
            None => FieldCounts::default(),
        };
        let next = if raw {
            FieldCounts { raw_count: c.raw_count + 1, noise_count: c.noise_count }
        } else {
            FieldCounts { raw_count: c.raw_count, noise_count: c.noise_count + 1 }
        };
        fields.insert(path.clone(), next);
        i += 1;
    }
    assert(es.take(n as int) =~= es);
}


/// One sample as shown in the drill-down of a field: its differences at
/// that field, if any.
pub ghost struct DiffSampleView {
    pub id: Seq<char>,
    pub timestamp: Timestamp,
    pub raw: Option<FieldDiffView>,
    pub noise: Option<FieldDiffView>,
    pub request_curl: Option<Seq<char>>,
}

pub struct DiffSample {
    pub id: String,
    pub timestamp: Timestamp,
    pub raw: Option<FieldDiff>,
    pub noise: Option<FieldDiff>,
    pub request_curl: Option<String>,
}

pub open spec fn diff_opt(o: Option<FieldDiff>) -> Option<FieldDiffView> {
    match o {
        Some(d) => Some(d@),
        None => None,
    }
}

impl View for DiffSample {
    type V = DiffSampleView;

    open spec fn view(&self) -> DiffSampleView {
        DiffSampleView {
            id: self.id@,
            timestamp: self.timestamp,
            raw: diff_opt(self.raw),
            noise: diff_opt(self.noise),
            request_curl: crate::sample::text_opt(self.request_curl),
        }
    }
}

pub open spec fn diff_sample_views(s: Seq<DiffSample>) -> Seq<DiffSampleView> {
    Seq::new(s.len(), |i: int| s[i]@)
}

/// The difference at `path`, if `m` has one.
pub open spec fn diff_at(m: Map<Seq<char>, FieldDiffView>, path: Seq<char>) -> Option<FieldDiffView> {
    if m.dom().contains(path) {
        Some(m[path])
    } else {
        None
    }
}

/// The samples that differ at `path` on either side, oldest-to-newest as
/// given, each with its differences there.
pub open spec fn matching(
    s: Seq<SampleView>,
    d: Seq<(Map<Seq<char>, FieldDiffView>, Map<Seq<char>, FieldDiffView>)>,
    path: Seq<char>,
) -> Seq<DiffSampleView>
    decreases s.len(),
{
    if s.len() == 0 || d.len() == 0 {
        Seq::empty()
    } else {
        let prev = matching(s.drop_last(), d.drop_last(), path);
        let e = d.last();
        if e.0.dom().contains(path) || e.1.dom().contains(path) {
            prev.push(DiffSampleView {
                id: s.last().id,
                timestamp: s.last().timestamp,
                raw: diff_at(e.0, path),
                noise: diff_at(e.1, path),
                request_curl: s.last().request_curl,
            })
        } else {
            prev
        }
    }
}

/// The page of `all` that starts at `offset` and holds at most `limit` items.
pub open spec fn page<T>(all: Seq<T>, offset: int, limit: int) -> Seq<T> {
    let lo = if offset < all.len() { offset } else { all.len() as int };
    let hi = if offset + limit < all.len() { offset + limit } else { all.len() as int };
    all.subrange(lo, hi)
}

/// The regression verdict `b` for `path`: a status divergence is a
/// regression exactly when the candidate diverges more often than the
/// control; any other path is judged by the endpoint's thresholds.
pub open spec fn verdict<F: Fn(&FieldCounts, u64) -> bool>(exceeds: F, path: Seq<char>, c: FieldCounts, total: u64, b: bool) -> bool {
    if path == status_path() {
        b == (c.raw_count > c.noise_count)
    } else {
        exceeds.ensures((&c, total), b)
    }
}

pub struct SamplePage {
    pub items: Vec<DiffSample>,
    pub limit: usize,
    pub offset: usize,
    pub has_more: bool,
}

/// The drill-down into one field path of an endpoint.
pub struct DiffDetail {
    pub endpoint: String,
    pub path: String,
    pub total: u64,
    pub raw_count: u64,
    pub noise_count: u64,
    pub is_regression: bool,
    pub last_updated: Option<Timestamp>,
    pub samples: SamplePage,
}

fn diff_opt_clone(o: Option<&FieldDiff>) -> (r: Option<FieldDiff>)
    ensures
        diff_opt(r) == match o {
            Some(d) => Some(d@),
            None => None::<FieldDiffView>,
        },
{
    match o {
        Some(d) => Some(d.duplicate()),
        None => None,
    }
}

/// An endpoint's per-field counts over its recorded samples.
pub struct EndpointCounts {
    pub endpoint: String,
    pub total: u64,
    pub fields: TextMap<FieldCounts>,
    pub last_updated: Timestamp,
}

/// Reads recorded samples under the current suppression rules.
pub struct DiffEngine {
    suppress: SuppressRules,
}

impl DiffEngine {
    /// The suppression rules in force.
    pub closed spec fn rules_view(&self) -> Map<Seq<char>, Seq<Seq<char>>> {
        self.suppress@
    }

    pub fn new(suppress: SuppressRules) -> (r: DiffEngine)
        ensures
            r.rules_view() == suppress@,
    {
        DiffEngine { suppress }
    }

    /// A copy of the rules in force.
    pub fn rules(&self) -> (r: SuppressRules)
        ensures
            r@ == self.rules_view(),
    {
        self.suppress.clone()
    }

    /// Replaces `endpoint`'s suppression rules with `paths` (none when
    /// empty). Every `re:` expression is checked first: on an error the
    /// rules in force stay as they were.
    pub fn set_suppress(&mut self, endpoint: &str, paths: Vec<String>) -> (r: Result<(), regex::Error>)
        ensures
            r is Ok <==> crate::suppress::rules_compile(paths.deep_view()),
            r is Ok ==> final(self).rules_view() == if paths@.len() == 0 {
                old(self).rules_view().remove(endpoint@)
            } else {
                old(self).rules_view().insert(endpoint@, paths.deep_view())
            },
            r is Err ==> final(self).rules_view() == old(self).rules_view(),
    {
        SuppressRules::compile(&paths)?;
        let next = self.suppress.with_endpoint(endpoint, paths)?;
        self.suppress = next;
        Ok(())
    }

    /// Whether the counts at `path` make a regression: for the status path,
    /// whether the candidate diverged more often than the control; for any
    /// other path, what `exceeds` (the endpoint's thresholds) answers.
    pub fn is_regression<F: Fn(&FieldCounts, u64) -> bool>(&self, path: &str, counts: &FieldCounts, total: u64, exceeds: &F) -> (b: bool)
        requires
            exceeds.requires((counts, total)),
        ensures
            verdict(*exceeds, path@, *counts, total, b),
    {
        let status = STATUS_FIELD;
        proof {
            reveal_strlit(":status");
            assert(status@ =~= status_path());
        }
        if crate::text::str_eq(path, status) {
            counts.raw_count > counts.noise_count
        } else {
            exceeds(counts, total)
        }
    }

    /// The regressing paths of `counts`, sorted.
    pub fn regressions<F: Fn(&FieldCounts, u64) -> bool>(&self, counts: &EndpointCounts, exceeds: &F) -> (r: Vec<String>)
        requires
            forall|c: FieldCounts, t: u64| exceeds.requires((&c, t)),
        ensures
            crate::order::texts_sorted(crate::order::texts(r@)),
            forall|i: int, j: int| 0 <= i < j < r@.len() ==> crate::order::text_lt(#[trigger] r@[i]@, #[trigger] r@[j]@),
            forall|i: int| 0 <= i < r@.len() ==> counts.fields.map().dom().contains(#[trigger] r@[i]@),
            forall|p: Seq<char>| #[trigger] counts.fields.map().dom().contains(p) ==> {
                if crate::order::texts(r@).contains(p) {
                    verdict(*exceeds, p, counts.fields.map()[p], counts.total, true)
                } else {
                    verdict(*exceeds, p, counts.fields.map()[p], counts.total, false)
                }
            },
    {
        let n = counts.fields.len();
        let mut out: Vec<String> = Vec::new();
        let mut i: usize = 0;
        while i < n
            invariant
                n == counts.fields.entry_seq().len(),
                forall|c: FieldCounts, t: u64| exceeds.requires((&c, t)),
                i <= n,
                forall|j: int| 0 <= j < out@.len() ==> exists|k: int| 0 <= k < i && #[trigger] out@[j]@ == counts.fields.entry_seq()[k].0,
                forall|k: int| 0 <= k < i ==> {
                    let e = #[trigger] counts.fields.entry_seq()[k];
                    if crate::order::texts(out@).contains(e.0) {
                        verdict(*exceeds, e.0, e.1, counts.total, true)
                    } else {
                        verdict(*exceeds, e.0, e.1, counts.total, false)
                    }
                },
                crate::maps::keys_unique(counts.fields.entry_seq()),
                crate::order::texts(out@).no_duplicates(),
            decreases n - i,
        {
            let (path, c) = counts.fields.entry(i);
            let b = self.is_regression(path.as_str(), c, counts.total, exceeds);
            let ghost before = crate::order::texts(out@);
            if b {
                out.push(path.clone());
                assert(crate::order::texts(out@) =~= before.push(path@));
                proof {
                    let es = counts.fields.entry_seq();
                    let now = crate::order::texts(out@);
                    assert forall|x: int, y: int| 0 <= x < now.len() && 0 <= y < now.len() && x != y implies now[x] != now[y] by {
                        if x < before.len() && y < before.len() {
                            assert(now[x] == before[x] && now[y] == before[y]);
                        } else {
                            let z = if x < before.len() { x } else { y };
                            assert(z < before.len());
                            assert(now[z] == out@[z]@);
                            let k = choose|k: int| 0 <= k < i && #[trigger] out@[z]@ == es[k].0;
                            assert(es[k].0 != es[i as int].0);
                        }
                    }
                }
            }
            proof {
                let es = counts.fields.entry_seq();
                assert forall|k: int| 0 <= k < i implies #[trigger] es[k].0 != es[i as int].0 by {
                    assert(k != i);
                }
                assert forall|k: int| 0 <= k < i + 1 implies {
                    let e = #[trigger] es[k];
                    if crate::order::texts(out@).contains(e.0) {
                        verdict(*exceeds, e.0, e.1, counts.total, true)
                    } else {
                        verdict(*exceeds, e.0, e.1, counts.total, false)
                    }
                } by {
                    if k < i {
                        if b {
                            let now = crate::order::texts(out@);
                            assert(es[k].0 != es[i as int].0);
                            if now.contains(es[k].0) {
                                let j = choose|j: int| 0 <= j < now.len() && now[j] == es[k].0;
                                assert(j < before.len());
                                assert(before[j] == es[k].0);
                            }
                            if before.contains(es[k].0) {
                                let j = choose|j: int| 0 <= j < before.len() && before[j] == es[k].0;
                                assert(now[j] == es[k].0);
                            }
                        }
                    } else {
                        if b {
                            assert(crate::order::texts(out@)[before.len() as int] == es[k].0);
                        } else {
                            assert(!before.contains(es[k].0)) by {
                                if before.contains(es[k].0) {
                                    let j = choose|j: int| 0 <= j < before.len() && before[j] == es[k].0;
                                    let k2 = choose|k2: int| 0 <= k2 < i && #[trigger] out@[j]@ == es[k2].0;
                                }
                            }
                        }
                    }
                }
            }
            i += 1;
        }
        let sorted = crate::order::sort_texts(out);
        let _ = counts.fields.len();
        proof {
            broadcast use vstd::seq_lib::group_to_multiset_ensures;
            let es = counts.fields.entry_seq();
            let a = crate::order::texts(out@);
            let b = crate::order::texts(sorted@);
            crate::order::lemma_same_multiset_distinct(a, b);
            crate::order::lemma_sorted_distinct_is_strict(b);
            assert forall|i: int, j: int| 0 <= i < j < sorted@.len() implies crate::order::text_lt(#[trigger] sorted@[i]@, #[trigger] sorted@[j]@) by {
                assert(b[i] == sorted@[i]@ && b[j] == sorted@[j]@);
            }
            assert forall|x: Seq<char>| b.contains(x) <==> a.contains(x) by {
                assert(b.to_multiset().count(x) == a.to_multiset().count(x));
            }
            assert forall|j: int| 0 <= j < sorted@.len() implies counts.fields.map().dom().contains(#[trigger] sorted@[j]@) by {
                assert(b[j] == sorted@[j]@);
                assert(a.contains(b[j]));
                let j2 = choose|j2: int| 0 <= j2 < a.len() && a[j2] == b[j];
                assert(out@[j2]@ == a[j2]);
            }
            assert forall|p: Seq<char>| #[trigger] counts.fields.map().dom().contains(p) implies {
                if b.contains(p) {
                    verdict(*exceeds, p, counts.fields.map()[p], counts.total, true)
                } else {
                    verdict(*exceeds, p, counts.fields.map()[p], counts.total, false)
                }
            } by {
                let k = choose|k: int| 0 <= k < es.len() && #[trigger] es[k].0 == p;
                assert(es[k].1 == counts.fields.map()[p]);
            }
        }
        sorted
    }

    /// The drill-down into `path`: how many samples differ there on each
    /// side, the verdict, and the page of differing samples that starts at
    /// `offset` and holds at most `limit`, with whether more follow.
    pub fn detail<F: Fn(&FieldCounts, u64) -> bool>(
        &self,
        endpoint: &str,
        path: &str,
        samples: &[RawSample],
        extra: &SuppressRules,
        limit: usize,
        offset: usize,
        exceeds: &F,
    ) -> (r: DiffDetail)
        requires
            forall|c: FieldCounts, t: u64| exceeds.requires((&c, t)),
        ensures
            ({
                let views = sample_views(samples@);
                let d = all_diffs(endpoint@, views, self.rules_view(), extra@);
                let m = matching(views, d, path@);
                &&& r.endpoint@ == endpoint@
                &&& r.path@ == path@
                &&& r.total == samples@.len()
                &&& r.raw_count == raw_hits(d, path@)
                &&& r.noise_count == noise_hits(d, path@)
                &&& r.last_updated == if samples@.len() > 0 { Some(views[0].timestamp) } else { None }
                &&& r.samples.limit == limit
                &&& r.samples.offset == offset
                &&& r.samples.has_more == (m.len() > offset + limit)
                &&& diff_sample_views(r.samples.items@) == page(m, offset as int, limit as int)
                &&& verdict(*exceeds, path@, FieldCounts { raw_count: r.raw_count, noise_count: r.noise_count }, r.total, r.is_regression)
            }),
    {
        let ghost views = sample_views(samples@);
        let ghost d = all_diffs(endpoint@, views, self.rules_view(), extra@);
        let mut raw_count: u64 = 0;
        let mut noise_count: u64 = 0;
        let mut matched: usize = 0;
        let mut items: Vec<DiffSample> = Vec::new();
        let path_text = path.to_string();
        let mut i: usize = 0;
        assert(d.take(0) =~= Seq::<(Map<Seq<char>, FieldDiffView>, Map<Seq<char>, FieldDiffView>)>::empty());
        assert(views.take(0) =~= Seq::<SampleView>::empty());
        assert(diff_sample_views(items@) =~= page(Seq::<DiffSampleView>::empty(), offset as int, limit as int));
        while i < samples.len()
            invariant
                views == sample_views(samples@),
                d == all_diffs(endpoint@, views, self.rules_view(), extra@),
                path_text@ == path@,
                i <= samples@.len(),
                raw_count == raw_hits(d.take(i as int), path@),
                noise_count == noise_hits(d.take(i as int), path@),
                raw_count <= i,
                noise_count <= i,
                matched == matching(views.take(i as int), d.take(i as int), path@).len(),
                matched <= i,
                diff_sample_views(items@) == page(matching(views.take(i as int), d.take(i as int), path@), offset as int, limit as int),
            decreases samples@.len() - i,
        {
            let (raw, noise) = diff_sample(endpoint, &samples[i], &self.suppress, extra);
            let raw_at = raw.get(&path_text);
            let noise_at = noise.get(&path_text);
            let ghost prev = matching(views.take(i as int), d.take(i as int), path@);
            proof {
                assert(samples@.len() <= usize::MAX);
                assert(d[i as int] == (raw@, noise@));
                assert(d.take(i as int + 1).drop_last() =~= d.take(i as int));
                assert(views.take(i as int + 1).drop_last() =~= views.take(i as int));
                assert(d.take(i as int + 1).last() == d[i as int]);
                assert(views.take(i as int + 1).last() == views[i as int]);
            }
            if raw_at.is_some() {
                raw_count += 1;
            }
            if noise_at.is_some() {
                noise_count += 1;
            }
            if raw_at.is_some() || noise_at.is_some() {
                let item = DiffSample {
                    id: samples[i].id.clone(),
                    timestamp: samples[i].timestamp,
                    raw: diff_opt_clone(raw_at),
                    noise: diff_opt_clone(noise_at),
                    request_curl: crate::sample::clone_text_opt(&samples[i].request_curl),
                };
                let ghost next = prev.push(item@);
                assert(item@ == DiffSampleView {
                    id: views[i as int].id,
                    timestamp: views[i as int].timestamp,
                    raw: diff_at(raw@, path@),
                    noise: diff_at(noise@, path@),
                    request_curl: views[i as int].request_curl,
                });
                if matched >= offset && matched - offset < limit {
                    let ghost before = diff_sample_views(items@);
                    items.push(item);
                    assert(diff_sample_views(items@) =~= before.push(next[matched as int]));
                    assert(page(next, offset as int, limit as int) =~= page(prev, offset as int, limit as int).push(next[matched as int]));
                } else {
                    assert(page(next, offset as int, limit as int) =~= page(prev, offset as int, limit as int));
                }
                matched += 1;
            }
            i += 1;
        }
        assert(d.take(samples@.len() as int) =~= d);
        assert(views.take(samples@.len() as int) =~= views);
        let total = samples.len() as u64;
        let counts = FieldCounts { raw_count, noise_count };
        let is_regression = self.is_regression(path, &counts, total, exceeds);
        let last_updated = if samples.len() > 0 { Some(samples[0].timestamp) } else { None };
        let has_more = matched > offset && matched - offset > limit;
        DiffDetail {
            endpoint: endpoint.to_string(),
            path: path_text,
            total,
            raw_count,
            noise_count,
            is_regression,
            last_updated,
            samples: SamplePage { items, limit, offset, has_more },
        }
    }

    /// Counts, per field path, the samples whose raw and noise differences
    /// include it; `None` when there are no samples. `extra` rules hide
    /// further paths for this read only.
    pub fn aggregate(&self, endpoint: &str, samples: &[RawSample], extra: &SuppressRules) -> (r: Option<EndpointCounts>)
        ensures
            samples@.len() == 0 <==> r is None,
            r matches Some(c) ==> {
                &&& c.endpoint@ == endpoint@
                &&& c.total == samples@.len()
                &&& c.fields.map() == tally(all_diffs(endpoint@, sample_views(samples@), self.rules_view(), extra@))
                &&& c.last_updated == latest(sample_views(samples@))
            },
    {
        if samples.len() == 0 {
            return None;
        }
        let ghost views = sample_views(samples@);
        let ghost d = all_diffs(endpoint@, views, self.rules_view(), extra@);
        let mut fields: TextMap<FieldCounts> = TextMap::new();
        let mut last = samples[0].timestamp;
        assert(d.take(0) =~= Seq::<(Map<Seq<char>, FieldDiffView>, Map<Seq<char>, FieldDiffView>)>::empty());
        assert(fields.map() =~= tally(d.take(0)));
        let mut i: usize = 0;
        while i < samples.len()
            invariant
                views == sample_views(samples@),
                d == all_diffs(endpoint@, views, self.rules_view(), extra@),
                samples@.len() > 0,
                i <= samples@.len(),
                fields.map() == tally(d.take(i as int)),
                counts_below(fields.map(), i as nat),
                last == latest(views.take(if i == 0 { 1 } else { i as int })),
            decreases samples@.len() - i,
        {
            let (raw, noise) = diff_sample(endpoint, &samples[i], &self.suppress, extra);
            proof {
                assert(samples@.len() <= usize::MAX);
                assert(d.len() == samples@.len());
                lemma_tally_step(d, i as int);
                assert(d[i as int] == (raw@, noise@));
            }
            let ghost before = fields.map();
            add_hits(&mut fields, &raw, true);
            assert forall|p: Seq<char>| fields.map().dom().contains(p) implies (#[trigger] fields.map()[p]).noise_count < u64::MAX by {
                if before.dom().contains(p) {
                    assert(before[p].noise_count <= i);
                }
            }
            add_hits(&mut fields, &noise, false);
            let t = samples[i].timestamp;
            proof {
                let v1 = views.take(i as int + 1);
                assert(v1.last() == views[i as int]);
                if i > 0 {
                    assert(v1.drop_last() =~= views.take(i as int));
                }
                assert(views[i as int].timestamp == t);
            }
            if timestamp_le(last, t) {
                last = t;
            }
            i += 1;
        }
        assert(d.take(samples@.len() as int) =~= d);
        assert(views.take(samples@.len() as int) =~= views);
        Some(EndpointCounts {
            endpoint: endpoint.to_string(),
            total: samples.len() as u64,
            fields,
            last_updated: last,
        })
    }
}

} // verus!

verus! {

/// A path that either rule set suppresses for the endpoint is never counted.
pub proof fn lemma_suppressed_path_not_counted(
    endpoint: Seq<char>,
    samples: Seq<SampleView>,
    rules: Map<Seq<char>, Seq<Seq<char>>>,
    extra: Map<Seq<char>, Seq<Seq<char>>>,
    p: Seq<char>,
)
    requires
        path_suppressed(rules, endpoint, p) || path_suppressed(extra, endpoint, p),
    ensures
        !tally(all_diffs(endpoint, samples, rules, extra)).dom().contains(p),
{
    lemma_suppressed_no_hits(endpoint, samples, rules, extra, p, samples.len() as int);
    assert(all_diffs(endpoint, samples, rules, extra).take(samples.len() as int) =~= all_diffs(endpoint, samples, rules, extra));
}

proof fn lemma_suppressed_no_hits(
    endpoint: Seq<char>,
    samples: Seq<SampleView>,
    rules: Map<Seq<char>, Seq<Seq<char>>>,
    extra: Map<Seq<char>, Seq<Seq<char>>>,
    p: Seq<char>,
    n: int,
)
    requires
        path_suppressed(rules, endpoint, p) || path_suppressed(extra, endpoint, p),
        0 <= n <= samples.len(),
    ensures
        raw_hits(all_diffs(endpoint, samples, rules, extra).take(n), p) == 0,
        noise_hits(all_diffs(endpoint, samples, rules, extra).take(n), p) == 0,
    decreases n,
{
    let d = all_diffs(endpoint, samples, rules, extra);
    if n > 0 {
        lemma_suppressed_no_hits(endpoint, samples, rules, extra, p, n - 1);
        assert(d.take(n).drop_last() =~= d.take(n - 1));
    }
}

/// An upstream whose call failed contributes no difference.
pub proof fn lemma_failed_upstream_contributes_nothing(base_body: Json, base_headers: Json, base_status: u16, other: SideView)
    requires
        other.status is None,
    ensures
        raw_side_diffs(base_body, base_headers, base_status, other) == Map::<Seq<char>, FieldDiffView>::empty(),
{
}

/// When a secondary upstream answers with the baseline's status and its
/// headers parse, every difference of its headers against the baseline's is
/// recorded at `:headers.` followed by the header's path, whatever its body
/// gives; and when its body parses, every body difference at a path outside
/// `:headers.` is recorded as it is.
pub proof fn lemma_side_records_header_and_body_differences(
    base_body: Json,
    base_headers: Json,
    base_status: u16,
    other: SideView,
    headers_text: Seq<char>,
    h: Json,
    p: Seq<char>,
)
    requires
        other.status == Some(base_status),
        other.headers == Some(headers_text),
        parsed_json(headers_text) == Some(h),
    ensures
        flat_map(diff_of(base_headers, h), Seq::empty()).dom().contains(p) ==> {
            let k = seq![':', 'h', 'e', 'a', 'd', 'e', 'r', 's', '.'] + p;
            &&& raw_side_diffs(base_body, base_headers, base_status, other).dom().contains(k)
            &&& raw_side_diffs(base_body, base_headers, base_status, other)[k]
                == flat_map(diff_of(base_headers, h), Seq::empty())[p]
        },
        forall|o: Json| (other.body matches Some(t) && parsed_json(t) == Some(o))
            && #[trigger] flat_map(diff_of(base_body, o), Seq::empty()).dom().contains(p)
            && !(p.len() >= 9 && p.take(9) == seq![':', 'h', 'e', 'a', 'd', 'e', 'r', 's', '.'])
            ==> raw_side_diffs(base_body, base_headers, base_status, other).dom().contains(p)
                && raw_side_diffs(base_body, base_headers, base_status, other)[p]
                    == flat_map(diff_of(base_body, o), Seq::empty())[p],
{
    let k = seq![':', 'h', 'e', 'a', 'd', 'e', 'r', 's', '.'] + p;
    assert(k.take(9) =~= header_prefix());
    assert(k.skip(9) =~= p);
    assert(is_header_path(k));
}

/// An upstream whose status diverges from the baseline's differs only at the
/// status path: bodies and headers are not compared.
pub proof fn lemma_status_divergence_is_only_status(base_body: Json, base_headers: Json, base_status: u16, other: SideView)
    requires
        other.status matches Some(s) && s != base_status,
    ensures
        raw_side_diffs(base_body, base_headers, base_status, other).dom() == Set::<Seq<char>>::empty().insert(status_path()),
        raw_side_diffs(base_body, base_headers, base_status, other)[status_path()] == status_difference(base_status, other.status->0),
{
    assert(raw_side_diffs(base_body, base_headers, base_status, other).dom() =~= Set::<Seq<char>>::empty().insert(status_path()));
}

/// An upstream that answers exactly what the baseline answered (same status,
/// same body, same headers) shows no difference.
pub proof fn lemma_identical_answer_has_no_difference(base_body: Json, base_headers: Json, base_status: u16, other: SideView)
    requires
        other.status == Some(base_status),
        parsed_opt(other.body) == Some(base_body),
        parsed_opt(other.headers) == Some(base_headers),
    ensures
        raw_side_diffs(base_body, base_headers, base_status, other) == Map::<Seq<char>, FieldDiffView>::empty(),
{
    crate::flatten::lemma_flatten_equal_is_empty(base_body, Seq::empty());
    crate::flatten::lemma_flatten_equal_is_empty(base_headers, Seq::empty());
    lemma_with_headers_empty(Map::empty());
}

/// Header differences are recorded only under the `:headers.` namespace:
/// a path outside it comes from the body comparison.
pub proof fn lemma_header_paths_are_namespaced(body: Map<Seq<char>, FieldDiffView>, headers: Map<Seq<char>, FieldDiffView>, k: Seq<char>)
    requires
        with_headers(body, headers).dom().contains(k),
        !is_header_path(k),
    ensures
        body.dom().contains(k),
        with_headers(body, headers)[k] == body[k],
{
}

/// Every header difference at `p` shows up at `:headers.p`.
pub proof fn lemma_header_difference_is_kept(body: Map<Seq<char>, FieldDiffView>, headers: Map<Seq<char>, FieldDiffView>, p: Seq<char>)
    requires
        headers.dom().contains(p),
    ensures
        with_headers(body, headers).dom().contains(header_prefix() + p),
        with_headers(body, headers)[header_prefix() + p] == headers[p],
{
    let k = header_prefix() + p;
    assert(k.take(9) =~= header_prefix());
    assert(k.skip(9) =~= p);
}

/// No field is counted in more samples than there are.
pub proof fn lemma_counts_bounded_by_total(d: Seq<(Map<Seq<char>, FieldDiffView>, Map<Seq<char>, FieldDiffView>)>, p: Seq<char>)
    requires
        d.len() <= u64::MAX,
        tally(d).dom().contains(p),
    ensures
        tally(d)[p].raw_count <= d.len(),
        tally(d)[p].noise_count <= d.len(),
{
    lemma_hits_bound(d, p);
}

/// A path is counted for an endpoint exactly when its drill-down lists at
/// least one sample, and the drill-down lists as many samples as differ
/// there on either side.
pub proof fn lemma_counted_iff_listed(
    s: Seq<SampleView>,
    d: Seq<(Map<Seq<char>, FieldDiffView>, Map<Seq<char>, FieldDiffView>)>,
    p: Seq<char>,
)
    requires
        s.len() == d.len(),
    ensures
        tally(d).dom().contains(p) <==> matching(s, d, p).len() > 0,
        matching(s, d, p).len() <= d.len(),
        raw_hits(d, p) <= matching(s, d, p).len(),
        noise_hits(d, p) <= matching(s, d, p).len(),
    decreases s.len(),
{
    if s.len() > 0 {
        lemma_counted_iff_listed(s.drop_last(), d.drop_last(), p);
    }
}

/// Consecutive pages of a listing join into one longer page.
pub proof fn lemma_pages_concatenate<T>(all: Seq<T>, offset: int, first: int, second: int)
    requires
        0 <= offset,
        0 <= first,
        0 <= second,
    ensures
        page(all, offset, first) + page(all, offset + first, second) == page(all, offset, first + second),
{
    assert(page(all, offset, first) + page(all, offset + first, second) =~= page(all, offset, first + second));
}

/// Suppressing `endpoint`'s paths leaves every other endpoint's counts as
/// they were.
pub proof fn lemma_suppress_is_per_endpoint(
    endpoint: Seq<char>,
    other: Seq<char>,
    samples: Seq<SampleView>,
    rules: Map<Seq<char>, Seq<Seq<char>>>,
    extra: Map<Seq<char>, Seq<Seq<char>>>,
    paths: Seq<Seq<char>>,
)
    requires
        endpoint != other,
    ensures
        all_diffs(other, samples, rules.insert(endpoint, paths), extra) == all_diffs(other, samples, rules, extra),
        all_diffs(other, samples, rules.remove(endpoint), extra) == all_diffs(other, samples, rules, extra),
{
    assert forall|k: Seq<char>| path_suppressed(rules.insert(endpoint, paths), other, k) == path_suppressed(rules, other, k) by {
        assert(rules.insert(endpoint, paths).dom().contains(other) == rules.dom().contains(other));
        assert(rules.insert(endpoint, paths)[other] == rules[other]);
    }
    assert forall|k: Seq<char>| path_suppressed(rules.remove(endpoint), other, k) == path_suppressed(rules, other, k) by {
        assert(rules.remove(endpoint).dom().contains(other) == rules.dom().contains(other));
        assert(rules.remove(endpoint)[other] == rules[other]);
    }
    assert forall|i: int| 0 <= i < samples.len() implies #[trigger] sample_diffs(other, samples[i], rules.insert(endpoint, paths), extra)
        == sample_diffs(other, samples[i], rules, extra) by {
        let s = samples[i];
        match parsed_json(s.baseline_body) {
            Some(bb) => {
                let bh = baseline_headers_json(s.baseline_headers);
                let c = raw_side_diffs(bb, bh, s.baseline_status, s.candidate);
                let n = raw_side_diffs(bb, bh, s.baseline_status, s.control);
                assert(unsuppressed(c, other, rules.insert(endpoint, paths), extra) =~= unsuppressed(c, other, rules, extra));
                assert(unsuppressed(n, other, rules.insert(endpoint, paths), extra) =~= unsuppressed(n, other, rules, extra));
            },
            None => {},
        }
    }
    assert forall|i: int| 0 <= i < samples.len() implies #[trigger] sample_diffs(other, samples[i], rules.remove(endpoint), extra)
        == sample_diffs(other, samples[i], rules, extra) by {
        let s = samples[i];
        match parsed_json(s.baseline_body) {
            Some(bb) => {
                let bh = baseline_headers_json(s.baseline_headers);
                let c = raw_side_diffs(bb, bh, s.baseline_status, s.candidate);
                let n = raw_side_diffs(bb, bh, s.baseline_status, s.control);
                assert(unsuppressed(c, other, rules.remove(endpoint), extra) =~= unsuppressed(c, other, rules, extra));
                assert(unsuppressed(n, other, rules.remove(endpoint), extra) =~= unsuppressed(n, other, rules, extra));
            },
            None => {},
        }
    }
    assert(all_diffs(other, samples, rules.insert(endpoint, paths), extra) =~= all_diffs(other, samples, rules, extra));
    assert(all_diffs(other, samples, rules.remove(endpoint), extra) =~= all_diffs(other, samples, rules, extra));
}

} // verus!
