//! Live per-endpoint counters of analysed requests: a total per endpoint and
//! raw/noise counters per field path, drained periodically into
//! aggregations and restored when writing an aggregation fails. Counters
//! wrap around on overflow, as the atomic counters they model do.
use vstd::prelude::*;
use vstd::wrapping::u64_specs::wrapping_add;
use crate::engine::FieldCounts;
use crate::flatten::{FieldDiffs, FieldDiffView};
use crate::keyed::TextMap;
use crate::maps::{entries_map, keys_unique};
use crate::sample::Timestamp;

verus! {

broadcast use vstd::std_specs::vec::group_vec_axioms;

/// Drained counts of one field path.
#[derive(Debug, Clone, Copy, PartialEq, Eq, Structural)]
pub struct FieldAggregation {
    pub raw_count: u64,
    pub noise_count: u64,
}

/// One endpoint's counts drained over an interval.
pub struct EndpointAggregation {
    pub endpoint: String,
    pub total: u64,
    pub fields: TextMap<FieldAggregation>,
    pub last_updated: Timestamp,
}

/// Mathematical form of an [`EndpointAggregation`].
pub ghost struct AggregationView {
    pub endpoint: Seq<char>,
    pub total: u64,
    pub fields: Map<Seq<char>, FieldAggregation>,
    pub last_updated: Timestamp,
}

impl View for EndpointAggregation {
    type V = AggregationView;

    open spec fn view(&self) -> AggregationView {
        AggregationView {
            endpoint: self.endpoint@,
            total: self.total,
            fields: self.fields.map(),
            last_updated: self.last_updated,
        }
    }
}

pub open spec fn aggregation_views(s: Seq<EndpointAggregation>) -> Seq<AggregationView> {
    Seq::new(s.len(), |i: int| s[i]@)
}

/// One endpoint's live counters.
pub ghost struct StatsView {
    pub total: u64,
    pub fields: Map<Seq<char>, FieldCounts>,
}

struct EndpointStats {
    total: u64,
    fields: TextMap<FieldCounts>,
}

pub open spec fn zero_counts() -> FieldCounts {
    FieldCounts { raw_count: 0, noise_count: 0 }
}

pub open spec fn count_or_zero(m: Map<Seq<char>, FieldCounts>, p: Seq<char>) -> FieldCounts {
    if m.dom().contains(p) { m[p] } else { zero_counts() }
}

/// `m` with the raw (or noise) counter of every path in `keys` advanced by one.
pub open spec fn tick(m: Map<Seq<char>, FieldCounts>, keys: Set<Seq<char>>, raw: bool) -> Map<Seq<char>, FieldCounts> {
    Map::new(
        |p: Seq<char>| m.dom().contains(p) || keys.contains(p),
        |p: Seq<char>| {
            let c = count_or_zero(m, p);
            if keys.contains(p) {
                if raw {
                    FieldCounts { raw_count: wrapping_add(c.raw_count, 1), noise_count: c.noise_count }
                } else {
                    FieldCounts { raw_count: c.raw_count, noise_count: wrapping_add(c.noise_count, 1) }
                }
            } else {
                c
            }
        },
    )
}

/// The counters of `endpoint` in `m`, or fresh ones.
pub open spec fn stats_or_new(m: Map<Seq<char>, StatsView>, endpoint: Seq<char>) -> StatsView {
    if m.dom().contains(endpoint) { m[endpoint] } else { StatsView { total: 0, fields: Map::empty() } }
}

/// The counters after one request of `endpoint` with raw differences at
/// `raw` and noise differences at `noise`.
pub open spec fn recorded(m: Map<Seq<char>, StatsView>, endpoint: Seq<char>, raw: Set<Seq<char>>, noise: Set<Seq<char>>) -> Map<Seq<char>, StatsView> {
    let s = stats_or_new(m, endpoint);
    m.insert(endpoint, StatsView { total: wrapping_add(s.total, 1), fields: tick(tick(s.fields, raw, true), noise, false) })
}

/// `f` with the counts of `df` added.
pub open spec fn merged(f: Map<Seq<char>, FieldCounts>, df: Map<Seq<char>, FieldAggregation>) -> Map<Seq<char>, FieldCounts> {
    Map::new(
        |p: Seq<char>| f.dom().contains(p) || df.dom().contains(p),
        |p: Seq<char>| {
            let c = count_or_zero(f, p);
            if df.dom().contains(p) {
                FieldCounts { raw_count: wrapping_add(c.raw_count, df[p].raw_count), noise_count: wrapping_add(c.noise_count, df[p].noise_count) }
            } else {
                c
            }
        },
    )
}

/// The counters after adding back one drained aggregation.
pub open spec fn restored_one(m: Map<Seq<char>, StatsView>, a: AggregationView) -> Map<Seq<char>, StatsView> {
    let s = stats_or_new(m, a.endpoint);
    m.insert(a.endpoint, StatsView { total: wrapping_add(s.total, a.total), fields: merged(s.fields, a.fields) })
}

/// The counters after adding back drained aggregations, in order.
pub open spec fn restored(m: Map<Seq<char>, StatsView>, s: Seq<AggregationView>) -> Map<Seq<char>, StatsView>
    decreases s.len(),
{
    if s.len() == 0 {
        m
    } else {
        restored_one(restored(m, s.drop_last()), s.last())
    }
}

/// The fields of `f` with a non-zero counter.
pub open spec fn nonzero_fields(f: Map<Seq<char>, FieldCounts>) -> Map<Seq<char>, FieldAggregation> {
    Map::new(
        |p: Seq<char>| f.dom().contains(p) && (f[p].raw_count != 0 || f[p].noise_count != 0),
        |p: Seq<char>| FieldAggregation { raw_count: f[p].raw_count, noise_count: f[p].noise_count },
    )
}

/// `f` with every counter at zero.
pub open spec fn zeroed(f: Map<Seq<char>, FieldCounts>) -> Map<Seq<char>, FieldCounts> {
    Map::new(|p: Seq<char>| f.dom().contains(p), |p: Seq<char>| zero_counts())
}

/// The counters left by a drain: endpoints that saw requests are reset, the
/// others are left as they were.
pub open spec fn drained_state(m: Map<Seq<char>, StatsView>) -> Map<Seq<char>, StatsView> {
    Map::new(
        |k: Seq<char>| m.dom().contains(k),
        |k: Seq<char>| if m[k].total != 0 { StatsView { total: 0, fields: zeroed(m[k].fields) } } else { m[k] },
    )
}

/// The aggregations a drain hands out for the first `n` endpoints of
/// `keys`: one per endpoint that saw requests, with its non-zero fields.
pub open spec fn drained_output(keys: Seq<Seq<char>>, m: Map<Seq<char>, StatsView>, now: Timestamp, n: int) -> Seq<AggregationView>
    decreases n,
{
    if n <= 0 {
        Seq::empty()
    } else {
        let prev = drained_output(keys, m, now, n - 1);
        let k = keys[n - 1];
        if m[k].total != 0 {
            prev.push(AggregationView { endpoint: k, total: m[k].total, fields: nonzero_fields(m[k].fields), last_updated: now })
        } else {
            prev
        }
    }
}

proof fn lemma_tick_insert(m: Map<Seq<char>, FieldCounts>, keys: Set<Seq<char>>, k: Seq<char>, raw: bool)
    requires
        !keys.contains(k),
    ensures
        tick(m, keys.insert(k), raw) == tick(m, keys, raw).insert(k, {
            let c = count_or_zero(m, k);
            if raw {
                FieldCounts { raw_count: wrapping_add(c.raw_count, 1), noise_count: c.noise_count }
            } else {
                FieldCounts { raw_count: c.raw_count, noise_count: wrapping_add(c.noise_count, 1) }
            }
        }),
{
    assert(tick(m, keys.insert(k), raw) =~= tick(m, keys, raw).insert(k, {
        let c = count_or_zero(m, k);
        if raw {
            FieldCounts { raw_count: wrapping_add(c.raw_count, 1), noise_count: c.noise_count }
        } else {
            FieldCounts { raw_count: c.raw_count, noise_count: wrapping_add(c.noise_count, 1) }
        }
    }));
}

proof fn lemma_merged_insert(f: Map<Seq<char>, FieldCounts>, df: Map<Seq<char>, FieldAggregation>, k: Seq<char>, v: FieldAggregation)
    requires
        !df.dom().contains(k),
    ensures
        merged(f, df.insert(k, v)) == merged(f, df).insert(k, {
            let c = count_or_zero(f, k);
            FieldCounts { raw_count: wrapping_add(c.raw_count, v.raw_count), noise_count: wrapping_add(c.noise_count, v.noise_count) }
        }),
{
    assert(merged(f, df.insert(k, v)) =~= merged(f, df).insert(k, {
        let c = count_or_zero(f, k);
        FieldCounts { raw_count: wrapping_add(c.raw_count, v.raw_count), noise_count: wrapping_add(c.noise_count, v.noise_count) }
    }));
}

/// Advances the raw (or noise) counter of every path of `diffs`.
fn tick_all(fields: &mut TextMap<FieldCounts>, diffs: &FieldDiffs, raw: bool)
    ensures
        final(fields).map() == tick(old(fields).map(), diffs@.dom(), raw),
{
    let n = diffs.len();
    let ghost es = diffs.entry_seq();
    let ghost m0 = fields.map();
    assert(es.take(0) =~= Seq::<(Seq<char>, FieldDiffView)>::empty());
    assert(tick(m0, entries_map(es.take(0)).dom(), raw) =~= m0);
    let mut i: usize = 0;
    while i < n
        invariant
            n == es.len(),
            n == diffs@.dom().len(),
            es == diffs.entry_seq(),
            diffs@ == entries_map(es),
            keys_unique(es),
            i <= n,
            fields.map() == tick(m0, entries_map(es.take(i as int)).dom(), raw),
        decreases n - i,
    {
        let (path, _d) = diffs.entry(i);
        let ghost prev = entries_map(es.take(i as int));
        proof {
            assert(es.take(i as int + 1).drop_last() =~= es.take(i as int));
            crate::maps::lemma_entries_map_dom(es.take(i as int), path@);
            if prev.dom().contains(path@) {
                let j = choose|j: int| 0 <= j < es.take(i as int).len() && es.take(i as int)[j].0 == path@;
                assert(es[j].0 == es[i as int].0);
            }
            assert(entries_map(es.take(i as int + 1)).dom() =~= prev.dom().insert(path@));
            lemma_tick_insert(m0, prev.dom(), path@, raw);
        }
        let c = match fields.get(path.as_str()) {
            Some(c) => *c,
            None => FieldCounts::default(),
        };
        let next = if raw {
            FieldCounts { raw_count: c.raw_count.wrapping_add(1), noise_count: c.noise_count }
        } else {
            FieldCounts { raw_count: c.raw_count, noise_count: c.noise_count.wrapping_add(1) }
        };
        fields.insert(path.clone(), next);
        i += 1;
    }
    assert(es.take(n as int) =~= es);
}

/// Adds the counts of `delta` to `fields`.
fn merge_all(fields: &mut TextMap<FieldCounts>, delta: &TextMap<FieldAggregation>)
    ensures
        final(fields).map() == merged(old(fields).map(), delta.map()),
{
    let n = delta.len();
    let ghost es = delta.entry_seq();
    let ghost f0 = fields.map();
    assert(es.take(0) =~= Seq::<(Seq<char>, FieldAggregation)>::empty());
    assert(merged(f0, entries_map(es.take(0))) =~= f0);
    let mut i: usize = 0;
    while i < n
        invariant
            n == es.len(),
            es == delta.entry_seq(),
            delta.map() == entries_map(es),
            keys_unique(es),
            i <= n,
            fields.map() == merged(f0, entries_map(es.take(i as int))),
        decreases n - i,
    {
        let (path, add) = delta.entry(i);
        let ghost prev = entries_map(es.take(i as int));
        proof {
            assert(es.take(i as int + 1).drop_last() =~= es.take(i as int));
            crate::maps::lemma_entries_map_dom(es.take(i as int), path@);
            if prev.dom().contains(path@) {
                let j = choose|j: int| 0 <= j < es.take(i as int).len() && es.take(i as int)[j].0 == path@;
                assert(es[j].0 == es[i as int].0);
            }
            lemma_merged_insert(f0, prev, path@, *add);
        }
        let c = match fields.get(path.as_str()) {
            Some(c) => *c,
            None => FieldCounts::default(),
        };
        let next = FieldCounts {
            raw_count: c.raw_count.wrapping_add(add.raw_count),
            noise_count: c.noise_count.wrapping_add(add.noise_count),
        };
        fields.insert(path.clone(), next);
        i += 1;
    }
    assert(es.take(n as int) =~= es);
    let _ = delta.len();
}


/// The counters part-way through a drain: the endpoints among the first `n`
/// of `keys` are drained, the others untouched.
pub open spec fn partly_drained(m: Map<Seq<char>, StatsView>, keys: Seq<Seq<char>>, n: int) -> Map<Seq<char>, StatsView> {
    Map::new(
        |k: Seq<char>| m.dom().contains(k),
        |k: Seq<char>| if keys.take(n).contains(k) { drained_state(m)[k] } else { m[k] },
    )
}

/// Splits `fields` into the same paths at zero and the non-zero counts.
fn split_fields(fields: &TextMap<FieldCounts>) -> (r: (TextMap<FieldCounts>, TextMap<FieldAggregation>))
    ensures
        r.0.map() == zeroed(fields.map()),
        r.1.map() == nonzero_fields(fields.map()),
{
    let n = fields.len();
    let ghost es = fields.entry_seq();
    let mut zero: TextMap<FieldCounts> = TextMap::new();
    let mut kept: TextMap<FieldAggregation> = TextMap::new();
    assert(es.take(0) =~= Seq::<(Seq<char>, FieldCounts)>::empty());
    assert(zeroed(entries_map(es.take(0))) =~= zero.map());
    assert(nonzero_fields(entries_map(es.take(0))) =~= kept.map());
    let mut i: usize = 0;
    while i < n
        invariant
            n == es.len(),
            es == fields.entry_seq(),
            fields.map() == entries_map(es),
            keys_unique(es),
            i <= n,
            zero.map() == zeroed(entries_map(es.take(i as int))),
            kept.map() == nonzero_fields(entries_map(es.take(i as int))),
        decreases n - i,
    {
        let (path, c) = fields.entry(i);
        let ghost prev = entries_map(es.take(i as int));
        proof {
            assert(es.take(i as int + 1).drop_last() =~= es.take(i as int));
            crate::maps::lemma_entries_map_dom(es.take(i as int), path@);
            if prev.dom().contains(path@) {
                let j = choose|j: int| 0 <= j < es.take(i as int).len() && es.take(i as int)[j].0 == path@;
                assert(es[j].0 == es[i as int].0);
            }
        }
        zero.insert(path.clone(), FieldCounts { raw_count: 0, noise_count: 0 });
        assert(zero.map() =~= zeroed(prev.insert(path@, *c)));
        if c.raw_count != 0 || c.noise_count != 0 {
            kept.insert(path.clone(), FieldAggregation { raw_count: c.raw_count, noise_count: c.noise_count });
        }
        assert(kept.map() =~= nonzero_fields(prev.insert(path@, *c)));
        i += 1;
    }
    assert(es.take(n as int) =~= es);
    (zero, kept)
}


/// One field path's counters, joined with its endpoint's total.
pub struct FieldSnapshot {
    pub path: String,
    pub raw_count: u64,
    pub noise_count: u64,
    pub endpoint_total: u64,
}

/// One endpoint's counters as they stand.
pub struct EndpointSnapshot {
    pub endpoint: String,
    pub total: u64,
    pub fields: Vec<FieldSnapshot>,
}

fn field_snapshots(fields: &TextMap<FieldCounts>, total: u64) -> (r: Vec<FieldSnapshot>)
    ensures
        r@.len() == fields.key_seq().len(),
        forall|j: int| 0 <= j < fields.key_seq().len() ==> {
            let f = #[trigger] r@[j];
            &&& f.path@ == fields.key_seq()[j]
            &&& fields.map().dom().contains(fields.key_seq()[j])
            &&& f.raw_count == fields.map()[fields.key_seq()[j]].raw_count
            &&& f.noise_count == fields.map()[fields.key_seq()[j]].noise_count
            &&& f.endpoint_total == total
        },
        forall|p: Seq<char>| fields.map().dom().contains(p) ==> fields.key_seq().contains(p),
{
    let n = fields.len();
    let mut out: Vec<FieldSnapshot> = Vec::new();
    let mut i: usize = 0;
    while i < n
        invariant
            n == fields.entry_seq().len(),
            i <= n,
            out@.len() == i,
            forall|j: int| 0 <= j < i ==> {
                let f = #[trigger] out@[j];
                &&& f.path@ == fields.key_seq()[j]
                &&& fields.map().dom().contains(fields.key_seq()[j])
                &&& f.raw_count == fields.map()[fields.key_seq()[j]].raw_count
                &&& f.noise_count == fields.map()[fields.key_seq()[j]].noise_count
                &&& f.endpoint_total == total
            },
        decreases n - i,
    {
        let (path, c) = fields.entry(i);
        out.push(FieldSnapshot { path: path.clone(), raw_count: c.raw_count, noise_count: c.noise_count, endpoint_total: total });
        i += 1;
    }
    let _ = fields.len();
    proof {
        assert forall|p: Seq<char>| fields.map().dom().contains(p) implies fields.key_seq().contains(p) by {
            let j = choose|j: int| 0 <= j < fields.entry_seq().len() && #[trigger] fields.entry_seq()[j].0 == p;
            assert(fields.key_seq()[j] == p);
        }
    }
    out
}

/// Per-endpoint request totals and per-field raw/noise counters.
pub struct LiveCounters {
    endpoints: TextMap<EndpointStats>,
}

impl LiveCounters {
    pub closed spec fn stats(&self) -> Map<Seq<char>, StatsView> {
        Map::new(
            |k: Seq<char>| self.endpoints.map().dom().contains(k),
            |k: Seq<char>| StatsView { total: self.endpoints.map()[k].total, fields: self.endpoints.map()[k].fields.map() },
        )
    }

    /// The endpoints in the order drains visit them.
    pub closed spec fn order(&self) -> Seq<Seq<char>> {
        Seq::new(self.endpoints.entry_seq().len(), |i: int| self.endpoints.entry_seq()[i].0)
    }

    pub fn new() -> (r: LiveCounters)
        ensures
            r.stats() == Map::<Seq<char>, StatsView>::empty(),
    {
        let r = LiveCounters { endpoints: TextMap::new() };
        assert(r.stats() =~= Map::<Seq<char>, StatsView>::empty());
        r
    }

    /// Counts one analysed request of `endpoint`: its total, and the raw
    /// and noise counters of every differing path.
    pub fn record(&mut self, endpoint: &str, raw: &FieldDiffs, noise: &FieldDiffs)
        ensures
            final(self).stats() == recorded(old(self).stats(), endpoint@, raw@.dom(), noise@.dom()),
    {
        let ghost s0 = stats_or_new(self.stats(), endpoint@);
        let ghost before = self.stats();
        let mut stats = match self.endpoints.get(endpoint) {
            Some(_) => self.endpoints.replace(endpoint.to_string(), EndpointStats { total: 0, fields: TextMap::new() }).unwrap(),
            None => EndpointStats { total: 0, fields: TextMap::new() },
        };
        assert(stats.total == s0.total && stats.fields.map() == s0.fields);
        stats.total = stats.total.wrapping_add(1);
        tick_all(&mut stats.fields, raw, true);
        tick_all(&mut stats.fields, noise, false);
        self.endpoints.insert(endpoint.to_string(), stats);
        assert(self.stats() =~= recorded(before, endpoint@, raw@.dom(), noise@.dom()));
    }

    /// Hands out the counts of every endpoint that saw requests since the
    /// last drain, stamped `now`, each with its non-zero fields, and resets
    /// those endpoints' counters.
    pub fn drain(&mut self, now: Timestamp) -> (r: Vec<EndpointAggregation>)
        ensures
            final(self).stats() == drained_state(old(self).stats()),
            final(self).order() == old(self).order(),
            aggregation_views(r@) == drained_output(old(self).order(), old(self).stats(), now, old(self).order().len() as int),
            forall|i: int, j: int| 0 <= i < old(self).order().len() && 0 <= j < old(self).order().len() && i != j
                ==> old(self).order()[i] != old(self).order()[j],
            forall|i: int| 0 <= i < old(self).order().len() ==> old(self).stats().dom().contains(#[trigger] old(self).order()[i]),
            forall|k: Seq<char>| old(self).stats().dom().contains(k) ==> old(self).order().contains(k),
    {
        let n = self.endpoints.len();
        let ghost m0 = self.stats();
        assert forall|k: Seq<char>| m0.dom().contains(k) implies exists|j: int| 0 <= j < n && #[trigger] self.order()[j] == k by {
            let j = choose|j: int| 0 <= j < self.endpoints.entry_seq().len() && #[trigger] self.endpoints.entry_seq()[j].0 == k;
            assert(self.order()[j] == k);
        }
        let ghost keys = self.order();
        let ghost es0 = self.endpoints.entry_seq();
        let mut out: Vec<EndpointAggregation> = Vec::new();
        assert(keys.take(0) =~= Seq::<Seq<char>>::empty());
        assert(self.stats() =~= partly_drained(m0, keys, 0));
        assert(aggregation_views(out@) =~= drained_output(keys, m0, now, 0));
        let mut i: usize = 0;
        while i < n
            invariant
                n == keys.len(),
                keys == self.order(),
                keys_unique(es0),
                es0.len() == n,
                forall|j: int| 0 <= j < n ==> #[trigger] keys[j] == es0[j].0,
                forall|j: int| 0 <= j < n ==> m0.dom().contains(#[trigger] keys[j]),
                forall|k: Seq<char>| m0.dom().contains(k) ==> exists|j: int| 0 <= j < n && #[trigger] keys[j] == k,
                i <= n,
                self.stats() == partly_drained(m0, keys, i as int),
                aggregation_views(out@) == drained_output(keys, m0, now, i as int),
            decreases n - i,
        {
            let _ = self.endpoints.len();
            let key = self.endpoints.entry(i).0.clone();
            let ghost k = key@;
            assert(k == keys[i as int]);
            assert(!keys.take(i as int).contains(k)) by {
                if keys.take(i as int).contains(k) {
                    let j = choose|j: int| 0 <= j < i && #[trigger] keys.take(i as int)[j] == k;
                    assert(es0[j].0 == es0[i as int].0);
                }
            }
            let ghost before = self.stats();
            assert(before[k] == m0[k]);
            let stats = self.endpoints.replace(key.clone(), EndpointStats { total: 0, fields: TextMap::new() }).unwrap();
            let ghost s = m0[k];
            assert(stats.total == s.total && stats.fields.map() == s.fields);
            let ghost prev_out = aggregation_views(out@);
            if stats.total == 0 {
                self.endpoints.insert(key, stats);
                assert(self.stats()[k] == drained_state(m0)[k]);
            } else {
                let total = stats.total;
                let (zero, kept) = split_fields(&stats.fields);
                self.endpoints.insert(key.clone(), EndpointStats { total: 0, fields: zero });
                assert(self.stats()[k] =~= drained_state(m0)[k]);
                out.push(EndpointAggregation { endpoint: key, total, fields: kept, last_updated: now });
                assert(aggregation_views(out@) =~= prev_out.push(AggregationView {
                    endpoint: k,
                    total: s.total,
                    fields: nonzero_fields(s.fields),
                    last_updated: now,
                }));
            }
            proof {
                assert(keys.take(i as int + 1) =~= keys.take(i as int).push(k));
                assert forall|x: Seq<char>| keys.take(i as int + 1).contains(x) <==> (keys.take(i as int).contains(x) || x == k) by {
                    if keys.take(i as int + 1).contains(x) {
                        let j = choose|j: int| 0 <= j < i + 1 && #[trigger] keys.take(i as int + 1)[j] == x;
                        if j < i {
                            assert(keys.take(i as int)[j] == x);
                        }
                    }
                    if keys.take(i as int).contains(x) {
                        let j = choose|j: int| 0 <= j < i && #[trigger] keys.take(i as int)[j] == x;
                        assert(keys.take(i as int + 1)[j] == x);
                    }
                    if x == k {
                        assert(keys.take(i as int + 1)[i as int] == x);
                    }
                }
                assert forall|x: Seq<char>| #[trigger] self.stats().dom().contains(x) implies self.stats()[x] == partly_drained(m0, keys, i as int + 1)[x] by {
                    if x != k {
                        assert(self.stats()[x] == before[x]);
                    }
                }
                assert(self.stats().dom() =~= partly_drained(m0, keys, i as int + 1).dom());
                assert(self.stats() =~= partly_drained(m0, keys, i as int + 1));
            }
            i += 1;
        }
        proof {
            assert(keys.take(n as int) =~= keys);
            assert forall|k: Seq<char>| m0.dom().contains(k) implies keys.contains(k) by {
                let j = choose|j: int| 0 <= j < n && #[trigger] keys[j] == k;
            }
            assert(self.stats() =~= drained_state(m0));
            assert forall|a: int, b: int| 0 <= a < n && 0 <= b < n && a != b implies keys[a] != keys[b] by {
                assert(keys[a] == es0[a].0 && keys[b] == es0[b].0);
            }
        }
        out
    }

    /// Every endpoint's counters as they stand, without resetting them.
    pub fn snapshot(&self) -> (r: Vec<EndpointSnapshot>)
        ensures
            r@.len() == self.order().len(),
            r@.len() == self.stats().dom().len(),
            forall|p: Seq<char>| #[trigger] self.stats().dom().contains(p) ==> exists|i: int| 0 <= i < r@.len() && r@[i].endpoint@ == p,
            forall|i: int| 0 <= i < self.order().len() ==> self.stats().dom().contains(#[trigger] self.order()[i])
                && r@[i].endpoint@ == self.order()[i]
                && r@[i].total == self.stats()[self.order()[i]].total
                && r@[i].fields@.len() == self.stats()[self.order()[i]].fields.dom().len(),
            forall|i: int, j: int| 0 <= i < r@.len() && 0 <= j < r@[i].fields@.len() ==> {
                let f = #[trigger] r@[i].fields@[j];
                let s = self.stats()[self.order()[i]];
                &&& s.fields.dom().contains(f.path@)
                &&& f.raw_count == s.fields[f.path@].raw_count
                &&& f.noise_count == s.fields[f.path@].noise_count
                &&& f.endpoint_total == s.total
            },
    {
        let n = self.endpoints.len();
        assert(self.stats().dom() =~= self.endpoints.map().dom());
        let mut out: Vec<EndpointSnapshot> = Vec::new();
        let mut i: usize = 0;
        while i < n
            invariant
                n == self.order().len(),
                n == self.endpoints.entry_seq().len(),
                i <= n,
                out@.len() == i,
                forall|k: int| 0 <= k < i ==> self.stats().dom().contains(#[trigger] self.order()[k])
                    && out@[k].endpoint@ == self.order()[k]
                    && out@[k].total == self.stats()[self.order()[k]].total
                    && out@[k].fields@.len() == self.stats()[self.order()[k]].fields.dom().len(),
                forall|k: int, j: int| 0 <= k < i && 0 <= j < out@[k].fields@.len() ==> {
                    let f = #[trigger] out@[k].fields@[j];
                    let s = self.stats()[self.order()[k]];
                    &&& s.fields.dom().contains(f.path@)
                    &&& f.raw_count == s.fields[f.path@].raw_count
                    &&& f.noise_count == s.fields[f.path@].noise_count
                    &&& f.endpoint_total == s.total
                },
            decreases n - i,
        {
            let (name, stats) = self.endpoints.entry(i);
            let fields = field_snapshots(&stats.fields, stats.total);
            let _ = stats.fields.len();
            out.push(EndpointSnapshot { endpoint: name.clone(), total: stats.total, fields });
            i += 1;
        }
        assert forall|p: Seq<char>| #[trigger] self.stats().dom().contains(p) implies exists|i: int| 0 <= i < out@.len() && out@[i].endpoint@ == p by {
            let j = choose|j: int| 0 <= j < self.endpoints.entry_seq().len() && #[trigger] self.endpoints.entry_seq()[j].0 == p;
            assert(self.order()[j] == p);
            assert(out@[j].endpoint@ == p);
        }
        out
    }

    /// Drops every counter of `endpoint`.
    pub fn reset_endpoint(&mut self, endpoint: &str)
        ensures
            final(self).stats() == old(self).stats().remove(endpoint@),
    {
        self.endpoints.remove(endpoint);
        assert(self.stats() =~= old(self).stats().remove(endpoint@));
    }

    /// Adds drained aggregations back, in order.
    pub fn restore(&mut self, deltas: &[EndpointAggregation])
        ensures
            final(self).stats() == restored(old(self).stats(), aggregation_views(deltas@)),
    {
        let ghost ds = aggregation_views(deltas@);
        assert(ds.take(0) =~= Seq::<AggregationView>::empty());
        let mut i: usize = 0;
        while i < deltas.len()
            invariant
                ds == aggregation_views(deltas@),
                i <= deltas@.len(),
                self.stats() == restored(old(self).stats(), ds.take(i as int)),
            decreases deltas@.len() - i,
        {
            let delta = &deltas[i];
            let ghost before = self.stats();
            let mut stats = match self.endpoints.get(delta.endpoint.as_str()) {
                Some(_) => self.endpoints.replace(delta.endpoint.clone(), EndpointStats { total: 0, fields: TextMap::new() }).unwrap(),
                None => EndpointStats { total: 0, fields: TextMap::new() },
            };
            stats.total = stats.total.wrapping_add(delta.total);
            merge_all(&mut stats.fields, &delta.fields);
            self.endpoints.insert(delta.endpoint.clone(), stats);
            proof {
                assert(ds.take(i as int + 1).drop_last() =~= ds.take(i as int));
                assert(ds.take(i as int + 1).last() == delta@);
                assert(self.stats() =~= restored_one(before, delta@));
            }
            i += 1;
        }
        assert(ds.take(deltas@.len() as int) =~= ds);
    }
}

} // verus!

verus! {

/// The counters part-way through adding back a drain's output: the
/// endpoints among the first `n` of `keys` are back as they were.
pub open spec fn partly_restored(m: Map<Seq<char>, StatsView>, keys: Seq<Seq<char>>, n: int) -> Map<Seq<char>, StatsView> {
    Map::new(
        |k: Seq<char>| m.dom().contains(k),
        |k: Seq<char>| if keys.take(n).contains(k) { m[k] } else { drained_state(m)[k] },
    )
}

proof fn lemma_merge_back(f: Map<Seq<char>, FieldCounts>)
    ensures
        merged(zeroed(f), nonzero_fields(f)) == f,
{
    assert forall|p: Seq<char>| #[trigger] f.dom().contains(p) implies merged(zeroed(f), nonzero_fields(f))[p] == f[p] by {
        assert(wrapping_add(0u64, f[p].raw_count) == f[p].raw_count);
        assert(wrapping_add(0u64, f[p].noise_count) == f[p].noise_count);
    }
    assert(merged(zeroed(f), nonzero_fields(f)) =~= f);
}

proof fn lemma_restore_prefix(m: Map<Seq<char>, StatsView>, keys: Seq<Seq<char>>, now: Timestamp, n: int)
    requires
        0 <= n <= keys.len(),
        forall|i: int, j: int| 0 <= i < keys.len() && 0 <= j < keys.len() && i != j ==> keys[i] != keys[j],
        forall|i: int| 0 <= i < keys.len() ==> m.dom().contains(#[trigger] keys[i]),
    ensures
        restored(drained_state(m), drained_output(keys, m, now, n)) == partly_restored(m, keys, n),
    decreases n,
{
    if n == 0 {
        assert(keys.take(0) =~= Seq::<Seq<char>>::empty());
        assert(drained_state(m) =~= partly_restored(m, keys, 0));
    } else {
        lemma_restore_prefix(m, keys, now, n - 1);
        let k = keys[n - 1];
        let prev = partly_restored(m, keys, n - 1);
        assert(!keys.take(n - 1).contains(k)) by {
            if keys.take(n - 1).contains(k) {
                let j = choose|j: int| 0 <= j < n - 1 && #[trigger] keys.take(n - 1)[j] == k;
                assert(keys[j] == keys[n - 1]);
            }
        }
        assert forall|x: Seq<char>| keys.take(n).contains(x) <==> (keys.take(n - 1).contains(x) || x == k) by {
            if keys.take(n).contains(x) {
                let j = choose|j: int| 0 <= j < n && #[trigger] keys.take(n)[j] == x;
                if j < n - 1 {
                    assert(keys.take(n - 1)[j] == x);
                }
            }
            if keys.take(n - 1).contains(x) {
                let j = choose|j: int| 0 <= j < n - 1 && #[trigger] keys.take(n - 1)[j] == x;
                assert(keys.take(n)[j] == x);
            }
            if x == k {
                assert(keys.take(n)[n - 1] == x);
            }
        }
        assert(prev[k] == drained_state(m)[k]);
        if m[k].total != 0 {
            let a = AggregationView { endpoint: k, total: m[k].total, fields: nonzero_fields(m[k].fields), last_updated: now };
            assert(drained_output(keys, m, now, n) == drained_output(keys, m, now, n - 1).push(a));
            assert(drained_output(keys, m, now, n).drop_last() =~= drained_output(keys, m, now, n - 1));
            lemma_merge_back(m[k].fields);
            assert(wrapping_add(0u64, m[k].total) == m[k].total);
            assert(restored_one(prev, a) =~= partly_restored(m, keys, n));
        } else {
            assert(prev =~= partly_restored(m, keys, n));
        }
    }
}

/// Adding back what a drain handed out restores every counter exactly as
/// it was before the drain.
pub proof fn lemma_restore_undoes_drain(m: Map<Seq<char>, StatsView>, keys: Seq<Seq<char>>, now: Timestamp)
    requires
        forall|i: int, j: int| 0 <= i < keys.len() && 0 <= j < keys.len() && i != j ==> keys[i] != keys[j],
        forall|i: int| 0 <= i < keys.len() ==> m.dom().contains(#[trigger] keys[i]),
        forall|k: Seq<char>| m.dom().contains(k) ==> keys.contains(k),
    ensures
        restored(drained_state(m), drained_output(keys, m, now, keys.len() as int)) == m,
{
    lemma_restore_prefix(m, keys, now, keys.len() as int);
    assert(keys.take(keys.len() as int) =~= keys);
    assert(partly_restored(m, keys, keys.len() as int) =~= m);
}

/// Adding back one aggregation adds its total onto its endpoint's buffered
/// total and each of its field counts onto that field's buffered counts,
/// keeps every other buffered field, and leaves other endpoints untouched.
pub proof fn lemma_restore_adds(m: Map<Seq<char>, StatsView>, a: AggregationView, other: Seq<char>, p: Seq<char>)
    ensures
        ({
            let s = stats_or_new(m, a.endpoint);
            let after = restored_one(m, a)[a.endpoint];
            &&& after.total == wrapping_add(s.total, a.total)
            &&& a.fields.dom().contains(p) ==> after.fields.dom().contains(p)
                && after.fields[p].raw_count == wrapping_add(count_or_zero(s.fields, p).raw_count, a.fields[p].raw_count)
                && after.fields[p].noise_count == wrapping_add(count_or_zero(s.fields, p).noise_count, a.fields[p].noise_count)
            &&& !a.fields.dom().contains(p) ==> after.fields.dom().contains(p) == s.fields.dom().contains(p)
                && (s.fields.dom().contains(p) ==> after.fields[p] == s.fields[p])
        }),
        other != a.endpoint ==> restored_one(m, a).dom().contains(other) == m.dom().contains(other)
            && (m.dom().contains(other) ==> restored_one(m, a)[other] == m[other]),
{
}

/// Right after a drain, a second drain hands out nothing.
pub proof fn lemma_drain_twice_is_empty(m: Map<Seq<char>, StatsView>, keys: Seq<Seq<char>>, now: Timestamp, n: int)
    requires
        0 <= n <= keys.len(),
        forall|i: int| 0 <= i < keys.len() ==> m.dom().contains(#[trigger] keys[i]),
    ensures
        drained_output(keys, drained_state(m), now, n) == Seq::<AggregationView>::empty(),
    decreases n,
{
    if n > 0 {
        lemma_drain_twice_is_empty(m, keys, now, n - 1);
    }
}

proof fn lemma_drained_output_endpoints(keys: Seq<Seq<char>>, m: Map<Seq<char>, StatsView>, now: Timestamp, n: int)
    requires
        0 <= n <= keys.len(),
        forall|i: int, j: int| 0 <= i < keys.len() && 0 <= j < keys.len() && i != j ==> keys[i] != keys[j],
    ensures
        forall|i: int| 0 <= i < drained_output(keys, m, now, n).len() ==> exists|j: int|
            0 <= j < n && #[trigger] drained_output(keys, m, now, n)[i].endpoint == keys[j],
        forall|i: int, j: int| 0 <= i < j < drained_output(keys, m, now, n).len()
            ==> #[trigger] drained_output(keys, m, now, n)[i].endpoint != #[trigger] drained_output(keys, m, now, n)[j].endpoint,
        forall|i: int| 0 <= i < drained_output(keys, m, now, n).len() ==> {
            let a = #[trigger] drained_output(keys, m, now, n)[i];
            &&& a.total != 0
            &&& a.total == m[a.endpoint].total
            &&& a.fields == nonzero_fields(m[a.endpoint].fields)
        },
    decreases n,
{
    if n > 0 {
        lemma_drained_output_endpoints(keys, m, now, n - 1);
        let prev = drained_output(keys, m, now, n - 1);
        let out = drained_output(keys, m, now, n);
        assert forall|i: int| 0 <= i < out.len() implies exists|j: int| 0 <= j < n && #[trigger] out[i].endpoint == keys[j] by {
            if i < prev.len() {
                assert(out[i] == prev[i]);
                let j = choose|j: int| 0 <= j < n - 1 && #[trigger] prev[i].endpoint == keys[j];
            } else {
                assert(out[i].endpoint == keys[n - 1]);
            }
        }
        assert forall|i: int, j: int| 0 <= i < j < out.len() implies #[trigger] out[i].endpoint != #[trigger] out[j].endpoint by {
            assert(out[i] == prev[i]);
            if j < prev.len() {
                assert(out[j] == prev[j]);
            } else {
                let x = choose|x: int| 0 <= x < n - 1 && #[trigger] prev[i].endpoint == keys[x];
                assert(out[j].endpoint == keys[n - 1]);
            }
        }
        assert forall|i: int| 0 <= i < out.len() implies {
            let a = #[trigger] out[i];
            &&& a.total != 0
            &&& a.total == m[a.endpoint].total
            &&& a.fields == nonzero_fields(m[a.endpoint].fields)
        } by {
            if i < prev.len() {
                assert(out[i] == prev[i]);
            }
        }
    }
}

/// A drain hands out each endpoint that saw requests once, with a non-zero
/// total and only the fields that differed; a second drain right after it
/// hands out nothing; and a request recorded after the drain is counted
/// from one, not on top of what was drained.
pub proof fn lemma_drain_resets(
    m: Map<Seq<char>, StatsView>,
    keys: Seq<Seq<char>>,
    now: Timestamp,
    later: Timestamp,
    endpoint: Seq<char>,
    raw: Set<Seq<char>>,
    noise: Set<Seq<char>>,
)
    requires
        forall|i: int, j: int| 0 <= i < keys.len() && 0 <= j < keys.len() && i != j ==> keys[i] != keys[j],
        forall|i: int| 0 <= i < keys.len() ==> m.dom().contains(#[trigger] keys[i]),
        forall|k: Seq<char>| m.dom().contains(k) ==> keys.contains(k),
    ensures
        ({
            let out = drained_output(keys, m, now, keys.len() as int);
            &&& forall|i: int| 0 <= i < out.len() ==> (#[trigger] out[i]).total > 0
            &&& forall|i: int, j: int| 0 <= i < j < out.len() ==> #[trigger] out[i].endpoint != #[trigger] out[j].endpoint
            &&& forall|i: int, p: Seq<char>| 0 <= i < out.len() && #[trigger] out[i].fields.dom().contains(p)
                ==> out[i].fields[p].raw_count != 0 || out[i].fields[p].noise_count != 0
            &&& forall|k: Seq<char>| #[trigger] m.dom().contains(k) && m[k].total != 0
                ==> exists|i: int| 0 <= i < out.len() && out[i].endpoint == k
        }),
        drained_output(keys, drained_state(m), later, keys.len() as int) == Seq::<AggregationView>::empty(),
        recorded(drained_state(m), endpoint, raw, noise)[endpoint].total == 1,
        !m.dom().contains(endpoint) || m[endpoint].total != 0 ==> forall|p: Seq<char>| #[trigger] raw.contains(p)
            ==> recorded(drained_state(m), endpoint, raw, noise)[endpoint].fields[p].raw_count == 1,
        !m.dom().contains(endpoint) || m[endpoint].total != 0 ==> forall|p: Seq<char>| #[trigger] noise.contains(p)
            ==> recorded(drained_state(m), endpoint, raw, noise)[endpoint].fields[p].noise_count == 1,
{
    let n = keys.len() as int;
    let out = drained_output(keys, m, now, n);
    lemma_drained_output_endpoints(keys, m, now, n);
    lemma_drain_twice_is_empty(m, keys, later, n);
    assert forall|i: int, p: Seq<char>| 0 <= i < out.len() && #[trigger] out[i].fields.dom().contains(p)
        implies out[i].fields[p].raw_count != 0 || out[i].fields[p].noise_count != 0 by {
        assert(out[i].fields == nonzero_fields(m[out[i].endpoint].fields));
    }
    assert forall|k: Seq<char>| #[trigger] m.dom().contains(k) && m[k].total != 0
        implies exists|i: int| 0 <= i < out.len() && out[i].endpoint == k by {
        assert(keys.contains(k));
        let j = choose|j: int| 0 <= j < keys.len() && keys[j] == k;
        lemma_drained_output_contains(keys, m, now, n, j);
    }
}

proof fn lemma_drained_output_contains(keys: Seq<Seq<char>>, m: Map<Seq<char>, StatsView>, now: Timestamp, n: int, j: int)
    requires
        0 <= j < n <= keys.len(),
        m[keys[j]].total != 0,
    ensures
        exists|i: int| 0 <= i < drained_output(keys, m, now, n).len() && drained_output(keys, m, now, n)[i].endpoint == keys[j],
    decreases n,
{
    let out = drained_output(keys, m, now, n);
    if j == n - 1 {
        assert(out[out.len() - 1].endpoint == keys[j]);
    } else {
        lemma_drained_output_contains(keys, m, now, n - 1, j);
        let prev = drained_output(keys, m, now, n - 1);
        let i = choose|i: int| 0 <= i < prev.len() && prev[i].endpoint == keys[j];
        assert(out[i] == prev[i]);
    }
}

/// Counting a request of one endpoint leaves every other endpoint's
/// counters as they were, and adds one to that endpoint's total.
pub proof fn lemma_endpoints_are_isolated(m: Map<Seq<char>, StatsView>, endpoint: Seq<char>, other: Seq<char>, raw: Set<Seq<char>>, noise: Set<Seq<char>>)
    requires
        endpoint != other,
    ensures
        recorded(m, endpoint, raw, noise).dom().contains(other) == m.dom().contains(other),
        m.dom().contains(other) ==> recorded(m, endpoint, raw, noise)[other] == m[other],
        recorded(m, endpoint, raw, noise)[endpoint].total == wrapping_add(stats_or_new(m, endpoint).total, 1),
{
}

/// A path differing on both sides of one request advances both its raw and
/// its noise counter.
pub proof fn lemma_same_path_both_sides(m: Map<Seq<char>, StatsView>, endpoint: Seq<char>, raw: Set<Seq<char>>, noise: Set<Seq<char>>, p: Seq<char>)
    requires
        raw.contains(p),
        noise.contains(p),
    ensures
        recorded(m, endpoint, raw, noise)[endpoint].fields[p].raw_count == wrapping_add(count_or_zero(stats_or_new(m, endpoint).fields, p).raw_count, 1),
        recorded(m, endpoint, raw, noise)[endpoint].fields[p].noise_count == wrapping_add(count_or_zero(stats_or_new(m, endpoint).fields, p).noise_count, 1),
{
}

/// Counters that are only ever read whole: every request is recorded, and a
/// snapshot joins each endpoint's fields with its total without resetting.
pub struct InMemoryDifferenceCollector {
    counters: LiveCounters,
}

impl InMemoryDifferenceCollector {
    pub closed spec fn stats(&self) -> Map<Seq<char>, StatsView> {
        self.counters.stats()
    }

    pub fn new() -> (r: InMemoryDifferenceCollector)
        ensures
            r.stats() == Map::<Seq<char>, StatsView>::empty(),
    {
        InMemoryDifferenceCollector { counters: LiveCounters::new() }
    }

    /// Counts one analysed request of `endpoint`.
    pub fn record(&mut self, endpoint: &str, raw: &FieldDiffs, noise: &FieldDiffs)
        ensures
            final(self).stats() == recorded(old(self).stats(), endpoint@, raw@.dom(), noise@.dom()),
    {
        self.counters.record(endpoint, raw, noise);
    }

    /// Every endpoint's counters joined with its total: one snapshot per
    /// endpoint, each field once.
    pub fn snapshot(&self) -> (r: Vec<EndpointSnapshot>)
        ensures
            r@.len() == self.stats().dom().len(),
            forall|i: int| 0 <= i < r@.len() ==> {
                let e = #[trigger] r@[i];
                &&& self.stats().dom().contains(e.endpoint@)
                &&& e.total == self.stats()[e.endpoint@].total
                &&& e.fields@.len() == self.stats()[e.endpoint@].fields.dom().len()
            },
            forall|p: Seq<char>| #[trigger] self.stats().dom().contains(p) ==> exists|i: int| 0 <= i < r@.len() && r@[i].endpoint@ == p,
            forall|i: int, j: int| 0 <= i < r@.len() && 0 <= j < r@[i].fields@.len() ==> {
                let f = #[trigger] r@[i].fields@[j];
                let s = self.stats()[r@[i].endpoint@];
                &&& s.fields.dom().contains(f.path@)
                &&& f.raw_count == s.fields[f.path@].raw_count
                &&& f.noise_count == s.fields[f.path@].noise_count
                &&& f.endpoint_total == s.total
            },
    {
        let r = self.counters.snapshot();
        assert forall|i: int| 0 <= i < r@.len() implies {
            let e = #[trigger] r@[i];
            &&& self.stats().dom().contains(e.endpoint@)
            &&& e.total == self.stats()[e.endpoint@].total
            &&& e.fields@.len() == self.stats()[e.endpoint@].fields.dom().len()
        } by {
            assert(self.counters.stats().dom().contains(self.counters.order()[i]));
        }
        assert forall|i: int, j: int| 0 <= i < r@.len() && 0 <= j < r@[i].fields@.len() implies {
            let f = #[trigger] r@[i].fields@[j];
            let s = self.stats()[r@[i].endpoint@];
            &&& s.fields.dom().contains(f.path@)
            &&& f.raw_count == s.fields[f.path@].raw_count
            &&& f.noise_count == s.fields[f.path@].noise_count
            &&& f.endpoint_total == s.total
        } by {
            assert(self.counters.stats().dom().contains(self.counters.order()[i]));
        }
        r
    }
}

} // verus!
