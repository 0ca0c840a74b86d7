//! The read side of the admin API: extra exclusions given with a query, the
//! per-path summary of an endpoint, the bounds of a drill-down page and when
//! a query finds nothing, the JSON view of one sample, the upstream
//! addresses, and changes to the suppression rules.
use vstd::prelude::*;
use crate::engine::{
    all_diffs, diff_sample_views, latest, matching, page, raw_hits, noise_hits, tally, verdict, DiffDetail, DiffEngine,
    EndpointCounts, FieldCounts,
};
use crate::errors::AppError;
use crate::json::{parse_json, parsed_json, Json, JsonValue};
use crate::order::{sort_texts, texts, texts_sorted};
use crate::pathmatch::{split_chars, split_on};
use crate::sample::{sample_views, RawSample, SampleView, Timestamp};
use crate::suppress::{rules_compile, SuppressRules};
use crate::text::{chars_of, concat, string_from_chars, trim_chars, trimmed};

verus! {

broadcast use vstd::std_specs::vec::group_vec_axioms;

/// Drill-down page size when none is asked for.
pub const DEFAULT_SAMPLE_LIMIT: usize = 20;

/// Largest drill-down page.
pub const MAX_SAMPLE_LIMIT: usize = 100;

/// Largest drill-down offset.
pub const MAX_SAMPLE_OFFSET: usize = 100_000;

/// The `Display` text of a `regex::Error`; nothing is promised of it.
#[verifier::external_body]
fn regex_error_text(e: &regex::Error) -> String {
    e.to_string()
}

/// The pieces of a comma-separated list, trimmed, without the empty ones.
pub open spec fn kept_pieces(pieces: Seq<Seq<char>>) -> Seq<Seq<char>>
    decreases pieces.len(),
{
    if pieces.len() == 0 {
        Seq::empty()
    } else {
        let prev = kept_pieces(pieces.drop_last());
        let t = trimmed(pieces.last());
        if t.len() > 0 {
            prev.push(t)
        } else {
            prev
        }
    }
}

/// The exclusion patterns of an `exclude` query parameter.
pub open spec fn exclude_list(exclude: Option<Seq<char>>) -> Seq<Seq<char>> {
    match exclude {
        Some(e) => kept_pieces(split_on(e, ',')),
        None => Seq::empty(),
    }
}

/// The patterns of a comma-separated `exclude` parameter.
pub fn exclude_patterns(exclude: Option<&str>) -> (r: Vec<String>)
    ensures
        texts(r@) == exclude_list(match exclude {
            Some(e) => Some(e@),
            None => None,
        }),
{
    let mut out: Vec<String> = Vec::new();
    let text = match exclude {
        Some(e) => e,
        None => {
            assert(texts(out@) =~= Seq::<Seq<char>>::empty());
            return out;
        },
    };
    let pieces = split_chars(&chars_of(text), ',');
    let ghost ps = split_on(text@, ',');
    let mut i: usize = 0;
    assert(ps.take(0) =~= Seq::<Seq<char>>::empty());
    assert(texts(out@) =~= kept_pieces(ps.take(0)));
    while i < pieces.len()
        invariant
            ps == split_on(text@, ','),
            pieces@.len() == ps.len(),
            forall|k: int| 0 <= k < pieces@.len() ==> #[trigger] pieces@[k]@ == ps[k],
            i <= pieces@.len(),
            texts(out@) == kept_pieces(ps.take(i as int)),
        decreases pieces@.len() - i,
    {
        assert(ps.take(i as int + 1).drop_last() =~= ps.take(i as int));
        assert(ps.take(i as int + 1).last() == ps[i as int]);
        let t = trim_chars(&pieces[i]);
        if t.len() > 0 {
            let ghost before = texts(out@);
            out.push(string_from_chars(&t));
            assert(texts(out@) =~= before.push(t@));
        }
        i += 1;
    }
    assert(ps.take(pieces@.len() as int) =~= ps);
    out
}

/// Rules hiding the `exclude` patterns for `endpoint`, for one read.
pub fn exclude_rules(endpoint: &str, exclude: Option<&str>) -> (r: Result<SuppressRules, AppError>)
    ensures
        ({
            let pats = exclude_list(match exclude {
                Some(e) => Some(e@),
                None => None,
            });
            &&& (r is Ok <==> rules_compile(pats))
            &&& r matches Ok(s) ==> s@ == if pats.len() == 0 {
                Map::<Seq<char>, Seq<Seq<char>>>::empty()
            } else {
                Map::<Seq<char>, Seq<Seq<char>>>::empty().insert(endpoint@, pats)
            }
            &&& r matches Err(e) ==> (e matches AppError::BadRequest(m)
                && m@.len() >= "invalid exclude pattern: "@.len()
                && m@.take("invalid exclude pattern: "@.len() as int) == "invalid exclude pattern: "@)
        }),
{
    let patterns = exclude_patterns(exclude);
    assert(patterns.deep_view() =~= texts(patterns@));
    match SuppressRules::for_endpoint(endpoint, &patterns) {
        Ok(s) => Ok(s),
        Err(e) => {
            let text = regex_error_text(&e);
            let m = concat("invalid exclude pattern: ", text.as_str());
            assert(m@.take("invalid exclude pattern: "@.len() as int) =~= "invalid exclude pattern: "@);
            Err(AppError::BadRequest(m))
        },
    }
}

/// One field path of an endpoint, with its counts and verdict.
pub struct PathSummary {
    pub path: String,
    pub raw_count: u64,
    pub noise_count: u64,
    pub is_regression: bool,
}

/// An endpoint's field paths, sorted, with how many regress.
pub struct EndpointPaths {
    pub endpoint: String,
    pub total: u64,
    pub regressions: usize,
    pub paths: Vec<PathSummary>,
    pub last_updated: Timestamp,
}

pub open spec fn summary_paths(s: Seq<PathSummary>) -> Seq<Seq<char>> {
    Seq::new(s.len(), |i: int| s[i].path@)
}

/// Number of summaries that regress.
pub open spec fn regressing(s: Seq<PathSummary>) -> nat
    decreases s.len(),
{
    if s.len() == 0 {
        0
    } else {
        regressing(s.drop_last()) + if s.last().is_regression { 1nat } else { 0nat }
    }
}

/// The summary of `counts`: every field path once, sorted, with its counts
/// and verdict, and the number of regressing paths.
pub fn endpoint_paths<F: Fn(&FieldCounts, u64) -> bool>(engine: &DiffEngine, counts: EndpointCounts, exceeds: &F) -> (r: EndpointPaths)
    requires
        forall|c: FieldCounts, t: u64| exceeds.requires((&c, t)),
    ensures
        r.endpoint@ == counts.endpoint@,
        r.total == counts.total,
        r.last_updated == counts.last_updated,
        texts_sorted(summary_paths(r.paths@)),
        summary_paths(r.paths@).to_multiset() == counts.fields.key_seq().to_multiset(),
        forall|i: int| 0 <= i < r.paths@.len() ==> {
            let p = #[trigger] r.paths@[i];
            &&& counts.fields.map().dom().contains(p.path@)
            &&& p.raw_count == counts.fields.map()[p.path@].raw_count
            &&& p.noise_count == counts.fields.map()[p.path@].noise_count
            &&& verdict(*exceeds, p.path@, counts.fields.map()[p.path@], counts.total, p.is_regression)
        },
        r.regressions == regressing(r.paths@),
{
    let all_keys = counts.fields.keys();
    assert(texts(all_keys@) =~= counts.fields.key_seq());
    let keys = sort_texts(all_keys);
    let mut paths: Vec<PathSummary> = Vec::new();
    let mut regressions: usize = 0;
    let mut i: usize = 0;
    assert(regressing(paths@) == 0);
    while i < keys.len()
        invariant
            forall|c: FieldCounts, t: u64| exceeds.requires((&c, t)),
            texts(keys@).to_multiset() == counts.fields.key_seq().to_multiset(),
            i <= keys@.len(),
            paths@.len() == i,
            forall|k: int| 0 <= k < i ==> #[trigger] paths@[k].path@ == keys@[k]@,
            forall|k: int| 0 <= k < i ==> {
                let p = #[trigger] paths@[k];
                &&& counts.fields.map().dom().contains(p.path@)
                &&& p.raw_count == counts.fields.map()[p.path@].raw_count
                &&& p.noise_count == counts.fields.map()[p.path@].noise_count
                &&& verdict(*exceeds, p.path@, counts.fields.map()[p.path@], counts.total, p.is_regression)
            },
            regressions == regressing(paths@),
            regressions <= i,
        decreases keys@.len() - i,
    {
        let key = &keys[i];
        proof {
            broadcast use vstd::seq_lib::group_to_multiset_ensures;
            assert(texts(keys@).contains(key@)) by {
                assert(texts(keys@)[i as int] == key@);
            }
            assert(counts.fields.key_seq().to_multiset().count(key@) > 0);
            assert(counts.fields.key_seq().contains(key@));
        }
        let _ = counts.fields.len();
        proof {
            let j = choose|j: int| 0 <= j < counts.fields.key_seq().len() && counts.fields.key_seq()[j] == key@;
            assert(counts.fields.entry_seq()[j].0 == key@);
        }
        let c = *counts.fields.get(key.as_str()).unwrap();
        let b = engine.is_regression(key.as_str(), &c, counts.total, exceeds);
        let ghost before = paths@;
        paths.push(PathSummary { path: key.clone(), raw_count: c.raw_count, noise_count: c.noise_count, is_regression: b });
        assert(paths@.drop_last() =~= before);
        if b {
            regressions += 1;
        }
        i += 1;
    }
    proof {
        assert(summary_paths(paths@) =~= texts(keys@));
    }
    EndpointPaths {
        endpoint: counts.endpoint,
        total: counts.total,
        regressions,
        paths,
        last_updated: counts.last_updated,
    }
}

/// `no diffs recorded for endpoint '<endpoint>'`.
pub open spec fn no_diffs_text(endpoint: Seq<char>) -> Seq<char> {
    "no diffs recorded for endpoint '"@ + endpoint + "'"@
}

fn no_diffs_message(endpoint: &str) -> (r: String)
    ensures
        r@ == no_diffs_text(endpoint@),
{
    let a = concat("no diffs recorded for endpoint '", endpoint);
    concat(a.as_str(), "'")
}

/// Whether `p` summarizes the samples `views` of `endpoint` under `rules` and
/// `extra`: every tallied field path once, sorted, with its counts and
/// verdict, the number that regress, the sample count and the latest time.
pub open spec fn summarizes<F: Fn(&FieldCounts, u64) -> bool>(
    p: EndpointPaths,
    endpoint: Seq<char>,
    views: Seq<SampleView>,
    rules: Map<Seq<char>, Seq<Seq<char>>>,
    extra: Map<Seq<char>, Seq<Seq<char>>>,
    exceeds: F,
) -> bool {
    let t = tally(all_diffs(endpoint, views, rules, extra));
    &&& p.endpoint@ == endpoint
    &&& p.total == views.len()
    &&& p.last_updated == latest(views)
    &&& forall|i: int| 0 <= i < p.paths@.len() ==> {
        let q = #[trigger] p.paths@[i];
        &&& t.dom().contains(q.path@)
        &&& q.raw_count == t[q.path@].raw_count
        &&& q.noise_count == t[q.path@].noise_count
        &&& verdict(exceeds, q.path@, t[q.path@], p.total, q.is_regression)
    }
    &&& forall|k: Seq<char>| #[trigger] t.dom().contains(k) ==> summary_paths(p.paths@).contains(k)
    &&& texts_sorted(summary_paths(p.paths@))
    &&& p.regressions == regressing(p.paths@)
}

/// The path summary of `endpoint` over its samples; not found when there
/// are none.
pub fn paths_for_endpoint<F: Fn(&FieldCounts, u64) -> bool>(
    engine: &DiffEngine,
    endpoint: &str,
    samples: &[RawSample],
    extra: &SuppressRules,
    exceeds: &F,
) -> (r: Result<EndpointPaths, AppError>)
    requires
        forall|c: FieldCounts, t: u64| exceeds.requires((&c, t)),
    ensures
        samples@.len() == 0 <==> r is Err,
        r matches Err(e) ==> e matches AppError::NotFound(m) && m@ == no_diffs_text(endpoint@),
        r matches Ok(p) ==> summarizes(p, endpoint@, sample_views(samples@), engine.rules_view(), extra@, *exceeds),
{
    match engine.aggregate(endpoint, samples, extra) {
        Some(counts) => {
            let _ = counts.fields.len();
            let ghost m = counts.fields.map();
            let ghost ks = counts.fields.key_seq();
            assert forall|k: Seq<char>| #[trigger] m.dom().contains(k) implies ks.contains(k) by {
                let j = choose|j: int| 0 <= j < counts.fields.entry_seq().len() && #[trigger] counts.fields.entry_seq()[j].0 == k;
                assert(ks[j] == k);
            }
            let p = endpoint_paths(engine, counts, exceeds);
            proof {
                broadcast use vstd::seq_lib::group_to_multiset_ensures;
                assert forall|k: Seq<char>| #[trigger] m.dom().contains(k) implies summary_paths(p.paths@).contains(k) by {
                    assert(ks.contains(k));
                    assert(ks.to_multiset().count(k) > 0);
                    assert(summary_paths(p.paths@).to_multiset().count(k) > 0);
                }
            }
            Ok(p)
        },
        None => Err(AppError::NotFound(no_diffs_message(endpoint))),
    }
}

/// The positions in `fetched` of the endpoints that have samples, in order.
pub open spec fn listed(fetched: Seq<(String, Vec<RawSample>)>) -> Seq<int>
    decreases fetched.len(),
{
    if fetched.len() == 0 {
        Seq::empty()
    } else {
        let prev = listed(fetched.drop_last());
        if fetched.last().1@.len() > 0 {
            prev.push(fetched.len() - 1)
        } else {
            prev
        }
    }
}

proof fn lemma_listed_bounds(fetched: Seq<(String, Vec<RawSample>)>)
    ensures
        forall|m: int| 0 <= m < listed(fetched).len() ==> 0 <= #[trigger] listed(fetched)[m] < fetched.len(),
    decreases fetched.len(),
{
    if fetched.len() > 0 {
        let prev = fetched.drop_last();
        lemma_listed_bounds(prev);
        assert forall|m: int| 0 <= m < listed(fetched).len() implies 0 <= #[trigger] listed(fetched)[m] < fetched.len() by {
            if m < listed(prev).len() {
                assert(listed(fetched)[m] == listed(prev)[m]);
            }
        }
    }
}

/// The summary of every endpoint that has samples, in the order given, under
/// the rules in force alone; `exceeds[i]` holds the thresholds of the
/// endpoint `fetched[i]`.
pub fn endpoints_overview<F: Fn(&FieldCounts, u64) -> bool>(
    engine: &DiffEngine,
    fetched: &[(String, Vec<RawSample>)],
    exceeds: &Vec<F>,
) -> (r: Vec<EndpointPaths>)
    requires
        exceeds@.len() == fetched@.len(),
        forall|i: int, c: FieldCounts, t: u64| 0 <= i < exceeds@.len() ==> #[trigger] exceeds@[i].requires((&c, t)),
    ensures
        r@.len() == listed(fetched@).len(),
        forall|i: int| 0 <= i < r@.len() ==> {
            let k = listed(fetched@)[i];
            &&& 0 <= k < fetched@.len()
            &&& summarizes(
                #[trigger] r@[i],
                fetched@[k].0@,
                sample_views(fetched@[k].1@),
                engine.rules_view(),
                Map::<Seq<char>, Seq<Seq<char>>>::empty(),
                exceeds@[k],
            )
        },
{
    let none = SuppressRules::new();
    let mut out: Vec<EndpointPaths> = Vec::new();
    let mut i: usize = 0;
    assert(fetched@.take(0) =~= Seq::<(String, Vec<RawSample>)>::empty());
    while i < fetched.len()
        invariant
            exceeds@.len() == fetched@.len(),
            forall|j: int, c: FieldCounts, t: u64| 0 <= j < exceeds@.len() ==> #[trigger] exceeds@[j].requires((&c, t)),
            none@ == Map::<Seq<char>, Seq<Seq<char>>>::empty(),
            i <= fetched@.len(),
            out@.len() == listed(fetched@.take(i as int)).len(),
            forall|m: int| 0 <= m < out@.len() ==> {
                let k = listed(fetched@.take(i as int))[m];
                &&& 0 <= k < i
                &&& summarizes(
                    #[trigger] out@[m],
                    fetched@[k].0@,
                    sample_views(fetched@[k].1@),
                    engine.rules_view(),
                    Map::<Seq<char>, Seq<Seq<char>>>::empty(),
                    exceeds@[k],
                )
            },
        decreases fetched@.len() - i,
    {
        let ghost before = listed(fetched@.take(i as int));
        assert(fetched@.take(i as int + 1).drop_last() =~= fetched@.take(i as int));
        assert(fetched@.take(i as int + 1).last() == fetched@[i as int]);
        proof {
            lemma_listed_bounds(fetched@.take(i as int));
        }
        let f = &exceeds[i];
        assert(forall|c: FieldCounts, t: u64| f.requires((&c, t))) by {
            assert forall|c: FieldCounts, t: u64| f.requires((&c, t)) by {
                assert(exceeds@[i as int].requires((&c, t)));
            }
        }
        match paths_for_endpoint(engine, fetched[i].0.as_str(), fetched[i].1.as_slice(), &none, f) {
            Ok(p) => {
                out.push(p);
                assert(listed(fetched@.take(i as int + 1)) == before.push(i as int));
            },
            Err(_) => {
                assert(listed(fetched@.take(i as int + 1)) == before);
            },
        }
        i += 1;
    }
    assert(fetched@.take(fetched@.len() as int) =~= fetched@);
    proof {
        lemma_listed_bounds(fetched@);
    }
    out
}

/// `no sample '<id>' for endpoint '<endpoint>'`.
pub open spec fn no_sample_text(endpoint: Seq<char>, id: Seq<char>) -> Seq<char> {
    "no sample '"@ + id + "' for endpoint '"@ + endpoint + "'"@
}

/// The sample a lookup of `id` under `endpoint` found, or not found.
pub fn found_sample(found: Option<RawSample>, endpoint: &str, id: &str) -> (r: Result<RawSample, AppError>)
    ensures
        found is Some ==> r == Ok::<RawSample, AppError>(found->0),
        found is None ==> (r matches Err(AppError::NotFound(m)) && m@ == no_sample_text(endpoint@, id@)),
{
    match found {
        Some(s) => Ok(s),
        None => {
            let a = concat("no sample '", id);
            let b = concat(a.as_str(), "' for endpoint '");
            let c = concat(b.as_str(), endpoint);
            Err(AppError::NotFound(concat(c.as_str(), "'")))
        },
    }
}

/// The page bounds of a drill-down: the limit defaults to 20 and is kept
/// within 1..=100; the offset defaults to 0 and is kept at most 100,000.
pub fn detail_window(limit: Option<usize>, offset: Option<usize>) -> (r: (usize, usize))
    ensures
        r.0 == match limit {
            Some(l) => if l < 1 { 1 } else if l > 100 { 100 } else { l },
            None => 20,
        },
        r.1 == match offset {
            Some(o) => if o > 100_000 { 100_000 } else { o },
            None => 0,
        },
{
    let l = match limit {
        Some(l) => l,
        None => DEFAULT_SAMPLE_LIMIT,
    };
    let l = if l < 1 { 1 } else if l > MAX_SAMPLE_LIMIT { MAX_SAMPLE_LIMIT } else { l };
    let o = match offset {
        Some(o) => o,
        None => 0,
    };
    let o = if o > MAX_SAMPLE_OFFSET { MAX_SAMPLE_OFFSET } else { o };
    (l, o)
}

/// `no diffs recorded for endpoint '<endpoint>' path '<path>'`.
pub open spec fn no_path_diffs_text(endpoint: Seq<char>, path: Seq<char>) -> Seq<char> {
    "no diffs recorded for endpoint '"@ + endpoint + "' path '"@ + path + "'"@
}

/// The drill-down into `path`: not found when the endpoint has no samples,
/// or when the first page shows nothing at the path.
pub fn detail_for<F: Fn(&FieldCounts, u64) -> bool>(
    engine: &DiffEngine,
    endpoint: &str,
    path: &str,
    samples: &[RawSample],
    extra: &SuppressRules,
    limit: usize,
    offset: usize,
    exceeds: &F,
) -> (r: Result<DiffDetail, AppError>)
    requires
        forall|c: FieldCounts, t: u64| exceeds.requires((&c, t)),
    ensures
        ({
            let views = sample_views(samples@);
            let d = all_diffs(endpoint@, views, engine.rules_view(), extra@);
            let m = matching(views, d, path@);
            &&& samples@.len() == 0 ==> (r matches Err(AppError::NotFound(msg)) && msg@ == no_diffs_text(endpoint@))
            &&& samples@.len() > 0 && raw_hits(d, path@) == 0 && noise_hits(d, path@) == 0 && offset == 0 && m.len() == 0
                ==> (r matches Err(AppError::NotFound(msg)) && msg@ == no_path_diffs_text(endpoint@, path@))
            &&& r matches Ok(x) ==> {
                &&& samples@.len() > 0
                &&& x.raw_count == raw_hits(d, path@)
                &&& x.noise_count == noise_hits(d, path@)
                &&& x.total == samples@.len()
                &&& x.samples.has_more == (m.len() > offset + limit)
                &&& diff_sample_views(x.samples.items@) == page(m, offset as int, limit as int)
                &&& verdict(*exceeds, path@, FieldCounts { raw_count: x.raw_count, noise_count: x.noise_count }, x.total, x.is_regression)
            }
            &&& r is Err ==> samples@.len() == 0 || (raw_hits(d, path@) == 0 && noise_hits(d, path@) == 0 && offset == 0 && page(m, 0, limit as int).len() == 0 && !(m.len() > limit))
        }),
{
    if samples.len() == 0 {
        return Err(AppError::NotFound(no_diffs_message(endpoint)));
    }
    let detail = engine.detail(endpoint, path, samples, extra, limit, offset, exceeds);
    if detail.raw_count == 0 && detail.noise_count == 0 && detail.samples.items.len() == 0 && !detail.samples.has_more
        && offset == 0 {
        let a = concat("no diffs recorded for endpoint '", endpoint);
        let b = concat(a.as_str(), "' path '");
        let c = concat(b.as_str(), path);
        return Err(AppError::NotFound(concat(c.as_str(), "'")));
    }
    proof {
        let views = sample_views(samples@);
        let d = all_diffs(endpoint@, views, engine.rules_view(), extra@);
        let m = matching(views, d, path@);
        if raw_hits(d, path@) == 0 && noise_hits(d, path@) == 0 && offset == 0 && m.len() == 0 {
            assert(page(m, offset as int, limit as int).len() == 0);
        }
    }
    Ok(detail)
}

/// `no statistics recorded for endpoint '<endpoint>'`.
pub open spec fn no_stats_text(endpoint: Seq<char>) -> Seq<char> {
    "no statistics recorded for endpoint '"@ + endpoint + "'"@
}

/// Whether `endpoint` may be reset: it must be among the recorded endpoints.
pub fn reset_check(endpoints: &Vec<String>, endpoint: &str) -> (r: Result<(), AppError>)
    ensures
        r is Ok <==> texts(endpoints@).contains(endpoint@),
        r matches Err(e) ==> e matches AppError::NotFound(m) && m@ == no_stats_text(endpoint@),
{
    let mut i: usize = 0;
    while i < endpoints.len()
        invariant
            i <= endpoints@.len(),
            forall|k: int| 0 <= k < i ==> endpoints@[k]@ != endpoint@,
        decreases endpoints@.len() - i,
    {
        if crate::text::str_eq(endpoints[i].as_str(), endpoint) {
            assert(texts(endpoints@)[i as int] == endpoint@);
            return Ok(());
        }
        i += 1;
    }
    assert(!texts(endpoints@).contains(endpoint@)) by {
        if texts(endpoints@).contains(endpoint@) {
            let k = choose|k: int| 0 <= k < texts(endpoints@).len() && texts(endpoints@)[k] == endpoint@;
            assert(endpoints@[k]@ == endpoint@);
        }
    }
    let a = concat("no statistics recorded for endpoint '", endpoint);
    Err(AppError::NotFound(concat(a.as_str(), "'")))
}

/// Sets `endpoint`'s suppression rules; a pattern that does not compile is
/// a bad request and leaves the rules as they were.
pub fn update_suppress(engine: &mut DiffEngine, endpoint: &str, paths: Vec<String>) -> (r: Result<(), AppError>)
    ensures
        r is Ok <==> rules_compile(paths.deep_view()),
        r is Ok ==> final(engine).rules_view() == if paths@.len() == 0 {
            old(engine).rules_view().remove(endpoint@)
        } else {
            old(engine).rules_view().insert(endpoint@, paths.deep_view())
        },
        r is Err ==> final(engine).rules_view() == old(engine).rules_view(),
        r matches Err(e) ==> (e matches AppError::BadRequest(m)
            && m@.len() >= "invalid suppress pattern: "@.len()
            && m@.take("invalid suppress pattern: "@.len() as int) == "invalid suppress pattern: "@),
{
    match engine.set_suppress(endpoint, paths) {
        Ok(()) => Ok(()),
        Err(e) => {
            let text = regex_error_text(&e);
            let m = concat("invalid suppress pattern: ", text.as_str());
            assert(m@.take("invalid suppress pattern: "@.len() as int) =~= "invalid suppress pattern: "@);
            Err(AppError::BadRequest(m))
        },
    }
}

/// The base URL of an upstream: the address as given when it names a
/// scheme, otherwise over plain HTTP.
pub open spec fn base_url(addr: Seq<char>) -> Seq<char> {
    if exists|i: int| 0 <= i && i + 3 <= addr.len() && #[trigger] addr.subrange(i, i + 3) == "://"@ {
        addr
    } else {
        "http://"@ + addr
    }
}

pub fn normalize_base(addr: &str) -> (r: String)
    ensures
        r@ == base_url(addr@),
{
    let cs = chars_of(addr);
    let mut i: usize = 0;
    proof {
        reveal_strlit("://");
    }
    while i < cs.len() && cs.len() - i >= 3
        invariant
            cs@ == addr@,
            i <= cs@.len(),
            forall|k: int| 0 <= k < i && k + 3 <= cs@.len() ==> #[trigger] cs@.subrange(k, k + 3) != "://"@,
            "://"@ == seq![':', '/', '/'],
        decreases cs@.len() - i,
    {
        if cs[i] == ':' && cs[i + 1] == '/' && cs[i + 2] == '/' {
            assert(cs@.subrange(i as int, i as int + 3) =~= "://"@);
            return addr.to_string();
        }
        assert(cs@.subrange(i as int, i as int + 3) != "://"@) by {
            if cs@.subrange(i as int, i as int + 3) == "://"@ {
                assert(cs@.subrange(i as int, i as int + 3)[0] == cs@[i as int]);
                assert(cs@.subrange(i as int, i as int + 3)[1] == cs@[i as int + 1]);
                assert(cs@.subrange(i as int, i as int + 3)[2] == cs@[i as int + 2]);
            }
        }
        i += 1;
    }
    assert forall|k: int| 0 <= k && k + 3 <= cs@.len() implies #[trigger] cs@.subrange(k, k + 3) != "://"@ by {
        assert(k < i);
    }
    concat("http://", addr)
}

/// The base URLs of the three upstreams.
pub struct UpstreamTargets {
    pub baseline: String,
    pub candidate: String,
    pub control: String,
}

impl UpstreamTargets {
    pub fn from_addresses(baseline: &str, candidate: &str, control: &str) -> (r: UpstreamTargets)
        ensures
            r.baseline@ == base_url(baseline@),
            r.candidate@ == base_url(candidate@),
            r.control@ == base_url(control@),
    {
        UpstreamTargets {
            baseline: normalize_base(baseline),
            candidate: normalize_base(candidate),
            control: normalize_base(control),
        }
    }
}

/// Query of the path listing.
pub struct PathsQuery {
    pub endpoint: Option<String>,
    pub exclude: Option<String>,
}

/// Query of the drill-down into one path.
pub struct DetailQuery {
    pub endpoint: String,
    pub path: String,
    pub limit: Option<usize>,
    pub offset: Option<usize>,
    pub exclude: Option<String>,
}

/// Query of one sample.
pub struct SampleQuery {
    pub endpoint: String,
    pub id: String,
}

/// Query of a statistics reset.
pub struct ResetQuery {
    pub endpoint: String,
}

/// Query of the suppression listing.
pub struct SuppressQuery {
    pub endpoint: Option<String>,
}

/// Query naming the endpoint whose suppression rules change.
pub struct SuppressEndpointQuery {
    pub endpoint: String,
}

/// The suppression patterns to set.
pub struct SuppressBody {
    pub paths: Vec<String>,
}

/// One endpoint's suppression patterns.
pub struct EndpointSuppress {
    pub endpoint: String,
    pub paths: Vec<String>,
}

/// The JSON a stored text is shown as: its parsed value, or the text itself
/// as a string when it is not JSON.
pub open spec fn body_json(text: Seq<char>) -> Json {
    match parsed_json(text) {
        Some(v) => v,
        None => Json::Str(text),
    }
}

pub fn parse_body(text: &str) -> (r: JsonValue)
    ensures
        r@ == body_json(text@),
{
    match parse_json(text) {
        Some(v) => v,
        None => JsonValue::Str(text.to_string()),
    }
}

/// The text `serde` writes for an instant (`to_rfc3339_opts` with
/// automatic sub-second digits and `Z`), or `None` for an instant that
/// `chrono` cannot represent.
pub uninterp spec fn json_time_text(t: Timestamp) -> Option<Seq<char>>;

/// Renders `t` as `chrono`'s serde form of a UTC date-time.
#[verifier::external_body]
fn json_time(t: Timestamp) -> (r: Option<String>)
    ensures
        match r {
            Some(s) => json_time_text(t) == Some(s@),
            None => json_time_text(t) is None,
        },
{
    chrono::DateTime::<chrono::Utc>::from_timestamp(t.secs, t.nanos)
        .map(|d| d.to_rfc3339_opts(chrono::SecondsFormat::AutoSi, true))
}

pub open spec fn opt_member(name: Seq<char>, v: Option<Json>) -> Seq<(Seq<char>, Json)> {
    match v {
        Some(j) => seq![(name, j)],
        None => Seq::empty(),
    }
}

/// One upstream's answer as shown: status, body and headers, each only
/// when present.
pub open spec fn response_json(status: Option<u16>, body: Option<Seq<char>>, headers: Option<Seq<char>>) -> Json {
    Json::Object(
        opt_member("status"@, match status { Some(v) => Some(Json::Number(crate::text::decimal(v as nat))), None => None })
            + opt_member("body"@, match body { Some(t) => Some(body_json(t)), None => None })
            + opt_member("headers"@, match headers { Some(t) => Some(body_json(t)), None => None }),
    )
}

fn push_member(members: &mut Vec<(String, JsonValue)>, name: &str, v: Option<JsonValue>)
    ensures
        crate::json::member_views(final(members)@) == crate::json::member_views(old(members)@) + opt_member(name@, match v {
            Some(j) => Some(j@),
            None => None,
        }),
{
    let ghost before = crate::json::member_views(members@);
    match v {
        Some(j) => {
            let ghost jv = j@;
            members.push((name.to_string(), j));
            assert(crate::json::member_views(members@) =~= before.push((name@, jv)));
        },
        None => {},
    }
    assert(crate::json::member_views(members@) =~= before + opt_member(name@, match v {
        Some(j) => Some(j@),
        None => None,
    }));
}

pub fn response_view(status: Option<u16>, body: Option<&str>, headers: Option<&str>) -> (r: JsonValue)
    ensures
        r@ == response_json(status, match body { Some(t) => Some(t@), None => None }, match headers { Some(t) => Some(t@), None => None }),
{
    let mut members: Vec<(String, JsonValue)> = Vec::new();
    assert(crate::json::member_views(members@) =~= Seq::<(Seq<char>, Json)>::empty());
    push_member(&mut members, "status", match status { Some(v) => Some(JsonValue::from_u16(v)), None => None });
    push_member(&mut members, "body", match body { Some(t) => Some(parse_body(t)), None => None });
    push_member(&mut members, "headers", match headers { Some(t) => Some(parse_body(t)), None => None });
    let ghost mv = crate::json::member_views(members@);
    let r = JsonValue::Object(members);
    assert(r@->Object_0 =~= mv);
    r
}

/// The JSON view of a stored sample; `None` when its timestamp cannot be
/// rendered.
pub open spec fn sample_json_of(s: SampleView) -> Option<Json> {
    match json_time_text(s.timestamp) {
        None => None,
        Some(ts) => Some(Json::Object(seq![
            ("id"@, Json::Str(s.id)),
            ("endpoint"@, Json::Str(s.endpoint)),
            ("timestamp"@, Json::Str(ts)),
            ("request_curl"@, match s.request_curl { Some(c) => Json::Str(c), None => Json::Null }),
            ("baseline"@, response_json(Some(s.baseline_status), Some(s.baseline_body), Some(s.baseline_headers))),
            ("candidate"@, response_json(s.candidate.status, s.candidate.body, s.candidate.headers)),
            ("control"@, response_json(s.control.status, s.control.body, s.control.headers)),
        ])),
    }
}

fn opt_str(o: &Option<String>) -> (r: Option<&str>)
    ensures
        match r { Some(t) => Some(t@), None => None::<Seq<char>> } == crate::sample::text_opt(*o),
{
    match o {
        Some(s) => Some(s.as_str()),
        None => None,
    }
}

pub fn sample_view(sample: &RawSample) -> (r: Option<JsonValue>)
    ensures
        match r {
            Some(j) => sample_json_of(sample@) == Some(j@),
            None => sample_json_of(sample@) is None,
        },
{
    let ts = json_time(sample.timestamp)?;
    let mut members: Vec<(String, JsonValue)> = Vec::new();
    members.push(("id".to_string(), JsonValue::Str(sample.id.clone())));
    members.push(("endpoint".to_string(), JsonValue::Str(sample.endpoint.clone())));
    members.push(("timestamp".to_string(), JsonValue::Str(ts)));
    members.push(("request_curl".to_string(), match &sample.request_curl {
        Some(c) => JsonValue::Str(c.clone()),
        None => JsonValue::Null,
    }));
    members.push(("baseline".to_string(), response_view(
        Some(sample.baseline_status),
        Some(sample.baseline_body.as_str()),
        Some(sample.baseline_headers.as_str()),
    )));
    members.push(("candidate".to_string(), response_view(
        sample.candidate_status,
        opt_str(&sample.candidate_body),
        opt_str(&sample.candidate_headers),
    )));
    members.push(("control".to_string(), response_view(
        sample.control_status,
        opt_str(&sample.control_body),
        opt_str(&sample.control_headers),
    )));
    let ghost mv = crate::json::member_views(members@);
    let r = JsonValue::Object(members);
    assert(r@->Object_0 =~= mv);
    assert(mv =~= sample_json_of(sample@)->0->Object_0);
    Some(r)
}

} // verus!
