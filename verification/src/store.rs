//! An in-memory sample store: per endpoint, the most recent samples up to a
//! cap, oldest dropped first; reads return the samples of a time window,
//! newest first.
use vstd::prelude::*;
use std::collections::VecDeque;
use crate::keyed::TextMap;
use crate::sample::{RawSample, SampleView, SideView, Timestamp, now, sample_views};
use crate::text::{decimal, decimal_string};

verus! {

broadcast use vstd::std_specs::vec::group_vec_axioms;

/// The window, in seconds, that samples are read from by default.
pub const DEFAULT_WINDOW_SECS: u64 = 3600;

/// Whole seconds elapsed from `then` to `now`, rounded toward zero.
pub open spec fn whole_seconds(now: Timestamp, then: Timestamp) -> int {
    let age = (now.secs - then.secs) * 1_000_000_000 + (now.nanos - then.nanos);
    if age >= 0 {
        age / 1_000_000_000
    } else {
        -((-age) / 1_000_000_000)
    }
}

/// Whether a sample recorded at `then` is still within a window of
/// `window_secs` seconds at `now`.
pub open spec fn within_window(now: Timestamp, then: Timestamp, window_secs: u64) -> bool {
    whole_seconds(now, then) <= (window_secs as i64)
}

/// The samples of `s` within the window, newest first.
pub open spec fn recent(s: Seq<SampleView>, now: Timestamp, window_secs: u64) -> Seq<SampleView>
    decreases s.len(),
{
    if s.len() == 0 {
        Seq::empty()
    } else {
        let tail = recent(s.drop_last(), now, window_secs);
        if within_window(now, s.last().timestamp, window_secs) {
            seq![s.last()] + tail
        } else {
            tail
        }
    }
}

/// The last `cap` samples of `s` (all of them when there are fewer).
pub open spec fn keep_last(s: Seq<SampleView>, cap: nat) -> Seq<SampleView> {
    if s.len() > cap {
        s.skip(s.len() - cap)
    } else {
        s
    }
}

/// `s` with its id replaced.
pub open spec fn with_id(s: SampleView, id: Seq<char>) -> SampleView {
    SampleView {
        id,
        endpoint: s.endpoint,
        timestamp: s.timestamp,
        baseline_status: s.baseline_status,
        baseline_body: s.baseline_body,
        baseline_headers: s.baseline_headers,
        candidate: s.candidate,
        control: s.control,
        request_curl: s.request_curl,
    }
}

pub struct InMemorySampleStore {
    endpoints: TextMap<VecDeque<RawSample>>,
    cap: usize,
    window_secs: u64,
    next_id: u64,
}

impl InMemorySampleStore {
    #[verifier::type_invariant]
    closed spec fn inv(self) -> bool {
        self.cap >= 1 && self.window_secs >= 1
    }

    /// The samples held per endpoint, oldest first.
    pub closed spec fn log(&self) -> Map<Seq<char>, Seq<SampleView>> {
        Map::new(
            |k: Seq<char>| self.endpoints.map().dom().contains(k),
            |k: Seq<char>| sample_views(self.endpoints.map()[k]@),
        )
    }

    /// Most samples kept per endpoint.
    pub closed spec fn cap(&self) -> nat {
        self.cap as nat
    }

    /// The read window in seconds.
    pub closed spec fn window(&self) -> u64 {
        self.window_secs
    }

    /// The id the next stored sample gets.
    pub closed spec fn next_id(&self) -> u64 {
        self.next_id
    }

    /// A store with no cap and the default window.
    pub fn new() -> (r: InMemorySampleStore)
        ensures
            r.log() == Map::<Seq<char>, Seq<SampleView>>::empty(),
            r.cap() == usize::MAX,
            r.window() == DEFAULT_WINDOW_SECS,
            r.next_id() == 0,
    {
        InMemorySampleStore::with_capacity(usize::MAX)
    }

    /// A store keeping at most `cap` samples per endpoint (at least one),
    /// read over the default window.
    pub fn with_capacity(cap: usize) -> (r: InMemorySampleStore)
        ensures
            r.log() == Map::<Seq<char>, Seq<SampleView>>::empty(),
            r.cap() == if cap >= 1 { cap as nat } else { 1 },
            r.window() == DEFAULT_WINDOW_SECS,
            r.next_id() == 0,
    {
        InMemorySampleStore::with_retention(cap, DEFAULT_WINDOW_SECS)
    }

    /// A store keeping at most `cap` samples per endpoint and reading those of
    /// the last `window_secs` seconds (both at least one).
    pub fn with_retention(cap: usize, window_secs: u64) -> (r: InMemorySampleStore)
        ensures
            r.log() == Map::<Seq<char>, Seq<SampleView>>::empty(),
            r.cap() == if cap >= 1 { cap as nat } else { 1 },
            r.window() == if window_secs >= 1 { window_secs } else { 1 },
            r.next_id() == 0,
    {
        let r = InMemorySampleStore {
            endpoints: TextMap::new(),
            cap: if cap >= 1 { cap } else { 1 },
            window_secs: if window_secs >= 1 { window_secs } else { 1 },
            next_id: 0,
        };
        assert(r.log() =~= Map::<Seq<char>, Seq<SampleView>>::empty());
        r
    }

    /// Stores a copy of `sample` under its endpoint with the next id (the
    /// decimal text of a counter), dropping the oldest samples past the cap.
    pub fn append_sample(&mut self, sample: &RawSample)
        ensures
            final(self).log() == old(self).log().insert(sample.endpoint@, keep_last(
                (if old(self).log().dom().contains(sample.endpoint@) {
                    old(self).log()[sample.endpoint@]
                } else {
                    Seq::empty()
                }).push(with_id(sample@, decimal(old(self).next_id() as nat))),
                old(self).cap(),
            )),
            final(self).next_id() == (if old(self).next_id() == u64::MAX { 0 } else { (old(self).next_id() + 1) as u64 }),
            final(self).cap() == old(self).cap(),
            final(self).window() == old(self).window(),
    {
        proof {
            use_type_invariant(&*self);
        }
        let id = self.next_id;
        self.next_id = id.wrapping_add(1);
        let mut stored = sample.duplicate();
        stored.id = decimal_string(id);
        let ghost stored_view = stored@;
        assert(stored_view == with_id(sample@, decimal(id as nat)));
        let mut endpoints = TextMap::new();
        std::mem::swap(&mut endpoints, &mut self.endpoints);
        let mut samples = match endpoints.replace(sample.endpoint.clone(), VecDeque::new()) {
            Some(v) => v,
            None => VecDeque::new(),
        };
        let ghost before = sample_views(samples@);
        samples.push_back(stored);
        assert(sample_views(samples@) =~= before.push(stored_view));
        let ghost full = sample_views(samples@);
        while samples.len() > self.cap
            invariant
                self.cap >= 1,
                samples@.len() <= full.len(),
                samples@.len() >= self.cap || samples@.len() == full.len(),
                sample_views(samples@) == full.skip(full.len() - samples@.len()),
            decreases samples@.len(),
        {
            let ghost pre = sample_views(samples@);
            let _ = samples.pop_front();
            assert(sample_views(samples@) =~= pre.subrange(1, pre.len() as int));
            assert(sample_views(samples@) =~= full.skip(full.len() - samples@.len()));
        }
        proof {
            if full.len() <= self.cap {
                assert(full.skip(0) =~= full);
            }
            assert(sample_views(samples@) =~= keep_last(full, self.cap as nat));
        }
        endpoints.insert(sample.endpoint.clone(), samples);
        self.endpoints = endpoints;
        proof {
            assert(self.log() =~= old(self).log().insert(sample.endpoint@, keep_last(full, self.cap as nat)));
            if old(self).log().dom().contains(sample.endpoint@) {
                assert(before == old(self).log()[sample.endpoint@]);
            } else {
                assert(before =~= Seq::<SampleView>::empty());
            }
        }
    }

    /// The endpoint's samples within the window at `now`, newest first.
    pub fn fetch_samples_at(&self, endpoint: &str, now: Timestamp) -> (r: Vec<RawSample>)
        ensures
            sample_views(r@) == if self.log().dom().contains(endpoint@) {
                recent(self.log()[endpoint@], now, self.window())
            } else {
                Seq::empty()
            },
    {
        let samples = match self.endpoints.get(endpoint) {
            Some(s) => s,
            None => {
                let r: Vec<RawSample> = Vec::new();
                assert(sample_views(r@) =~= Seq::<SampleView>::empty());
                return r;
            },
        };
        let ghost all = sample_views(samples@);
        let mut out: Vec<RawSample> = Vec::new();
        let mut j: usize = samples.len();
        assert(all.take(j as int) =~= all);
        assert(sample_views(out@) + recent(all.take(j as int), now, self.window_secs) =~= recent(all, now, self.window_secs));
        while j > 0
            invariant
                all == sample_views(samples@),
                j <= samples@.len(),
                sample_views(out@) + recent(all.take(j as int), now, self.window_secs) == recent(all, now, self.window_secs),
            decreases j,
        {
            j -= 1;
            let ghost before = sample_views(out@);
            let t = samples[j].timestamp;
            assert(all.take(j as int + 1).drop_last() =~= all.take(j as int));
            assert(all.take(j as int + 1).last() == all[j as int]);
            if sample_within(now, t, self.window_secs) {
                out.push(samples[j].duplicate());
                assert(sample_views(out@) =~= before.push(all[j as int]));
                assert(sample_views(out@) + recent(all.take(j as int), now, self.window_secs)
                    =~= before + (seq![all[j as int]] + recent(all.take(j as int), now, self.window_secs)));
            }
        }
        assert(all.take(0) =~= Seq::<SampleView>::empty());
        assert(sample_views(out@) + Seq::<SampleView>::empty() =~= sample_views(out@));
        out
    }

    /// The endpoint's samples within the window, newest first, as of the
    /// current time.
    pub fn fetch_samples(&self, endpoint: &str) -> (r: Vec<RawSample>)
        ensures
            self.log().dom().contains(endpoint@) ==> exists|t: Timestamp|
                sample_views(r@) == #[trigger] recent(self.log()[endpoint@], t, self.window()),
            !self.log().dom().contains(endpoint@) ==> r@.len() == 0,
    {
        let t = now();
        let r = self.fetch_samples_at(endpoint, t);
        if !self.endpoints.contains_key(endpoint) {
            assert(sample_views(r@).len() == 0);
        }
        r
    }

    /// The first stored sample of `endpoint` whose id is `id`.
    pub fn get_sample(&self, endpoint: &str, id: &str) -> (r: Option<RawSample>)
        ensures
            match r {
                Some(x) => self.log().dom().contains(endpoint@) && exists|i: int|
                    0 <= i < self.log()[endpoint@].len()
                    && #[trigger] self.log()[endpoint@][i] == x@
                    && x@.id == id@
                    && forall|j: int| 0 <= j < i ==> self.log()[endpoint@][j].id != id@,
                None => !self.log().dom().contains(endpoint@) || forall|i: int| 0 <= i < self.log()[endpoint@].len()
                    ==> #[trigger] self.log()[endpoint@][i].id != id@,
            },
    {
        let samples = match self.endpoints.get(endpoint) {
            Some(s) => s,
            None => {
                return None;
            },
        };
        let ghost all = sample_views(samples@);
        let mut i: usize = 0;
        while i < samples.len()
            invariant
                all == sample_views(samples@),
                self.endpoints.map().dom().contains(endpoint@),
                self.endpoints.map()[endpoint@] == *samples,
                i <= samples@.len(),
                forall|j: int| 0 <= j < i ==> all[j].id != id@,
            decreases samples@.len() - i,
        {
            if crate::text::str_eq(samples[i].id.as_str(), id) {
                let found = samples[i].duplicate();
                assert(all[i as int] == found@);
                assert(self.log()[endpoint@] == all);
                assert(self.log()[endpoint@][i as int] == found@);
                return Some(found);
            }
            i += 1;
        }
        None
    }

    /// The endpoints that hold samples, each once.
    pub fn list_endpoints(&self) -> (r: Vec<String>)
        ensures
            forall|i: int| 0 <= i < r@.len() ==> self.log().dom().contains(#[trigger] r@[i]@),
            forall|k: Seq<char>| #[trigger] self.log().dom().contains(k) ==> exists|i: int| 0 <= i < r@.len() && r@[i]@ == k,
            forall|i: int, j: int| 0 <= i < r@.len() && 0 <= j < r@.len() && i != j ==> r@[i]@ != r@[j]@,
    {
        let _ = self.endpoints.len();
        let r = self.endpoints.keys();
        proof {
            assert forall|k: Seq<char>| #[trigger] self.log().dom().contains(k) implies exists|i: int| 0 <= i < r@.len() && r@[i]@ == k by {
                let i = choose|i: int| 0 <= i < self.endpoints.entry_seq().len() && #[trigger] self.endpoints.entry_seq()[i].0 == k;
                assert(r@[i]@ == k);
            }
            assert forall|i: int, j: int| 0 <= i < r@.len() && 0 <= j < r@.len() && i != j implies r@[i]@ != r@[j]@ by {
                assert(r@[i]@ == self.endpoints.entry_seq()[i].0);
                assert(r@[j]@ == self.endpoints.entry_seq()[j].0);
            }
        }
        r
    }

    /// Drops every sample of `endpoint`.
    pub fn delete_endpoint(&mut self, endpoint: &str)
        ensures
            final(self).log() == old(self).log().remove(endpoint@),
            final(self).cap() == old(self).cap(),
            final(self).window() == old(self).window(),
            final(self).next_id() == old(self).next_id(),
    {
        proof {
            use_type_invariant(&*self);
        }
        let mut endpoints = TextMap::new();
        std::mem::swap(&mut endpoints, &mut self.endpoints);
        endpoints.remove(endpoint);
        self.endpoints = endpoints;
        assert(self.log() =~= old(self).log().remove(endpoint@));
    }
}

/// Whether a sample recorded at `then` is within `window_secs` at `now`:
/// the whole seconds elapsed, rounded toward zero, are at most the window.
pub fn sample_within(now: Timestamp, then: Timestamp, window_secs: u64) -> (b: bool)
    ensures
        b == within_window(now, then, window_secs),
{
    let age: i128 = (now.secs as i128 - then.secs as i128) * 1_000_000_000 + (now.nanos as i128 - then.nanos as i128);
    let whole: i128 = if age >= 0 {
        age / 1_000_000_000
    } else {
        -((-age) / 1_000_000_000)
    };
    let limit = window_secs as i64;
    whole <= limit as i128
}

} // verus!

verus! {

/// Trimming to the cap keeps at most `cap` samples, and keeps the newest.
pub proof fn lemma_cap_respected(s: Seq<SampleView>, cap: nat)
    requires
        cap >= 1,
    ensures
        keep_last(s, cap).len() <= cap,
        keep_last(s, cap).len() == if s.len() > cap { cap } else { s.len() },
        s.len() > 0 ==> keep_last(s, cap).last() == s.last(),
{
}

/// A sample stored within the window is read back first; one outside the
/// window is not read back at all.
pub proof fn lemma_newest_read_first(s: Seq<SampleView>, x: SampleView, now: Timestamp, window_secs: u64)
    ensures
        within_window(now, x.timestamp, window_secs) ==> recent(s.push(x), now, window_secs) == seq![x] + recent(s, now, window_secs),
        !within_window(now, x.timestamp, window_secs) ==> recent(s.push(x), now, window_secs) == recent(s, now, window_secs),
{
    assert(s.push(x).drop_last() =~= s);
}

/// A read gives back what was just written: after a sample is appended
/// under an endpoint, a read of that endpoint at a time that still has the
/// sample within the window returns it first, and then what the same read
/// would have returned of the samples kept before it.
pub proof fn lemma_read_gives_back_write(prev: Seq<SampleView>, x: SampleView, cap: nat, now: Timestamp, window_secs: u64)
    requires
        cap >= 1,
        within_window(now, x.timestamp, window_secs),
    ensures
        recent(keep_last(prev.push(x), cap), now, window_secs).len() > 0,
        recent(keep_last(prev.push(x), cap), now, window_secs)[0] == x,
        recent(keep_last(prev.push(x), cap), now, window_secs) == seq![x] + recent(
            keep_last(prev.push(x), cap).drop_last(),
            now,
            window_secs,
        ),
{
    let kept = keep_last(prev.push(x), cap);
    assert(kept.len() > 0);
    assert(kept.last() == x);
    assert(kept =~= kept.drop_last().push(x));
    lemma_newest_read_first(kept.drop_last(), x, now, window_secs);
}

/// Every sample read back lies within the window, and no more samples are
/// read back than are stored.
pub proof fn lemma_recent_within_window(s: Seq<SampleView>, now: Timestamp, window_secs: u64)
    ensures
        forall|i: int| 0 <= i < recent(s, now, window_secs).len() ==> within_window(now, #[trigger] recent(s, now, window_secs)[i].timestamp, window_secs),
        recent(s, now, window_secs).len() <= s.len(),
    decreases s.len(),
{
    if s.len() > 0 {
        lemma_recent_within_window(s.drop_last(), now, window_secs);
        let tail = recent(s.drop_last(), now, window_secs);
        if within_window(now, s.last().timestamp, window_secs) {
            assert forall|i: int| 0 <= i < recent(s, now, window_secs).len() implies within_window(now, #[trigger] recent(s, now, window_secs)[i].timestamp, window_secs) by {
                if i > 0 {
                    assert(recent(s, now, window_secs)[i] == tail[i - 1]);
                }
            }
        }
    }
}

/// A sample recorded at the moment of reading is within any window that
/// fits a signed 64-bit count of seconds.
pub proof fn lemma_fresh_sample_within_window(t: Timestamp, window_secs: u64)
    requires
        window_secs <= i64::MAX,
    ensures
        within_window(t, t, window_secs),
{
}

} // verus!
