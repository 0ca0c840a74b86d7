//! A map from text keys to values, held as a vector of entries in which
//! each key occurs once; entries keep the order in which keys arrived.
use vstd::prelude::*;
use crate::maps::{entries_map, keys_unique, lemma_entries_map_dom, lemma_entries_map_finite, lemma_entries_map_push, lemma_entries_map_update, lemma_entries_map_value};

verus! {

broadcast use vstd::std_specs::vec::group_vec_axioms;

pub struct TextMap<V> {
    entries: Vec<(String, V)>,
}

pub proof fn lemma_unique_len<V>(s: Seq<(Seq<char>, V)>)
    requires
        keys_unique(s),
    ensures
        entries_map(s).dom().len() == s.len(),
        entries_map(s).dom().finite(),
    decreases s.len(),
{
    lemma_entries_map_finite(s);
    if s.len() > 0 {
        let p = s.drop_last();
        assert(keys_unique(p));
        lemma_unique_len(p);
        lemma_entries_map_dom(p, s.last().0);
        assert(!entries_map(p).dom().contains(s.last().0)) by {
            if entries_map(p).dom().contains(s.last().0) {
                let i = choose|i: int| 0 <= i < p.len() && p[i].0 == s.last().0;
                assert(s[i].0 == s[s.len() - 1].0);
            }
        }
    }
}

impl<V> TextMap<V> {
    /// The entries as (key text, value) pairs, in storage order.
    pub closed spec fn entry_seq(&self) -> Seq<(Seq<char>, V)> {
        Seq::new(self.entries@.len(), |i: int| (self.entries@[i].0@, self.entries@[i].1))
    }

    #[verifier::type_invariant]
    closed spec fn inv(self) -> bool {
        keys_unique(self.entry_seq())
    }

    /// The keys, in storage order.
    pub open spec fn key_seq(&self) -> Seq<Seq<char>> {
        Seq::new(self.entry_seq().len(), |i: int| self.entry_seq()[i].0)
    }

    /// The map held.
    pub closed spec fn map(&self) -> Map<Seq<char>, V> {
        entries_map(self.entry_seq())
    }

    /// Ties the map to its entries.
    fn facts(&self)
        ensures
            self.map() == entries_map(self.entry_seq()),
            keys_unique(self.entry_seq()),
            self.map().dom().finite(),
            self.map().dom().len() == self.entry_seq().len(),
            forall|i: int| 0 <= i < self.entry_seq().len() ==> self.map().dom().contains(#[trigger] self.entry_seq()[i].0)
                && self.map()[self.entry_seq()[i].0] == self.entry_seq()[i].1,
            forall|k: Seq<char>| self.map().dom().contains(k) ==> exists|i: int| 0 <= i < self.entry_seq().len() && #[trigger] self.entry_seq()[i].0 == k,
    {
        proof {
            use_type_invariant(self);
            lemma_unique_len(self.entry_seq());
            assert forall|i: int| 0 <= i < self.entry_seq().len() implies self.map().dom().contains(#[trigger] self.entry_seq()[i].0)
                && self.map()[self.entry_seq()[i].0] == self.entry_seq()[i].1 by {
                lemma_entries_map_value(self.entry_seq(), i);
            }
            assert forall|k: Seq<char>| self.map().dom().contains(k) implies exists|i: int| 0 <= i < self.entry_seq().len() && #[trigger] self.entry_seq()[i].0 == k by {
                lemma_entries_map_dom(self.entry_seq(), k);
            }
        }
    }

    /// An empty map.
    pub fn new() -> (r: TextMap<V>)
        ensures
            r.map() == Map::<Seq<char>, V>::empty(),
            r.entry_seq() == Seq::<(Seq<char>, V)>::empty(),
    {
        let r = TextMap { entries: Vec::new() };
        assert(r.entry_seq() =~= Seq::<(Seq<char>, V)>::empty());
        r
    }

    /// Number of keys; also ties the map to its entries.
    pub fn len(&self) -> (n: usize)
        ensures
            n == self.map().dom().len(),
            n == self.entry_seq().len(),
            self.map() == entries_map(self.entry_seq()),
            keys_unique(self.entry_seq()),
            self.map().dom().finite(),
            forall|i: int| 0 <= i < self.entry_seq().len() ==> self.map().dom().contains(#[trigger] self.entry_seq()[i].0)
                && self.map()[self.entry_seq()[i].0] == self.entry_seq()[i].1,
            forall|k: Seq<char>| self.map().dom().contains(k) ==> exists|i: int| 0 <= i < self.entry_seq().len() && #[trigger] self.entry_seq()[i].0 == k,
    {
        self.facts();
        proof {
        }
        self.entries.len()
    }

    pub fn is_empty(&self) -> (b: bool)
        ensures
            b == (self.map().dom().len() == 0),
            b == (self.map() == Map::<Seq<char>, V>::empty()),
    {
        self.facts();
        proof {
            if self.entries@.len() > 0 {
                assert(self.map().dom().contains(self.entry_seq()[0].0));
            } else {
                assert(self.map() =~= Map::<Seq<char>, V>::empty());
            }
        }
        self.entries.len() == 0
    }

    /// The key and value stored at position `i`.
    pub fn entry(&self, i: usize) -> (r: (&String, &V))
        requires
            i < self.entry_seq().len(),
        ensures
            r.0@ == self.entry_seq()[i as int].0,
            *r.1 == self.entry_seq()[i as int].1,
            self.map().dom().contains(r.0@),
            self.map()[r.0@] == *r.1,
    {
        self.facts();
        proof {
        }
        (&self.entries[i].0, &self.entries[i].1)
    }

    fn position(&self, key: &str) -> (r: Option<usize>)
        ensures
            match r {
                Some(i) => i < self.entry_seq().len() && self.entry_seq()[i as int].0 == key@
                    && self.map().dom().contains(key@) && self.map()[key@] == self.entry_seq()[i as int].1,
                None => !self.map().dom().contains(key@),
            },
    {
        self.facts();
        proof {
        }
        let mut i: usize = 0;
        while i < self.entries.len()
            invariant
                i <= self.entries@.len(),
                forall|j: int| 0 <= j < i ==> self.entry_seq()[j].0 != key@,
            decreases self.entries@.len() - i,
        {
            if crate::text::str_eq(self.entries[i].0.as_str(), key) {
                self.facts();
                return Some(i);
            }
            i += 1;
        }
        self.facts();
        None
    }

    /// The value stored under `key`.
    pub fn get(&self, key: &str) -> (r: Option<&V>)
        ensures
            match r {
                Some(v) => self.map().dom().contains(key@) && self.map()[key@] == *v,
                None => !self.map().dom().contains(key@),
            },
    {
        match self.position(key) {
            Some(i) => Some(&self.entries[i].1),
            None => None,
        }
    }

    pub fn contains_key(&self, key: &str) -> (b: bool)
        ensures
            b == self.map().dom().contains(key@),
    {
        self.position(key).is_some()
    }

    /// Stores `value` under `key`, replacing an earlier value; a new key goes last.
    pub fn insert(&mut self, key: String, value: V)
        ensures
            final(self).map() == old(self).map().insert(key@, value),
            old(self).map().dom().contains(key@) ==> final(self).entry_seq().len() == old(self).entry_seq().len()
                && forall|j: int| 0 <= j < old(self).entry_seq().len() ==> #[trigger] final(self).entry_seq()[j].0 == old(self).entry_seq()[j].0,
            !old(self).map().dom().contains(key@) ==> final(self).entry_seq() == old(self).entry_seq().push((key@, value)),
    {
        proof {
            use_type_invariant(&*self);
        }
        let ghost old_seq = self.entry_seq();
        match self.position(key.as_str()) {
            Some(i) => {
                proof {
                    lemma_entries_map_update(old_seq, i as int, value);
                }
                let mut entries = Vec::new();
                std::mem::swap(&mut entries, &mut self.entries);
                entries.set(i, (key, value));
                assert(Seq::new(entries@.len(), |j: int| (entries@[j].0@, entries@[j].1))
                    =~= old_seq.update(i as int, (old_seq[i as int].0, value)));
                self.entries = entries;
            },
            None => {
                proof {
                    lemma_entries_map_push(old_seq, key@, value);
                }
                let mut entries = Vec::new();
                std::mem::swap(&mut entries, &mut self.entries);
                entries.push((key, value));
                assert(Seq::new(entries@.len(), |j: int| (entries@[j].0@, entries@[j].1))
                    =~= old_seq.push((key@, value)));
                self.entries = entries;
            },
        }
    }

    /// Puts `value` under `key` in place of the value there, which is
    /// handed back; a new key goes last.
    pub fn replace(&mut self, key: String, value: V) -> (r: Option<V>)
        ensures
            final(self).map() == old(self).map().insert(key@, value),
            old(self).map().dom().contains(key@) ==> final(self).entry_seq().len() == old(self).entry_seq().len()
                && forall|j: int| 0 <= j < old(self).entry_seq().len() ==> #[trigger] final(self).entry_seq()[j].0 == old(self).entry_seq()[j].0,
            match r {
                Some(v) => old(self).map().dom().contains(key@) && old(self).map()[key@] == v,
                None => !old(self).map().dom().contains(key@),
            },
    {
        proof {
            use_type_invariant(&*self);
        }
        let ghost old_seq = self.entry_seq();
        match self.position(key.as_str()) {
            Some(i) => {
                proof {
                    lemma_entries_map_update(old_seq, i as int, value);
                }
                let mut entries = Vec::new();
                std::mem::swap(&mut entries, &mut self.entries);
                let (_k, previous) = entries.remove(i);
                entries.insert(i, (key, value));
                assert(Seq::new(entries@.len(), |j: int| (entries@[j].0@, entries@[j].1))
                    =~= old_seq.update(i as int, (old_seq[i as int].0, value)));
                self.entries = entries;
                Some(previous)
            },
            None => {
                proof {
                    lemma_entries_map_push(old_seq, key@, value);
                }
                let mut entries = Vec::new();
                std::mem::swap(&mut entries, &mut self.entries);
                entries.push((key, value));
                assert(Seq::new(entries@.len(), |j: int| (entries@[j].0@, entries@[j].1))
                    =~= old_seq.push((key@, value)));
                self.entries = entries;
                None
            },
        }
    }

    /// The keys, in storage order.
    pub fn keys(&self) -> (r: Vec<String>)
        ensures
            r@.len() == self.entry_seq().len(),
            forall|i: int| 0 <= i < r@.len() ==> #[trigger] r@[i]@ == self.entry_seq()[i].0,
    {
        let mut out: Vec<String> = Vec::new();
        let mut i: usize = 0;
        while i < self.entries.len()
            invariant
                i <= self.entries@.len(),
                out@.len() == i,
                forall|j: int| 0 <= j < i ==> #[trigger] out@[j]@ == self.entry_seq()[j].0,
            decreases self.entries@.len() - i,
        {
            out.push(self.entries[i].0.clone());
            i += 1;
        }
        out
    }

    /// Drops `key` and its value; the other entries keep their order.
    pub fn remove(&mut self, key: &str)
        ensures
            final(self).map() == old(self).map().remove(key@),
    {
        proof {
            use_type_invariant(&*self);
        }
        let ghost old_seq = self.entry_seq();
        match self.position(key) {
            Some(i) => {
                proof {
                    lemma_entries_map_remove(old_seq, i as int);
                }
                let mut entries = Vec::new();
                std::mem::swap(&mut entries, &mut self.entries);
                entries.remove(i);
                assert(Seq::new(entries@.len(), |j: int| (entries@[j].0@, entries@[j].1))
                    =~= old_seq.remove(i as int));
                self.entries = entries;
            },
            None => {
                assert(self.map() =~= self.map().remove(key@));
            },
        }
    }
}

pub proof fn lemma_entries_map_remove<V>(s: Seq<(Seq<char>, V)>, i: int)
    requires
        keys_unique(s),
        0 <= i < s.len(),
    ensures
        keys_unique(s.remove(i)),
        entries_map(s.remove(i)) == entries_map(s).remove(s[i].0),
{
    let t = s.remove(i);
    let k = s[i].0;
    assert forall|a: int, b: int| 0 <= a < t.len() && 0 <= b < t.len() && a != b implies t[a].0 != t[b].0 by {
        let a2 = if a < i { a } else { a + 1 };
        let b2 = if b < i { b } else { b + 1 };
        assert(t[a] == s[a2]);
        assert(t[b] == s[b2]);
    }
    assert forall|key: Seq<char>| #[trigger] entries_map(t).dom().contains(key) <==> entries_map(s).remove(k).dom().contains(key) by {
        lemma_entries_map_dom(t, key);
        lemma_entries_map_dom(s, key);
        if exists|j: int| 0 <= j < t.len() && t[j].0 == key {
            let j = choose|j: int| 0 <= j < t.len() && t[j].0 == key;
            let j2 = if j < i { j } else { j + 1 };
            assert(t[j] == s[j2]);
        }
        if exists|j: int| 0 <= j < s.len() && s[j].0 == key {
            let j = choose|j: int| 0 <= j < s.len() && s[j].0 == key;
            if key != k {
                assert(j != i);
                if j < i {
                    assert(t[j] == s[j]);
                } else {
                    assert(t[j - 1] == s[j]);
                }
            }
        }
    }
    assert forall|key: Seq<char>| #[trigger] entries_map(t).dom().contains(key) implies entries_map(t)[key] == entries_map(s).remove(k)[key] by {
        lemma_entries_map_dom(t, key);
        let j = choose|j: int| 0 <= j < t.len() && t[j].0 == key;
        lemma_entries_map_value(t, j);
        let j2 = if j < i { j } else { j + 1 };
        assert(t[j] == s[j2]);
        lemma_entries_map_value(s, j2);
    }
    assert(entries_map(t) =~= entries_map(s).remove(k));
}

} // verus!
