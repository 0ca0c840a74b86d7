//! Finite maps held as sequences of `(key, value)` entries, and the lemmas
//! that connect such entry lists with `vstd` maps.
use vstd::prelude::*;

verus! {

/// The map of an entry list; a later entry for a key overrides an earlier one.
pub open spec fn entries_map<V>(s: Seq<(Seq<char>, V)>) -> Map<Seq<char>, V>
    decreases s.len(),
{
    if s.len() == 0 {
        Map::empty()
    } else {
        entries_map(s.drop_last()).insert(s.last().0, s.last().1)
    }
}

/// No key occurs twice in the entry list.
pub open spec fn keys_unique<V>(s: Seq<(Seq<char>, V)>) -> bool {
    forall|i: int, j: int| 0 <= i < s.len() && 0 <= j < s.len() && i != j ==> s[i].0 != s[j].0
}

/// Inserts the entries of `s` into `m`, first to last.
pub open spec fn insert_all<V>(m: Map<Seq<char>, V>, s: Seq<(Seq<char>, V)>) -> Map<Seq<char>, V>
    decreases s.len(),
{
    if s.len() == 0 {
        m
    } else {
        insert_all(m.insert(s[0].0, s[0].1), s.drop_first())
    }
}

pub proof fn lemma_insert_all_concat<V>(m: Map<Seq<char>, V>, a: Seq<(Seq<char>, V)>, b: Seq<(Seq<char>, V)>)
    ensures
        insert_all(m, a + b) == insert_all(insert_all(m, a), b),
    decreases a.len(),
{
    if a.len() == 0 {
        assert(a + b =~= b);
    } else {
        assert((a + b).drop_first() =~= a.drop_first() + b);
        lemma_insert_all_concat(m.insert(a[0].0, a[0].1), a.drop_first(), b);
    }
}

pub proof fn lemma_insert_all_single<V>(m: Map<Seq<char>, V>, k: Seq<char>, v: V)
    ensures
        insert_all(m, seq![(k, v)]) == m.insert(k, v),
{
    assert(seq![(k, v)].drop_first() =~= Seq::<(Seq<char>, V)>::empty());
    assert(insert_all(m.insert(k, v), Seq::<(Seq<char>, V)>::empty()) == m.insert(k, v));
}

pub proof fn lemma_entries_map_dom<V>(s: Seq<(Seq<char>, V)>, k: Seq<char>)
    ensures
        entries_map(s).dom().contains(k) <==> exists|i: int| 0 <= i < s.len() && s[i].0 == k,
    decreases s.len(),
{
    if s.len() > 0 {
        lemma_entries_map_dom(s.drop_last(), k);
        if entries_map(s).dom().contains(k) && s.last().0 != k {
            let i = choose|i: int| 0 <= i < s.drop_last().len() && s.drop_last()[i].0 == k;
            assert(s[i].0 == k);
        }
        if exists|i: int| 0 <= i < s.len() && s[i].0 == k {
            let i = choose|i: int| 0 <= i < s.len() && s[i].0 == k;
            if i < s.len() - 1 {
                assert(s.drop_last()[i].0 == k);
            }
        }
    }
}

pub proof fn lemma_entries_map_finite<V>(s: Seq<(Seq<char>, V)>)
    ensures
        entries_map(s).dom().finite(),
    decreases s.len(),
{
    if s.len() > 0 {
        lemma_entries_map_finite(s.drop_last());
    }
}

pub proof fn lemma_entries_map_value<V>(s: Seq<(Seq<char>, V)>, i: int)
    requires
        keys_unique(s),
        0 <= i < s.len(),
    ensures
        entries_map(s).dom().contains(s[i].0),
        entries_map(s)[s[i].0] == s[i].1,
    decreases s.len(),
{
    lemma_entries_map_dom(s, s[i].0);
    if i < s.len() - 1 {
        assert(keys_unique(s.drop_last()));
        assert(s.drop_last()[i] == s[i]);
        lemma_entries_map_value(s.drop_last(), i);
        assert(s.last().0 != s[i].0);
    }
}

pub proof fn lemma_entries_map_update<V>(s: Seq<(Seq<char>, V)>, j: int, v: V)
    requires
        keys_unique(s),
        0 <= j < s.len(),
    ensures
        keys_unique(s.update(j, (s[j].0, v))),
        entries_map(s.update(j, (s[j].0, v))) == entries_map(s).insert(s[j].0, v),
{
    let t = s.update(j, (s[j].0, v));
    let k = s[j].0;
    assert(keys_unique(t));
    assert forall|key: Seq<char>| #[trigger] entries_map(t).dom().contains(key) <==> entries_map(s).insert(k, v).dom().contains(key) by {
        lemma_entries_map_dom(t, key);
        lemma_entries_map_dom(s, key);
        if exists|i: int| 0 <= i < s.len() && s[i].0 == key {
            let i = choose|i: int| 0 <= i < s.len() && s[i].0 == key;
            assert(t[i].0 == key);
        }
        if exists|i: int| 0 <= i < t.len() && t[i].0 == key {
            let i = choose|i: int| 0 <= i < t.len() && t[i].0 == key;
            assert(s[i].0 == key);
        }
    }
    assert forall|key: Seq<char>| #[trigger] entries_map(t).dom().contains(key) implies entries_map(t)[key] == entries_map(s).insert(k, v)[key] by {
        lemma_entries_map_dom(t, key);
        let i = choose|i: int| 0 <= i < t.len() && t[i].0 == key;
        lemma_entries_map_value(t, i);
        if i != j {
            lemma_entries_map_value(s, i);
        }
    }
    assert(entries_map(t) =~= entries_map(s).insert(k, v));
}

pub proof fn lemma_entries_map_push<V>(s: Seq<(Seq<char>, V)>, k: Seq<char>, v: V)
    requires
        keys_unique(s),
        !entries_map(s).dom().contains(k),
    ensures
        keys_unique(s.push((k, v))),
        entries_map(s.push((k, v))) == entries_map(s).insert(k, v),
{
    assert(s.push((k, v)).drop_last() =~= s);
    assert forall|i: int| 0 <= i < s.len() implies s[i].0 != k by {
        lemma_entries_map_dom(s, k);
    }
}

/// Entries in `s` whose keys satisfy `keep`, in order.
pub open spec fn keep_keys<V>(s: Seq<(Seq<char>, V)>, keep: spec_fn(Seq<char>) -> bool) -> Seq<(Seq<char>, V)> {
    s.filter(|e: (Seq<char>, V)| keep(e.0))
}

pub proof fn lemma_entries_map_keep<V>(s: Seq<(Seq<char>, V)>, keep: spec_fn(Seq<char>) -> bool)
    requires
        keys_unique(s),
    ensures
        keys_unique(keep_keys(s, keep)),
        entries_map(keep_keys(s, keep)) == entries_map(s).restrict(entries_map(s).dom().filter(keep)),
    decreases s.len(),
{
    let f = |e: (Seq<char>, V)| keep(e.0);
    reveal(Seq::filter);
    if s.len() > 0 {
        let p = s.drop_last();
        assert(keys_unique(p));
        lemma_entries_map_keep(p, keep);
        assert(keep_keys(s, keep) == if keep(s.last().0) { keep_keys(p, keep).push(s.last()) } else { keep_keys(p, keep) });
        lemma_entries_map_dom(p, s.last().0);
        assert(!entries_map(p).dom().contains(s.last().0)) by {
            if entries_map(p).dom().contains(s.last().0) {
                let i = choose|i: int| 0 <= i < p.len() && p[i].0 == s.last().0;
                assert(s[i].0 == s[s.len() - 1].0);
            }
        }
        if keep(s.last().0) {
            let q = keep_keys(p, keep);
            assert(!entries_map(q).dom().contains(s.last().0));
            lemma_entries_map_push(q, s.last().0, s.last().1);
        }
        assert(entries_map(keep_keys(s, keep)) =~= entries_map(s).restrict(entries_map(s).dom().filter(keep)));
    } else {
        assert(entries_map(keep_keys(s, keep)) =~= entries_map(s).restrict(entries_map(s).dom().filter(keep)));
    }
}

} // verus!

verus! {

/// The key filter that drops `key`.
pub open spec fn other_than(key: Seq<char>) -> spec_fn(Seq<char>) -> bool {
    |k: Seq<char>| k != key
}

pub proof fn lemma_keep_keys_push<V>(s: Seq<(Seq<char>, V)>, x: (Seq<char>, V), keep: spec_fn(Seq<char>) -> bool)
    ensures
        keep_keys(s.push(x), keep) == if keep(x.0) {
            keep_keys(s, keep).push(x)
        } else {
            keep_keys(s, keep)
        },
{
    reveal(Seq::filter);
    assert(s.push(x).drop_last() =~= s);
}

/// A key is in the map after inserting the entries `s` exactly when it was
/// in the map before or is the key of one of the entries.
pub proof fn lemma_insert_all_dom<V>(m: Map<Seq<char>, V>, s: Seq<(Seq<char>, V)>, k: Seq<char>)
    ensures
        insert_all(m, s).dom().contains(k) <==> m.dom().contains(k) || exists|i: int| 0 <= i < s.len() && s[i].0 == k,
    decreases s.len(),
{
    if s.len() > 0 {
        let rest = s.drop_first();
        lemma_insert_all_dom(m.insert(s[0].0, s[0].1), rest, k);
        if exists|i: int| 0 <= i < rest.len() && rest[i].0 == k {
            let i = choose|i: int| 0 <= i < rest.len() && rest[i].0 == k;
            assert(s[i + 1].0 == k);
        }
        if exists|i: int| 0 <= i < s.len() && s[i].0 == k {
            let i = choose|i: int| 0 <= i < s.len() && s[i].0 == k;
            if i > 0 {
                assert(rest[i - 1].0 == k);
            }
        }
    }
}

} // verus!
