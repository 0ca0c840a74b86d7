//! Lexicographic order on text, as `String`'s `Ord` orders it (UTF-8 byte
//! order is code-point order), and sorting by that order.
use vstd::prelude::*;
use crate::text::chars_of;

verus! {

broadcast use vstd::std_specs::vec::group_vec_axioms;

/// `a` sorts strictly before `b`.
pub open spec fn text_lt(a: Seq<char>, b: Seq<char>) -> bool
    decreases a.len(),
{
    if a.len() == 0 {
        b.len() > 0
    } else if b.len() == 0 {
        false
    } else if a[0] != b[0] {
        (a[0] as u32) < (b[0] as u32)
    } else {
        text_lt(a.drop_first(), b.drop_first())
    }
}

pub proof fn lemma_text_lt_asymmetric(a: Seq<char>, b: Seq<char>)
    ensures
        text_lt(a, b) ==> !text_lt(b, a),
    decreases a.len(),
{
    if a.len() > 0 && b.len() > 0 && a[0] == b[0] {
        lemma_text_lt_asymmetric(a.drop_first(), b.drop_first());
    }
}

pub proof fn lemma_text_lt_transitive(a: Seq<char>, b: Seq<char>, c: Seq<char>)
    ensures
        text_lt(a, b) && text_lt(b, c) ==> text_lt(a, c),
    decreases a.len(),
{
    if a.len() > 0 && b.len() > 0 && c.len() > 0 {
        lemma_text_lt_transitive(a.drop_first(), b.drop_first(), c.drop_first());
    }
}

/// Two distinct texts are ordered one way or the other.
pub proof fn lemma_text_lt_total(a: Seq<char>, b: Seq<char>)
    ensures
        a != b ==> text_lt(a, b) || text_lt(b, a),
    decreases a.len(),
{
    if a.len() > 0 && b.len() > 0 {
        lemma_text_lt_total(a.drop_first(), b.drop_first());
        if a[0] != b[0] {
            vstd::utf8::char_u32_cast(a[0], a[0] as u32);
            vstd::utf8::char_u32_cast(b[0], b[0] as u32);
        }
        if a[0] == b[0] && a.drop_first() == b.drop_first() {
            assert(a =~= seq![a[0]] + a.drop_first());
            assert(b =~= seq![b[0]] + b.drop_first());
        }
    } else if a.len() == 0 && b.len() == 0 {
        assert(a =~= b);
    }
}

/// Whether `a` sorts strictly before `b` (`<` on strings).
pub fn text_less(a: &str, b: &str) -> (r: bool)
    ensures
        r == text_lt(a@, b@),
{
    let x = chars_of(a);
    let y = chars_of(b);
    let mut i: usize = 0;
    assert(x@.skip(0) =~= x@);
    assert(y@.skip(0) =~= y@);
    while i < x.len() && i < y.len()
        invariant
            x@ == a@,
            y@ == b@,
            i <= x@.len(),
            i <= y@.len(),
            x@.take(i as int) == y@.take(i as int),
            text_lt(x@, y@) == text_lt(x@.skip(i as int), y@.skip(i as int)),
        decreases x@.len() - i,
    {
        assert(x@.skip(i as int).drop_first() =~= x@.skip(i as int + 1));
        assert(y@.skip(i as int).drop_first() =~= y@.skip(i as int + 1));
        assert(x@.skip(i as int)[0] == x@[i as int]);
        assert(y@.skip(i as int)[0] == y@[i as int]);
        if x[i] != y[i] {
            let ghost xs = x@.skip(i as int);
            let ghost ys = y@.skip(i as int);
            assert(xs.len() > 0 && ys.len() > 0);
            assert(xs[0] != ys[0]);
            assert(text_lt(xs, ys) == ((xs[0] as u32) < (ys[0] as u32)));
            let cx = x[i];
            let cy = y[i];
            assert(cx == xs[0] && cy == ys[0]);
            let r = (cx as u32) < (cy as u32);
            return r;
        }
        assert(x@.take(i as int + 1) =~= x@.take(i as int).push(x@[i as int]));
        assert(y@.take(i as int + 1) =~= y@.take(i as int).push(y@[i as int]));
        i += 1;
    }
    assert(x@.skip(i as int).len() == 0 || y@.skip(i as int).len() == 0);
    i < y.len()
}

/// No text of `s` sorts strictly before an earlier one.
pub open spec fn texts_sorted(s: Seq<Seq<char>>) -> bool {
    forall|i: int, j: int| 0 <= i < j < s.len() ==> !text_lt(#[trigger] s[j], #[trigger] s[i])
}

/// The texts of a vector of strings.
pub open spec fn texts(v: Seq<String>) -> Seq<Seq<char>> {
    Seq::new(v.len(), |i: int| v[i]@)
}

/// `v` sorted ascending; the result holds the same strings.
pub fn sort_texts(v: Vec<String>) -> (r: Vec<String>)
    ensures
        texts_sorted(texts(r@)),
        texts(r@).to_multiset() == texts(v@).to_multiset(),
{
    let ghost orig = texts(v@);
    let mut out: Vec<String> = Vec::new();
    let mut rest = v;
    let ghost n = rest@.len();
    let mut taken: usize = 0;
    assert(texts(out@) =~= Seq::<Seq<char>>::empty());
    assert(orig.subrange(n as int, n as int) =~= Seq::<Seq<char>>::empty());
    let len0 = rest.len();
    assert(n <= usize::MAX);
    while rest.len() > 0
        invariant
            rest@.len() + taken == n,
            n == orig.len(),
            n <= usize::MAX,
            texts_sorted(texts(out@)),
            forall|j: int| 0 <= j < rest@.len() ==> #[trigger] rest@[j]@ == orig[j],
            texts(out@).to_multiset() == orig.subrange(rest@.len() as int, n as int).to_multiset(),
        decreases rest@.len(),
    {
        let x = rest.pop().unwrap();
        let ghost before = texts(out@);
        let mut p: usize = 0;
        while p < out.len() && !text_less(x.as_str(), out[p].as_str())
            invariant
                p <= out@.len(),
                before == texts(out@),
                forall|k: int| 0 <= k < p ==> !text_lt(x@, #[trigger] out@[k]@),
            decreases out@.len() - p,
        {
            p += 1;
        }
        out.insert(p, x);
        proof {
            let s = texts(out@);
            assert(s =~= before.insert(p as int, x@));
            assert forall|i: int, j: int| 0 <= i < j < s.len() implies !text_lt(#[trigger] s[j], #[trigger] s[i]) by {
                if j == p {
                    assert(s[i] == before[i]);
                } else if i == p {
                    assert(s[j] == before[j - 1]);
                    lemma_text_lt_asymmetric(x@, before[p as int]);
                    if j - 1 > p {
                        assert(!text_lt(before[j - 1], before[p as int]));
                    }
                    lemma_text_lt_transitive(before[j - 1], x@, before[p as int]);
                } else if j < p {
                    assert(s[i] == before[i] && s[j] == before[j]);
                } else if i < p {
                    assert(s[i] == before[i] && s[j] == before[j - 1]);
                } else {
                    assert(s[i] == before[i - 1] && s[j] == before[j - 1]);
                }
            }
            let lo = rest@.len() as int;
            assert(orig.subrange(lo, n as int) =~= orig.subrange(lo + 1, n as int).insert(0, orig[lo]));
            assert(before.insert(p as int, x@).to_multiset() == before.to_multiset().insert(x@)) by {
                vstd::seq_lib::to_multiset_insert(before, p as int, x@);
            }
            assert(orig.subrange(lo + 1, n as int).insert(0, orig[lo]).to_multiset()
                == orig.subrange(lo + 1, n as int).to_multiset().insert(orig[lo])) by {
                vstd::seq_lib::to_multiset_insert(orig.subrange(lo + 1, n as int), 0, orig[lo]);
            }
        }
        taken += 1;
    }
    assert(orig.subrange(0, n as int) =~= orig);
    out
}


/// Pairs of texts ordered by the first text, then the second (tuple order).
pub open spec fn pair_lt(a: (Seq<char>, Seq<char>), b: (Seq<char>, Seq<char>)) -> bool {
    text_lt(a.0, b.0) || (a.0 == b.0 && text_lt(a.1, b.1))
}

pub proof fn lemma_pair_lt_asymmetric(a: (Seq<char>, Seq<char>), b: (Seq<char>, Seq<char>))
    ensures
        pair_lt(a, b) ==> !pair_lt(b, a),
{
    lemma_text_lt_asymmetric(a.0, b.0);
    lemma_text_lt_asymmetric(a.1, b.1);
    lemma_text_lt_irreflexive(a.0);
    lemma_text_lt_irreflexive(b.0);
}

pub proof fn lemma_pair_lt_transitive(a: (Seq<char>, Seq<char>), b: (Seq<char>, Seq<char>), c: (Seq<char>, Seq<char>))
    ensures
        pair_lt(a, b) && pair_lt(b, c) ==> pair_lt(a, c),
{
    lemma_text_lt_transitive(a.0, b.0, c.0);
    lemma_text_lt_transitive(a.1, b.1, c.1);
}

pub proof fn lemma_text_lt_irreflexive(a: Seq<char>)
    ensures
        !text_lt(a, a),
{
    lemma_text_lt_asymmetric(a, a);
}

/// Whether pair `a` sorts strictly before pair `b`.
pub fn pair_less(a: &(String, String), b: &(String, String)) -> (r: bool)
    ensures
        r == pair_lt((a.0@, a.1@), (b.0@, b.1@)),
{
    if text_less(a.0.as_str(), b.0.as_str()) {
        return true;
    }
    crate::text::str_eq(a.0.as_str(), b.0.as_str()) && text_less(a.1.as_str(), b.1.as_str())
}

/// No pair of `s` sorts strictly before an earlier one.
pub open spec fn pairs_sorted(s: Seq<(Seq<char>, Seq<char>)>) -> bool {
    forall|i: int, j: int| 0 <= i < j < s.len() ==> !pair_lt(#[trigger] s[j], #[trigger] s[i])
}

/// The texts of a vector of string pairs.
pub open spec fn text_pairs(v: Seq<(String, String)>) -> Seq<(Seq<char>, Seq<char>)> {
    Seq::new(v.len(), |i: int| (v[i].0@, v[i].1@))
}

/// `v` sorted ascending by name, then value; the result holds the same pairs.
pub fn sort_text_pairs(v: Vec<(String, String)>) -> (r: Vec<(String, String)>)
    ensures
        pairs_sorted(text_pairs(r@)),
        text_pairs(r@).to_multiset() == text_pairs(v@).to_multiset(),
{
    let ghost orig = text_pairs(v@);
    let mut out: Vec<(String, String)> = Vec::new();
    let mut rest = v;
    let ghost n = rest@.len();
    let mut taken: usize = 0;
    assert(text_pairs(out@) =~= Seq::<(Seq<char>, Seq<char>)>::empty());
    assert(orig.subrange(n as int, n as int) =~= Seq::<(Seq<char>, Seq<char>)>::empty());
    let len0 = rest.len();
    assert(n <= usize::MAX);
    while rest.len() > 0
        invariant
            rest@.len() + taken == n,
            n == orig.len(),
            n <= usize::MAX,
            pairs_sorted(text_pairs(out@)),
            forall|j: int| 0 <= j < rest@.len() ==> (#[trigger] rest@[j]).0@ == orig[j].0 && rest@[j].1@ == orig[j].1,
            text_pairs(out@).to_multiset() == orig.subrange(rest@.len() as int, n as int).to_multiset(),
        decreases rest@.len(),
    {
        let x = rest.pop().unwrap();
        let ghost before = text_pairs(out@);
        let mut p: usize = 0;
        while p < out.len() && !pair_less(&x, &out[p])
            invariant
                p <= out@.len(),
                before == text_pairs(out@),
                forall|k: int| 0 <= k < p ==> !pair_lt((x.0@, x.1@), #[trigger] text_pairs(out@)[k]),
            decreases out@.len() - p,
        {
            p += 1;
        }
        out.insert(p, x);
        proof {
            let s = text_pairs(out@);
            assert(s =~= before.insert(p as int, (x.0@, x.1@)));
            assert forall|i: int, j: int| 0 <= i < j < s.len() implies !pair_lt(#[trigger] s[j], #[trigger] s[i]) by {
                if j == p {
                    assert(s[i] == before[i]);
                } else if i == p {
                    assert(s[j] == before[j - 1]);
                    lemma_pair_lt_asymmetric((x.0@, x.1@), before[p as int]);
                    if j - 1 > p {
                        assert(!pair_lt(before[j - 1], before[p as int]));
                    }
                    lemma_pair_lt_transitive(before[j - 1], (x.0@, x.1@), before[p as int]);
                } else if j < p {
                    assert(s[i] == before[i] && s[j] == before[j]);
                } else if i < p {
                    assert(s[i] == before[i] && s[j] == before[j - 1]);
                } else {
                    assert(s[i] == before[i - 1] && s[j] == before[j - 1]);
                }
            }
            let lo = rest@.len() as int;
            assert(orig.subrange(lo, n as int) =~= orig.subrange(lo + 1, n as int).insert(0, orig[lo]));
            assert(before.insert(p as int, (x.0@, x.1@)).to_multiset() == before.to_multiset().insert((x.0@, x.1@))) by {
                vstd::seq_lib::to_multiset_insert(before, p as int, (x.0@, x.1@));
            }
            assert(orig.subrange(lo + 1, n as int).insert(0, orig[lo]).to_multiset()
                == orig.subrange(lo + 1, n as int).to_multiset().insert(orig[lo])) by {
                vstd::seq_lib::to_multiset_insert(orig.subrange(lo + 1, n as int), 0, orig[lo]);
            }
        }
        taken += 1;
    }
    assert(orig.subrange(0, n as int) =~= orig);
    out
}

/// Two distinct pairs are ordered one way or the other.
pub proof fn lemma_pair_lt_total(a: (Seq<char>, Seq<char>), b: (Seq<char>, Seq<char>))
    ensures
        a != b ==> pair_lt(a, b) || pair_lt(b, a),
{
    lemma_text_lt_total(a.0, b.0);
    lemma_text_lt_total(a.1, b.1);
}

/// A multiset of pairs has one sorted order: two sorted sequences holding
/// the same pairs are the same sequence.
pub proof fn lemma_sorted_pairs_unique(a: Seq<(Seq<char>, Seq<char>)>, b: Seq<(Seq<char>, Seq<char>)>)
    requires
        pairs_sorted(a),
        pairs_sorted(b),
        a.to_multiset() == b.to_multiset(),
    ensures
        a == b,
    decreases a.len(),
{
    broadcast use vstd::seq_lib::group_to_multiset_ensures;
    if a.len() == 0 {
        assert(b.to_multiset().len() == 0);
        assert(b =~= a);
    } else {
        vstd::seq_lib::to_multiset_len(a);
        vstd::seq_lib::to_multiset_len(b);
        assert(b.len() == a.len());
        assert(a.contains(a[0]));
        assert(a.to_multiset().count(a[0]) > 0);
        assert(b.contains(a[0]));
        let j = choose|j: int| 0 <= j < b.len() && b[j] == a[0];
        assert(b.contains(b[0]));
        assert(b.to_multiset().count(b[0]) > 0);
        assert(a.contains(b[0]));
        let i = choose|i: int| 0 <= i < a.len() && a[i] == b[0];
        if a[0] != b[0] {
            lemma_pair_lt_total(a[0], b[0]);
            if i > 0 {
                assert(!pair_lt(a[i], a[0]));
            }
            if j > 0 {
                assert(!pair_lt(b[j], b[0]));
            }
            assert(i > 0 && j > 0);
            assert(false);
        }
        let a1 = a.remove(0);
        let b1 = b.remove(0);
        assert(a1.to_multiset() == a.to_multiset().remove(a[0]));
        assert(b1.to_multiset() == b.to_multiset().remove(b[0]));
        assert(pairs_sorted(a1)) by {
            assert forall|x: int, y: int| 0 <= x < y < a1.len() implies !pair_lt(#[trigger] a1[y], #[trigger] a1[x]) by {
                assert(a1[y] == a[y + 1] && a1[x] == a[x + 1]);
            }
        }
        assert(pairs_sorted(b1)) by {
            assert forall|x: int, y: int| 0 <= x < y < b1.len() implies !pair_lt(#[trigger] b1[y], #[trigger] b1[x]) by {
                assert(b1[y] == b[y + 1] && b1[x] == b[x + 1]);
            }
        }
        lemma_sorted_pairs_unique(a1, b1);
        assert(a =~= seq![a[0]] + a1);
        assert(b =~= seq![b[0]] + b1);
    }
}

/// A sequence without repeats holds each value at most once.
pub proof fn lemma_distinct_count<A>(s: Seq<A>, x: A)
    requires
        s.no_duplicates(),
    ensures
        s.to_multiset().count(x) <= 1,
    decreases s.len(),
{
    broadcast use vstd::seq_lib::group_to_multiset_ensures;
    if s.len() > 0 {
        let p = s.drop_last();
        assert(p.no_duplicates()) by {
            assert forall|i: int, j: int| 0 <= i < p.len() && 0 <= j < p.len() && i != j implies p[i] != p[j] by {
                assert(p[i] == s[i] && p[j] == s[j]);
            }
        }
        lemma_distinct_count(p, x);
        assert(s =~= p.push(s.last()));
        assert(s.to_multiset() =~= p.to_multiset().insert(s.last()));
        if x == s.last() {
            if p.contains(x) {
                let k = choose|k: int| 0 <= k < p.len() && p[k] == x;
                assert(s[k] == s[s.len() - 1]);
            }
            assert(p.to_multiset().count(x) == 0);
        }
    }
}

/// Two sequences holding the same values, each as often: when one has no
/// repeats, neither has the other.
pub proof fn lemma_same_multiset_distinct<A>(a: Seq<A>, b: Seq<A>)
    requires
        a.no_duplicates(),
        a.to_multiset() == b.to_multiset(),
    ensures
        b.no_duplicates(),
{
    broadcast use vstd::seq_lib::group_to_multiset_ensures;
    assert forall|i: int, j: int| 0 <= i < b.len() && 0 <= j < b.len() && i != j implies b[i] != b[j] by {
        if b[i] == b[j] {
            let r = b.remove(j);
            let k = if i < j { i } else { i - 1 };
            assert(r[k] == b[i]);
            assert(r.contains(b[i]));
            assert(r.to_multiset().count(b[i]) > 0);
            assert(r.to_multiset() == b.to_multiset().remove(b[j]));
            assert(b.to_multiset().count(b[i]) >= 2);
            lemma_distinct_count(a, b[i]);
        }
    }
}

/// A sorted sequence of texts without repeats is strictly ascending.
pub proof fn lemma_sorted_distinct_is_strict(s: Seq<Seq<char>>)
    requires
        texts_sorted(s),
        s.no_duplicates(),
    ensures
        forall|i: int, j: int| 0 <= i < j < s.len() ==> text_lt(#[trigger] s[i], #[trigger] s[j]),
{
    assert forall|i: int, j: int| 0 <= i < j < s.len() implies text_lt(#[trigger] s[i], #[trigger] s[j]) by {
        lemma_text_lt_total(s[i], s[j]);
        assert(!text_lt(s[j], s[i]));
    }
}

} // verus!
