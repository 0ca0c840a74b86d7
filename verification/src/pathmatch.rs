//! Dot-separated field paths: segment splitting, ancestor prefixes and
//! single-segment `*` globs.
use vstd::prelude::*;
use crate::text::chars_of;

verus! {

/// The pieces of `s` between occurrences of `sep`, as `str::split(sep)`
/// yields them (an empty string has one empty piece).
pub open spec fn split_on(s: Seq<char>, sep: char) -> Seq<Seq<char>>
    decreases s.len(),
{
    if s.len() == 0 {
        seq![Seq::empty()]
    } else if s.last() == sep {
        split_on(s.drop_last(), sep).push(Seq::empty())
    } else {
        let t = split_on(s.drop_last(), sep);
        t.update(t.len() - 1, t.last().push(s.last()))
    }
}

pub proof fn lemma_split_nonempty(s: Seq<char>, sep: char)
    ensures
        split_on(s, sep).len() >= 1,
    decreases s.len(),
{
    if s.len() > 0 {
        lemma_split_nonempty(s.drop_last(), sep);
    }
}

/// The dot-separated segments of a field path.
pub open spec fn segments(s: Seq<char>) -> Seq<Seq<char>> {
    split_on(s, '.')
}

/// `*` matches exactly one segment; path and pattern must have the same
/// number of segments, and every other segment must be equal.
pub open spec fn glob_matches(path: Seq<char>, pattern: Seq<char>) -> bool {
    let p = segments(path);
    let q = segments(pattern);
    &&& p.len() == q.len()
    &&& forall|i: int| 0 <= i < p.len() ==> q[i] == seq!['*'] || #[trigger] p[i] == q[i]
}

/// `q` is `path` itself or the part of `path` before one of its dots.
pub open spec fn is_ancestor_prefix(path: Seq<char>, q: Seq<char>) -> bool {
    q == path || exists|i: int| 0 <= i < path.len() && path[i] == '.' && q == path.take(i)
}

/// The pieces of `s` between occurrences of `sep`.
pub fn split_chars(s: &Vec<char>, sep: char) -> (r: Vec<Vec<char>>)
    ensures
        r@.len() == split_on(s@, sep).len(),
        forall|i: int| 0 <= i < r@.len() ==> #[trigger] r@[i]@ == split_on(s@, sep)[i],
{
    let mut segs: Vec<Vec<char>> = Vec::new();
    segs.push(Vec::new());
    let mut i: usize = 0;
    assert(s@.take(0) =~= Seq::<char>::empty());
    while i < s.len()
        invariant
            i <= s@.len(),
            segs@.len() == split_on(s@.take(i as int), sep).len(),
            segs@.len() >= 1,
            forall|j: int| 0 <= j < segs@.len() ==> #[trigger] segs@[j]@ == split_on(s@.take(i as int), sep)[j],
        decreases s@.len() - i,
    {
        let ghost t = s@.take(i as int + 1);
        assert(t.drop_last() =~= s@.take(i as int));
        assert(t.last() == s@[i as int]);
        let c = s[i];
        if c == sep {
            segs.push(Vec::new());
            assert(segs@.last()@ =~= Seq::<char>::empty());
        } else {
            let last = segs.len() - 1;
            let mut seg = Vec::new();
            std::mem::swap(&mut seg, &mut segs[last]);
            seg.push(c);
            segs.set(last, seg);
        }
        i += 1;
    }
    assert(s@.take(s@.len() as int) =~= s@);
    segs
}

fn is_star(seg: &Vec<char>) -> (b: bool)
    ensures
        b == (seg@ == seq!['*']),
{
    if seg.len() != 1 {
        return false;
    }
    let r = seg[0] == '*';
    if r {
        assert(seg@ =~= seq!['*']);
    }
    r
}

/// `*` matches exactly one dot-separated segment; path and pattern must have
/// the same segment count.
pub fn glob_match(path: &str, pattern: &str) -> (b: bool)
    ensures
        b == glob_matches(path@, pattern@),
{
    let p = split_chars(&chars_of(path), '.');
    let q = split_chars(&chars_of(pattern), '.');
    if p.len() != q.len() {
        return false;
    }
    let mut i: usize = 0;
    while i < p.len()
        invariant
            p@.len() == q@.len(),
            p@.len() == segments(path@).len(),
            q@.len() == segments(pattern@).len(),
            forall|j: int| 0 <= j < p@.len() ==> #[trigger] p@[j]@ == segments(path@)[j],
            forall|j: int| 0 <= j < q@.len() ==> #[trigger] q@[j]@ == segments(pattern@)[j],
            i <= p@.len(),
            forall|j: int| 0 <= j < i ==> segments(pattern@)[j] == seq!['*'] || #[trigger] segments(path@)[j] == segments(pattern@)[j],
        decreases p@.len() - i,
    {
        if !is_star(&q[i]) && !crate::text::chars_equal(&p[i], &q[i]) {
            assert(!(segments(pattern@)[i as int] == seq!['*'] || segments(path@)[i as int] == segments(pattern@)[i as int]));
            return false;
        }
        i += 1;
    }
    true
}

} // verus!

verus! {

/// A string without the separator is a single piece.
pub proof fn lemma_split_no_sep(s: Seq<char>, sep: char)
    requires
        !s.contains(sep),
    ensures
        split_on(s, sep) == seq![s],
    decreases s.len(),
{
    if s.len() > 0 {
        assert(!s.drop_last().contains(sep)) by {
            if s.drop_last().contains(sep) {
                let i = choose|i: int| 0 <= i < s.drop_last().len() && s.drop_last()[i] == sep;
                assert(s[i] == sep);
            }
        }
        lemma_split_no_sep(s.drop_last(), sep);
        assert(s.last() != sep);
        assert(s.drop_last().push(s.last()) =~= s);
        assert(seq![s.drop_last()].update(0, s.drop_last().push(s.last())) =~= seq![s]);
    } else {
        assert(s =~= Seq::<char>::empty());
    }
}

/// Splitting text joined by a separator splits each side.
pub proof fn lemma_split_concat(a: Seq<char>, b: Seq<char>, sep: char)
    ensures
        split_on(a + seq![sep] + b, sep) == split_on(a, sep) + split_on(b, sep),
    decreases b.len(),
{
    let s = a + seq![sep] + b;
    if b.len() == 0 {
        assert(s.drop_last() =~= a);
        assert(split_on(b, sep) =~= seq![Seq::<char>::empty()]);
        assert(split_on(a, sep).push(Seq::empty()) =~= split_on(a, sep) + seq![Seq::<char>::empty()]);
    } else {
        let b1 = b.drop_last();
        lemma_split_concat(a, b1, sep);
        assert(s.drop_last() =~= a + seq![sep] + b1);
        lemma_split_nonempty(b1, sep);
        if b.last() == sep {
            assert(split_on(a, sep) + split_on(b1, sep).push(Seq::empty()) =~= (split_on(a, sep) + split_on(b1, sep)).push(Seq::empty()));
        } else {
            let x = split_on(a, sep);
            let y = split_on(b1, sep);
            assert((x + y).update((x + y).len() - 1, (x + y).last().push(b.last())) =~= x + y.update(y.len() - 1, y.last().push(b.last())));
        }
    }
}

} // verus!

verus! {

/// The parts of `path` before each of its first `n` characters that is a dot.
pub open spec fn dot_prefixes(path: Seq<char>, n: int) -> Seq<Seq<char>>
    decreases n,
{
    if n <= 0 {
        Seq::empty()
    } else {
        let prev = dot_prefixes(path, n - 1);
        if path[n - 1] == '.' {
            prev.push(path.take(n - 1))
        } else {
            prev
        }
    }
}

/// The ancestors of a field path, shortest first, then the path itself.
pub open spec fn ancestor_list(path: Seq<char>) -> Seq<Seq<char>> {
    dot_prefixes(path, path.len() as int).push(path)
}

proof fn lemma_dot_prefixes(path: Seq<char>, n: int, q: Seq<char>)
    requires
        0 <= n <= path.len(),
    ensures
        dot_prefixes(path, n).contains(q) <==> exists|i: int| 0 <= i < n && path[i] == '.' && q == path.take(i),
    decreases n,
{
    if n > 0 {
        lemma_dot_prefixes(path, n - 1, q);
        let prev = dot_prefixes(path, n - 1);
        if path[n - 1] == '.' {
            if prev.push(path.take(n - 1)).contains(q) {
                let j = choose|j: int| 0 <= j < prev.len() + 1 && #[trigger] prev.push(path.take(n - 1))[j] == q;
                if j < prev.len() {
                    assert(prev[j] == q);
                }
            }
            if exists|i: int| 0 <= i < n && path[i] == '.' && q == path.take(i) {
                let i = choose|i: int| 0 <= i < n && path[i] == '.' && q == path.take(i);
                if i == n - 1 {
                    assert(prev.push(path.take(n - 1))[prev.len() as int] == q);
                } else {
                    let j = choose|j: int| 0 <= j < prev.len() && prev[j] == q;
                    assert(prev.push(path.take(n - 1))[j] == q);
                }
            }
        }
    }
}

/// A text is in the ancestor list exactly when it is an ancestor prefix.
pub proof fn lemma_ancestor_list(path: Seq<char>, q: Seq<char>)
    ensures
        ancestor_list(path).contains(q) <==> is_ancestor_prefix(path, q),
{
    lemma_dot_prefixes(path, path.len() as int, q);
    let d = dot_prefixes(path, path.len() as int);
    if ancestor_list(path).contains(q) {
        let j = choose|j: int| 0 <= j < d.len() + 1 && #[trigger] d.push(path)[j] == q;
        if j < d.len() {
            assert(d[j] == q);
        }
    }
    if is_ancestor_prefix(path, q) {
        if q == path {
            assert(d.push(path)[d.len() as int] == q);
        } else {
            let j = choose|j: int| 0 <= j < d.len() && d[j] == q;
            assert(d.push(path)[j] == q);
        }
    }
}

/// Each ancestor of `path` at a dot boundary, shortest first, then `path`
/// itself, so that a pattern never matches part of a segment.
pub fn ancestor_prefixes(path: &str) -> (r: Vec<String>)
    ensures
        crate::order::texts(r@) == ancestor_list(path@),
{
    let cs = chars_of(path);
    let mut out: Vec<String> = Vec::new();
    let mut i: usize = 0;
    assert(crate::order::texts(out@) =~= dot_prefixes(path@, 0));
    while i < cs.len()
        invariant
            cs@ == path@,
            i <= cs@.len(),
            crate::order::texts(out@) == dot_prefixes(path@, i as int),
        decreases cs@.len() - i,
    {
        if cs[i] == '.' {
            let ghost before = crate::order::texts(out@);
            let prefix = crate::text::string_from_chars(&crate::text::chars_slice(&cs, 0, i));
            out.push(prefix);
            assert(cs@.subrange(0, i as int) =~= path@.take(i as int));
            assert(crate::order::texts(out@) =~= before.push(path@.take(i as int)));
        }
        i += 1;
    }
    let ghost before = crate::order::texts(out@);
    out.push(path.to_string());
    assert(crate::order::texts(out@) =~= before.push(path@));
    out
}

} // verus!
