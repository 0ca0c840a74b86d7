//! Endpoint identification: a request path resolves to the configured path
//! template it matches, through `matchit`'s router. Templates and paths are
//! brought to a canonical form first: the query string is stripped and
//! duplicate and trailing slashes are collapsed.
use vstd::prelude::*;
use crate::pathmatch::{split_chars, split_on, lemma_split_concat, lemma_split_nonempty};
use crate::text::{chars_of, string_from_chars};

verus! {

broadcast use vstd::std_specs::vec::group_vec_axioms;

/// The non-empty pieces of `segs`, in order.
pub open spec fn nonempty(segs: Seq<Seq<char>>) -> Seq<Seq<char>> {
    segs.filter(|s: Seq<char>| s.len() > 0)
}

/// Each segment with a leading slash, concatenated.
pub open spec fn slashed(segs: Seq<Seq<char>>) -> Seq<char>
    decreases segs.len(),
{
    if segs.len() == 0 {
        Seq::empty()
    } else {
        slashed(segs.drop_last()) + seq!['/'] + segs.last()
    }
}

/// The path without its query string: the text before the first `?`.
pub open spec fn without_query(p: Seq<char>) -> Seq<char> {
    split_on(p, '?')[0]
}

/// The canonical form of a path or template: query string stripped, empty
/// segments dropped, each remaining segment preceded by one slash; `/` when
/// nothing remains.
pub open spec fn canonical_path(p: Seq<char>) -> Seq<char> {
    let joined = slashed(nonempty(split_on(without_query(p), '/')));
    if joined.len() == 0 {
        seq!['/']
    } else {
        joined
    }
}

/// Splits a path into its non-empty slash-separated segments.
pub fn split_segments(path: &str) -> (r: Vec<Vec<char>>)
    ensures
        r@.len() == nonempty(split_on(path@, '/')).len(),
        forall|i: int| 0 <= i < r@.len() ==> #[trigger] r@[i]@ == nonempty(split_on(path@, '/'))[i],
{
    let pieces = split_chars(&chars_of(path), '/');
    let ghost all = split_on(path@, '/');
    let mut out: Vec<Vec<char>> = Vec::new();
    let mut i: usize = 0;
    while i < pieces.len()
        invariant
            i <= pieces@.len(),
            pieces@.len() == all.len(),
            all == split_on(path@, '/'),
            forall|j: int| 0 <= j < pieces@.len() ==> #[trigger] pieces@[j]@ == all[j],
            out@.len() == nonempty(all.take(i as int)).len(),
            forall|j: int| 0 <= j < out@.len() ==> #[trigger] out@[j]@ == nonempty(all.take(i as int))[j],
        decreases pieces@.len() - i,
    {
        proof {
            reveal(Seq::filter);
            assert(all.take(i as int + 1).drop_last() =~= all.take(i as int));
        }
        if pieces[i].len() > 0 {
            let mut seg: Vec<char> = Vec::new();
            let mut k: usize = 0;
            while k < pieces[i].len()
                invariant
                    i < pieces@.len(),
                    k <= pieces@[i as int]@.len(),
                    seg@ == pieces@[i as int]@.take(k as int),
                decreases pieces@[i as int]@.len() - k,
            {
                seg.push(pieces[i][k]);
                k += 1;
                assert(seg@ =~= pieces@[i as int]@.take(k as int));
            }
            assert(seg@ =~= pieces@[i as int]@);
            out.push(seg);
        }
        i += 1;
    }
    assert(all.take(pieces@.len() as int) =~= all);
    out
}

/// Canonicalizes a path or template: strips the query string and collapses
/// duplicate and trailing slashes, so `/a//b/` and `/a/b` resolve identically.
pub fn canonical(path: &str) -> (r: String)
    ensures
        r@ == canonical_path(path@),
{
    let chars = chars_of(path);
    let parts = split_chars(&chars, '?');
    proof {
        lemma_split_nonempty(chars@, '?');
    }
    let base = string_from_chars(&parts[0]);
    let segs = split_segments(base.as_str());
    let ghost ns = nonempty(split_on(base@, '/'));
    let mut out: Vec<char> = Vec::new();
    let mut i: usize = 0;
    while i < segs.len()
        invariant
            i <= segs@.len(),
            segs@.len() == ns.len(),
            forall|j: int| 0 <= j < segs@.len() ==> #[trigger] segs@[j]@ == ns[j],
            out@ == slashed(ns.take(i as int)),
        decreases segs@.len() - i,
    {
        assert(ns.take(i as int + 1).drop_last() =~= ns.take(i as int));
        out.push('/');
        let mut k: usize = 0;
        let ghost start = out@;
        while k < segs[i].len()
            invariant
                i < segs@.len(),
                k <= segs@[i as int]@.len(),
                out@ == start + segs@[i as int]@.take(k as int),
            decreases segs@[i as int]@.len() - k,
        {
            out.push(segs[i][k]);
            k += 1;
            assert(out@ =~= start + segs@[i as int]@.take(k as int));
        }
        assert(out@ =~= slashed(ns.take(i as int + 1)));
        i += 1;
    }
    assert(ns.take(segs@.len() as int) =~= ns);
    if out.len() == 0 {
        out.push('/');
        assert(out@ =~= seq!['/']);
    }
    string_from_chars(&out)
}

/// `matchit::Router`, holding configured templates keyed by canonical route.
#[verifier::external_type_specification]
#[verifier::external_body]
#[verifier::reject_recursive_types(T)]
pub struct ExRouter<T>(matchit::Router<T>);

/// The `(route, value)` pairs handed to `insert` on a router, oldest first,
/// whether or not `insert` accepted them.
pub uninterp spec fn routes_inserted(r: matchit::Router<String>) -> Seq<(Seq<char>, Seq<char>)>;

/// Whether `matchit::Router::insert` accepts `route` after the insertions `history`.
pub uninterp spec fn route_accepted(history: Seq<(Seq<char>, Seq<char>)>, route: Seq<char>) -> bool;

/// The value `matchit::Router::at` finds for `path` after the insertions `history`.
pub uninterp spec fn route_lookup(history: Seq<(Seq<char>, Seq<char>)>, path: Seq<char>) -> Option<Seq<char>>;

/// `matchit::Router::new`: a router with no routes.
#[verifier::external_body]
fn router_new() -> (r: matchit::Router<String>)
    ensures
        routes_inserted(r) == Seq::<(Seq<char>, Seq<char>)>::empty(),
{
    matchit::Router::new()
}

/// How many `:` characters `s` holds; each named route parameter starts with one.
pub open spec fn colon_count(s: Seq<char>) -> nat
    decreases s.len(),
{
    if s.len() == 0 {
        0
    } else {
        colon_count(s.drop_last()) + if s.last() == ':' { 1nat } else { 0nat }
    }
}

/// Whether the router can take `route`: `matchit` names the parameters of a
/// route `a` to `z` and panics on a 26th, so a route holds at most 25.
pub open spec fn router_can_take(route: Seq<char>) -> bool {
    colon_count(route) < 26
}

/// Whether `route` holds few enough `:` characters for the router.
fn fits_router(route: &str) -> (b: bool)
    ensures
        b == router_can_take(route@),
{
    let cs = crate::text::chars_of(route);
    let mut count: usize = 0;
    let mut i: usize = 0;
    while i < cs.len()
        invariant
            cs@ == route@,
            i <= cs@.len(),
            count == colon_count(cs@.take(i as int)),
            count < 26,
        decreases cs@.len() - i,
    {
        assert(cs@.take(i as int + 1).drop_last() =~= cs@.take(i as int));
        if cs[i] == ':' {
            if count == 25 {
                proof {
                    lemma_colon_count_prefix(cs@, i as int + 1);
                }
                return false;
            }
            count += 1;
        }
        i += 1;
    }
    assert(cs@.take(cs@.len() as int) =~= cs@);
    true
}

/// A prefix holds no more `:` characters than the whole.
proof fn lemma_colon_count_prefix(s: Seq<char>, n: int)
    requires
        0 <= n <= s.len(),
    ensures
        colon_count(s.take(n)) <= colon_count(s),
    decreases s.len(),
{
    if n < s.len() {
        assert(s.drop_last().take(n) =~= s.take(n));
        lemma_colon_count_prefix(s.drop_last(), n);
    } else {
        assert(s.take(n) =~= s);
    }
}

/// `matchit::Router::insert`; reports whether the route was accepted. The
/// route holds at most 25 parameters, the most `matchit` names without
/// panicking.
#[verifier::external_body]
fn router_insert(r: &mut matchit::Router<String>, route: String, value: String) -> (ok: bool)
    requires
        router_can_take(route@),
    ensures
        routes_inserted(*final(r)) == routes_inserted(*old(r)).push((route@, value@)),
        ok == route_accepted(routes_inserted(*old(r)), route@),
{
    r.insert(route, value).is_ok()
}

/// `matchit::Router::at`, with the matched value copied out.
#[verifier::external_body]
fn router_at(r: &matchit::Router<String>, path: &str) -> (v: Option<String>)
    ensures
        match v {
            Some(s) => route_lookup(routes_inserted(*r), path@) == Some(s@),
            None => route_lookup(routes_inserted(*r), path@) is None,
        },
        v matches Some(s) ==> exists|i: int| 0 <= i < routes_inserted(*r).len() && #[trigger] routes_inserted(*r)[i].1 == s@,
{
    r.at(path).ok().map(|m| m.value.clone())
}

/// Resolves request paths to configured endpoint templates.
pub struct EndpointMatcher {
    router: matchit::Router<String>,
}

/// The insertions a matcher built from `patterns` makes: each template the
/// router can take, in order, under its canonical route, valued by the
/// template as configured.
pub open spec fn template_routes(patterns: Seq<String>) -> Seq<(Seq<char>, Seq<char>)>
    decreases patterns.len(),
{
    if patterns.len() == 0 {
        Seq::empty()
    } else {
        let prev = template_routes(patterns.drop_last());
        let route = canonical_path(patterns.last()@);
        if router_can_take(route) {
            prev.push((route, patterns.last()@))
        } else {
            prev
        }
    }
}

/// A resolved endpoint is one of the configured patterns: every insertion a
/// matcher makes is valued by one of its templates.
pub proof fn lemma_template_values(patterns: Seq<String>)
    ensures
        forall|k: int| 0 <= k < template_routes(patterns).len() ==> exists|i: int|
            0 <= i < patterns.len() && #[trigger] template_routes(patterns)[k].1 == patterns[i]@,
    decreases patterns.len(),
{
    if patterns.len() > 0 {
        let p = patterns.drop_last();
        lemma_template_values(p);
        assert forall|k: int| 0 <= k < template_routes(patterns).len() implies exists|i: int|
            0 <= i < patterns.len() && #[trigger] template_routes(patterns)[k].1 == patterns[i]@ by {
            if k < template_routes(p).len() {
                assert(template_routes(patterns)[k] == template_routes(p)[k]);
                let i = choose|i: int| 0 <= i < p.len() && #[trigger] template_routes(p)[k].1 == p[i]@;
                assert(patterns[i] == p[i]);
            } else {
                assert(template_routes(patterns)[k].1 == patterns[patterns.len() - 1]@);
            }
        }
    }
}

/// Every configured template whose canonical route holds at most 25 `:`
/// characters (so at most 25 named parameters) is handed to the router,
/// under its canonical route and valued by the template as configured; in
/// particular a matcher built from one such template hands it to the router
/// and nothing else.
pub proof fn lemma_templates_are_registered(patterns: Seq<String>, i: int)
    requires
        0 <= i < patterns.len(),
        colon_count(canonical_path(patterns[i]@)) <= 25,
    ensures
        exists|k: int| 0 <= k < template_routes(patterns).len()
            && #[trigger] template_routes(patterns)[k] == (canonical_path(patterns[i]@), patterns[i]@),
        patterns.len() == 1 ==> template_routes(patterns) == seq![(canonical_path(patterns[0]@), patterns[0]@)],
    decreases patterns.len(),
{
    let p = patterns.drop_last();
    let prev = template_routes(p);
    if i == patterns.len() - 1 {
        let e = (canonical_path(patterns[i]@), patterns[i]@);
        assert(template_routes(patterns) == prev.push(e));
        assert(template_routes(patterns)[prev.len() as int] == e);
    } else {
        assert(p[i] == patterns[i]);
        lemma_templates_are_registered(p, i);
        let k = choose|k: int| 0 <= k < prev.len() && #[trigger] prev[k] == (canonical_path(p[i]@), p[i]@);
        assert(template_routes(patterns)[k] == prev[k]);
    }
    if patterns.len() == 1 {
        assert(template_routes(p) == Seq::<(Seq<char>, Seq<char>)>::empty());
        assert(template_routes(patterns) =~= seq![(canonical_path(patterns[0]@), patterns[0]@)]);
    }
}

impl EndpointMatcher {
    /// The insertions this matcher's router has seen.
    pub closed spec fn history(&self) -> Seq<(Seq<char>, Seq<char>)> {
        routes_inserted(self.router)
    }

    /// Registers every template, in order, under its canonical route; the
    /// stored value is the template as configured. A template the router
    /// rejects (e.g. a conflicting parameter), or one with more parameters
    /// than it can name, is skipped.
    pub fn new(patterns: &[String]) -> (m: EndpointMatcher)
        ensures
            m.history() == template_routes(patterns@),
            forall|k: int| 0 <= k < m.history().len() ==> exists|i: int|
                0 <= i < patterns@.len() && #[trigger] m.history()[k].1 == patterns@[i]@,
    {
        let mut router = router_new();
        let mut i: usize = 0;
        while i < patterns.len()
            invariant
                i <= patterns@.len(),
                routes_inserted(router) == template_routes(patterns@.take(i as int)),
            decreases patterns@.len() - i,
        {
            let route = canonical(patterns[i].as_str());
            assert(patterns@.take(i as int + 1).drop_last() =~= patterns@.take(i as int));
            assert(patterns@.take(i as int + 1).last() == patterns@[i as int]);
            if fits_router(route.as_str()) {
                let _accepted = router_insert(&mut router, route, patterns[i].clone());
            }
            i += 1;
        }
        assert(patterns@.take(patterns@.len() as int) =~= patterns@);
        proof {
            lemma_template_values(patterns@);
        }
        EndpointMatcher { router }
    }

    /// The configured template that `path` resolves to, or `None` when no
    /// template matches; the path is canonicalized before matching.
    pub fn resolve(&self, path: &str) -> (r: Option<String>)
        ensures
            match r {
                Some(t) => route_lookup(self.history(), canonical_path(path@)) == Some(t@),
                None => route_lookup(self.history(), canonical_path(path@)) is None,
            },
            r matches Some(t) ==> exists|k: int| 0 <= k < self.history().len() && #[trigger] self.history()[k].1 == t@,
    {
        let c = canonical(path);
        router_at(&self.router, c.as_str())
    }
}

} // verus!

verus! {

proof fn lemma_slashed_concat(x: Seq<Seq<char>>, y: Seq<Seq<char>>)
    ensures
        slashed(x + y) == slashed(x) + slashed(y),
    decreases y.len(),
{
    if y.len() == 0 {
        assert(x + y =~= x);
        assert(slashed(x) + slashed(y) =~= slashed(x));
    } else {
        lemma_slashed_concat(x, y.drop_last());
        assert((x + y).drop_last() =~= x + y.drop_last());
        assert(slashed(x) + (slashed(y.drop_last()) + seq!['/'] + y.last()) =~= slashed(x) + slashed(y.drop_last()) + seq!['/'] + y.last());
    }
}

proof fn lemma_nonempty_concat(x: Seq<Seq<char>>, y: Seq<Seq<char>>)
    ensures
        nonempty(x + y) == nonempty(x) + nonempty(y),
{
    Seq::filter_distributes_over_add(x, y, |s: Seq<char>| s.len() > 0);
}

proof fn lemma_nonempty_of_empty_piece()
    ensures
        nonempty(seq![Seq::<char>::empty()]) == Seq::<Seq<char>>::empty(),
{
    reveal(Seq::filter);
    let one = seq![Seq::<char>::empty()];
    assert(one.drop_last() =~= Seq::<Seq<char>>::empty());
    assert(nonempty(one.drop_last()) =~= Seq::<Seq<char>>::empty());
    assert(one.last().len() == 0);
}

/// The query string does not take part in matching: a path with `?query`
/// appended canonicalizes as the path alone.
pub proof fn lemma_query_is_stripped(p: Seq<char>, query: Seq<char>)
    requires
        !p.contains('?'),
    ensures
        canonical_path(p + seq!['?'] + query) == canonical_path(p),
{
    lemma_split_concat(p, query, '?');
    crate::pathmatch::lemma_split_no_sep(p, '?');
    lemma_split_nonempty(query, '?');
    assert(without_query(p + seq!['?'] + query) == p);
    assert(without_query(p) == p);
}

/// A trailing slash does not take part in matching.
pub proof fn lemma_trailing_slash_is_ignored(p: Seq<char>)
    requires
        !p.contains('?'),
    ensures
        canonical_path(p + seq!['/']) == canonical_path(p),
{
    let q = p + seq!['/'];
    assert(!q.contains('?')) by {
        if q.contains('?') {
            let i = choose|i: int| 0 <= i < q.len() && q[i] == '?';
            assert(p[i] == '?');
        }
    }
    crate::pathmatch::lemma_split_no_sep(p, '?');
    crate::pathmatch::lemma_split_no_sep(q, '?');
    lemma_split_concat(p, Seq::empty(), '/');
    assert(p + seq!['/'] + Seq::<char>::empty() =~= q);
    assert(split_on(Seq::<char>::empty(), '/') =~= seq![Seq::<char>::empty()]);
    lemma_nonempty_concat(split_on(p, '/'), seq![Seq::<char>::empty()]);
    lemma_nonempty_of_empty_piece();
    assert(nonempty(split_on(q, '/')) =~= nonempty(split_on(p, '/')));
}

/// Doubled slashes collapse: `a//b` canonicalizes as `a/b`.
pub proof fn lemma_duplicate_slash_collapses(a: Seq<char>, b: Seq<char>)
    requires
        !a.contains('?'),
        !b.contains('?'),
    ensures
        canonical_path(a + seq!['/', '/'] + b) == canonical_path(a + seq!['/'] + b),
{
    let one = a + seq!['/'] + b;
    let two = a + seq!['/', '/'] + b;
    assert(!one.contains('?')) by {
        if one.contains('?') {
            let i = choose|i: int| 0 <= i < one.len() && one[i] == '?';
            if i < a.len() { assert(a[i] == '?'); } else if i > a.len() { assert(b[i - a.len() - 1] == '?'); }
        }
    }
    assert(!two.contains('?')) by {
        if two.contains('?') {
            let i = choose|i: int| 0 <= i < two.len() && two[i] == '?';
            if i < a.len() { assert(a[i] == '?'); } else if i > a.len() + 1 { assert(b[i - a.len() - 2] == '?'); }
        }
    }
    crate::pathmatch::lemma_split_no_sep(one, '?');
    crate::pathmatch::lemma_split_no_sep(two, '?');
    let tail = seq!['/'] + b;
    assert(two =~= a + seq!['/'] + tail);
    lemma_split_concat(a, tail, '/');
    assert(tail =~= Seq::<char>::empty() + seq!['/'] + b);
    lemma_split_concat(Seq::empty(), b, '/');
    lemma_split_concat(a, b, '/');
    assert(split_on(Seq::<char>::empty(), '/') =~= seq![Seq::<char>::empty()]);
    lemma_nonempty_concat(seq![Seq::<char>::empty()], split_on(b, '/'));
    lemma_nonempty_of_empty_piece();
    lemma_nonempty_concat(split_on(a, '/'), split_on(tail, '/'));
    lemma_nonempty_concat(split_on(a, '/'), split_on(b, '/'));
    assert(nonempty(split_on(tail, '/')) =~= nonempty(split_on(b, '/')));
}


/// Segments as a canonical path holds them: non-empty, with neither a slash
/// nor a question mark inside.
pub open spec fn plain_segments(ns: Seq<Seq<char>>) -> bool {
    forall|i: int| 0 <= i < ns.len() ==> {
        &&& (#[trigger] ns[i]).len() > 0
        &&& !ns[i].contains('/')
        &&& !ns[i].contains('?')
    }
}

/// Two slashes in a row at position `i`.
pub open spec fn double_slash_at(c: Seq<char>, i: int) -> bool {
    c[i] == '/' && c[i + 1] == '/'
}

/// Every character of a piece of `split_on(s, sep)` is a character of `s`
/// other than `sep`.
proof fn lemma_split_piece_chars(s: Seq<char>, sep: char)
    ensures
        forall|i: int, x: char| 0 <= i < split_on(s, sep).len() && #[trigger] split_on(s, sep)[i].contains(x)
            ==> s.contains(x) && x != sep,
    decreases s.len(),
{
    if s.len() > 0 {
        let s1 = s.drop_last();
        lemma_split_piece_chars(s1, sep);
        lemma_split_nonempty(s1, sep);
        let t = split_on(s1, sep);
        assert forall|i: int, x: char| 0 <= i < split_on(s, sep).len() && #[trigger] split_on(s, sep)[i].contains(x)
            implies s.contains(x) && x != sep by {
            let piece = split_on(s, sep)[i];
            let k = choose|k: int| 0 <= k < piece.len() && piece[k] == x;
            if s.last() == sep {
                if i < t.len() {
                    assert(t[i].contains(x)) by { assert(t[i][k] == x); }
                    let m = choose|m: int| 0 <= m < s1.len() && s1[m] == x;
                    assert(s[m] == x);
                }
            } else if i < t.len() - 1 {
                assert(t[i].contains(x)) by { assert(t[i][k] == x); }
                let m = choose|m: int| 0 <= m < s1.len() && s1[m] == x;
                assert(s[m] == x);
            } else if k < t.last().len() {
                assert(t[t.len() - 1].contains(x)) by { assert(t.last()[k] == x); }
                let m = choose|m: int| 0 <= m < s1.len() && s1[m] == x;
                assert(s[m] == x);
            } else {
                assert(s[s.len() - 1] == x);
            }
        }
    }
}

proof fn lemma_nonempty_plain(segs: Seq<Seq<char>>)
    requires
        forall|i: int| 0 <= i < segs.len() ==> !(#[trigger] segs[i]).contains('/') && !segs[i].contains('?'),
    ensures
        plain_segments(nonempty(segs)),
    decreases segs.len(),
{
    reveal(Seq::filter);
    if segs.len() > 0 {
        lemma_nonempty_plain(segs.drop_last());
        let prev = nonempty(segs.drop_last());
        assert(segs.drop_last().filter(|s: Seq<char>| s.len() > 0) == prev);
        assert forall|i: int| 0 <= i < nonempty(segs).len() implies {
            &&& (#[trigger] nonempty(segs)[i]).len() > 0
            &&& !nonempty(segs)[i].contains('/')
            &&& !nonempty(segs)[i].contains('?')
        } by {
            if i < prev.len() {
                assert(nonempty(segs)[i] == prev[i]);
            } else {
                assert(nonempty(segs)[i] == segs[segs.len() - 1]);
            }
        }
    }
}

/// The segments a canonical path is built from are plain.
proof fn lemma_canonical_segments(p: Seq<char>)
    ensures
        plain_segments(nonempty(split_on(without_query(p), '/'))),
{
    lemma_split_nonempty(p, '?');
    lemma_split_piece_chars(p, '?');
    let w = without_query(p);
    assert(!w.contains('?')) by {
        if w.contains('?') {
            assert(split_on(p, '?')[0].contains('?'));
        }
    }
    lemma_split_piece_chars(w, '/');
    let segs = split_on(w, '/');
    assert forall|i: int| 0 <= i < segs.len() implies !(#[trigger] segs[i]).contains('/') && !segs[i].contains('?') by {
        if segs[i].contains('/') {
            assert(segs[i].contains('/'));
        }
        if segs[i].contains('?') {
            assert(w.contains('?'));
        }
    }
    lemma_nonempty_plain(segs);
}

proof fn lemma_slashed_shape(ns: Seq<Seq<char>>)
    requires
        plain_segments(ns),
    ensures
        slashed(ns).len() > 0 <==> ns.len() > 0,
        ns.len() > 0 ==> slashed(ns)[0] == '/' && slashed(ns).last() != '/',
        !slashed(ns).contains('?'),
        forall|i: int| 0 <= i < slashed(ns).len() - 1 ==> !#[trigger] double_slash_at(slashed(ns), i),
    decreases ns.len(),
{
    if ns.len() > 0 {
        let ps = ns.drop_last();
        assert(plain_segments(ps)) by {
            assert forall|i: int| 0 <= i < ps.len() implies {
                &&& (#[trigger] ps[i]).len() > 0
                &&& !ps[i].contains('/')
                &&& !ps[i].contains('?')
            } by {
                assert(ps[i] == ns[i]);
            }
        }
        lemma_slashed_shape(ps);
        let a = slashed(ps);
        let l = ns.last();
        let c = slashed(ns);
        assert(l == ns[ns.len() - 1]);
        assert(l.len() > 0 && !l.contains('/') && !l.contains('?'));
        assert(c == a + seq!['/'] + l);
        assert(c.len() == a.len() + 1 + l.len());
        assert(c[0] == '/') by {
            if a.len() > 0 {
                assert(c[0] == a[0]);
            }
        }
        assert(c.last() != '/') by {
            assert(c.last() == l[l.len() - 1]);
            if l[l.len() - 1] == '/' {
                assert(l.contains('/'));
            }
        }
        assert(!c.contains('?')) by {
            if c.contains('?') {
                let i = choose|i: int| 0 <= i < c.len() && c[i] == '?';
                if i < a.len() {
                    assert(a[i] == '?');
                    assert(a.contains('?'));
                } else if i > a.len() {
                    assert(l[i - a.len() - 1] == '?');
                    assert(l.contains('?'));
                }
            }
        }
        assert forall|i: int| 0 <= i < c.len() - 1 implies !#[trigger] double_slash_at(c, i) by {
            if i + 1 < a.len() {
                assert(c[i] == a[i] && c[i + 1] == a[i + 1]);
                assert(!double_slash_at(a, i));
            } else if i + 1 == a.len() {
                assert(c[i] == a.last());
            } else if i == a.len() {
                assert(c[i + 1] == l[0]);
                if l[0] == '/' {
                    assert(l.contains('/'));
                }
            } else {
                assert(c[i] == l[i - a.len() - 1]);
                if l[i - a.len() - 1] == '/' {
                    assert(l.contains('/'));
                }
            }
        }
    }
}

proof fn lemma_slashed_resplit(ns: Seq<Seq<char>>)
    requires
        plain_segments(ns),
    ensures
        nonempty(split_on(slashed(ns), '/')) == ns,
    decreases ns.len(),
{
    if ns.len() == 0 {
        assert(split_on(Seq::<char>::empty(), '/') =~= seq![Seq::<char>::empty()]);
        lemma_nonempty_of_empty_piece();
        assert(ns =~= Seq::<Seq<char>>::empty());
    } else {
        let ps = ns.drop_last();
        assert(plain_segments(ps)) by {
            assert forall|i: int| 0 <= i < ps.len() implies {
                &&& (#[trigger] ps[i]).len() > 0
                &&& !ps[i].contains('/')
                &&& !ps[i].contains('?')
            } by {
                assert(ps[i] == ns[i]);
            }
        }
        lemma_slashed_resplit(ps);
        let l = ns.last();
        assert(l == ns[ns.len() - 1]);
        lemma_split_concat(slashed(ps), l, '/');
        crate::pathmatch::lemma_split_no_sep(l, '/');
        lemma_nonempty_concat(split_on(slashed(ps), '/'), seq![l]);
        assert(nonempty(seq![l]) == seq![l]) by {
            reveal(Seq::filter);
            let one = seq![l];
            assert(one.drop_last() =~= Seq::<Seq<char>>::empty());
            assert(nonempty(one.drop_last()) =~= Seq::<Seq<char>>::empty());
            assert(one.last() == l);
        }
        assert(ps + seq![l] =~= ns);
    }
}

/// A canonical path starts with a slash, holds no `?` and no two slashes in
/// a row, and ends with a slash only when it is `/` itself; canonicalizing
/// it again leaves it as it is.
pub proof fn lemma_canonical_form(p: Seq<char>)
    ensures
        canonical_path(p).len() > 0,
        canonical_path(p)[0] == '/',
        !canonical_path(p).contains('?'),
        forall|i: int| 0 <= i < canonical_path(p).len() - 1 ==> !#[trigger] double_slash_at(canonical_path(p), i),
        canonical_path(p).last() == '/' ==> canonical_path(p) == seq!['/'],
        canonical_path(canonical_path(p)) == canonical_path(p),
{
    let ns = nonempty(split_on(without_query(p), '/'));
    lemma_canonical_segments(p);
    lemma_slashed_shape(ns);
    let c = canonical_path(p);
    if ns.len() == 0 {
        assert(c == seq!['/']);
        assert(!c.contains('?')) by {
            if c.contains('?') {
                let i = choose|i: int| 0 <= i < c.len() && c[i] == '?';
                assert(c[0] == '/');
            }
        }
        crate::pathmatch::lemma_split_no_sep(c, '?');
        assert(without_query(c) == c);
        lemma_split_concat(Seq::empty(), Seq::empty(), '/');
        assert(Seq::<char>::empty() + seq!['/'] + Seq::<char>::empty() =~= c);
        assert(split_on(Seq::<char>::empty(), '/') =~= seq![Seq::<char>::empty()]);
        lemma_nonempty_concat(seq![Seq::<char>::empty()], seq![Seq::<char>::empty()]);
        lemma_nonempty_of_empty_piece();
        assert(nonempty(split_on(c, '/')) =~= Seq::<Seq<char>>::empty());
    } else {
        assert(c == slashed(ns));
        crate::pathmatch::lemma_split_no_sep(c, '?');
        assert(without_query(c) == c);
        lemma_slashed_resplit(ns);
    }
}

} // verus!
