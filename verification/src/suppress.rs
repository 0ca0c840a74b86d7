//! Per-endpoint suppression of JSON paths from analysis. A rule is a plain
//! subtree (`"a.b"` also hides `"a.b.c"`), a `*` glob matching exactly one
//! segment, or `re:<regex>`, which hides a path when the expression matches
//! the path or any of its ancestor prefixes.
use vstd::prelude::*;
use crate::config::EndpointSettings;
use crate::maps::{entries_map, keys_unique, lemma_entries_map_dom, lemma_entries_map_push, lemma_entries_map_update, lemma_entries_map_value};
use crate::pathmatch::{ancestor_list, ancestor_prefixes, glob_match, glob_matches, is_ancestor_prefix, lemma_ancestor_list};
use crate::text::{chars_of, chars_slice, chars_start_with, find_char, str_eq, string_from_chars};

verus! {

broadcast use vstd::std_specs::vec::group_vec_axioms;

/// `regex::Regex`, compiled from a rule's expression.
#[verifier::external_type_specification]
#[verifier::external_body]
pub struct ExRegex(regex::Regex);

/// `regex::Error`, the reason an expression does not compile.
#[verifier::external_type_specification]
#[verifier::external_body]
pub struct ExRegexError(regex::Error);

/// Whether `regex::Regex::new` accepts `pattern`.
pub uninterp spec fn regex_compiles(pattern: Seq<char>) -> bool;

/// Whether `regex::Regex::is_match` finds the compiled `pattern` in `haystack`.
pub uninterp spec fn regex_finds(pattern: Seq<char>, haystack: Seq<char>) -> bool;

/// A compiled expression together with the text it was compiled from.
pub struct CompiledRegex {
    source: Ghost<Seq<char>>,
    regex: regex::Regex,
}

impl CompiledRegex {
    pub closed spec fn source(&self) -> Seq<char> {
        self.source@
    }
}

/// Compiles `expr` with `regex::Regex::new`; succeeds exactly when
/// `regex_compiles(expr)`, and the result remembers `expr` as its source.
#[verifier::external_body]
fn compile_regex(expr: &str) -> (r: Result<CompiledRegex, regex::Error>)
    ensures
        r is Ok <==> regex_compiles(expr@),
        r matches Ok(c) ==> c.source() == expr@,
{
    regex::Regex::new(expr).map(|regex| CompiledRegex { source: Ghost(expr@), regex })
}

/// `regex::Regex::is_match` on `haystack`.
#[verifier::external_body]
fn regex_is_match(c: &CompiledRegex, haystack: &str) -> (b: bool)
    ensures
        b == regex_finds(c.source(), haystack@),
{
    c.regex.is_match(haystack)
}

/// A second handle on the same compiled expression (`Regex::clone`).
#[verifier::external_body]
fn clone_regex(c: &CompiledRegex) -> (r: CompiledRegex)
    ensures
        r.source() == c.source(),
{
    CompiledRegex { source: c.source, regex: c.regex.clone() }
}

/// The prefix that marks a rule as a regular expression.
pub open spec fn regex_prefix() -> Seq<char> {
    seq!['r', 'e', ':']
}

pub open spec fn is_regex_rule(raw: Seq<char>) -> bool {
    raw.len() >= 3 && raw.take(3) == regex_prefix()
}

/// Whether the rule written as `raw` hides `path`.
pub open spec fn rule_matches(raw: Seq<char>, path: Seq<char>) -> bool {
    if is_regex_rule(raw) {
        exists|q: Seq<char>| is_ancestor_prefix(path, q) && #[trigger] regex_finds(raw.skip(3), q)
    } else if raw.contains('*') {
        glob_matches(path, raw)
    } else {
        path == raw || (raw.len() < path.len() && path.take(raw.len() as int) == raw && path[raw.len() as int] == '.')
    }
}

/// Whether the rules written as `raws` all compile.
pub open spec fn rules_compile(raws: Seq<Seq<char>>) -> bool {
    forall|i: int| 0 <= i < raws.len() && is_regex_rule(#[trigger] raws[i]) ==> regex_compiles(raws[i].skip(3))
}

/// Whether some rule of `endpoint` hides `path`.
pub open spec fn path_suppressed(rules: Map<Seq<char>, Seq<Seq<char>>>, endpoint: Seq<char>, path: Seq<char>) -> bool {
    rules.dom().contains(endpoint)
        && exists|i: int| 0 <= i < rules[endpoint].len() && rule_matches(#[trigger] rules[endpoint][i], path)
}

enum Matcher {
    Subtree,
    Glob,
    Regex(CompiledRegex),
}

struct Rule {
    raw: String,
    matcher: Matcher,
}

impl Rule {
    closed spec fn wf(&self) -> bool {
        match self.matcher {
            Matcher::Regex(c) => is_regex_rule(self.raw@) && c.source() == self.raw@.skip(3),
            Matcher::Glob => !is_regex_rule(self.raw@) && self.raw@.contains('*'),
            Matcher::Subtree => !is_regex_rule(self.raw@) && !self.raw@.contains('*'),
        }
    }

    fn duplicate(&self) -> (r: Rule)
        requires
            self.wf(),
        ensures
            r.wf(),
            r.raw@ == self.raw@,
    {
        let matcher = match &self.matcher {
            Matcher::Subtree => Matcher::Subtree,
            Matcher::Glob => Matcher::Glob,
            Matcher::Regex(c) => Matcher::Regex(clone_regex(c)),
        };
        Rule { raw: self.raw.clone(), matcher }
    }

    /// Whether this rule hides `path`.
    fn matches(&self, path: &str) -> (b: bool)
        requires
            self.wf(),
        ensures
            b == rule_matches(self.raw@, path@),
    {
        match &self.matcher {
            Matcher::Subtree => {
                let p = chars_of(path);
                let r = chars_of(self.raw.as_str());
                if crate::text::chars_equal(&p, &r) {
                    return true;
                }
                if r.len() < p.len() && chars_start_with(&p, &r) && p[r.len()] == '.' {
                    return true;
                }
                false
            },
            Matcher::Glob => glob_match(path, self.raw.as_str()),
            Matcher::Regex(c) => {
                let prefixes = ancestor_prefixes(path);
                let ghost list = crate::order::texts(prefixes@);
                let mut i: usize = 0;
                while i < prefixes.len()
                    invariant
                        list == crate::order::texts(prefixes@),
                        list == ancestor_list(path@),
                        i <= prefixes@.len(),
                        c.source() == self.raw@.skip(3),
                        is_regex_rule(self.raw@),
                        forall|j: int| 0 <= j < i ==> !regex_finds(c.source(), #[trigger] list[j]),
                    decreases prefixes@.len() - i,
                {
                    if regex_is_match(c, prefixes[i].as_str()) {
                        proof {
                            lemma_ancestor_list(path@, list[i as int]);
                        }
                        return true;
                    }
                    i += 1;
                }
                proof {
                    assert forall|q: Seq<char>| is_ancestor_prefix(path@, q) implies !#[trigger] regex_finds(self.raw@.skip(3), q) by {
                        lemma_ancestor_list(path@, q);
                        let j = choose|j: int| 0 <= j < list.len() && list[j] == q;
                    }
                }
                false
            },
        }
    }
}

fn is_regex_text(raw: &Vec<char>) -> (b: bool)
    ensures
        b == is_regex_rule(raw@),
{
    let prefix: Vec<char> = vec!['r', 'e', ':'];
    assert(prefix@ =~= regex_prefix());
    chars_start_with(raw, &prefix)
}

/// Compiles each pattern into a rule; fails on the first `re:` pattern whose
/// expression does not compile.
fn compile_rules(patterns: &Vec<String>) -> (r: Result<Vec<Rule>, regex::Error>)
    ensures
        r is Ok <==> rules_compile(patterns.deep_view()),
        r matches Ok(rules) ==> rules@.len() == patterns@.len()
            && forall|i: int| 0 <= i < rules@.len() ==> (#[trigger] rules@[i]).wf() && rules@[i].raw@ == patterns@[i]@,
{
    let ghost raws = patterns.deep_view();
    let mut rules: Vec<Rule> = Vec::new();
    let mut i: usize = 0;
    while i < patterns.len()
        invariant
            i <= patterns@.len(),
            raws == patterns.deep_view(),
            rules@.len() == i,
            forall|k: int| 0 <= k < i ==> (#[trigger] rules@[k]).wf() && rules@[k].raw@ == patterns@[k]@,
            forall|k: int| 0 <= k < i && is_regex_rule(#[trigger] raws[k]) ==> regex_compiles(raws[k].skip(3)),
        decreases patterns@.len() - i,
    {
        let raw_chars = chars_of(patterns[i].as_str());
        let matcher = if is_regex_text(&raw_chars) {
            let expr = string_from_chars(&chars_slice(&raw_chars, 3, raw_chars.len()));
            assert(raw_chars@.subrange(3, raw_chars@.len() as int) =~= raw_chars@.skip(3));
            match compile_regex(expr.as_str()) {
                Ok(c) => Matcher::Regex(c),
                Err(e) => {
                    assert(is_regex_rule(raws[i as int]) && !regex_compiles(raws[i as int].skip(3)));
                    return Err(e);
                },
            }
        } else if find_char(&raw_chars, '*').is_some() {
            Matcher::Glob
        } else {
            Matcher::Subtree
        };
        rules.push(Rule { raw: patterns[i].clone(), matcher });
        i += 1;
    }
    Ok(rules)
}

/// Suppression rules per endpoint template.
pub struct SuppressRules {
    per_endpoint: Vec<(String, Vec<Rule>)>,
}

/// The rule texts of one endpoint's rules.
spec fn raw_texts(rules: Seq<Rule>) -> Seq<Seq<char>> {
    Seq::new(rules.len(), |i: int| rules[i].raw@)
}

impl SuppressRules {
    closed spec fn entry_seq(&self) -> Seq<(Seq<char>, Seq<Seq<char>>)> {
        Seq::new(self.per_endpoint@.len(), |i: int| (self.per_endpoint@[i].0@, raw_texts(self.per_endpoint@[i].1@)))
    }

    #[verifier::type_invariant]
    closed spec fn inv(self) -> bool {
        &&& keys_unique(self.entry_seq())
        &&& forall|i: int, j: int| 0 <= i < self.per_endpoint@.len() && 0 <= j < self.per_endpoint@[i].1@.len()
            ==> (#[trigger] self.per_endpoint@[i].1@[j]).wf()
    }

    /// No rules at all.
    pub fn new() -> (r: SuppressRules)
        ensures
            r@ == Map::<Seq<char>, Seq<Seq<char>>>::empty(),
    {
        let r = SuppressRules { per_endpoint: Vec::new() };
        assert(r.entry_seq() =~= Seq::<(Seq<char>, Seq<Seq<char>>)>::empty());
        r
    }

    fn position(&self, endpoint: &str) -> (r: Option<usize>)
        ensures
            match r {
                Some(i) => i < self.per_endpoint@.len() && self.per_endpoint@[i as int].0@ == endpoint@
                    && self@.dom().contains(endpoint@) && self@[endpoint@] == raw_texts(self.per_endpoint@[i as int].1@),
                None => !self@.dom().contains(endpoint@),
            },
    {
        proof {
            use_type_invariant(self);
        }
        let mut i: usize = 0;
        while i < self.per_endpoint.len()
            invariant
                i <= self.per_endpoint@.len(),
                keys_unique(self.entry_seq()),
                forall|j: int| 0 <= j < i ==> self.per_endpoint@[j].0@ != endpoint@,
            decreases self.per_endpoint@.len() - i,
        {
            if str_eq(self.per_endpoint[i].0.as_str(), endpoint) {
                proof {
                    lemma_entries_map_value(self.entry_seq(), i as int);
                }
                return Some(i);
            }
            i += 1;
        }
        proof {
            lemma_entries_map_dom(self.entry_seq(), endpoint@);
            if self@.dom().contains(endpoint@) {
                let j = choose|j: int| 0 <= j < self.entry_seq().len() && self.entry_seq()[j].0 == endpoint@;
                assert(self.per_endpoint@[j].0@ == endpoint@);
            }
        }
        None
    }

    /// Whether `path` is hidden for `endpoint`: some rule of that endpoint matches it.
    pub fn is_suppressed(&self, endpoint: &str, path: &str) -> (b: bool)
        ensures
            b == path_suppressed(self@, endpoint@, path@),
    {
        proof {
            use_type_invariant(self);
        }
        match self.position(endpoint) {
            None => false,
            Some(k) => {
                let rules = &self.per_endpoint[k].1;
                let ghost raws = raw_texts(rules@);
                let mut i: usize = 0;
                while i < rules.len()
                    invariant
                        i <= rules@.len(),
                        raws == raw_texts(rules@),
                        self@.dom().contains(endpoint@),
                        self@[endpoint@] == raws,
                        forall|j: int| 0 <= j < rules@.len() ==> (#[trigger] rules@[j]).wf(),
                        forall|j: int| 0 <= j < i ==> !rule_matches(#[trigger] raws[j], path@),
                    decreases rules@.len() - i,
                {
                    if rules[i].matches(path) {
                        assert(rule_matches(self@[endpoint@][i as int], path@));
                        return true;
                    }
                    i += 1;
                }
                false
            },
        }
    }

    /// The rule texts of `endpoint` (empty when it has none).
    pub fn paths_for(&self, endpoint: &str) -> (r: Vec<String>)
        ensures
            Seq::new(r@.len(), |i: int| r@[i]@) == if self@.dom().contains(endpoint@) {
                self@[endpoint@]
            } else {
                Seq::empty()
            },
    {
        match self.position(endpoint) {
            None => {
                let r: Vec<String> = Vec::new();
                assert(r.deep_view() =~= Seq::<Seq<char>>::empty());
                r
            },
            Some(k) => raw_strings(&self.per_endpoint[k].1),
        }
    }

    /// Every endpoint with its rule texts.
    pub fn rules(&self) -> (r: Vec<(String, Vec<String>)>)
        ensures
            keys_unique(Seq::new(r@.len(), |i: int| (r@[i].0@, r@[i].1.deep_view()))),
            entries_map(Seq::new(r@.len(), |i: int| (r@[i].0@, r@[i].1.deep_view()))) == self@,
    {
        proof {
            use_type_invariant(self);
        }
        let mut out: Vec<(String, Vec<String>)> = Vec::new();
        let mut i: usize = 0;
        while i < self.per_endpoint.len()
            invariant
                i <= self.per_endpoint@.len(),
                out@.len() == i,
                forall|k: int| 0 <= k < i ==> (#[trigger] out@[k]).0@ == self.per_endpoint@[k].0@
                    && out@[k].1.deep_view() == raw_texts(self.per_endpoint@[k].1@),
            decreases self.per_endpoint@.len() - i,
        {
            out.push((self.per_endpoint[i].0.clone(), raw_strings(&self.per_endpoint[i].1)));
            i += 1;
        }
        assert(Seq::new(out@.len(), |i: int| (out@[i].0@, out@[i].1.deep_view())) =~= self.entry_seq());
        out
    }

    /// Rules for a single endpoint (none when `patterns` is empty).
    pub fn for_endpoint(endpoint: &str, patterns: &Vec<String>) -> (r: Result<SuppressRules, regex::Error>)
        ensures
            r is Ok <==> rules_compile(patterns.deep_view()),
            r matches Ok(s) ==> s@ == if patterns@.len() == 0 {
                Map::<Seq<char>, Seq<Seq<char>>>::empty()
            } else {
                Map::<Seq<char>, Seq<Seq<char>>>::empty().insert(endpoint@, patterns.deep_view())
            },
    {
        let empty = SuppressRules::new();
        empty.with_endpoint(endpoint, patterns.clone())
    }

    /// A copy of these rules in which `endpoint` has exactly the rules
    /// `patterns`: an empty list removes the endpoint's rules.
    pub fn with_endpoint(&self, endpoint: &str, patterns: Vec<String>) -> (r: Result<SuppressRules, regex::Error>)
        ensures
            r is Ok <==> rules_compile(patterns.deep_view()),
            r matches Ok(s) ==> s@ == if patterns@.len() == 0 {
                self@.remove(endpoint@)
            } else {
                self@.insert(endpoint@, patterns.deep_view())
            },
    {
        proof {
            use_type_invariant(self);
        }
        let compiled = compile_rules(&patterns)?;
        let ghost raws = patterns.deep_view();
        assert(raw_texts(compiled@) =~= raws);
        let mut out: Vec<(String, Vec<Rule>)> = Vec::new();
        let mut i: usize = 0;
        while i < self.per_endpoint.len()
            invariant
                i <= self.per_endpoint@.len(),
                keys_unique(self.entry_seq()),
                forall|a: int, b: int| 0 <= a < self.per_endpoint@.len() && 0 <= b < self.per_endpoint@[a].1@.len()
                    ==> (#[trigger] self.per_endpoint@[a].1@[b]).wf(),
                out@.len() <= i,
                forall|a: int, b: int| 0 <= a < out@.len() && 0 <= b < out@[a].1@.len() ==> (#[trigger] out@[a].1@[b]).wf(),
                Seq::new(out@.len(), |k: int| (out@[k].0@, raw_texts(out@[k].1@)))
                    == crate::maps::keep_keys(self.entry_seq().take(i as int), crate::maps::other_than(endpoint@)),
            decreases self.per_endpoint@.len() - i,
        {
            let ghost before = Seq::new(out@.len(), |k: int| (out@[k].0@, raw_texts(out@[k].1@)));
            proof {
                assert(self.entry_seq().take(i as int + 1) =~= self.entry_seq().take(i as int).push(self.entry_seq()[i as int]));
                crate::maps::lemma_keep_keys_push(self.entry_seq().take(i as int), self.entry_seq()[i as int], crate::maps::other_than(endpoint@));
            }
            if !str_eq(self.per_endpoint[i].0.as_str(), endpoint) {
                let rules = duplicate_rules(&self.per_endpoint[i].1);
                out.push((self.per_endpoint[i].0.clone(), rules));
                assert(Seq::new(out@.len(), |k: int| (out@[k].0@, raw_texts(out@[k].1@))) =~= before.push(self.entry_seq()[i as int]));
            } else {
                assert(Seq::new(out@.len(), |k: int| (out@[k].0@, raw_texts(out@[k].1@))) =~= before);
            }
            i += 1;
        }
        let ghost kept = crate::maps::keep_keys(self.entry_seq(), crate::maps::other_than(endpoint@));
        assert(self.entry_seq().take(self.per_endpoint@.len() as int) =~= self.entry_seq());
        proof {
            crate::maps::lemma_entries_map_keep(self.entry_seq(), crate::maps::other_than(endpoint@));
            assert(entries_map(kept) =~= self@.remove(endpoint@));
            lemma_entries_map_dom(kept, endpoint@);
        }
        if patterns.len() > 0 {
            let ghost before = Seq::new(out@.len(), |k: int| (out@[k].0@, raw_texts(out@[k].1@)));
            proof {
                lemma_entries_map_push(before, endpoint@, raws);
            }
            out.push((string_of(endpoint), compiled));
            assert(Seq::new(out@.len(), |k: int| (out@[k].0@, raw_texts(out@[k].1@))) =~= before.push((endpoint@, raws)));
            assert(self@.remove(endpoint@).insert(endpoint@, raws) =~= self@.insert(endpoint@, raws));
        }
        Ok(SuppressRules { per_endpoint: out })
    }

    /// Rules for every endpoint with a non-empty suppress list; a later entry
    /// for the same template replaces an earlier one. Fails on the first `re:`
    /// expression that does not compile.
    pub fn from_config(endpoints: &[EndpointSettings]) -> (r: Result<SuppressRules, regex::Error>)
        ensures
            r is Ok <==> forall|i: int| 0 <= i < endpoints@.len() ==> rules_compile(
                #[trigger] settings_rules(endpoints@[i]),
            ),
            r matches Ok(s) ==> s@ == configured_rules(endpoints@, endpoints@.len() as int),
    {
        let mut rules = SuppressRules::new();
        let mut i: usize = 0;
        while i < endpoints.len()
            invariant
                i <= endpoints@.len(),
                rules@ == configured_rules(endpoints@, i as int),
                forall|k: int| 0 <= k < i ==> rules_compile(#[trigger] settings_rules(endpoints@[k])),
            decreases endpoints@.len() - i,
        {
            if endpoints[i].suppress_paths.len() > 0 {
                let paths = endpoints[i].suppress_paths.clone();
                assert(paths.deep_view() =~= endpoints@[i as int].suppress_paths.deep_view());
                match rules.with_endpoint(endpoints[i].pattern.as_str(), paths) {
                    Ok(next) => {
                        rules = next;
                    },
                    Err(e) => {
                        assert(!rules_compile(settings_rules(endpoints@[i as int])));
                        return Err(e);
                    },
                }
            } else {
                assert(rules_compile(settings_rules(endpoints@[i as int])));
            }
            i += 1;
        }
        Ok(rules)
    }

    /// Checks that every pattern compiles, returning the patterns unchanged.
    pub fn compile(patterns: &Vec<String>) -> (r: Result<Vec<String>, regex::Error>)
        ensures
            r is Ok <==> rules_compile(patterns.deep_view()),
            r matches Ok(v) ==> v@ == patterns@,
    {
        compile_rules(patterns)?;
        Ok(patterns.clone())
    }
}

impl View for SuppressRules {
    type V = Map<Seq<char>, Seq<Seq<char>>>;

    closed spec fn view(&self) -> Map<Seq<char>, Seq<Seq<char>>> {
        entries_map(self.entry_seq())
    }
}

impl Clone for SuppressRules {
    fn clone(&self) -> (r: Self)
        ensures
            r@ == self@,
    {
        proof {
            use_type_invariant(self);
        }
        let mut out: Vec<(String, Vec<Rule>)> = Vec::new();
        let mut i: usize = 0;
        while i < self.per_endpoint.len()
            invariant
                i <= self.per_endpoint@.len(),
                keys_unique(self.entry_seq()),
                forall|a: int, b: int| 0 <= a < self.per_endpoint@.len() && 0 <= b < self.per_endpoint@[a].1@.len()
                    ==> (#[trigger] self.per_endpoint@[a].1@[b]).wf(),
                out@.len() == i,
                forall|a: int, b: int| 0 <= a < out@.len() && 0 <= b < out@[a].1@.len() ==> (#[trigger] out@[a].1@[b]).wf(),
                Seq::new(out@.len(), |k: int| (out@[k].0@, raw_texts(out@[k].1@))) == self.entry_seq().take(i as int),
            decreases self.per_endpoint@.len() - i,
        {
            let rules = duplicate_rules(&self.per_endpoint[i].1);
            out.push((self.per_endpoint[i].0.clone(), rules));
            i += 1;
            assert(Seq::new(out@.len(), |k: int| (out@[k].0@, raw_texts(out@[k].1@))) =~= self.entry_seq().take(i as int));
        }
        assert(self.entry_seq().take(self.per_endpoint@.len() as int) =~= self.entry_seq());
        SuppressRules { per_endpoint: out }
    }
}

/// The suppress list of one endpoint's settings, as rule texts.
pub open spec fn settings_rules(e: EndpointSettings) -> Seq<Seq<char>> {
    e.suppress_paths.deep_view()
}

/// The rules configured by the first `n` endpoint settings.
pub open spec fn configured_rules(endpoints: Seq<EndpointSettings>, n: int) -> Map<Seq<char>, Seq<Seq<char>>>
    decreases n,
{
    if n <= 0 {
        Map::empty()
    } else if endpoints[n - 1].suppress_paths@.len() == 0 {
        configured_rules(endpoints, n - 1)
    } else {
        configured_rules(endpoints, n - 1).insert(endpoints[n - 1].pattern@, settings_rules(endpoints[n - 1]))
    }
}

fn string_of(s: &str) -> (r: String)
    ensures
        r@ == s@,
{
    String::from_str(s)
}

fn duplicate_rules(rules: &Vec<Rule>) -> (r: Vec<Rule>)
    requires
        forall|j: int| 0 <= j < rules@.len() ==> (#[trigger] rules@[j]).wf(),
    ensures
        r@.len() == rules@.len(),
        forall|j: int| 0 <= j < r@.len() ==> (#[trigger] r@[j]).wf(),
        raw_texts(r@) == raw_texts(rules@),
{
    let mut out: Vec<Rule> = Vec::new();
    let mut i: usize = 0;
    while i < rules.len()
        invariant
            i <= rules@.len(),
            forall|j: int| 0 <= j < rules@.len() ==> (#[trigger] rules@[j]).wf(),
            out@.len() == i,
            forall|j: int| 0 <= j < i ==> (#[trigger] out@[j]).wf() && out@[j].raw@ == rules@[j].raw@,
        decreases rules@.len() - i,
    {
        out.push(rules[i].duplicate());
        i += 1;
    }
    assert(raw_texts(out@) =~= raw_texts(rules@));
    out
}

fn raw_strings(rules: &Vec<Rule>) -> (r: Vec<String>)
    ensures
        r.deep_view() == raw_texts(rules@),
{
    let mut out: Vec<String> = Vec::new();
    let mut i: usize = 0;
    while i < rules.len()
        invariant
            i <= rules@.len(),
            out@.len() == i,
            forall|j: int| 0 <= j < i ==> (#[trigger] out@[j])@ == rules@[j].raw@,
        decreases rules@.len() - i,
    {
        out.push(rules[i].raw.clone());
        i += 1;
    }
    assert(out.deep_view() =~= raw_texts(rules@));
    out
}

impl Default for SuppressRules {
    fn default() -> (r: Self)
        ensures
            r@ == Map::<Seq<char>, Seq<Seq<char>>>::empty(),
    {
        SuppressRules::new()
    }
}

} // verus!

verus! {

/// A plain or `re:` rule that hides a field also hides every field below it.
pub proof fn lemma_rule_hides_children(raw: Seq<char>, path: Seq<char>, child: Seq<char>)
    requires
        rule_matches(raw, path),
        is_regex_rule(raw) || !raw.contains('*'),
    ensures
        rule_matches(raw, path + seq!['.'] + child),
{
    let longer = path + seq!['.'] + child;
    if is_regex_rule(raw) {
        let q = choose|q: Seq<char>| is_ancestor_prefix(path, q) && #[trigger] regex_finds(raw.skip(3), q);
        if q == path {
            assert(longer[path.len() as int] == '.');
            assert(longer.take(path.len() as int) =~= path);
            assert(is_ancestor_prefix(longer, q));
        } else {
            let i = choose|i: int| 0 <= i < path.len() && path[i] == '.' && q == path.take(i);
            assert(longer[i] == '.');
            assert(longer.take(i) =~= path.take(i));
            assert(is_ancestor_prefix(longer, q));
        }
    } else {
        if path == raw {
            assert(longer.take(raw.len() as int) =~= raw);
        } else {
            assert(longer.take(raw.len() as int) =~= path.take(raw.len() as int));
        }
    }
}

/// A plain rule hides exactly the field it names and that field's
/// descendants: `meta` hides `meta` and `meta.ts`, never `metadata`.
pub proof fn lemma_plain_rule_is_subtree(raw: Seq<char>, path: Seq<char>)
    requires
        !is_regex_rule(raw),
        !raw.contains('*'),
    ensures
        rule_matches(raw, path) <==> (path == raw || (raw.len() < path.len()
            && path.take(raw.len() as int) == raw && path[raw.len() as int] == '.')),
{
}

/// Rules stored for one endpoint never hide paths of another endpoint, and
/// an endpoint without rules hides nothing.
pub proof fn lemma_rules_are_per_endpoint(rules: Map<Seq<char>, Seq<Seq<char>>>, endpoint: Seq<char>, raws: Seq<Seq<char>>, other: Seq<char>, path: Seq<char>)
    requires
        other != endpoint,
    ensures
        path_suppressed(rules.insert(endpoint, raws), other, path) == path_suppressed(rules, other, path),
        path_suppressed(rules.remove(endpoint), other, path) == path_suppressed(rules, other, path),
        !path_suppressed(rules.remove(endpoint), endpoint, path),
{
}

} // verus!
