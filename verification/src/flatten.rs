//! Flattening of a [`Difference`] tree into per-path field differences.
use vstd::prelude::*;
use crate::compare::{Diff, Difference, diff, diff_of};
use crate::json::{Json, JsonValue, models};
use crate::maps::{entries_map, insert_all, keys_unique, lemma_entries_map_dom, lemma_entries_map_finite, lemma_entries_map_push, lemma_entries_map_update, lemma_entries_map_value, lemma_insert_all_concat, lemma_insert_all_single};
use crate::text::{decimal, decimal_string, concat};

verus! {

broadcast use vstd::std_specs::vec::group_vec_axioms;

/// Path under which a status divergence is recorded.
pub const STATUS_FIELD: &'static str = ":status";

/// Path prefix under which header differences are recorded.
pub const HEADER_FIELD_PREFIX: &'static str = ":headers";

/// Classification of a difference at a given path.
#[derive(Debug, Clone, Copy, PartialEq, Eq, Structural)]
pub enum DiffType {
    Primitive,
    MissingField,
    ExtraField,
    SeqSize,
    Reorder,
    TypeMismatch,
    StatusMismatch,
}

/// Mathematical form of a [`FieldDiff`].
pub ghost struct FieldDiffView {
    pub left: Option<Json>,
    pub right: Option<Json>,
    pub diff_type: DiffType,
}

/// A single difference at a dot-separated path.
pub struct FieldDiff {
    pub left: Option<JsonValue>,
    pub right: Option<JsonValue>,
    pub diff_type: DiffType,
}

pub open spec fn option_model(o: Option<JsonValue>) -> Option<Json> {
    match o {
        Some(v) => Some(v@),
        None => None,
    }
}

fn option_duplicate(o: &Option<JsonValue>) -> (r: Option<JsonValue>)
    ensures
        option_model(r) == option_model(*o),
{
    match o {
        Some(v) => Some(v.duplicate()),
        None => None,
    }
}

impl View for FieldDiff {
    type V = FieldDiffView;

    open spec fn view(&self) -> FieldDiffView {
        FieldDiffView { left: option_model(self.left), right: option_model(self.right), diff_type: self.diff_type }
    }
}

impl FieldDiff {
    pub fn duplicate(&self) -> (r: FieldDiff)
        ensures
            r@ == self@,
    {
        FieldDiff {
            left: option_duplicate(&self.left),
            right: option_duplicate(&self.right),
            diff_type: self.diff_type,
        }
    }
}

impl Clone for FieldDiff {
    fn clone(&self) -> (r: Self)
        ensures
            r@ == self@,
    {
        self.duplicate()
    }
}

/// Field differences keyed by path; each path occurs once.
pub struct FieldDiffs {
    entries: Vec<(String, FieldDiff)>,
}

impl FieldDiffs {
    /// The entries as mathematical values, in storage order.
    pub closed spec fn entry_seq(&self) -> Seq<(Seq<char>, FieldDiffView)> {
        Seq::new(self.entries@.len(), |i: int| (self.entries@[i].0@, self.entries@[i].1@))
    }

    #[verifier::type_invariant]
    closed spec fn inv(self) -> bool {
        keys_unique(self.entry_seq())
    }

    /// The facts that tie the entries to the map they hold.
    fn facts(&self)
        ensures
            self@ == entries_map(self.entry_seq()),
            self.entry_seq().len() == self.entries@.len(),
            keys_unique(self.entry_seq()),
            self@.dom().finite(),
            self@.dom().len() == self.entries@.len(),
    {
        proof {
            use_type_invariant(self);
            lemma_entries_map_finite(self.entry_seq());
            lemma_unique_dom_len(self.entry_seq());
        }
    }

    /// No differences.
    pub fn new() -> (r: FieldDiffs)
        ensures
            r@ == Map::<Seq<char>, FieldDiffView>::empty(),
    {
        let r = FieldDiffs { entries: Vec::new() };
        assert(r.entry_seq() =~= Seq::<(Seq<char>, FieldDiffView)>::empty());
        r
    }

    /// Number of paths; also ties the map to its entries, in storage order.
    pub fn len(&self) -> (n: usize)
        ensures
            n == self@.dom().len(),
            n == self.entry_seq().len(),
            self@ == entries_map(self.entry_seq()),
            keys_unique(self.entry_seq()),
            self@.dom().finite(),
    {
        self.facts();
        self.entries.len()
    }

    /// The path and difference stored at position `i`.
    pub fn entry(&self, i: usize) -> (r: (&String, &FieldDiff))
        requires
            i < self@.dom().len(),
        ensures
            r.0@ == self.entry_seq()[i as int].0,
            r.1@ == self.entry_seq()[i as int].1,
            self@.dom().contains(r.0@),
            self@[r.0@] == r.1@,
    {
        self.facts();
        proof {
            lemma_entries_map_value(self.entry_seq(), i as int);
        }
        (&self.entries[i].0, &self.entries[i].1)
    }

    fn position(&self, path: &String) -> (r: Option<usize>)
        ensures
            match r {
                Some(i) => i < self.entries@.len() && self.entries@[i as int].0@ == path@
                    && self@.dom().contains(path@) && self@[path@] == self.entries@[i as int].1@,
                None => !self@.dom().contains(path@),
            },
    {
        self.facts();
        let mut i: usize = 0;
        while i < self.entries.len()
            invariant
                i <= self.entries@.len(),
                keys_unique(self.entry_seq()),
                self@ == entries_map(self.entry_seq()),
                forall|j: int| 0 <= j < i ==> self.entries@[j].0@ != path@,
            decreases self.entries@.len() - i,
        {
            if self.entries[i].0 == *path {
                proof {
                    lemma_entries_map_value(self.entry_seq(), i as int);
                }
                return Some(i);
            }
            i += 1;
        }
        proof {
            lemma_entries_map_dom(self.entry_seq(), path@);
            if self@.dom().contains(path@) {
                let j = choose|j: int| 0 <= j < self.entry_seq().len() && self.entry_seq()[j].0 == path@;
                assert(self.entries@[j].0@ == path@);
            }
        }
        None
    }

    /// The difference recorded at `path`.
    pub fn get(&self, path: &String) -> (r: Option<&FieldDiff>)
        ensures
            match r {
                Some(d) => self@.dom().contains(path@) && self@[path@] == d@,
                None => !self@.dom().contains(path@),
            },
    {
        match self.position(path) {
            Some(i) => {
                self.facts();
                proof {
                    lemma_entries_map_value(self.entry_seq(), i as int);
                }
                Some(&self.entries[i].1)
            },
            None => None,
        }
    }

    pub fn contains_key(&self, path: &String) -> (b: bool)
        ensures
            b == self@.dom().contains(path@),
    {
        self.position(path).is_some()
    }

    /// Records `d` at `path`, replacing any earlier difference there.
    pub fn insert(&mut self, path: String, d: FieldDiff)
        ensures
            final(self)@ == old(self)@.insert(path@, d@),
    {
        self.facts();
        let ghost old_seq = self.entry_seq();
        match self.position(&path) {
            Some(i) => {
                proof {
                    lemma_entries_map_update(old_seq, i as int, d@);
                }
                let mut entries = Vec::new();
                std::mem::swap(&mut entries, &mut self.entries);
                entries.set(i, (path, d));
                assert(Seq::new(entries@.len(), |j: int| (entries@[j].0@, entries@[j].1@))
                    =~= old_seq.update(i as int, (old_seq[i as int].0, d@)));
                self.entries = entries;
            },
            None => {
                proof {
                    lemma_entries_map_push(old_seq, path@, d@);
                }
                let mut entries = Vec::new();
                std::mem::swap(&mut entries, &mut self.entries);
                entries.push((path, d));
                assert(Seq::new(entries@.len(), |j: int| (entries@[j].0@, entries@[j].1@))
                    =~= old_seq.push((path@, d@)));
                self.entries = entries;
            },
        }
    }
}

impl View for FieldDiffs {
    type V = Map<Seq<char>, FieldDiffView>;

    closed spec fn view(&self) -> Map<Seq<char>, FieldDiffView> {
        entries_map(self.entry_seq())
    }
}

proof fn lemma_unique_dom_len<V>(s: Seq<(Seq<char>, V)>)
    requires
        keys_unique(s),
    ensures
        entries_map(s).dom().len() == s.len(),
    decreases s.len(),
{
    if s.len() > 0 {
        let p = s.drop_last();
        assert(keys_unique(p));
        lemma_unique_dom_len(p);
        lemma_entries_map_finite(p);
        lemma_entries_map_dom(p, s.last().0);
        assert(!entries_map(p).dom().contains(s.last().0)) by {
            if entries_map(p).dom().contains(s.last().0) {
                let i = choose|i: int| 0 <= i < p.len() && p[i].0 == s.last().0;
                assert(s[i].0 == s[s.len() - 1].0);
            }
        }
    }
}

/// `prefix` and `segment` joined by a dot; just `segment` at the root.
pub open spec fn path_join(prefix: Seq<char>, segment: Seq<char>) -> Seq<char> {
    if prefix.len() == 0 {
        segment
    } else {
        prefix + seq!['.'] + segment
    }
}

/// The field differences a difference tree contributes under `path`, in the
/// order they are recorded.
pub open spec fn flat_entries(d: Diff, path: Seq<char>) -> Seq<(Seq<char>, FieldDiffView)>
    decreases d, 0nat,
{
    match d {
        Diff::NoDifference(_) => Seq::empty(),
        Diff::PrimitiveDifference { left, right } => seq![
            (path, FieldDiffView { left: Some(left), right: Some(right), diff_type: DiffType::Primitive }),
        ],
        Diff::ObjectDifference { fields } => member_entries(fields, path, 0),
        Diff::MissingField { value } => seq![
            (path, FieldDiffView { left: Some(value), right: None, diff_type: DiffType::MissingField }),
        ],
        Diff::ExtraField { value } => seq![
            (path, FieldDiffView { left: None, right: Some(value), diff_type: DiffType::ExtraField }),
        ],
        Diff::IndexedDifference { elements } => element_entries(elements, path, 0),
        Diff::SeqSizeDifference { left_not_right, right_not_left } => seq![
            (
                path,
                FieldDiffView {
                    left: Some(Json::Array(left_not_right)),
                    right: Some(Json::Array(right_not_left)),
                    diff_type: DiffType::SeqSize,
                },
            ),
        ],
        Diff::OrderingDifference => seq![
            (path, FieldDiffView { left: None, right: None, diff_type: DiffType::Reorder }),
        ],
        Diff::TypeDifference { left_value, right_value } => seq![
            (path, FieldDiffView { left: Some(left_value), right: Some(right_value), diff_type: DiffType::TypeMismatch }),
        ],
    }
}

pub open spec fn member_entries(fields: Seq<(Seq<char>, Diff)>, path: Seq<char>, i: nat) -> Seq<(Seq<char>, FieldDiffView)>
    decreases fields, fields.len() - i,
{
    if i >= fields.len() {
        Seq::empty()
    } else {
        flat_entries(fields[i as int].1, path_join(path, fields[i as int].0)) + member_entries(fields, path, i + 1)
    }
}

pub open spec fn element_entries(elements: Seq<(nat, Diff)>, path: Seq<char>, i: nat) -> Seq<(Seq<char>, FieldDiffView)>
    decreases elements, elements.len() - i,
{
    if i >= elements.len() {
        Seq::empty()
    } else {
        flat_entries(elements[i as int].1, path_join(path, decimal(elements[i as int].0)))
            + element_entries(elements, path, i + 1)
    }
}

/// The map of a difference tree's field differences under `path`.
pub open spec fn flat_map(d: Diff, path: Seq<char>) -> Map<Seq<char>, FieldDiffView> {
    insert_all(Map::empty(), flat_entries(d, path))
}

/// Joins a path prefix and a child segment with a dot, with no leading dot
/// when the prefix is empty.
pub fn join_path(prefix: &String, segment: &String) -> (r: String)
    ensures
        r@ == path_join(prefix@, segment@),
{
    if prefix.as_str().is_empty() {
        proof {
            assert(prefix@.len() == 0);
        }
        segment.clone()
    } else {
        let with_dot = concat(prefix.as_str(), ".");
        proof {
            reveal_strlit(".");
        }
        let r = concat(with_dot.as_str(), segment.as_str());
        assert(r@ =~= prefix@ + seq!['.'] + segment@);
        r
    }
}

fn flatten_into(d: &Difference, path: &String, out: &mut FieldDiffs)
    ensures
        final(out)@ == insert_all(old(out)@, flat_entries(d@, path@)),
    decreases d,
{
    match d {
        Difference::NoDifference(_) => {},
        Difference::PrimitiveDifference { left, right } => {
            let fd = FieldDiff { left: Some(left.duplicate()), right: Some(right.duplicate()), diff_type: DiffType::Primitive };
            out.insert(path.clone(), fd);
            proof { lemma_insert_all_single(old(out)@, path@, fd@); }
        },
        Difference::ObjectDifference { fields } => {
            let ghost fs = d@->fields;
            let mut i: usize = 0;
            while i < fields.len()
                invariant
                    i <= fields@.len(),
                    fs == d@->fields,
                    fs.len() == fields@.len(),
                    forall|j: int| 0 <= j < fields@.len() ==> fs[j] == (fields@[j].0@, fields@[j].1@),
                    *d == (Difference::ObjectDifference { fields: *fields }),
                    insert_all(out@, member_entries(fs, path@, i as nat))
                        == insert_all(old(out)@, flat_entries(d@, path@)),
                decreases fields@.len() - i,
            {
                let child = join_path(path, &fields[i].0);
                let ghost before = out@;
                flatten_into(&fields[i].1, &child, out);
                proof {
                    lemma_insert_all_concat(before, flat_entries(fs[i as int].1, path_join(path@, fs[i as int].0)), member_entries(fs, path@, (i + 1) as nat));
                }
                i += 1;
            }
        },
        Difference::MissingField { value } => {
            let fd = FieldDiff { left: Some(value.duplicate()), right: None, diff_type: DiffType::MissingField };
            out.insert(path.clone(), fd);
            proof { lemma_insert_all_single(old(out)@, path@, fd@); }
        },
        Difference::ExtraField { value } => {
            let fd = FieldDiff { left: None, right: Some(value.duplicate()), diff_type: DiffType::ExtraField };
            out.insert(path.clone(), fd);
            proof { lemma_insert_all_single(old(out)@, path@, fd@); }
        },
        Difference::IndexedDifference { elements } => {
            let ghost es = d@->elements;
            let mut i: usize = 0;
            while i < elements.len()
                invariant
                    i <= elements@.len(),
                    es == d@->elements,
                    es.len() == elements@.len(),
                    forall|j: int| 0 <= j < elements@.len() ==> es[j] == (elements@[j].0 as nat, elements@[j].1@),
                    *d == (Difference::IndexedDifference { elements: *elements }),
                    insert_all(out@, element_entries(es, path@, i as nat))
                        == insert_all(old(out)@, flat_entries(d@, path@)),
                decreases elements@.len() - i,
            {
                let segment = decimal_string(elements[i].0 as u64);
                let child = join_path(path, &segment);
                let ghost before = out@;
                flatten_into(&elements[i].1, &child, out);
                proof {
                    lemma_insert_all_concat(before, flat_entries(es[i as int].1, path_join(path@, decimal(es[i as int].0))), element_entries(es, path@, (i + 1) as nat));
                }
                i += 1;
            }
        },
        Difference::SeqSizeDifference { left_not_right, right_not_left } => {
            let l = JsonValue::Array(duplicate_all(left_not_right));
            let r = JsonValue::Array(duplicate_all(right_not_left));
            assert(l@->Array_0 =~= models(left_not_right@));
            assert(r@->Array_0 =~= models(right_not_left@));
            let fd = FieldDiff { left: Some(l), right: Some(r), diff_type: DiffType::SeqSize };
            out.insert(path.clone(), fd);
            proof { lemma_insert_all_single(old(out)@, path@, fd@); }
        },
        Difference::OrderingDifference => {
            let fd = FieldDiff { left: None, right: None, diff_type: DiffType::Reorder };
            out.insert(path.clone(), fd);
            proof { lemma_insert_all_single(old(out)@, path@, fd@); }
        },
        Difference::TypeDifference { left_value, right_value } => {
            let fd = FieldDiff { left: Some(left_value.duplicate()), right: Some(right_value.duplicate()), diff_type: DiffType::TypeMismatch };
            out.insert(path.clone(), fd);
            proof { lemma_insert_all_single(old(out)@, path@, fd@); }
        },
    }
}

fn duplicate_all(v: &Vec<JsonValue>) -> (r: Vec<JsonValue>)
    ensures
        models(r@) == models(v@),
{
    let mut r: Vec<JsonValue> = Vec::new();
    let mut i: usize = 0;
    while i < v.len()
        invariant
            i <= v@.len(),
            r@.len() == i,
            forall|j: int| 0 <= j < i ==> r@[j]@ == v@[j]@,
        decreases v@.len() - i,
    {
        r.push(v[i].duplicate());
        i += 1;
    }
    assert(models(r@) =~= models(v@));
    r
}

/// The field differences of `diff`, keyed by dot-separated paths under
/// `prefix` (array indices are decimal segments).
pub fn flatten(d: &Difference, prefix: &String) -> (r: FieldDiffs)
    ensures
        r@ == flat_map(d@, prefix@),
{
    let mut out = FieldDiffs::new();
    flatten_into(d, prefix, &mut out);
    out
}

/// Compares two values and flattens the result, keyed by paths from the root.
pub fn flatten_value(left: &JsonValue, right: &JsonValue) -> (r: FieldDiffs)
    ensures
        r@ == flat_map(diff_of(left@, right@), Seq::empty()),
{
    let d = diff(left, right);
    let root = String::new();
    flatten(&d, &root)
}

} // verus!

verus! {

/// Comparing a value with itself yields no field differences.
pub proof fn lemma_flatten_equal_is_empty(v: Json, path: Seq<char>)
    ensures
        flat_map(diff_of(v, v), path) == Map::<Seq<char>, FieldDiffView>::empty(),
{
    crate::json::lemma_json_same_reflexive(v);
}

/// A difference that is not a container is recorded at exactly the given path.
pub proof fn lemma_leaf_difference_at_path(d: Diff, path: Seq<char>)
    requires
        !(d is NoDifference),
        !(d is ObjectDifference),
        !(d is IndexedDifference),
    ensures
        flat_map(d, path).dom() == Set::<Seq<char>>::empty().insert(path),
{
    let e = flat_entries(d, path);
    assert(e.len() == 1);
    lemma_insert_all_single(Map::<Seq<char>, FieldDiffView>::empty(), e[0].0, e[0].1);
    assert(e =~= seq![(e[0].0, e[0].1)]);
    assert(flat_map(d, path).dom() =~= Set::<Seq<char>>::empty().insert(path));
}

/// `k` lies at or below `path`: the path itself, a key that continues it
/// after a dot, or any key when the path is the root.
pub open spec fn under_path(path: Seq<char>, k: Seq<char>) -> bool {
    ||| path.len() == 0
    ||| k == path
    ||| (path.len() < k.len() && k.take(path.len() as int) == path && k[path.len() as int] == '.')
}

proof fn lemma_under_join(path: Seq<char>, segment: Seq<char>, k: Seq<char>)
    requires
        under_path(path_join(path, segment), k),
    ensures
        under_path(path, k),
{
    if path.len() > 0 {
        let j = path + seq!['.'] + segment;
        assert(path_join(path, segment) == j);
        assert(j.take(path.len() as int) =~= path);
        assert(j[path.len() as int] == '.');
        if k == j {
        } else {
            assert(k.take(j.len() as int) == j);
            assert(k.take(path.len() as int) =~= j.take(path.len() as int));
            assert(k[path.len() as int] == k.take(j.len() as int)[path.len() as int]);
        }
    }
}

proof fn lemma_flat_entries_under(d: Diff, path: Seq<char>)
    ensures
        forall|i: int| 0 <= i < flat_entries(d, path).len() ==> under_path(path, #[trigger] flat_entries(d, path)[i].0),
    decreases d, 0nat,
{
    match d {
        Diff::ObjectDifference { fields } => {
            lemma_member_entries_under(fields, path, 0);
            assert(flat_entries(d, path) == member_entries(fields, path, 0));
        },
        Diff::IndexedDifference { elements } => {
            lemma_element_entries_under(elements, path, 0);
            assert(flat_entries(d, path) == element_entries(elements, path, 0));
        },
        Diff::NoDifference(_) => {},
        _ => {
            assert(flat_entries(d, path).len() == 1);
            assert(flat_entries(d, path)[0].0 == path);
        },
    }
}

proof fn lemma_member_entries_under(fields: Seq<(Seq<char>, Diff)>, path: Seq<char>, i: nat)
    ensures
        forall|j: int| 0 <= j < member_entries(fields, path, i).len() ==> under_path(path, #[trigger] member_entries(fields, path, i)[j].0),
    decreases fields, fields.len() - i,
{
    if i < fields.len() {
        let child = path_join(path, fields[i as int].0);
        let head = flat_entries(fields[i as int].1, child);
        let rest = member_entries(fields, path, i + 1);
        lemma_flat_entries_under(fields[i as int].1, child);
        lemma_member_entries_under(fields, path, i + 1);
        assert forall|j: int| 0 <= j < member_entries(fields, path, i).len() implies under_path(path, #[trigger] member_entries(fields, path, i)[j].0) by {
            if j < head.len() {
                assert(member_entries(fields, path, i)[j] == head[j]);
                lemma_under_join(path, fields[i as int].0, head[j].0);
            } else {
                assert(member_entries(fields, path, i)[j] == rest[j - head.len()]);
            }
        }
    }
}

proof fn lemma_element_entries_under(elements: Seq<(nat, Diff)>, path: Seq<char>, i: nat)
    ensures
        forall|j: int| 0 <= j < element_entries(elements, path, i).len() ==> under_path(path, #[trigger] element_entries(elements, path, i)[j].0),
    decreases elements, elements.len() - i,
{
    if i < elements.len() {
        let child = path_join(path, decimal(elements[i as int].0));
        let head = flat_entries(elements[i as int].1, child);
        let rest = element_entries(elements, path, i + 1);
        lemma_flat_entries_under(elements[i as int].1, child);
        lemma_element_entries_under(elements, path, i + 1);
        assert forall|j: int| 0 <= j < element_entries(elements, path, i).len() implies under_path(path, #[trigger] element_entries(elements, path, i)[j].0) by {
            if j < head.len() {
                assert(element_entries(elements, path, i)[j] == head[j]);
                lemma_under_join(path, decimal(elements[i as int].0), head[j].0);
            } else {
                assert(element_entries(elements, path, i)[j] == rest[j - head.len()]);
            }
        }
    }
}

/// Merging a difference's fields under `path` into a map keeps every key the
/// map had, adds keys only at or below `path`, and changes nothing for a
/// value that did not change.
pub proof fn lemma_flatten_merge(out: Map<Seq<char>, FieldDiffView>, d: Diff, path: Seq<char>)
    ensures
        forall|k: Seq<char>| out.dom().contains(k) ==> #[trigger] insert_all(out, flat_entries(d, path)).dom().contains(k),
        forall|k: Seq<char>| #[trigger] insert_all(out, flat_entries(d, path)).dom().contains(k) && !out.dom().contains(k)
            ==> under_path(path, k),
        d is NoDifference ==> insert_all(out, flat_entries(d, path)) == out,
{
    let e = flat_entries(d, path);
    lemma_flat_entries_under(d, path);
    assert forall|k: Seq<char>| out.dom().contains(k) implies #[trigger] insert_all(out, e).dom().contains(k) by {
        crate::maps::lemma_insert_all_dom(out, e, k);
    }
    assert forall|k: Seq<char>| #[trigger] insert_all(out, e).dom().contains(k) && !out.dom().contains(k) implies under_path(path, k) by {
        crate::maps::lemma_insert_all_dom(out, e, k);
        let i = choose|i: int| 0 <= i < e.len() && e[i].0 == k;
        assert(under_path(path, e[i].0));
    }
}


/// Which of the six JSON kinds `v` is.
pub open spec fn json_kind(v: Json) -> nat {
    match v {
        Json::Null => 0,
        Json::Bool(_) => 1,
        Json::Number(_) => 2,
        Json::Str(_) => 3,
        Json::Array(_) => 4,
        Json::Object(_) => 5,
    }
}

/// Comparing two values of different kinds flattens to one type mismatch at
/// the comparison's path, whose left side is the left (baseline) value and
/// whose right side is the right (candidate) value; two differing scalars of
/// one kind flatten to one primitive difference with the sides kept the
/// same way.
pub proof fn lemma_mismatch_keeps_sides(l: Json, r: Json, path: Seq<char>)
    ensures
        json_kind(l) != json_kind(r) ==> flat_map(diff_of(l, r), path) == Map::<Seq<char>, FieldDiffView>::empty().insert(
            path,
            FieldDiffView { left: Some(l), right: Some(r), diff_type: DiffType::TypeMismatch },
        ),
        json_kind(l) == json_kind(r) && 1 <= json_kind(l) <= 3 && !crate::json::json_same(l, r)
            ==> flat_map(diff_of(l, r), path) == Map::<Seq<char>, FieldDiffView>::empty().insert(
            path,
            FieldDiffView { left: Some(l), right: Some(r), diff_type: DiffType::Primitive },
        ),
{
    if json_kind(l) != json_kind(r) {
        assert(!crate::json::json_same(l, r));
        let fd = FieldDiffView { left: Some(l), right: Some(r), diff_type: DiffType::TypeMismatch };
        assert(flat_entries(diff_of(l, r), path) == seq![(path, fd)]);
        lemma_insert_all_single(Map::<Seq<char>, FieldDiffView>::empty(), path, fd);
    } else if 1 <= json_kind(l) <= 3 && !crate::json::json_same(l, r) {
        let fd = FieldDiffView { left: Some(l), right: Some(r), diff_type: DiffType::Primitive };
        assert(flat_entries(diff_of(l, r), path) == seq![(path, fd)]);
        lemma_insert_all_single(Map::<Seq<char>, FieldDiffView>::empty(), path, fd);
    }
}

/// Inside one-member objects with the same key, a value that changes kind is
/// flattened at that key with the left object's value on the left and the
/// right object's value on the right.
pub proof fn lemma_member_mismatch_keeps_sides(k: Seq<char>, a: Json, b: Json)
    requires
        json_kind(a) != json_kind(b),
    ensures
        flat_map(diff_of(Json::Object(seq![(k, a)]), Json::Object(seq![(k, b)])), Seq::empty())
            == Map::<Seq<char>, FieldDiffView>::empty().insert(
            k,
            FieldDiffView { left: Some(a), right: Some(b), diff_type: DiffType::TypeMismatch },
        ),
{
    let lm = seq![(k, a)];
    let rm = seq![(k, b)];
    assert(!crate::json::json_same(a, b));
    assert(!crate::json::same_members(lm, rm, 0));
    assert(!crate::json::json_same(Json::Object(lm), Json::Object(rm)));
    assert(crate::compare::member_from(rm, k, 0) == Some(b)) by {
        reveal_with_fuel(crate::compare::member_from, 2);
    }
    assert(crate::compare::member_from(lm, k, 0) == Some(a)) by {
        reveal_with_fuel(crate::compare::member_from, 2);
    }
    let td = Diff::TypeDifference { left_value: a, right_value: b };
    assert(diff_of(a, b) == td);
    assert(crate::compare::changed_members(lm, rm, 1) == Seq::<(Seq<char>, Diff)>::empty());
    assert(crate::compare::changed_members(lm, rm, 0) =~= seq![(k, td)]);
    assert(crate::compare::extra_members(lm, rm, 1) == Seq::<(Seq<char>, Diff)>::empty());
    assert(crate::compare::extra_members(lm, rm, 0) =~= Seq::<(Seq<char>, Diff)>::empty());
    let fields = seq![(k, td)];
    assert(diff_of(Json::Object(lm), Json::Object(rm)) == Diff::ObjectDifference { fields: fields });
    let fd = FieldDiffView { left: Some(a), right: Some(b), diff_type: DiffType::TypeMismatch };
    assert(member_entries(fields, Seq::empty(), 1) == Seq::<(Seq<char>, FieldDiffView)>::empty());
    assert(path_join(Seq::empty(), k) == k);
    assert(flat_entries(td, k) == seq![(k, fd)]);
    assert(member_entries(fields, Seq::empty(), 0) == flat_entries(td, k) + member_entries(fields, Seq::empty(), 1));
    assert(member_entries(fields, Seq::empty(), 0) =~= seq![(k, fd)]);
    lemma_insert_all_single(Map::<Seq<char>, FieldDiffView>::empty(), k, fd);
}


/// A key only the left object has is flattened as a missing field holding
/// the left value on the left; a key only the right object has, as an extra
/// field holding the right value on the right.
pub proof fn lemma_one_sided_member_keeps_side(k: Seq<char>, a: Json)
    ensures
        flat_map(diff_of(Json::Object(seq![(k, a)]), Json::Object(Seq::empty())), Seq::empty())
            == Map::<Seq<char>, FieldDiffView>::empty().insert(
            k,
            FieldDiffView { left: Some(a), right: None, diff_type: DiffType::MissingField },
        ),
        flat_map(diff_of(Json::Object(Seq::empty()), Json::Object(seq![(k, a)])), Seq::empty())
            == Map::<Seq<char>, FieldDiffView>::empty().insert(
            k,
            FieldDiffView { left: None, right: Some(a), diff_type: DiffType::ExtraField },
        ),
{
    let one = seq![(k, a)];
    let none = Seq::<(Seq<char>, Json)>::empty();
    assert(crate::compare::member_from(one, k, 0) == Some(a)) by {
        reveal_with_fuel(crate::compare::member_from, 2);
    }
    assert(crate::compare::member_from(none, k, 0) is None);
    assert(path_join(Seq::empty(), k) == k);
    // left only
    let md = Diff::MissingField { value: a };
    assert(crate::compare::changed_members(one, none, 1) == Seq::<(Seq<char>, Diff)>::empty());
    assert(crate::compare::changed_members(one, none, 0) =~= seq![(k, md)]);
    assert(crate::compare::extra_members(one, none, 0) == Seq::<(Seq<char>, Diff)>::empty());
    let f1 = seq![(k, md)];
    assert(diff_of(Json::Object(one), Json::Object(none)) == Diff::ObjectDifference { fields: f1 });
    let fd1 = FieldDiffView { left: Some(a), right: None, diff_type: DiffType::MissingField };
    assert(member_entries(f1, Seq::empty(), 1) == Seq::<(Seq<char>, FieldDiffView)>::empty());
    assert(flat_entries(md, k) == seq![(k, fd1)]);
    assert(member_entries(f1, Seq::empty(), 0) == flat_entries(md, k) + member_entries(f1, Seq::empty(), 1));
    assert(member_entries(f1, Seq::empty(), 0) =~= seq![(k, fd1)]);
    lemma_insert_all_single(Map::<Seq<char>, FieldDiffView>::empty(), k, fd1);
    // right only
    let xd = Diff::ExtraField { value: a };
    assert(crate::compare::changed_members(none, one, 0) == Seq::<(Seq<char>, Diff)>::empty());
    assert(crate::compare::extra_members(none, one, 1) == Seq::<(Seq<char>, Diff)>::empty());
    assert(crate::compare::extra_members(none, one, 0) =~= seq![(k, xd)]);
    let f2 = seq![(k, xd)];
    assert(diff_of(Json::Object(none), Json::Object(one)) == Diff::ObjectDifference { fields: f2 });
    let fd2 = FieldDiffView { left: None, right: Some(a), diff_type: DiffType::ExtraField };
    assert(member_entries(f2, Seq::empty(), 1) == Seq::<(Seq<char>, FieldDiffView)>::empty());
    assert(flat_entries(xd, k) == seq![(k, fd2)]);
    assert(member_entries(f2, Seq::empty(), 0) == flat_entries(xd, k) + member_entries(f2, Seq::empty(), 1));
    assert(member_entries(f2, Seq::empty(), 0) =~= seq![(k, fd2)]);
    lemma_insert_all_single(Map::<Seq<char>, FieldDiffView>::empty(), k, fd2);
}

} // verus!
