//! Structural comparison of two JSON values into a [`Difference`] tree.
use vstd::prelude::*;
use crate::json::{Json, JsonValue, json_equal, json_identical, json_same, models};

verus! {

broadcast use vstd::std_specs::vec::group_vec_axioms;

/// Mathematical form of a [`Difference`].
pub ghost enum Diff {
    NoDifference(Json),
    PrimitiveDifference { left: Json, right: Json },
    ObjectDifference { fields: Seq<(Seq<char>, Diff)> },
    MissingField { value: Json },
    ExtraField { value: Json },
    IndexedDifference { elements: Seq<(nat, Diff)> },
    SeqSizeDifference { left_not_right: Seq<Json>, right_not_left: Seq<Json> },
    OrderingDifference,
    TypeDifference { left_value: Json, right_value: Json },
}

/// The value stored under `key` in an object's members (the first such member).
pub open spec fn member_from(m: Seq<(Seq<char>, Json)>, key: Seq<char>, i: int) -> Option<Json>
    decreases m.len() - i,
{
    if i < 0 || i >= m.len() {
        None
    } else if m[i].0 == key {
        Some(m[i].1)
    } else {
        member_from(m, key, i + 1)
    }
}

pub open spec fn member(m: Seq<(Seq<char>, Json)>, key: Seq<char>) -> Option<Json> {
    member_from(m, key, 0)
}

/// How many elements of `s` equal `x`.
pub open spec fn occurrences(s: Seq<Json>, x: Json) -> nat
    decreases s.len(),
{
    if s.len() == 0 {
        0
    } else {
        occurrences(s.drop_last(), x) + if s.last() == x { 1nat } else { 0nat }
    }
}

/// The elements of `a`, in order, that are left once every element of `b`
/// has cancelled one equal element of `a`, earliest first.
pub open spec fn unmatched(a: Seq<Json>, b: Seq<Json>) -> Seq<Json>
    decreases a.len(),
{
    if a.len() == 0 {
        Seq::empty()
    } else if occurrences(a, a.last()) > occurrences(b, a.last()) {
        unmatched(a.drop_last(), b).push(a.last())
    } else {
        unmatched(a.drop_last(), b)
    }
}

/// The comparison of `l` against `r`.
pub open spec fn diff_of(l: Json, r: Json) -> Diff
    decreases l, 0nat,
{
    if json_same(l, r) {
        Diff::NoDifference(l)
    } else {
        match (l, r) {
            (Json::Bool(_), Json::Bool(_)) => Diff::PrimitiveDifference { left: l, right: r },
            (Json::Str(_), Json::Str(_)) => Diff::PrimitiveDifference { left: l, right: r },
            (Json::Number(_), Json::Number(_)) => Diff::PrimitiveDifference { left: l, right: r },
            (Json::Object(lm), Json::Object(rm)) => Diff::ObjectDifference {
                fields: changed_members(lm, rm, 0) + extra_members(lm, rm, 0),
            },
            (Json::Array(la), Json::Array(ra)) => if la.len() != ra.len() {
                Diff::SeqSizeDifference {
                    left_not_right: unmatched(la, ra),
                    right_not_left: unmatched(ra, la),
                }
            } else if unmatched(la, ra).len() == 0 {
                Diff::OrderingDifference
            } else {
                Diff::IndexedDifference { elements: changed_elements(la, ra, 0) }
            },
            _ => Diff::TypeDifference { left_value: l, right_value: r },
        }
    }
}

/// Differences of the members `lm[i..]`: changed values and members missing on the right.
pub open spec fn changed_members(lm: Seq<(Seq<char>, Json)>, rm: Seq<(Seq<char>, Json)>, i: nat) -> Seq<(Seq<char>, Diff)>
    decreases lm, lm.len() - i,
{
    if i >= lm.len() {
        Seq::empty()
    } else {
        let rest = changed_members(lm, rm, i + 1);
        match member(rm, lm[i as int].0) {
            Some(rv) => {
                let d = diff_of(lm[i as int].1, rv);
                if d is NoDifference {
                    rest
                } else {
                    seq![(lm[i as int].0, d)] + rest
                }
            },
            None => seq![(lm[i as int].0, Diff::MissingField { value: lm[i as int].1 })] + rest,
        }
    }
}

/// Members `rm[j..]` that the left object lacks.
pub open spec fn extra_members(lm: Seq<(Seq<char>, Json)>, rm: Seq<(Seq<char>, Json)>, j: nat) -> Seq<(Seq<char>, Diff)>
    decreases rm.len() - j,
{
    if j >= rm.len() {
        Seq::empty()
    } else if member(lm, rm[j as int].0) is None {
        seq![(rm[j as int].0, Diff::ExtraField { value: rm[j as int].1 })] + extra_members(lm, rm, j + 1)
    } else {
        extra_members(lm, rm, j + 1)
    }
}

/// Positions `i..` at which two equally long arrays differ.
pub open spec fn changed_elements(la: Seq<Json>, ra: Seq<Json>, i: nat) -> Seq<(nat, Diff)>
    decreases la, la.len() - i,
{
    if i >= la.len() {
        Seq::empty()
    } else {
        let d = diff_of(la[i as int], ra[i as int]);
        let rest = changed_elements(la, ra, i + 1);
        if d is NoDifference {
            rest
        } else {
            seq![(i, d)] + rest
        }
    }
}

/// A structured difference between two JSON values.
pub enum Difference {
    NoDifference(JsonValue),
    PrimitiveDifference { left: JsonValue, right: JsonValue },
    ObjectDifference { fields: Vec<(String, Difference)> },
    MissingField { value: JsonValue },
    ExtraField { value: JsonValue },
    IndexedDifference { elements: Vec<(usize, Difference)> },
    SeqSizeDifference { left_not_right: Vec<JsonValue>, right_not_left: Vec<JsonValue> },
    OrderingDifference,
    TypeDifference { left_value: JsonValue, right_value: JsonValue },
}

impl Difference {
    pub open spec fn model(self) -> Diff
        decreases self,
    {
        match self {
            Difference::NoDifference(v) => Diff::NoDifference(v@),
            Difference::PrimitiveDifference { left, right } => Diff::PrimitiveDifference { left: left@, right: right@ },
            Difference::ObjectDifference { fields } => Diff::ObjectDifference {
                fields: Seq::new(
                    fields.len() as nat,
                    |i: int|
                        if 0 <= i < fields.len() {
                            (fields[i].0@, fields[i].1.model())
                        } else {
                            (Seq::empty(), Diff::OrderingDifference)
                        },
                ),
            },
            Difference::MissingField { value } => Diff::MissingField { value: value@ },
            Difference::ExtraField { value } => Diff::ExtraField { value: value@ },
            Difference::IndexedDifference { elements } => Diff::IndexedDifference {
                elements: Seq::new(
                    elements.len() as nat,
                    |i: int|
                        if 0 <= i < elements.len() {
                            (elements[i].0 as nat, elements[i].1.model())
                        } else {
                            (0nat, Diff::OrderingDifference)
                        },
                ),
            },
            Difference::SeqSizeDifference { left_not_right, right_not_left } => Diff::SeqSizeDifference {
                left_not_right: models(left_not_right@),
                right_not_left: models(right_not_left@),
            },
            Difference::OrderingDifference => Diff::OrderingDifference,
            Difference::TypeDifference { left_value, right_value } => Diff::TypeDifference {
                left_value: left_value@,
                right_value: right_value@,
            },
        }
    }
}

impl View for Difference {
    type V = Diff;

    open spec fn view(&self) -> Diff {
        self.model()
    }
}

proof fn lemma_member_skip(m: Seq<(Seq<char>, Json)>, key: Seq<char>, i: int)
    requires
        0 <= i <= m.len(),
        forall|j: int| 0 <= j < i ==> m[j].0 != key,
    ensures
        member(m, key) == member_from(m, key, i),
    decreases i,
{
    if i > 0 {
        lemma_member_skip(m, key, i - 1);
    }
}

/// The value under `key` among the members `m`.
fn find_member<'a>(m: &'a Vec<(String, JsonValue)>, key: &String, Ghost(mm): Ghost<Seq<(Seq<char>, Json)>>) -> (r: Option<&'a JsonValue>)
    requires
        mm.len() == m@.len(),
        forall|j: int| 0 <= j < m@.len() ==> mm[j] == (m@[j].0@, m@[j].1@),
    ensures
        match r {
            Some(v) => member(mm, key@) == Some(v@),
            None => member(mm, key@) is None,
        },
{
    let mut i: usize = 0;
    while i < m.len()
        invariant
            i <= m@.len(),
            mm.len() == m@.len(),
            forall|j: int| 0 <= j < m@.len() ==> mm[j] == (m@[j].0@, m@[j].1@),
            forall|j: int| 0 <= j < i ==> mm[j].0 != key@,
        decreases m@.len() - i,
    {
        if m[i].0 == *key {
            proof {
                lemma_member_skip(mm, key@, i as int);
            }
            return Some(&m[i].1);
        }
        i += 1;
    }
    proof {
        lemma_member_skip(mm, key@, i as int);
    }
    None
}

/// Number of elements of `s` equal to `x`.
fn count_equal(s: &Vec<JsonValue>, x: &JsonValue, upto: usize) -> (n: usize)
    requires
        upto <= s@.len(),
    ensures
        n == occurrences(models(s@).take(upto as int), x@),
{
    let mut n: usize = 0;
    let mut j: usize = 0;
    while j < upto
        invariant
            j <= upto <= s@.len(),
            n <= j,
            n == occurrences(models(s@).take(j as int), x@),
        decreases upto - j,
    {
        assert(models(s@).take(j as int + 1).drop_last() =~= models(s@).take(j as int));
        if json_identical(&s[j], x) {
            n += 1;
        }
        j += 1;
    }
    n
}

/// Elements of `a` not matched by an equal element of `b`, counting
/// duplicates: the first `k` copies of a value are matched when `b` holds `k`
/// of them, later copies are kept, in their order in `a`.
pub fn set_difference(a: &Vec<JsonValue>, b: &Vec<JsonValue>) -> (r: Vec<JsonValue>)
    ensures
        models(r@) == unmatched(models(a@), models(b@)),
{
    let mut out: Vec<JsonValue> = Vec::new();
    let mut i: usize = 0;
    while i < a.len()
        invariant
            i <= a@.len(),
            models(out@) == unmatched(models(a@).take(i as int), models(b@)),
        decreases a@.len() - i,
    {
        let ghost t = models(a@).take(i as int + 1);
        assert(t.drop_last() =~= models(a@).take(i as int));
        assert(t.last() == a@[i as int]@);
        let in_a = count_equal(a, &a[i], i + 1);
        let in_b = count_equal(b, &a[i], b.len());
        assert(models(b@).take(b@.len() as int) =~= models(b@));
        if in_a > in_b {
            out.push(a[i].duplicate());
            assert(models(out@) =~= unmatched(models(a@).take(i as int), models(b@)).push(a@[i as int]@));
        }
        i += 1;
    }
    assert(models(a@).take(a@.len() as int) =~= models(a@));
    out
}

/// Compares `left` against `right`: equal values give `NoDifference`; two
/// booleans, strings or numbers give `PrimitiveDifference`; two objects give
/// the changed, missing and extra members; two arrays give a size, ordering
/// or per-index difference; anything else is a `TypeDifference`.
#[verifier::loop_isolation(false)]
pub fn diff(left: &JsonValue, right: &JsonValue) -> (d: Difference)
    ensures
        d@ == diff_of(left@, right@),
    decreases left,
{
    if json_equal(left, right) {
        return Difference::NoDifference(left.duplicate());
    }
    match (left, right) {
        (JsonValue::Bool(_), JsonValue::Bool(_))
        | (JsonValue::Str(_), JsonValue::Str(_))
        | (JsonValue::Number(_), JsonValue::Number(_)) => Difference::PrimitiveDifference {
            left: left.duplicate(),
            right: right.duplicate(),
        },
        (JsonValue::Object(lm), JsonValue::Object(rm)) => {
            let ghost lmm = left@->Object_0;
            let ghost rmm = right@->Object_0;
            let mut fields: Vec<(String, Difference)> = Vec::new();
            let mut i: usize = 0;
            while i < lm.len()
                invariant
                    i <= lm@.len(),
                    lmm.len() == lm@.len(),
                    rmm.len() == rm@.len(),
                    forall|j: int| 0 <= j < lm@.len() ==> lmm[j] == (lm@[j].0@, lm@[j].1@),
                    forall|j: int| 0 <= j < rm@.len() ==> rmm[j] == (rm@[j].0@, rm@[j].1@),
                    Seq::new(fields@.len(), |j: int| (fields@[j].0@, fields@[j].1@)) + changed_members(lmm, rmm, i as nat)
                        == changed_members(lmm, rmm, 0),
                decreases lm@.len() - i,
            {
                let ghost before = Seq::new(fields@.len(), |j: int| (fields@[j].0@, fields@[j].1@));
                match find_member(rm, &lm[i].0, Ghost(rmm)) {
                    Some(rv) => {
                        let d = diff(&lm[i].1, rv);
                        if let Difference::NoDifference(_) = d {
                        } else {
                            fields.push((lm[i].0.clone(), d));
                        }
                    },
                    None => {
                        fields.push((lm[i].0.clone(), Difference::MissingField { value: lm[i].1.duplicate() }));
                    },
                }
                proof {
                    let after = Seq::new(fields@.len(), |j: int| (fields@[j].0@, fields@[j].1@));
                    let rest = changed_members(lmm, rmm, (i + 1) as nat);
                    if after.len() == before.len() {
                        assert(after =~= before);
                    } else {
                        assert(after =~= before.push(after.last()));
                        assert(before.push(after.last()) + rest =~= before + (seq![after.last()] + rest));
                    }
                }
                i += 1;
            }
            let mut j: usize = 0;
            while j < rm.len()
                invariant
                    j <= rm@.len(),
                    lmm.len() == lm@.len(),
                    rmm.len() == rm@.len(),
                    forall|k: int| 0 <= k < lm@.len() ==> lmm[k] == (lm@[k].0@, lm@[k].1@),
                    forall|k: int| 0 <= k < rm@.len() ==> rmm[k] == (rm@[k].0@, rm@[k].1@),
                    Seq::new(fields@.len(), |k: int| (fields@[k].0@, fields@[k].1@)) + extra_members(lmm, rmm, j as nat)
                        == changed_members(lmm, rmm, 0) + extra_members(lmm, rmm, 0),
                decreases rm@.len() - j,
            {
                let ghost before = Seq::new(fields@.len(), |k: int| (fields@[k].0@, fields@[k].1@));
                if find_member(lm, &rm[j].0, Ghost(lmm)).is_none() {
                    fields.push((rm[j].0.clone(), Difference::ExtraField { value: rm[j].1.duplicate() }));
                }
                proof {
                    let after = Seq::new(fields@.len(), |k: int| (fields@[k].0@, fields@[k].1@));
                    let rest = extra_members(lmm, rmm, (j + 1) as nat);
                    if after.len() == before.len() {
                        assert(after =~= before);
                    } else {
                        assert(after =~= before.push(after.last()));
                        assert(before.push(after.last()) + rest =~= before + (seq![after.last()] + rest));
                    }
                }
                j += 1;
            }
            let d = Difference::ObjectDifference { fields };
            proof {
                let fs = Seq::new(fields@.len(), |k: int| (fields@[k].0@, fields@[k].1@));
                assert(fs + extra_members(lmm, rmm, rm@.len() as nat) =~= fs);
                assert(d@->fields =~= fs);
            }
            d
        },
        (JsonValue::Array(la), JsonValue::Array(ra)) => {
            let ghost lam = left@->Array_0;
            let ghost ram = right@->Array_0;
            assert(lam =~= models(la@));
            assert(ram =~= models(ra@));
            if la.len() != ra.len() {
                let lnr = set_difference(la, ra);
                let rnl = set_difference(ra, la);
                return Difference::SeqSizeDifference { left_not_right: lnr, right_not_left: rnl };
            }
            let lnr = set_difference(la, ra);
            if lnr.len() == 0 {
                return Difference::OrderingDifference;
            }
            let mut elements: Vec<(usize, Difference)> = Vec::new();
            let mut i: usize = 0;
            while i < la.len()
                invariant
                    i <= la@.len(),
                    la@.len() == ra@.len(),
                    lam == models(la@),
                    ram == models(ra@),
                    Seq::new(elements@.len(), |j: int| (elements@[j].0 as nat, elements@[j].1@)) + changed_elements(lam, ram, i as nat)
                        == changed_elements(lam, ram, 0),
                decreases la@.len() - i,
            {
                let ghost before = Seq::new(elements@.len(), |j: int| (elements@[j].0 as nat, elements@[j].1@));
                let d = diff(&la[i], &ra[i]);
                if let Difference::NoDifference(_) = d {
                } else {
                    elements.push((i, d));
                }
                proof {
                    let after = Seq::new(elements@.len(), |j: int| (elements@[j].0 as nat, elements@[j].1@));
                    let rest = changed_elements(lam, ram, (i + 1) as nat);
                    if after.len() == before.len() {
                        assert(after =~= before);
                    } else {
                        assert(after =~= before.push(after.last()));
                        assert(before.push(after.last()) + rest =~= before + (seq![after.last()] + rest));
                    }
                }
                i += 1;
            }
            let d = Difference::IndexedDifference { elements };
            proof {
                let es = Seq::new(elements@.len(), |k: int| (elements@[k].0 as nat, elements@[k].1@));
                assert(es + changed_elements(lam, ram, la@.len() as nat) =~= es);
                assert(d@->elements =~= es);
            }
            d
        },
        _ => Difference::TypeDifference { left_value: left.duplicate(), right_value: right.duplicate() },
    }
}

} // verus!

verus! {

/// Two strings, two booleans or two numbers compare as `NoDifference`
/// exactly when they are the same: strings and booleans only when equal
/// (letter case included), numbers when their texts are equal or both are
/// floating zero of either sign. Otherwise the comparison is a primitive
/// difference holding the left value on the left and the right on the right.
pub proof fn lemma_scalar_comparison(x: Seq<char>, y: Seq<char>, p: bool, q: bool)
    ensures
        (diff_of(Json::Str(x), Json::Str(y)) is NoDifference) == (x == y),
        x != y ==> diff_of(Json::Str(x), Json::Str(y))
            == (Diff::PrimitiveDifference { left: Json::Str(x), right: Json::Str(y) }),
        (diff_of(Json::Bool(p), Json::Bool(q)) is NoDifference) == (p == q),
        (diff_of(Json::Number(x), Json::Number(y)) is NoDifference) == (x == y
            || ((x == seq!['0', '.', '0'] || x == seq!['-', '0', '.', '0'])
                && (y == seq!['0', '.', '0'] || y == seq!['-', '0', '.', '0']))),
        json_same(Json::Str(x), Json::Str(y)) ==> x == y,
{
    reveal_strlit("0.0");
    reveal_strlit("-0.0");
    assert("0.0"@ =~= seq!['0', '.', '0']);
    assert("-0.0"@ =~= seq!['-', '0', '.', '0']);
}

/// Equal values compare as `NoDifference`, and only equal values do;
/// numbers are equal as numbers, so floating zero equals negative zero.
pub proof fn lemma_no_difference_iff_equal(l: Json, r: Json)
    ensures
        diff_of(l, r) is NoDifference <==> json_same(l, r),
        json_same(l, r) ==> diff_of(l, r) == Diff::NoDifference(l),
        l == r ==> diff_of(l, r) == Diff::NoDifference(l),
{
    crate::json::lemma_json_same_reflexive(l);
}

/// `set_difference` is multiset subtraction: a value occurs in
/// `unmatched(a, b)` as many times as it occurs in `a` beyond its count in `b`.
pub proof fn lemma_unmatched_occurrences(a: Seq<Json>, b: Seq<Json>, x: Json)
    ensures
        occurrences(unmatched(a, b), x) == if occurrences(a, x) > occurrences(b, x) {
            (occurrences(a, x) - occurrences(b, x)) as nat
        } else {
            0nat
        },
    decreases a.len(),
{
    if a.len() > 0 {
        let p = a.drop_last();
        lemma_unmatched_occurrences(p, b, x);
        let u = unmatched(p, b);
        if occurrences(a, a.last()) > occurrences(b, a.last()) {
            assert(u.push(a.last()).drop_last() =~= u);
        }
    }
}

/// Every element of `unmatched(a, b)` is an element of `a`, and the result is
/// never longer than `a`.
pub proof fn lemma_unmatched_from_left(a: Seq<Json>, b: Seq<Json>)
    ensures
        unmatched(a, b).len() <= a.len(),
        forall|i: int| 0 <= i < unmatched(a, b).len() ==> a.contains(#[trigger] unmatched(a, b)[i]),
    decreases a.len(),
{
    if a.len() > 0 {
        let p = a.drop_last();
        lemma_unmatched_from_left(p, b);
        assert forall|i: int| 0 <= i < unmatched(a, b).len() implies a.contains(#[trigger] unmatched(a, b)[i]) by {
            let u = unmatched(p, b);
            if i < u.len() {
                assert(p.contains(u[i]));
                let k = choose|k: int| 0 <= k < p.len() && p[k] == u[i];
                assert(a[k] == u[i]);
            } else {
                assert(a[a.len() - 1] == unmatched(a, b)[i]);
            }
        }
    }
}

/// A sequence has nothing left over against itself.
pub proof fn lemma_unmatched_self(a: Seq<Json>)
    ensures
        unmatched(a, a).len() == 0,
{
    lemma_unmatched_from_left(a, a);
    if unmatched(a, a).len() > 0 {
        let x = unmatched(a, a)[0];
        lemma_unmatched_occurrences(a, a, x);
        lemma_occurrences_positive(unmatched(a, a), 0);
    }
}

proof fn lemma_occurrences_positive(s: Seq<Json>, i: int)
    requires
        0 <= i < s.len(),
    ensures
        occurrences(s, s[i]) > 0,
    decreases s.len(),
{
    if i < s.len() - 1 {
        lemma_occurrences_positive(s.drop_last(), i);
    }
}

} // verus!
