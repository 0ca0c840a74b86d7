//! A JSON value model: the exec type [`JsonValue`], its mathematical view
//! [`Json`], structural equality, cloning, and parsing of JSON text.
use vstd::prelude::*;

verus! {

broadcast use vstd::std_specs::vec::group_vec_axioms;

/// Mathematical JSON value. Numbers are held by their canonical text;
/// object members are held in order (parsed documents list them by key).
pub ghost enum Json {
    Null,
    Bool(bool),
    Number(Seq<char>),
    Str(Seq<char>),
    Array(Seq<Json>),
    Object(Seq<(Seq<char>, Json)>),
}

/// An executable JSON value.
pub enum JsonValue {
    Null,
    Bool(bool),
    /// The number's canonical text, as `serde_json` renders it.
    Number(String),
    Str(String),
    Array(Vec<JsonValue>),
    Object(Vec<(String, JsonValue)>),
}

impl JsonValue {
    /// The mathematical value of `self`.
    pub open spec fn model(self) -> Json
        decreases self,
    {
        match self {
            JsonValue::Null => Json::Null,
            JsonValue::Bool(b) => Json::Bool(b),
            JsonValue::Number(n) => Json::Number(n@),
            JsonValue::Str(s) => Json::Str(s@),
            JsonValue::Array(v) => Json::Array(
                Seq::new(
                    v.len() as nat,
                    |i: int|
                        if 0 <= i < v.len() {
                            v[i].model()
                        } else {
                            Json::Null
                        },
                ),
            ),
            JsonValue::Object(v) => Json::Object(
                Seq::new(
                    v.len() as nat,
                    |i: int|
                        if 0 <= i < v.len() {
                            (v[i].0@, v[i].1.model())
                        } else {
                            (Seq::empty(), Json::Null)
                        },
                ),
            ),
        }
    }
}

impl View for JsonValue {
    type V = Json;

    open spec fn view(&self) -> Json {
        self.model()
    }
}

/// The models of object members, member by member.
pub open spec fn member_views(v: Seq<(String, JsonValue)>) -> Seq<(Seq<char>, Json)> {
    Seq::new(v.len(), |i: int| (v[i].0@, v[i].1.model()))
}

/// The models of a vector of values, element by element.
pub open spec fn models(v: Seq<JsonValue>) -> Seq<Json> {
    Seq::new(v.len(), |i: int| v[i].model())
}

/// The texts `serde_json` writes for floating zero, positive and negative.
pub open spec fn is_float_zero(t: Seq<char>) -> bool {
    t == "0.0"@ || t == "-0.0"@
}

/// Whether two number texts are equal numbers as `serde_json` compares them:
/// the same text, or floating zero of either sign on both sides.
pub open spec fn same_number(x: Seq<char>, y: Seq<char>) -> bool {
    x == y || (is_float_zero(x) && is_float_zero(y))
}

/// Equality of two values as `serde_json` compares them: the structure and
/// every string, key and boolean alike, numbers equal as numbers.
pub open spec fn json_same(a: Json, b: Json) -> bool
    decreases a, 0nat,
{
    match (a, b) {
        (Json::Null, Json::Null) => true,
        (Json::Bool(x), Json::Bool(y)) => x == y,
        (Json::Number(x), Json::Number(y)) => same_number(x, y),
        (Json::Str(x), Json::Str(y)) => x == y,
        (Json::Array(x), Json::Array(y)) => x.len() == y.len() && same_elements(x, y, 0),
        (Json::Object(x), Json::Object(y)) => x.len() == y.len() && same_members(x, y, 0),
        _ => false,
    }
}

/// Elements `i..` of two arrays are pairwise equal.
pub open spec fn same_elements(x: Seq<Json>, y: Seq<Json>, i: nat) -> bool
    decreases x, x.len() - i,
{
    if i >= x.len() {
        true
    } else {
        json_same(x[i as int], y[i as int]) && same_elements(x, y, i + 1)
    }
}

/// Members `i..` of two objects have the same keys and equal values.
pub open spec fn same_members(x: Seq<(Seq<char>, Json)>, y: Seq<(Seq<char>, Json)>, i: nat) -> bool
    decreases x, x.len() - i,
{
    if i >= x.len() {
        true
    } else {
        x[i as int].0 == y[i as int].0 && json_same(x[i as int].1, y[i as int].1) && same_members(x, y, i + 1)
    }
}

proof fn lemma_same_elements_all(x: Seq<Json>, y: Seq<Json>, i: nat)
    requires
        i <= x.len(),
    ensures
        same_elements(x, y, i) <==> forall|j: int| i <= j < x.len() ==> json_same(x[j], y[j]),
    decreases x.len() - i,
{
    if i < x.len() {
        lemma_same_elements_all(x, y, i + 1);
    }
}

proof fn lemma_same_members_all(x: Seq<(Seq<char>, Json)>, y: Seq<(Seq<char>, Json)>, i: nat)
    requires
        i <= x.len(),
    ensures
        same_members(x, y, i) <==> forall|j: int| i <= j < x.len() ==> x[j].0 == y[j].0 && json_same(x[j].1, y[j].1),
    decreases x.len() - i,
{
    if i < x.len() {
        lemma_same_members_all(x, y, i + 1);
    }
}

/// Every value equals itself.
pub proof fn lemma_json_same_reflexive(a: Json)
    ensures
        json_same(a, a),
    decreases a,
{
    match a {
        Json::Array(x) => {
            assert forall|j: int| 0 <= j < x.len() implies json_same(x[j], x[j]) by {
                lemma_json_same_reflexive(x[j]);
            }
            lemma_same_elements_all(x, x, 0);
        },
        Json::Object(x) => {
            assert forall|j: int| 0 <= j < x.len() implies x[j].0 == x[j].0 && json_same(x[j].1, x[j].1) by {
                lemma_json_same_reflexive(x[j].1);
            }
            lemma_same_members_all(x, x, 0);
        },
        _ => {},
    }
}

/// Whether a number text is floating zero.
fn float_zero(t: &String) -> (b: bool)
    ensures
        b == is_float_zero(t@),
{
    crate::text::str_eq(t.as_str(), "0.0") || crate::text::str_eq(t.as_str(), "-0.0")
}

/// Equality of two values as `serde_json` compares them.
#[verifier::loop_isolation(false)]
pub fn json_equal(a: &JsonValue, b: &JsonValue) -> (r: bool)
    ensures
        r == json_same(a@, b@),
    decreases a,
{
    match (a, b) {
        (JsonValue::Null, JsonValue::Null) => true,
        (JsonValue::Bool(x), JsonValue::Bool(y)) => *x == *y,
        (JsonValue::Number(x), JsonValue::Number(y)) => {
            *x == *y || (float_zero(x) && float_zero(y))
        },
        (JsonValue::Str(x), JsonValue::Str(y)) => {
            let r = *x == *y;
            assert(r == json_same(a@, b@));
            r
        },
        (JsonValue::Array(x), JsonValue::Array(y)) => {
            let ghost sx = a@->Array_0;
            let ghost sy = b@->Array_0;
            if x.len() != y.len() {
                assert(sx.len() != sy.len());
                return false;
            }
            let mut i: usize = 0;
            while i < x.len()
                invariant
                    x@.len() == y@.len(),
                    i <= x@.len(),
                    a@ == Json::Array(sx),
                    b@ == Json::Array(sy),
                    sx.len() == x@.len(),
                    sy.len() == y@.len(),
                    forall|j: int| 0 <= j < x@.len() ==> sx[j] == x@[j].model(),
                    forall|j: int| 0 <= j < y@.len() ==> sy[j] == y@[j].model(),
                    forall|j: int| 0 <= j < i ==> json_same(sx[j], sy[j]),
                decreases x@.len() - i,
            {
                if !json_equal(&x[i], &y[i]) {
                    proof {
                        lemma_same_elements_all(sx, sy, 0);
                        assert(!json_same(sx[i as int], sy[i as int]));
                    }
                    return false;
                }
                i += 1;
            }
            proof {
                lemma_same_elements_all(sx, sy, 0);
            }
            true
        },
        (JsonValue::Object(x), JsonValue::Object(y)) => {
            let ghost sx = a@->Object_0;
            let ghost sy = b@->Object_0;
            if x.len() != y.len() {
                assert(sx.len() != sy.len());
                return false;
            }
            let mut i: usize = 0;
            while i < x.len()
                invariant
                    x@.len() == y@.len(),
                    i <= x@.len(),
                    a@ == Json::Object(sx),
                    b@ == Json::Object(sy),
                    sx.len() == x@.len(),
                    sy.len() == y@.len(),
                    forall|j: int| 0 <= j < x@.len() ==> sx[j] == (x@[j].0@, x@[j].1.model()),
                    forall|j: int| 0 <= j < y@.len() ==> sy[j] == (y@[j].0@, y@[j].1.model()),
                    forall|j: int| 0 <= j < i ==> sx[j].0 == sy[j].0 && json_same(sx[j].1, sy[j].1),
                decreases x@.len() - i,
            {
                if !(x[i].0 == y[i].0) || !json_equal(&x[i].1, &y[i].1) {
                    proof {
                        lemma_same_members_all(sx, sy, 0);
                        assert(!(sx[i as int].0 == sy[i as int].0 && json_same(sx[i as int].1, sy[i as int].1)));
                    }
                    return false;
                }
                i += 1;
            }
            proof {
                lemma_same_members_all(sx, sy, 0);
            }
            true
        },
        _ => false,
    }
}

/// Identity of two values: the same structure and the same texts, as their
/// serialized forms compare.
#[verifier::loop_isolation(false)]
pub fn json_identical(a: &JsonValue, b: &JsonValue) -> (r: bool)
    ensures
        r == (a@ == b@),
    decreases a,
{
    match (a, b) {
        (JsonValue::Null, JsonValue::Null) => true,
        (JsonValue::Bool(x), JsonValue::Bool(y)) => *x == *y,
        (JsonValue::Number(x), JsonValue::Number(y)) => {
            let r = *x == *y;
            assert(r == (a@ == b@));
            r
        },
        (JsonValue::Str(x), JsonValue::Str(y)) => {
            let r = *x == *y;
            assert(r == (a@ == b@));
            r
        },
        (JsonValue::Array(x), JsonValue::Array(y)) => {
            let ghost sx = a@->Array_0;
            let ghost sy = b@->Array_0;
            if x.len() != y.len() {
                assert(sx.len() != sy.len());
                return false;
            }
            let mut i: usize = 0;
            while i < x.len()
                invariant
                    x@.len() == y@.len(),
                    i <= x@.len(),
                    a@ == Json::Array(sx),
                    b@ == Json::Array(sy),
                    sx.len() == x@.len(),
                    sy.len() == y@.len(),
                    forall|j: int| 0 <= j < x@.len() ==> sx[j] == x@[j].model(),
                    forall|j: int| 0 <= j < y@.len() ==> sy[j] == y@[j].model(),
                    forall|j: int| 0 <= j < i ==> sx[j] == sy[j],
                decreases x@.len() - i,
            {
                if !json_identical(&x[i], &y[i]) {
                    assert(sx[i as int] != sy[i as int]);
                    return false;
                }
                i += 1;
            }
            assert(sx =~= sy);
            true
        },
        (JsonValue::Object(x), JsonValue::Object(y)) => {
            let ghost sx = a@->Object_0;
            let ghost sy = b@->Object_0;
            if x.len() != y.len() {
                assert(sx.len() != sy.len());
                return false;
            }
            let mut i: usize = 0;
            while i < x.len()
                invariant
                    x@.len() == y@.len(),
                    i <= x@.len(),
                    a@ == Json::Object(sx),
                    b@ == Json::Object(sy),
                    sx.len() == x@.len(),
                    sy.len() == y@.len(),
                    forall|j: int| 0 <= j < x@.len() ==> sx[j] == (x@[j].0@, x@[j].1.model()),
                    forall|j: int| 0 <= j < y@.len() ==> sy[j] == (y@[j].0@, y@[j].1.model()),
                    forall|j: int| 0 <= j < i ==> sx[j] == sy[j],
                decreases x@.len() - i,
            {
                if !(x[i].0 == y[i].0) {
                    assert(sx[i as int].0 != sy[i as int].0);
                    return false;
                }
                if !json_identical(&x[i].1, &y[i].1) {
                    assert(sx[i as int].1 != sy[i as int].1);
                    return false;
                }
                i += 1;
            }
            assert(sx =~= sy);
            true
        },
        _ => {
            assert(a@ != b@);
            false
        },
    }
}

impl JsonValue {
    /// A copy of `self` with the same value.
    #[verifier::loop_isolation(false)]
    pub fn duplicate(&self) -> (r: JsonValue)
        ensures
            r@ == self@,
        decreases self,
    {
        match self {
            JsonValue::Null => JsonValue::Null,
            JsonValue::Bool(b) => JsonValue::Bool(*b),
            JsonValue::Number(n) => JsonValue::Number(n.clone()),
            JsonValue::Str(s) => JsonValue::Str(s.clone()),
            JsonValue::Array(v) => {
                let mut out: Vec<JsonValue> = Vec::new();
                let mut i: usize = 0;
                while i < v.len()
                    invariant
                        i <= v@.len(),
                        out@.len() == i,
                        forall|j: int| 0 <= j < i ==> out@[j].model() == v@[j].model(),
                    decreases v@.len() - i,
                {
                    let e = v[i].duplicate();
                    out.push(e);
                    i += 1;
                }
                let r = JsonValue::Array(out);
                assert(r@->Array_0 =~= self@->Array_0);
                r
            },
            JsonValue::Object(v) => {
                let mut out: Vec<(String, JsonValue)> = Vec::new();
                let mut i: usize = 0;
                while i < v.len()
                    invariant
                        i <= v@.len(),
                        out@.len() == i,
                        forall|j: int|
                            0 <= j < i ==> out@[j].0@ == v@[j].0@ && out@[j].1.model()
                                == v@[j].1.model(),
                    decreases v@.len() - i,
                {
                    let k = v[i].0.clone();
                    let e = v[i].1.duplicate();
                    out.push((k, e));
                    i += 1;
                }
                let r = JsonValue::Object(out);
                assert(r@->Object_0 =~= self@->Object_0);
                r
            },
        }
    }

    /// The number value with the decimal text of `n`.
    pub fn from_u16(n: u16) -> (r: JsonValue)
        ensures
            r@ == Json::Number(crate::text::decimal(n as nat)),
    {
        JsonValue::Number(crate::text::decimal_string(n as u64))
    }
}

impl Clone for JsonValue {
    fn clone(&self) -> (r: Self)
        ensures
            r@ == self@,
    {
        self.duplicate()
    }
}

/// Whether `serde_json` reads `bytes` as one JSON document.
pub uninterp spec fn json_accepts(bytes: Seq<u8>) -> bool;

/// Whether `serde_json::from_slice::<serde::de::IgnoredAny>` accepts `bytes`,
/// that is, whether they hold one well-formed JSON document.
#[verifier::external_body]
pub(crate) fn is_json(bytes: &[u8]) -> (b: bool)
    ensures
        b == json_accepts(bytes@),
{
    serde_json::from_slice::<serde::de::IgnoredAny>(bytes).is_ok()
}

/// The value that `serde_json` reads from the JSON text `text`, or `None`
/// when the text is not one JSON document.
pub uninterp spec fn parsed_json(text: Seq<char>) -> Option<Json>;

/// `serde_json`'s value type, carried opaquely through the conversion below.
#[verifier::external_type_specification]
#[verifier::external_body]
pub struct ExSerdeJsonValue(serde_json::Value);

/// Converts a `serde_json` value into the crate's model, variant by variant.
#[verifier::external_body]
fn from_serde(v: serde_json::Value) -> JsonValue {
    match v {
        serde_json::Value::Null => JsonValue::Null,
        serde_json::Value::Bool(b) => JsonValue::Bool(b),
        serde_json::Value::Number(n) => JsonValue::Number(n.to_string()),
        serde_json::Value::String(s) => JsonValue::Str(s),
        serde_json::Value::Array(a) => JsonValue::Array(a.into_iter().map(from_serde).collect()),
        serde_json::Value::Object(m) => JsonValue::Object(
            m.into_iter().map(|(k, v)| (k, from_serde(v))).collect(),
        ),
    }
}

/// Parses `text` with `serde_json::from_str::<serde_json::Value>`; the
/// result is the value `parsed_json` names for this text.
#[verifier::external_body]
pub(crate) fn parse_json(text: &str) -> (r: Option<JsonValue>)
    ensures
        match r {
            Some(v) => parsed_json(text@) == Some(v@),
            None => parsed_json(text@) is None,
        },
{
    serde_json::from_str::<serde_json::Value>(text).ok().map(from_serde)
}

} // verus!
