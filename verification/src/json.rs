//! JSON values: the library's own type, its model, and the way to and from `serde_json`.
use vstd::prelude::*;

use crate::render;
use crate::text;

verus! {

// ---------------------------------------------------------------------------
// The model
// ---------------------------------------------------------------------------

/// What a JSON value is. A number is an integer, or a double given by its bit pattern. An
/// object is the list of its fields.
pub enum JsonV {
    Null,
    Bool(bool),
    Int(int),
    Float(u64),
    Str(Seq<char>),
    Array(Seq<JsonV>),
    Object(Seq<(Seq<char>, JsonV)>),
}

/// The fields of an object stand in the order of their names, each name once.
pub open spec fn ascending(entries: Seq<(Seq<char>, JsonV)>) -> bool {
    forall|i: int, j: int|
        0 <= i < j < entries.len() ==> text::text_lt(
            (#[trigger] entries[i]).0,
            (#[trigger] entries[j]).0,
        )
}

/// Whether field `i` is named `key`.
pub open spec fn is_field(entries: Seq<(Seq<char>, JsonV)>, key: Seq<char>, i: int) -> bool {
    0 <= i < entries.len() && entries[i].0 == key
}

/// The fields of an object by name.
pub open spec fn fields(entries: Seq<(Seq<char>, JsonV)>) -> Map<Seq<char>, JsonV> {
    Map::new(
        |key: Seq<char>| exists|i: int| #[trigger] is_field(entries, key, i),
        |key: Seq<char>| entries[choose|i: int| #[trigger] is_field(entries, key, i)].1,
    )
}

impl JsonV {
    /// The field `key` of an object.
    pub open spec fn field(self, key: Seq<char>) -> Option<JsonV> {
        match self {
            JsonV::Object(entries) => if fields(entries).contains_key(key) {
                Some(fields(entries)[key])
            } else {
                None
            },
            _ => None,
        }
    }

    /// The text of a string.
    pub open spec fn text(self) -> Option<Seq<char>> {
        match self {
            JsonV::Str(s) => Some(s),
            _ => None,
        }
    }

    /// The text of the field `key`, if there is such a field and it is a string.
    pub open spec fn text_field(self, key: Seq<char>) -> Option<Seq<char>> {
        match self.field(key) {
            Some(v) => v.text(),
            None => None,
        }
    }

    /// The elements of the field `key`, if there is such a field and it is an array.
    pub open spec fn array_field(self, key: Seq<char>) -> Option<Seq<JsonV>> {
        match self.field(key) {
            Some(JsonV::Array(items)) => Some(items),
            _ => None,
        }
    }

    /// The fields of the field `key`, if there is such a field and it is an object.
    pub open spec fn object_field(self, key: Seq<char>) -> Option<Seq<(Seq<char>, JsonV)>> {
        match self.field(key) {
            Some(JsonV::Object(entries)) => Some(entries),
            _ => None,
        }
    }
}

/// Where names stand once each, a field's name leads to its value.
pub proof fn lemma_fields(entries: Seq<(Seq<char>, JsonV)>)
    requires
        ascending(entries),
    ensures
        forall|i: int|
            0 <= i < entries.len() ==> fields(entries).contains_key(
                (#[trigger] entries[i]).0,
            ) && fields(entries)[entries[i].0] == entries[i].1,
{
    assert forall|i: int| 0 <= i < entries.len() implies fields(entries).contains_key(
        (#[trigger] entries[i]).0,
    ) && fields(entries)[entries[i].0] == entries[i].1 by {
        let key = entries[i].0;
        assert(is_field(entries, key, i));
        let j = choose|j: int| #[trigger] is_field(entries, key, j);
        if i != j {
            text::lemma_text_lt_irreflexive(key);
            if i < j {
                assert(text::text_lt(entries[i].0, entries[j].0));
            } else {
                assert(text::text_lt(entries[j].0, entries[i].0));
            }
        }
    }
}

/// Fields in the order of their names are determined by what each name leads to: two such
/// lists with the same fields by name are the same list.
pub proof fn lemma_fields_determine(a: Seq<(Seq<char>, JsonV)>, b: Seq<(Seq<char>, JsonV)>)
    requires
        ascending(a),
        ascending(b),
        fields(a) == fields(b),
    ensures
        a == b,
    decreases a.len(),
{
    lemma_fields(a);
    lemma_fields(b);
    if a.len() == 0 {
        if b.len() > 0 {
            assert(fields(a).contains_key(b[0].0));
            let i = choose|i: int| #[trigger] is_field(a, b[0].0, i);
            assert(is_field(a, b[0].0, i));
        }
        assert(a =~= b);
    } else {
        assert(fields(b).contains_key(a[0].0));
        assert(b.len() > 0) by {
            let i = choose|i: int| #[trigger] is_field(b, a[0].0, i);
            assert(is_field(b, a[0].0, i));
        }
        let m = a.len() - 1;
        let n = b.len() - 1;
        // The last names agree: each is the greatest name there is.
        assert(a[m].0 == b[n].0) by {
            assert(fields(b).contains_key(a[m].0));
            let i = choose|i: int| #[trigger] is_field(b, a[m].0, i);
            assert(is_field(b, a[m].0, i));
            assert(fields(a).contains_key(b[n].0));
            let j = choose|j: int| #[trigger] is_field(a, b[n].0, j);
            assert(is_field(a, b[n].0, j));
            if i < n && j < m {
                assert(text::text_lt(b[i].0, b[n].0));
                assert(text::text_lt(a[j].0, a[m].0));
                text::lemma_text_lt_transitive(a[m].0, b[n].0, a[m].0);
                text::lemma_text_lt_irreflexive(a[m].0);
            }
        }
        assert(a[m] == b[n]) by {
            assert(fields(a)[a[m].0] == a[m].1);
            assert(fields(b)[b[n].0] == b[n].1);
        }
        let a1 = a.drop_last();
        let b1 = b.drop_last();
        assert(ascending(a1)) by {
            assert forall|i: int, j: int| 0 <= i < j < a1.len() implies text::text_lt(
                (#[trigger] a1[i]).0,
                (#[trigger] a1[j]).0,
            ) by {
                assert(a1[i] == a[i] && a1[j] == a[j]);
            }
        }
        assert(ascending(b1)) by {
            assert forall|i: int, j: int| 0 <= i < j < b1.len() implies text::text_lt(
                (#[trigger] b1[i]).0,
                (#[trigger] b1[j]).0,
            ) by {
                assert(b1[i] == b[i] && b1[j] == b[j]);
            }
        }
        lemma_fields_drop_last(a);
        lemma_fields_drop_last(b);
        lemma_fields_determine(a1, b1);
        assert(a =~= a1.push(a[m]));
        assert(b =~= b1.push(b[n]));
    }
}

/// Without the last field, its name leads nowhere and nothing else changes.
proof fn lemma_fields_drop_last(a: Seq<(Seq<char>, JsonV)>)
    requires
        ascending(a),
        a.len() > 0,
    ensures
        fields(a.drop_last()) == fields(a).remove(a.last().0),
{
    let b = a.drop_last();
    let last = a.last().0;
    assert(ascending(b)) by {
        assert forall|i: int, j: int| 0 <= i < j < b.len() implies text::text_lt(
            (#[trigger] b[i]).0,
            (#[trigger] b[j]).0,
        ) by {
            assert(b[i] == a[i] && b[j] == a[j]);
        }
    }
    lemma_fields(a);
    lemma_fields(b);
    assert forall|key: Seq<char>|
        fields(b).contains_key(key) <==> fields(a).remove(last).contains_key(key) by {
        if fields(b).contains_key(key) {
            let i = choose|i: int| #[trigger] is_field(b, key, i);
            assert(is_field(b, key, i));
            assert(b[i] == a[i]);
            assert(is_field(a, key, i));
            assert(text::text_lt(a[i].0, a[a.len() - 1].0));
            text::lemma_text_lt_irreflexive(key);
        }
        if fields(a).remove(last).contains_key(key) {
            let i = choose|i: int| #[trigger] is_field(a, key, i);
            assert(is_field(a, key, i));
            assert(b[i] == a[i]);
            assert(is_field(b, key, i));
        }
    }
    assert forall|key: Seq<char>| fields(b).contains_key(key) implies fields(b)[key] == fields(
        a,
    ).remove(last)[key] by {
        let i = choose|i: int| #[trigger] is_field(b, key, i);
        assert(is_field(b, key, i));
        assert(b[i] == a[i]);
    }
    assert(fields(b) =~= fields(a).remove(last));
}

// ---------------------------------------------------------------------------
// serde_json
// ---------------------------------------------------------------------------

/// `serde_json::Value`: a JSON value of the outside crate.
#[verifier::external_type_specification]
#[verifier::external_body]
pub struct ExValue(serde_json::Value);

/// `serde_json::Number`: a JSON number of the outside crate.
#[verifier::external_type_specification]
#[verifier::external_body]
pub struct ExNumber(serde_json::Number);

/// `serde_json::Map`: the fields of a JSON object of the outside crate.
#[verifier::external_type_specification]
#[verifier::external_body]
#[verifier::reject_recursive_types(K)]
#[verifier::reject_recursive_types(V)]
pub struct ExMap<K, V>(serde_json::Map<K, V>);

/// `serde_json::Error`: why a text is no JSON.
#[verifier::external_type_specification]
#[verifier::external_body]
pub struct ExError(serde_json::Error);

/// What a `serde_json::Value` holds, through all its levels.
pub uninterp spec fn held(v: serde_json::Value) -> JsonV;

/// What a `serde_json::Number` holds: an integer or a double.
pub uninterp spec fn number_held(n: serde_json::Number) -> JsonV;

/// What a `serde_json::Map` holds: its names and what their values hold, in the order in which
/// the map is walked.
pub uninterp spec fn map_held(
    m: serde_json::Map<String, serde_json::Value>,
) -> Seq<(Seq<char>, JsonV)>;

/// The value that a JSON document denotes, or `None` if the bytes are no JSON document.
pub uninterp spec fn json_read(bytes: Seq<u8>) -> Option<JsonV>;

/// The compact JSON text of a value.
pub uninterp spec fn json_text(v: JsonV) -> Seq<char>;

/// The topmost level of a `serde_json::Value`, variant by variant.
enum Level {
    Null,
    Bool(bool),
    Number(serde_json::Number),
    Str(String),
    Array(Vec<serde_json::Value>),
    Object(serde_json::Map<String, serde_json::Value>),
}

/// What a list of values holds.
spec fn held_items(items: Seq<serde_json::Value>) -> Seq<JsonV> {
    items.map_values(|v: serde_json::Value| held(v))
}

/// What a list of named values holds.
spec fn held_entries(entries: Seq<(String, serde_json::Value)>) -> Seq<(Seq<char>, JsonV)> {
    entries.map_values(|e: (String, serde_json::Value)| (e.0@, held(e.1)))
}

impl Level {
    spec fn model(self) -> JsonV {
        match self {
            Level::Null => JsonV::Null,
            Level::Bool(b) => JsonV::Bool(b),
            Level::Number(n) => number_held(n),
            Level::Str(s) => JsonV::Str(s@),
            Level::Array(items) => JsonV::Array(held_items(items@)),
            Level::Object(map) => JsonV::Object(map_held(map)),
        }
    }

    /// The fields of an object stand in the order of their names, each name once.
    spec fn wf(self) -> bool {
        match self {
            Level::Object(map) => ascending(map_held(map)),
            _ => true,
        }
    }
}

/// The variants of `serde_json::Value`, told apart: what the value holds is what the level
/// holds. The map of an object, which is a `BTreeMap`, is walked in the order of the names, each
/// name once.
#[verifier::external_body]
fn open_value(v: serde_json::Value) -> (r: Level)
    ensures
        r.model() == held(v),
        r.wf(),
{
    match v {
        serde_json::Value::Null => Level::Null,
        serde_json::Value::Bool(b) => Level::Bool(b),
        serde_json::Value::Number(n) => Level::Number(n),
        serde_json::Value::String(s) => Level::Str(s),
        serde_json::Value::Array(items) => Level::Array(items),
        serde_json::Value::Object(map) => Level::Object(map),
    }
}

/// The `serde_json::Value` with a given topmost level: it holds what the level holds.
#[verifier::external_body]
fn build_value(level: Level) -> (r: serde_json::Value)
    ensures
        held(r) == level.model(),
{
    match level {
        Level::Null => serde_json::Value::Null,
        Level::Bool(b) => serde_json::Value::Bool(b),
        Level::Number(n) => serde_json::Value::Number(n),
        Level::Str(s) => serde_json::Value::String(s),
        Level::Array(items) => serde_json::Value::Array(items),
        Level::Object(map) => serde_json::Value::Object(map),
    }
}

/// `clone` of `serde_json::Value`: the copy holds the same.
pub assume_specification[ <serde_json::Value as Clone>::clone ](v: &serde_json::Value) -> (r:
    serde_json::Value)
    ensures
        held(r) == held(*v),
;

/// `serde_json::Map::new`: a map that holds nothing.
#[verifier::external_body]
fn map_new() -> (r: serde_json::Map<String, serde_json::Value>)
    ensures
        map_held(r) == Seq::<(Seq<char>, JsonV)>::empty(),
{
    serde_json::Map::new()
}

/// `clone` of `serde_json::Map`: the copy holds the same.
#[verifier::external_body]
fn map_clone(m: &serde_json::Map<String, serde_json::Value>) -> (r: serde_json::Map<
    String,
    serde_json::Value,
>)
    ensures
        map_held(r) == map_held(*m),
{
    m.clone()
}

/// `insert` of `serde_json::Map`: the name leads to the value, whether or not it led to another
/// before, and nothing else changes. The map, which is a `BTreeMap`, is walked in the order of
/// the names, each name once; strings are ordered as their characters are.
#[verifier::external_body]
fn map_insert(
    m: &mut serde_json::Map<String, serde_json::Value>,
    name: String,
    value: serde_json::Value,
)
    ensures
        fields(map_held(*final(m))) == fields(map_held(*old(m))).insert(name@, held(value)),
        ascending(map_held(*final(m))),
{
    m.insert(name, value);
}

/// `get` of `serde_json::Map`: the value that the name leads to, if there is one.
#[verifier::external_body]
fn map_get<'a>(m: &'a serde_json::Map<String, serde_json::Value>, name: &str) -> (r: Option<
    &'a serde_json::Value,
>)
    ensures
        match r {
            Some(v) => fields(map_held(*m)).contains_key(name@) && fields(map_held(*m))[name@]
                == held(*v),
            None => !fields(map_held(*m)).contains_key(name@),
        },
{
    m.get(name)
}

/// `into_iter` of `serde_json::Map`: walks the names and the values that the map holds.
#[verifier::external_body]
fn map_entries(m: serde_json::Map<String, serde_json::Value>) -> (r: Vec<
    (String, serde_json::Value),
>)
    ensures
        held_entries(r@) == map_held(m),
{
    m.into_iter().collect()
}

/// `as_u64` of `serde_json::Number`: the number, if it is an integer from 0 on. A number is
/// an integer that fits `i64` or `u64`, or a double.
pub assume_specification[ serde_json::Number::as_u64 ](n: &serde_json::Number) -> (r: Option<u64>)
    ensures
        match r {
            Some(u) => number_held(*n) == JsonV::Int(u as int),
            None => number_held(*n) is Float || (number_held(*n) matches JsonV::Int(i) && i < 0),
        },
;

/// `as_i64` of `serde_json::Number`: the number, if it is an integer that fits `i64`. An
/// integer that does not is greater than every `i64`.
pub assume_specification[ serde_json::Number::as_i64 ](n: &serde_json::Number) -> (r: Option<i64>)
    ensures
        match r {
            Some(i) => number_held(*n) == JsonV::Int(i as int),
            None => number_held(*n) is Float || (number_held(*n) matches JsonV::Int(i) && i
                > i64::MAX),
        },
;

/// `clone` of `serde_json::Number`: the copy holds the same.
pub assume_specification[ <serde_json::Number as Clone>::clone ](
    n: &serde_json::Number,
) -> (r: serde_json::Number)
    ensures
        number_held(r) == number_held(*n),
;

/// `serde_json::Number::from` on a `u64`: the number that is that integer.
#[verifier::external_body]
fn number_from_unsigned(u: u64) -> (r: serde_json::Number)
    ensures
        number_held(r) == JsonV::Int(u as int),
{
    serde_json::Number::from(u)
}

/// `serde_json::Number::from` on an `i64`: the number that is that integer.
#[verifier::external_body]
fn number_from_signed(i: i64) -> (r: serde_json::Number)
    ensures
        number_held(r) == JsonV::Int(i as int),
{
    serde_json::Number::from(i)
}

/// `serde_json::from_slice` at the type `Value`: reads one JSON document. Which bytes are one,
/// and what it denotes, is a function of the bytes alone.
#[verifier::external_body]
fn read_value(bytes: &[u8]) -> (r: Result<serde_json::Value, serde_json::Error>)
    ensures
        match r {
            Ok(v) => json_read(bytes@) == Some(held(v)),
            Err(_) => json_read(bytes@) is None,
        },
{
    serde_json::from_slice::<serde_json::Value>(bytes)
}

/// What is known of the compact JSON text `s` of the value `v` beyond that `v` determines it.
pub open spec fn is_json_of(s: Seq<char>, v: JsonV) -> bool {
    &&& !s.contains('\0')
    &&& v is Null ==> s == "null"@
    &&& v == JsonV::Bool(true) ==> s == "true"@
    &&& v == JsonV::Bool(false) ==> s == "false"@
    &&& v matches JsonV::Int(i) ==> s == render::signed_decimal(i)
}

/// `serde_json::to_string` at the type `Value`: writes the value as compact JSON text. It
/// never fails on a `Value`, whose maps have strings for keys. The text is a function of what
/// the value holds and has no NUL character in it, since control characters are escaped. The
/// texts of `null`, of the booleans and of the integers are stated; those of the rest are left
/// to the name.
#[verifier::external_body]
fn write_value(v: &serde_json::Value) -> (r: Result<String, serde_json::Error>)
    ensures
        r is Ok,
        r->Ok_0@ == json_text(held(*v)),
        is_json_of(r->Ok_0@, held(*v)),
{
    serde_json::to_string(v)
}

// ---------------------------------------------------------------------------
// The type
// ---------------------------------------------------------------------------

/// A JSON value. An integer from 0 on is `Unsigned`, a negative one `Signed`.
#[derive(Debug, PartialEq)]
pub enum Json {
    Null,
    Bool(bool),
    Unsigned(u64),
    Signed(i64),
    Float(Float),
    Str(String),
    Array(Vec<Json>),
    Object(Object),
}

/// A JSON number that is no integer.
#[derive(Debug, PartialEq)]
pub struct Float {
    number: serde_json::Number,
}

/// A JSON object: named values in the order of their names, each name once.
#[derive(Debug, PartialEq)]
pub struct Object {
    map: serde_json::Map<String, serde_json::Value>,
}

impl Json {
    /// What the value is.
    pub open spec fn model(self) -> JsonV
        decreases self,
    {
        match self {
            Json::Null => JsonV::Null,
            Json::Bool(b) => JsonV::Bool(b),
            Json::Unsigned(u) => JsonV::Int(u as int),
            Json::Signed(i) => JsonV::Int(i as int),
            Json::Float(f) => JsonV::Float(f.bits()),
            Json::Str(s) => JsonV::Str(s@),
            Json::Array(items) => JsonV::Array(
                Seq::new(
                    items@.len(),
                    |i: int|
                        if 0 <= i < items@.len() {
                            items@[i].model()
                        } else {
                            JsonV::Null
                        },
                ),
            ),
            Json::Object(o) => JsonV::Object(o.model()),
        }
    }
}

/// What a list of values is.
pub open spec fn models(items: Seq<Json>) -> Seq<JsonV> {
    items.map_values(|v: Json| v.model())
}

/// What a list of named values is.
pub open spec fn entry_models(entries: Seq<(String, Json)>) -> Seq<(Seq<char>, JsonV)> {
    entries.map_values(|e: (String, Json)| (e.0@, e.1.model()))
}

impl Float {
    /// The bit pattern of the number.
    pub closed spec fn bits(self) -> u64 {
        number_held(self.number)->Float_0
    }

    #[verifier::type_invariant]
    spec fn wf(self) -> bool {
        number_held(self.number) is Float
    }

    /// The number as a number of `serde_json`.
    pub fn number(&self) -> (r: &serde_json::Number)
        ensures
            number_held(*r) == JsonV::Float(self.bits()),
    {
        proof {
            use_type_invariant(self);
        }
        &self.number
    }
}

impl Object {
    /// The fields.
    pub closed spec fn model(self) -> Seq<(Seq<char>, JsonV)> {
        map_held(self.map)
    }

    #[verifier::type_invariant]
    spec fn wf(self) -> bool {
        ascending(self.model())
    }

    /// The object without fields.
    pub fn new() -> (r: Object)
        ensures
            r.model() == Seq::<(Seq<char>, JsonV)>::empty(),
    {
        Object { map: map_new() }
    }

    /// The object with one field.
    pub fn single(name: &str, value: Json) -> (r: Object)
        ensures
            r.model() == seq![(name@, value.model())],
    {
        let mut r = Object::new();
        let ghost expected = seq![(name@, value.model())];
        assert(fields(r.model()) =~= Map::empty());
        r.insert(name.to_string(), value);
        assert(fields(expected) =~= fields(r.model())) by {
            lemma_fields(expected);
            assert(expected[0].0 == name@);
            assert forall|key: Seq<char>| fields(expected).contains_key(key) implies key
                == name@ by {
                let i = choose|i: int| #[trigger] is_field(expected, key, i);
                assert(is_field(expected, key, i));
            }
        }
        proof {
            lemma_fields_determine(r.model(), expected);
        }
        r
    }

    /// The fields, in the order of their names.
    pub fn entries(&self) -> (r: Vec<(String, Json)>)
        ensures
            entry_models(r@) == self.model(),
            ascending(entry_models(r@)),
    {
        proof {
            use_type_invariant(self);
        }
        let all = map_entries(map_clone(&self.map));
        let mut rest = all;
        let mut out: Vec<(String, Json)> = Vec::new();
        while rest.len() > 0
            invariant
                rest@.len() + out@.len() == all@.len(),
                rest@ == all@.skip(out@.len() as int),
                forall|i: int|
                    0 <= i < out@.len() ==> (#[trigger] out@[i]).0@ == all@[i].0@
                        && out@[i].1.model() == held(all@[i].1),
            decreases rest@.len(),
        {
            let (name, v) = rest.remove(0);
            out.push((name, Json::from_value(v)));
        }
        assert(entry_models(out@) =~= held_entries(all@));
        out
    }

    /// The value of the field `key`.
    pub fn get(&self, key: &str) -> (r: Option<Json>)
        ensures
            match r {
                Some(v) => fields(self.model()).contains_key(key@) && fields(self.model())[key@]
                    == v.model(),
                None => !fields(self.model()).contains_key(key@),
            },
    {
        match map_get(&self.map, key) {
            Some(v) => Some(Json::from_value(v.clone())),
            None => None,
        }
    }

    /// Gives the field `key` the value `value`, whether or not there was such a field.
    pub fn insert(&mut self, key: String, value: Json)
        ensures
            fields(final(self).model()) == fields(old(self).model()).insert(
                key@,
                value.model(),
            ),
            ascending(final(self).model()),
    {
        let mut map = map_new();
        std::mem::swap(&mut map, &mut self.map);
        map_insert(&mut map, key, value.to_value());
        *self = Object { map };
    }

    /// An equal object.
    pub fn copy(&self) -> (r: Object)
        ensures
            r.model() == self.model(),
    {
        proof {
            use_type_invariant(self);
        }
        Object { map: map_clone(&self.map) }
    }
}

impl Json {
    /// An equal value.
    pub fn copy(&self) -> (r: Json)
        ensures
            r.model() == self.model(),
        decreases self,
    {
        match self {
            Json::Null => Json::Null,
            Json::Bool(b) => Json::Bool(*b),
            Json::Unsigned(u) => Json::Unsigned(*u),
            Json::Signed(i) => Json::Signed(*i),
            Json::Float(f) => {
                proof {
                    use_type_invariant(f);
                }
                Json::Float(Float { number: f.number.clone() })
            },
            Json::Str(s) => Json::Str(s.clone()),
            Json::Array(items) => {
                let mut out: Vec<Json> = Vec::new();
                for i in 0..items.len()
                    invariant
                        *self == Json::Array(*items),
                        out@.len() == i,
                        forall|j: int|
                            0 <= j < i ==> (#[trigger] out@[j]).model() == items@[j].model(),
                {
                    assert(decreases_to!(self => self->Array_0@[i as int]));
                    out.push(items[i].copy());
                }
                let r = Json::Array(out);
                assert(r.model()->Array_0 =~= self.model()->Array_0);
                r
            },
            Json::Object(o) => Json::Object(o.copy()),
        }
    }

    /// The field `key` of an object.
    pub fn get(&self, key: &str) -> (r: Option<Json>)
        ensures
            match r {
                Some(v) => self.model().field(key@) == Some(v.model()),
                None => self.model().field(key@) is None,
            },
    {
        match self {
            Json::Object(o) => o.get(key),
            _ => None,
        }
    }

    /// The text of the field `key`, if there is such a field and it is a string.
    pub fn get_str(&self, key: &str) -> (r: Option<String>)
        ensures
            match r {
                Some(s) => self.model().text_field(key@) == Some(s@),
                None => self.model().text_field(key@) is None,
            },
    {
        match self.get(key) {
            Some(Json::Str(s)) => Some(s),
            _ => None,
        }
    }

    /// The elements of the field `key`, if there is such a field and it is an array.
    pub fn get_array(&self, key: &str) -> (r: Option<Vec<Json>>)
        ensures
            match r {
                Some(items) => self.model().array_field(key@) == Some(models(items@)),
                None => self.model().array_field(key@) is None,
            },
    {
        match self.get(key) {
            Some(v) => match v {
                Json::Array(items) => {
                    assert(v.model()->Array_0 =~= models(items@));
                    Some(items)
                },
                _ => None,
            },
            None => None,
        }
    }

    /// The field `key`, if there is such a field and it is an object.
    pub fn get_object(&self, key: &str) -> (r: Option<Object>)
        ensures
            match r {
                Some(o) => self.model().object_field(key@) == Some(o.model()),
                None => self.model().object_field(key@) is None,
            },
    {
        match self.get(key) {
            Some(Json::Object(o)) => Some(o),
            _ => None,
        }
    }

    /// The integer.
    pub fn integer(i: i64) -> (r: Json)
        ensures
            r.model() == JsonV::Int(i as int),
    {
        if i >= 0 {
            Json::Unsigned(i as u64)
        } else {
            Json::Signed(i)
        }
    }

    /// The array with the elements.
    pub fn array(items: Vec<Json>) -> (r: Json)
        ensures
            r.model() == JsonV::Array(models(items@)),
    {
        let r = Json::Array(items);
        assert(r.model()->Array_0 =~= models(items@));
        r
    }

    /// The value that a `serde_json::Value` holds.
    pub fn from_value(v: serde_json::Value) -> (r: Json)
        ensures
            r.model() == held(v),
        decreases held(v),
    {
        match open_value(v) {
            Level::Null => Json::Null,
            Level::Bool(b) => Json::Bool(b),
            Level::Number(number) => match number.as_u64() {
                Some(u) => Json::Unsigned(u),
                None => match number.as_i64() {
                    Some(i) => Json::Signed(i),
                    None => Json::Float(Float { number }),
                },
            },
            Level::Str(s) => Json::Str(s),
            Level::Array(items) => {
                let mut rest = items;
                let mut out: Vec<Json> = Vec::new();
                while rest.len() > 0
                    invariant
                        rest@.len() + out@.len() == items@.len(),
                        rest@ == items@.skip(out@.len() as int),
                        held(v) == JsonV::Array(held_items(items@)),
                        forall|i: int|
                            0 <= i < out@.len() ==> (#[trigger] out@[i]).model() == held(
                                items@[i],
                            ),
                    decreases rest@.len(),
                {
                    let x = rest.remove(0);
                    assert(held_items(items@)[out@.len() as int] == held(x));
                    assert(decreases_to!(held(v) => held(v)->Array_0[out@.len() as int]));
                    out.push(Json::from_value(x));
                }
                let r = Json::Array(out);
                assert(r.model()->Array_0 =~= held(v)->Array_0);
                r
            },
            Level::Object(map) => Json::Object(Object { map }),
        }
    }

    /// A `serde_json::Value` that holds this value.
    pub fn to_value(&self) -> (r: serde_json::Value)
        ensures
            held(r) == self.model(),
        decreases self,
    {
        match self {
            Json::Null => build_value(Level::Null),
            Json::Bool(b) => build_value(Level::Bool(*b)),
            Json::Unsigned(u) => build_value(Level::Number(number_from_unsigned(*u))),
            Json::Signed(i) => build_value(Level::Number(number_from_signed(*i))),
            Json::Float(f) => {
                proof {
                    use_type_invariant(f);
                }
                build_value(Level::Number(f.number.clone()))
            },
            Json::Str(s) => build_value(Level::Str(s.clone())),
            Json::Array(items) => {
                let mut out: Vec<serde_json::Value> = Vec::new();
                for i in 0..items.len()
                    invariant
                        *self == Json::Array(*items),
                        out@.len() == i,
                        forall|j: int| 0 <= j < i ==> held(#[trigger] out@[j]) == items@[j].model(),
                {
                    assert(decreases_to!(self => self->Array_0@[i as int]));
                    out.push(items[i].to_value());
                }
                assert(held_items(out@) =~= self.model()->Array_0);
                build_value(Level::Array(out))
            },
            Json::Object(o) => build_value(Level::Object(map_clone(&o.map))),
        }
    }

    /// The value that a JSON document denotes, if the bytes are one.
    pub fn parse(bytes: &[u8]) -> (r: Option<Json>)
        ensures
            match r {
                Some(v) => json_read(bytes@) == Some(v.model()),
                None => json_read(bytes@) is None,
            },
    {
        match read_value(bytes) {
            Ok(v) => Some(Json::from_value(v)),
            Err(_) => None,
        }
    }

    /// The compact JSON text of the value.
    pub fn print(&self) -> (r: String)
        ensures
            r@ == json_text(self.model()),
            is_json_of(r@, self.model()),
    {
        let v = self.to_value();
        match write_value(&v) {
            Ok(s) => s,
            Err(_) => "{\"error\":\"serialize\"}".to_string(),
        }
    }
}

} // verus!
