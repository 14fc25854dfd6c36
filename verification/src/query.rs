//! Queries: SQL text with parameters.
use vstd::prelude::*;

use crate::json;
use crate::json::{Json, JsonV};

verus! {

// ---------------------------------------------------------------------------
// The model
// ---------------------------------------------------------------------------

/// A parameter as the server gets it. A double is given by its bit pattern.
pub enum Param {
    /// An integer of 32 bits that is null.
    NullInt,
    Bit(bool),
    BigInt(i64),
    Double(u64),
    Text(Seq<char>),
}

/// A query as the server gets it. The parameters are `@P1`, `@P2` and so on.
pub struct QueryV {
    pub sql: Seq<char>,
    pub params: Seq<Param>,
}

/// The parameter that a JSON value is bound as. An integer is bound as the 64-bit integer with
/// the same low 64 bits; a value that is no scalar is bound as its JSON text.
pub open spec fn param_of(v: JsonV) -> Param {
    match v {
        JsonV::Null => Param::NullInt,
        JsonV::Bool(b) => Param::Bit(b),
        JsonV::Int(i) => Param::BigInt(
            if i > i64::MAX {
                (i - 0x1_0000_0000_0000_0000) as i64
            } else {
                i as i64
            },
        ),
        JsonV::Float(bits) => Param::Double(bits),
        JsonV::Str(s) => Param::Text(s),
        _ => Param::Text(json::json_text(v)),
    }
}

/// The parameters that JSON values are bound as.
pub open spec fn params_for(values: Seq<JsonV>) -> Seq<Param> {
    values.map_values(|v: JsonV| param_of(v))
}

// ---------------------------------------------------------------------------
// tiberius
// ---------------------------------------------------------------------------

/// `tiberius::Query`: a query of the outside crate.
#[verifier::external_type_specification]
#[verifier::external_body]
pub struct ExQuery<'a>(tiberius::Query<'a>);

/// The SQL text and the parameters that a `tiberius::Query` holds.
pub uninterp spec fn query_held(q: tiberius::Query<'static>) -> QueryV;

/// `tiberius::Query::new`: a query with the SQL text and no parameters.
#[verifier::external_body]
fn query_new(sql: String) -> (r: tiberius::Query<'static>)
    ensures
        query_held(r) == (QueryV { sql: sql@, params: Seq::empty() }),
{
    tiberius::Query::new(sql)
}

/// A scalar that can be bound.
enum Scalar {
    NullInt,
    Bit(bool),
    BigInt(i64),
    Double(serde_json::Number),
    Text(String),
}

impl Scalar {
    spec fn model(self) -> Param {
        match self {
            Scalar::NullInt => Param::NullInt,
            Scalar::Bit(b) => Param::Bit(b),
            Scalar::BigInt(i) => Param::BigInt(i),
            Scalar::Double(n) => Param::Double(json::number_held(n)->Float_0),
            Scalar::Text(s) => Param::Text(s@),
        }
    }

    spec fn wf(self) -> bool {
        match self {
            Scalar::Double(n) => json::number_held(n) is Float,
            _ => true,
        }
    }
}

/// `bind` of `tiberius::Query`, at the types `Option<i32>` (null), `bool`, `i64`, `f64` and
/// `String`: adds one parameter behind the others. The double is the one that `as_f64` of
/// `serde_json::Number` gives, which every number has.
#[verifier::external_body]
fn query_bind(q: &mut tiberius::Query<'static>, s: Scalar)
    requires
        s.wf(),
    ensures
        query_held(*final(q)) == (QueryV {
            params: query_held(*old(q)).params.push(s.model()),
            ..query_held(*old(q))
        }),
{
    match s {
        Scalar::NullInt => q.bind(Option::<i32>::None),
        Scalar::Bit(b) => q.bind(b),
        Scalar::BigInt(i) => q.bind(i),
        Scalar::Double(n) => q.bind(n.as_f64().unwrap()),
        Scalar::Text(s) => q.bind(s),
    }
}

// ---------------------------------------------------------------------------
// Binding
// ---------------------------------------------------------------------------

/// The parameters of a call: the elements of its field `params`, if that is an array.
pub open spec fn call_params(v: JsonV) -> Seq<JsonV> {
    match v.array_field("params"@) {
        Some(items) => items,
        None => Seq::empty(),
    }
}

/// The parameters of a call.
pub fn params_of(v: &Json) -> (r: Vec<Json>)
    ensures
        json::models(r@) == call_params(v.model()),
{
    match v.get_array("params") {
        Some(items) => items,
        None => {
            let none: Vec<Json> = Vec::new();
            assert(json::models(none@) =~= Seq::empty());
            none
        },
    }
}

/// An unsigned integer as the signed integer with the same bits.
fn as_signed(u: u64) -> (r: i64)
    ensures
        r as int == (if u > i64::MAX {
            u - 0x1_0000_0000_0000_0000
        } else {
            u as int
        }),
{
    if u <= 0x7fff_ffff_ffff_ffff {
        u as i64
    } else {
        let complement: u64 = 0xffff_ffff_ffff_ffff - u;
        -1 - (complement as i64)
    }
}

/// Binds JSON values to a query as its parameters `@P1`, `@P2` and so on: behind those it has,
/// one for each value and in their order.
pub fn bind_params(q: tiberius::Query<'static>, params: &Vec<Json>) -> (r: tiberius::Query<
    'static,
>)
    ensures
        query_held(r).sql == query_held(q).sql,
        query_held(r).params == query_held(q).params + params_for(json::models(params@)),
{
    let ghost before = query_held(q);
    let ghost all = params_for(json::models(params@));
    let mut q = q;
    let n = params.len();
    for i in 0..n
        invariant
            n == params@.len(),
            all == params_for(json::models(params@)),
            query_held(q).sql == before.sql,
            query_held(q).params == before.params + all.take(i as int),
    {
        let ghost done = query_held(q).params;
        let p = &params[i];
        let scalar = match p {
            Json::Null => Scalar::NullInt,
            Json::Bool(b) => Scalar::Bit(*b),
            Json::Unsigned(u) => Scalar::BigInt(as_signed(*u)),
            Json::Signed(i) => Scalar::BigInt(*i),
            Json::Float(f) => Scalar::Double(f.number().clone()),
            Json::Str(s) => Scalar::Text(s.clone()),
            other => Scalar::Text(other.print()),
        };
        assert(scalar.model() == all[i as int]);
        let ghost m = scalar.model();
        query_bind(&mut q, scalar);
        assert(query_held(q).params =~= done.push(m));
        assert(done.push(m) =~= before.params + all.take(i + 1));
    }
    assert(query_held(q).params =~= before.params + all);
    q
}

/// The query with the SQL text and the values as its parameters.
pub fn build_query(sql: &str, params: &Vec<Json>) -> (r: tiberius::Query<'static>)
    ensures
        query_held(r) == (QueryV { sql: sql@, params: params_for(json::models(params@)) }),
{
    let r = bind_params(query_new(sql.to_string()), params);
    assert(query_held(r).params =~= params_for(json::models(params@)));
    r
}

} // verus!
