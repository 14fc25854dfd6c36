//! Rows of a result set as JSON.
use vstd::prelude::*;

use crate::json;
use crate::json::{Json, JsonV, Object};
use crate::readback;
use crate::render;
use crate::render::{Clock, Date, Exact};
use crate::text;

verus! {

/// A cell of a result set, by the type of its column. `None` is the null of the type.
#[derive(Debug)]
pub enum Cell {
    /// `bit`.
    Bit(Option<bool>),
    /// `tinyint`.
    U8(Option<u8>),
    /// `smallint`.
    I16(Option<i16>),
    /// `int`.
    I32(Option<i32>),
    /// `bigint`.
    I64(Option<i64>),
    /// `real`, `float`, `money` and `smallmoney`: the JSON number that the double is, or `null`
    /// for a double that is not finite.
    Real(Option<Json>),
    /// `char`, `varchar`, `nchar`, `nvarchar`, `text` and `ntext`.
    Str(Option<String>),
    /// `decimal` and `numeric`.
    Numeric(Option<Exact>),
    /// `uniqueidentifier`.
    Guid(Option<[u8; 16]>),
    /// `datetime`, `datetime2` and `smalldatetime`.
    DateTime(Option<(Date, Clock)>),
    /// `date`.
    Date(Option<Date>),
    /// `time`.
    Time(Option<Clock>),
    /// `binary`, `varbinary` and `image`.
    Binary(Option<Vec<u8>>),
    /// `datetimeoffset`: the local date and time, and the offset from UTC in minutes.
    DateTimeOffset(Option<(Date, Clock, i16)>),
    /// `xml`.
    Xml(Option<String>),
}

impl Cell {
    /// The JSON value of the cell: null for a null; a boolean, a number or a string for a bit,
    /// an integer, a double or a text; a string for a decimal, an identifier, a date or a time;
    /// Base64 for bytes.
    pub open spec fn json(self) -> JsonV {
        match self {
            Cell::Bit(Some(b)) => JsonV::Bool(b),
            Cell::U8(Some(i)) => JsonV::Int(i as int),
            Cell::I16(Some(i)) => JsonV::Int(i as int),
            Cell::I32(Some(i)) => JsonV::Int(i as int),
            Cell::I64(Some(i)) => JsonV::Int(i as int),
            Cell::Real(Some(v)) => v.model(),
            Cell::Str(Some(s)) => JsonV::Str(s@),
            Cell::Numeric(Some(d)) => JsonV::Str(
                render::exact_text(d.spec_mantissa() as int, d.spec_scale() as nat),
            ),
            Cell::Guid(Some(b)) => JsonV::Str(render::uuid_text(b@)),
            Cell::DateTime(Some(dt)) => JsonV::Str(
                dt.0.spec_text().push('T') + dt.1.spec_text(),
            ),
            Cell::Date(Some(d)) => JsonV::Str(d.spec_text()),
            Cell::Time(Some(t)) => JsonV::Str(t.spec_text()),
            Cell::Binary(Some(b)) => JsonV::Str(render::base64_text(b@)),
            Cell::DateTimeOffset(Some(dt)) => JsonV::Str(
                dt.0.spec_text().push('T') + dt.1.spec_text() + render::offset_text(dt.2 as int),
            ),
            Cell::Xml(Some(s)) => JsonV::Str(s@),
            _ => JsonV::Null,
        }
    }

    /// Whether the cell is null.
    pub open spec fn is_null(self) -> bool {
        match self {
            Cell::Bit(v) => v is None,
            Cell::U8(v) => v is None,
            Cell::I16(v) => v is None,
            Cell::I32(v) => v is None,
            Cell::I64(v) => v is None,
            Cell::Real(v) => v is None,
            Cell::Str(v) => v is None,
            Cell::Numeric(v) => v is None,
            Cell::Guid(v) => v is None,
            Cell::DateTime(v) => v is None,
            Cell::Date(v) => v is None,
            Cell::Time(v) => v is None,
            Cell::Binary(v) => v is None,
            Cell::DateTimeOffset(v) => v is None,
            Cell::Xml(v) => v is None,
        }
    }
}

/// The JSON value of a cell.
pub fn cell_to_json(cell: &Cell) -> (r: Json)
    ensures
        r.model() == cell.json(),
{
    match cell {
        Cell::Bit(Some(b)) => Json::Bool(*b),
        Cell::U8(Some(i)) => Json::Unsigned(*i as u64),
        Cell::I16(Some(i)) => Json::integer(*i as i64),
        Cell::I32(Some(i)) => Json::integer(*i as i64),
        Cell::I64(Some(i)) => Json::integer(*i),
        Cell::Real(Some(v)) => v.copy(),
        Cell::Str(Some(s)) => Json::Str(s.clone()),
        Cell::Numeric(Some(d)) => Json::Str(d.text()),
        Cell::Guid(Some(b)) => Json::Str(render::format_uuid(*b)),
        Cell::DateTime(Some((d, t))) => Json::Str(render::date_time_text(d, t)),
        Cell::Date(Some(d)) => Json::Str(d.text()),
        Cell::Time(Some(t)) => Json::Str(t.text()),
        Cell::Binary(Some(b)) => Json::Str(render::encode_base64(b)),
        Cell::DateTimeOffset(Some((d, t, offset))) => Json::Str(
            render::date_time_offset_text(d, t, *offset),
        ),
        Cell::Xml(Some(s)) => Json::Str(s.clone()),
        _ => Json::Null,
    }
}

/// The fields that the columns of a row give. Of two columns with one name the later counts.
pub open spec fn row_fields(row: Seq<(String, Cell)>) -> Map<Seq<char>, JsonV>
    decreases row.len(),
{
    if row.len() == 0 {
        Map::empty()
    } else {
        row_fields(row.drop_last()).insert(row.last().0@, row.last().1.json())
    }
}

/// Whether a JSON value is the object of a row.
pub open spec fn is_row(v: JsonV, row: Seq<(String, Cell)>) -> bool {
    v matches JsonV::Object(entries) && json::ascending(entries) && json::fields(entries)
        == row_fields(row)
}

/// A row as a JSON object: the cells by the names of their columns.
pub fn row_to_json(row: &Vec<(String, Cell)>) -> (r: Json)
    ensures
        is_row(r.model(), row@),
{
    let mut obj = Object::new();
    assert(json::fields(obj.model()) =~= row_fields(row@.take(0)));
    assert(json::ascending(obj.model()));
    let n = row.len();
    for i in 0..n
        invariant
            n == row@.len(),
            json::ascending(obj.model()),
            json::fields(obj.model()) == row_fields(row@.take(i as int)),
    {
        assert(row@.take(i + 1).drop_last() =~= row@.take(i as int));
        assert(row@.take(i + 1).last() == row@[i as int]);
        obj.insert(row[i].0.clone(), cell_to_json(&row[i].1));
    }
    assert(row@.take(n as int) =~= row@);
    Json::Object(obj)
}

/// The rows as JSON objects, in their order.
pub fn rows_to_json(rows: &Vec<Vec<(String, Cell)>>) -> (r: Vec<Json>)
    ensures
        r@.len() == rows@.len(),
        forall|i: int| 0 <= i < rows@.len() ==> is_row((#[trigger] r@[i]).model(), rows@[i]@),
{
    let mut out: Vec<Json> = Vec::new();
    let n = rows.len();
    for i in 0..n
        invariant
            n == rows@.len(),
            out@.len() == i,
            forall|j: int| 0 <= j < i ==> is_row((#[trigger] out@[j]).model(), rows@[j]@),
    {
        out.push(row_to_json(&rows[i]));
    }
    out
}

/// No value is lost: the JSON value of a cell is null if and only if the cell is. A double that
/// is not finite, which JSON has no number for, is left out.
pub proof fn law_only_nulls_are_null(cell: Cell)
    requires
        cell matches Cell::Real(Some(v)) ==> !(v.model() is Null),
    ensures
        cell.json() is Null <==> cell.is_null(),
{
}

/// The JSON object of a row is determined: there is no other with the same fields.
pub proof fn law_row_determined(a: JsonV, b: JsonV, row: Seq<(String, Cell)>)
    requires
        is_row(a, row),
        is_row(b, row),
    ensures
        a == b,
{
    json::lemma_fields_determine(a->Object_0, b->Object_0);
}

/// Every cell of a row is found under the name of its column, if no later column has the same
/// name, and there is nothing else in the object.
pub proof fn law_row_holds_cells(row: Seq<(String, Cell)>, i: int)
    requires
        0 <= i < row.len(),
        forall|j: int| i < j < row.len() ==> (#[trigger] row[j]).0@ != row[i].0@,
    ensures
        row_fields(row).contains_key(row[i].0@),
        row_fields(row)[row[i].0@] == row[i].1.json(),
        forall|name: Seq<char>|
            row_fields(row).contains_key(name) ==> exists|j: int|
                0 <= j < row.len() && (#[trigger] row[j]).0@ == name,
    decreases row.len(),
{
    lemma_row_names(row);
    if i < row.len() - 1 {
        let front = row.drop_last();
        assert(front[i] == row[i]);
        assert forall|j: int| i < j < front.len() implies (#[trigger] front[j]).0@
            != front[i].0@ by {
            assert(front[j] == row[j]);
        }
        law_row_holds_cells(front, i);
        assert(row[row.len() - 1].0@ != row[i].0@);
    }
}

/// Whether the parts of a date and time are valid.
pub open spec fn valid_date_time(date: Date, time: Clock) -> bool {
    &&& render::valid_date(
        date.spec_year() as int,
        date.spec_month() as int,
        date.spec_day() as int,
    )
    &&& time.spec_secs() < 86_400
    &&& time.spec_nanos() < 1_000_000_000
}

/// Nothing of a value is lost in JSON: a boolean, an integer, a double or a text is itself, and
/// the string that a decimal, an identifier, a date, a time or bytes become denotes the value.
pub proof fn law_cell_reads_back(cell: Cell)
    requires
        match cell {
            Cell::Numeric(Some(d)) => render::valid_exact(
                d.spec_mantissa() as int,
                d.spec_scale() as int,
            ),
            Cell::DateTime(Some(dt)) => valid_date_time(dt.0, dt.1),
            Cell::Date(Some(d)) => render::valid_date(
                d.spec_year() as int,
                d.spec_month() as int,
                d.spec_day() as int,
            ),
            Cell::Time(Some(t)) => t.spec_secs() < 86_400 && t.spec_nanos() < 1_000_000_000,
            Cell::DateTimeOffset(Some(dt)) => valid_date_time(dt.0, dt.1) && -1440 < dt.2 < 1440,
            _ => true,
        },
    ensures
        match cell {
            Cell::Bit(Some(b)) => cell.json() == JsonV::Bool(b),
            Cell::U8(Some(i)) => cell.json() == JsonV::Int(i as int),
            Cell::I16(Some(i)) => cell.json() == JsonV::Int(i as int),
            Cell::I32(Some(i)) => cell.json() == JsonV::Int(i as int),
            Cell::I64(Some(i)) => cell.json() == JsonV::Int(i as int),
            Cell::Real(Some(v)) => cell.json() == v.model(),
            Cell::Str(Some(s)) => cell.json() == JsonV::Str(s@),
            Cell::Xml(Some(s)) => cell.json() == JsonV::Str(s@),
            Cell::Numeric(Some(d)) => cell.json() matches JsonV::Str(s) && readback::read_exact(s)
                == (d.spec_mantissa() as int, d.spec_scale() as nat),
            Cell::Guid(Some(b)) => cell.json() matches JsonV::Str(s) && readback::read_uuid(s)
                == b@,
            Cell::DateTime(Some(dt)) => cell.json() matches JsonV::Str(s) && (text::split_once(
                s,
                'T',
            ) matches Some(parts) && readback::read_date(parts.0) == (
                dt.0.spec_year() as int,
                dt.0.spec_month() as int,
                dt.0.spec_day() as int,
            ) && readback::read_time(parts.1) == (
                dt.1.spec_secs() as int,
                dt.1.spec_nanos() as int,
            )),
            Cell::Date(Some(d)) => cell.json() matches JsonV::Str(s) && readback::read_date(s) == (
                d.spec_year() as int,
                d.spec_month() as int,
                d.spec_day() as int,
            ),
            Cell::Time(Some(t)) => cell.json() matches JsonV::Str(s) && readback::read_time(s) == (
                t.spec_secs() as int,
                t.spec_nanos() as int,
            ),
            Cell::Binary(Some(b)) => cell.json() matches JsonV::Str(s) && readback::read_base64(s)
                == b@,
            Cell::DateTimeOffset(Some(dt)) => cell.json() matches JsonV::Str(s) && (
            text::split_once(s, 'T') matches Some(parts) && readback::read_date(parts.0) == (
                dt.0.spec_year() as int,
                dt.0.spec_month() as int,
                dt.0.spec_day() as int,
            ) && readback::read_offset_time(parts.1) == (
                dt.1.spec_secs() as int,
                dt.1.spec_nanos() as int,
                dt.2 as int,
            )),
            _ => cell.is_null() && cell.json() is Null,
        },
{
    match cell {
        Cell::Numeric(Some(d)) => readback::law_decimal_reads_back(
            d.spec_mantissa() as int,
            d.spec_scale() as nat,
        ),
        Cell::Guid(Some(b)) => readback::law_uuid_reads_back(b@),
        Cell::DateTime(Some(dt)) => {
            let (y, m, d) = (
                dt.0.spec_year() as int,
                dt.0.spec_month() as int,
                dt.0.spec_day() as int,
            );
            readback::law_date_time_splits(y, m, d, dt.1.spec_text());
            readback::law_date_reads_back(y, m, d);
            readback::law_time_reads_back(dt.1.spec_secs() as int, dt.1.spec_nanos() as int);
        },
        Cell::Date(Some(d)) => readback::law_date_reads_back(
            d.spec_year() as int,
            d.spec_month() as int,
            d.spec_day() as int,
        ),
        Cell::Time(Some(t)) => readback::law_time_reads_back(
            t.spec_secs() as int,
            t.spec_nanos() as int,
        ),
        Cell::Binary(Some(b)) => readback::law_bytes_read_back(b@),
        Cell::DateTimeOffset(Some(dt)) => {
            let (y, m, d) = (
                dt.0.spec_year() as int,
                dt.0.spec_month() as int,
                dt.0.spec_day() as int,
            );
            let rest = dt.1.spec_text() + render::offset_text(dt.2 as int);
            assert(cell.json()->Str_0 =~= dt.0.spec_text().push('T') + rest);
            readback::law_date_time_splits(y, m, d, rest);
            readback::law_date_reads_back(y, m, d);
            readback::law_offset_time_reads_back(
                dt.1.spec_secs() as int,
                dt.1.spec_nanos() as int,
                dt.2 as int,
            );
        },
        _ => {},
    }
}

/// The names of a row's object are names of columns.
proof fn lemma_row_names(row: Seq<(String, Cell)>)
    ensures
        forall|name: Seq<char>|
            row_fields(row).contains_key(name) ==> exists|j: int|
                0 <= j < row.len() && (#[trigger] row[j]).0@ == name,
    decreases row.len(),
{
    if row.len() > 0 {
        let front = row.drop_last();
        lemma_row_names(front);
        assert forall|name: Seq<char>| row_fields(row).contains_key(name) implies exists|j: int|
            0 <= j < row.len() && (#[trigger] row[j]).0@ == name by {
            if name == row.last().0@ {
                assert(row[row.len() - 1].0@ == name);
            } else {
                assert(row_fields(front).contains_key(name));
                let j = choose|j: int| 0 <= j < front.len() && (#[trigger] front[j]).0@ == name;
                assert(row[j].0@ == name);
            }
        }
    }
}

} // verus!
