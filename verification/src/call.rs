//! The calls: what each asks of the server or answers by itself, and its reply.
//!
//! A call comes as a JSON value. Those that need no server answer at once. The others say what
//! is to be done, and from what the server returned the reply is made.
use vstd::prelude::*;

use crate::ado;
use crate::failure::Failure;
use crate::json;
use crate::json::{Json, JsonV, Object};
use crate::query;
use crate::tsql;

verus! {

// ---------------------------------------------------------------------------
// Tasks
// ---------------------------------------------------------------------------

/// What is made of the rows of a query.
#[derive(Clone, Copy, Debug, PartialEq, Eq, Structural)]
pub enum Shape {
    /// Whether there are any.
    Any,
    /// The field `version` of the first.
    Version,
    /// All of them.
    Rows,
    /// The first.
    FirstRow,
    /// The first field of the first.
    FirstValue,
}

/// What the server is asked for.
#[derive(Debug)]
pub enum Task {
    /// The rows of a query with parameters.
    Query { sql: String, params: Vec<Json>, shape: Shape },
    /// The rows of a query that is sent as it stands.
    Simple { sql: String },
    /// The number of rows that a statement with parameters affects.
    Execute { sql: String, params: Vec<Json> },
    /// The number of rows that the statements of a transaction affect.
    Batch { statements: Vec<String> },
}

/// The model of a task.
pub enum TaskV {
    Query { sql: Seq<char>, params: Seq<JsonV>, shape: Shape },
    Simple { sql: Seq<char> },
    Execute { sql: Seq<char>, params: Seq<JsonV> },
    Batch { statements: Seq<Seq<char>> },
}

impl Task {
    /// The model.
    pub open spec fn model(self) -> TaskV {
        match self {
            Task::Query { sql, params, shape } => TaskV::Query {
                sql: sql@,
                params: json::models(params@),
                shape,
            },
            Task::Simple { sql } => TaskV::Simple { sql: sql@ },
            Task::Execute { sql, params } => TaskV::Execute {
                sql: sql@,
                params: json::models(params@),
            },
            Task::Batch { statements } => TaskV::Batch { statements: tsql::views(statements@) },
        }
    }
}

/// Whether a call came to what it should: the task, or the failure.
pub open spec fn asks(r: Result<Task, Failure>, expected: Result<TaskV, Failure>) -> bool {
    match (r, expected) {
        (Ok(task), Ok(model)) => task.model() == model,
        (Err(failure), Err(other)) => failure == other,
        _ => false,
    }
}

/// The task of a call with the fields `sql` and `params`.
pub open spec fn query_of(v: JsonV, shape: Shape) -> Result<TaskV, Failure> {
    match v.text_field("sql"@) {
        Some(sql) => Ok(TaskV::Query { sql, params: query::call_params(v), shape }),
        None => Err(Failure::MissingSql),
    }
}

/// The task of a query without parameters.
pub open spec fn plain_query(sql: Seq<char>, shape: Shape) -> TaskV {
    TaskV::Query { sql, params: Seq::empty(), shape }
}

/// Those of the values that are strings, in their order.
pub open spec fn strings_of(items: Seq<JsonV>) -> Seq<Seq<char>>
    decreases items.len(),
{
    if items.len() == 0 {
        Seq::empty()
    } else {
        match items.last().text() {
            Some(s) => strings_of(items.drop_last()).push(s),
            None => strings_of(items.drop_last()),
        }
    }
}

fn ask_query(v: &Json, shape: Shape) -> (r: Result<Task, Failure>)
    ensures
        asks(r, query_of(v.model(), shape)),
{
    match v.get_str("sql") {
        Some(sql) => Ok(Task::Query { sql, params: query::params_of(v), shape }),
        None => Err(Failure::MissingSql),
    }
}

fn ask_plain(sql: &str, shape: Shape) -> (r: Task)
    ensures
        r.model() == plain_query(sql@, shape),
{
    let params: Vec<Json> = Vec::new();
    assert(json::models(params@) =~= Seq::empty());
    Task::Query { sql: sql.to_string(), params, shape }
}

/// Whether the server answers.
pub fn mssql__ping() -> (r: Task)
    ensures
        r.model() == plain_query("SELECT 1 AS ok"@, Shape::Any),
{
    ask_plain("SELECT 1 AS ok", Shape::Any)
}

/// The version of the server.
pub fn mssql__server_version() -> (r: Task)
    ensures
        r.model() == plain_query("SELECT @@VERSION AS version"@, Shape::Version),
{
    ask_plain("SELECT @@VERSION AS version", Shape::Version)
}

/// The rows of a query.
pub fn mssql__query(v: &Json) -> (r: Result<Task, Failure>)
    ensures
        asks(r, query_of(v.model(), Shape::Rows)),
{
    ask_query(v, Shape::Rows)
}

/// The first row of a query.
pub fn mssql__query_one(v: &Json) -> (r: Result<Task, Failure>)
    ensures
        asks(r, query_of(v.model(), Shape::FirstRow)),
{
    ask_query(v, Shape::FirstRow)
}

/// The first value of the first row of a query.
pub fn mssql__scalar(v: &Json) -> (r: Result<Task, Failure>)
    ensures
        asks(r, query_of(v.model(), Shape::FirstValue)),
{
    ask_query(v, Shape::FirstValue)
}

/// Whether a query has rows.
pub fn mssql__exists(v: &Json) -> (r: Result<Task, Failure>)
    ensures
        asks(r, query_of(v.model(), Shape::Any)),
{
    ask_query(v, Shape::Any)
}

/// Executes a statement.
pub fn mssql__execute(v: &Json) -> (r: Result<Task, Failure>)
    ensures
        asks(
            r,
            match v.model().text_field("sql"@) {
                Some(sql) => Ok(TaskV::Execute { sql, params: query::call_params(v.model()) }),
                None => Err(Failure::MissingSql),
            },
        ),
{
    match v.get_str("sql") {
        Some(sql) => Ok(Task::Execute { sql, params: query::params_of(v) }),
        None => Err(Failure::MissingSql),
    }
}

/// The rows of a query that is sent as it stands.
pub fn mssql__simple_query(v: &Json) -> (r: Result<Task, Failure>)
    ensures
        asks(
            r,
            match v.model().text_field("sql"@) {
                Some(sql) => Ok(TaskV::Simple { sql }),
                None => Err(Failure::MissingSql),
            },
        ),
{
    match v.get_str("sql") {
        Some(sql) => Ok(Task::Simple { sql }),
        None => Err(Failure::MissingSql),
    }
}

/// Executes statements in a transaction. Elements of the list that are no strings are left out.
pub fn mssql__batch(v: &Json) -> (r: Result<Task, Failure>)
    ensures
        asks(
            r,
            match v.model().array_field("statements"@) {
                Some(items) => Ok(TaskV::Batch { statements: strings_of(items) }),
                None => Err(Failure::MissingStatements),
            },
        ),
{
    match v.get_array("statements") {
        Some(items) => {
            let mut statements: Vec<String> = Vec::new();
            let n = items.len();
            let ghost all = json::models(items@);
            assert(tsql::views(statements@) =~= strings_of(all.take(0)));
            for i in 0..n
                invariant
                    n == items@.len(),
                    all == json::models(items@),
                    tsql::views(statements@) == strings_of(all.take(i as int)),
            {
                let ghost before = tsql::views(statements@);
                assert(all.take(i + 1).drop_last() =~= all.take(i as int));
                assert(all.take(i + 1).last() == items@[i as int].model());
                if let Json::Str(s) = &items[i] {
                    statements.push(s.clone());
                    assert(tsql::views(statements@) =~= before.push(s@));
                }
            }
            assert(all.take(n as int) =~= all);
            Ok(Task::Batch { statements })
        },
        None => Err(Failure::MissingStatements),
    }
}

/// The databases of the server.
pub fn mssql__databases() -> (r: Task)
    ensures
        r.model() == plain_query("SELECT name FROM sys.databases ORDER BY name"@, Shape::Rows),
{
    ask_plain("SELECT name FROM sys.databases ORDER BY name", Shape::Rows)
}

/// The tables of the database.
pub fn mssql__tables() -> (r: Task)
    ensures
        r.model() == plain_query(
            "SELECT TABLE_SCHEMA, TABLE_NAME, TABLE_TYPE FROM INFORMATION_SCHEMA.TABLES ORDER BY TABLE_SCHEMA, TABLE_NAME"@,
            Shape::Rows,
        ),
{
    ask_plain(
        "SELECT TABLE_SCHEMA, TABLE_NAME, TABLE_TYPE FROM INFORMATION_SCHEMA.TABLES ORDER BY TABLE_SCHEMA, TABLE_NAME",
        Shape::Rows,
    )
}

/// The columns of a table.
pub fn mssql__columns(v: &Json) -> (r: Result<Task, Failure>)
    ensures
        asks(
            r,
            match v.model().text_field("table"@) {
                Some(table) => Ok(
                    TaskV::Query {
                        sql:
                            "SELECT COLUMN_NAME, DATA_TYPE, IS_NULLABLE, CHARACTER_MAXIMUM_LENGTH FROM INFORMATION_SCHEMA.COLUMNS WHERE TABLE_NAME = @P1 ORDER BY ORDINAL_POSITION"@,
                        params: seq![JsonV::Str(table)],
                        shape: Shape::Rows,
                    },
                ),
                None => Err(Failure::MissingTable),
            },
        ),
{
    match v.get_str("table") {
        Some(table) => {
            let mut params: Vec<Json> = Vec::new();
            params.push(Json::Str(table));
            assert(json::models(params@) =~= seq![JsonV::Str(table@)]);
            Ok(
                Task::Query {
                    sql:
                        "SELECT COLUMN_NAME, DATA_TYPE, IS_NULLABLE, CHARACTER_MAXIMUM_LENGTH FROM INFORMATION_SCHEMA.COLUMNS WHERE TABLE_NAME = @P1 ORDER BY ORDINAL_POSITION".to_string(),
                    params,
                    shape: Shape::Rows,
                },
            )
        },
        None => Err(Failure::MissingTable),
    }
}

// ---------------------------------------------------------------------------
// Answers
// ---------------------------------------------------------------------------

/// The object with one field.
pub open spec fn one(name: Seq<char>, value: JsonV) -> JsonV {
    JsonV::Object(seq![(name, value)])
}

fn object_of(name: &str, value: Json) -> (r: Json)
    ensures
        r.model() == one(name@, value.model()),
{
    Json::Object(Object::single(name, value))
}

/// The first field of an object, in the order of the names; null for anything else.
pub open spec fn first_value(v: JsonV) -> JsonV {
    match v {
        JsonV::Object(entries) => if entries.len() > 0 {
            entries[0].1
        } else {
            JsonV::Null
        },
        _ => JsonV::Null,
    }
}

/// The answer that is made of the rows of a query.
pub open spec fn answer_of(shape: Shape, rows: Seq<JsonV>) -> JsonV {
    match shape {
        Shape::Any => one("value"@, JsonV::Bool(rows.len() > 0)),
        Shape::Version => one(
            "value"@,
            if rows.len() > 0 {
                or_null(rows[0].field("version"@))
            } else {
                JsonV::Null
            },
        ),
        Shape::Rows => one("rows"@, JsonV::Array(rows)),
        Shape::FirstRow => one(
            "row"@,
            if rows.len() > 0 {
                rows[0]
            } else {
                JsonV::Null
            },
        ),
        Shape::FirstValue => one(
            "value"@,
            if rows.len() > 0 {
                first_value(rows[0])
            } else {
                JsonV::Null
            },
        ),
    }
}

/// The answer that is made of the rows of a query.
pub fn answer(shape: Shape, rows: Vec<Json>) -> (r: Json)
    ensures
        r.model() == answer_of(shape, json::models(rows@)),
{
    match shape {
        Shape::Any => object_of("value", Json::Bool(rows.len() > 0)),
        Shape::Version => {
            let value = if rows.len() > 0 {
                value_or_null(rows[0].get("version"))
            } else {
                Json::Null
            };
            object_of("value", value)
        },
        Shape::Rows => object_of("rows", Json::array(rows)),
        Shape::FirstRow => {
            let value = if rows.len() > 0 {
                rows[0].copy()
            } else {
                Json::Null
            };
            object_of("row", value)
        },
        Shape::FirstValue => {
            let value = if rows.len() > 0 {
                match &rows[0] {
                    Json::Object(o) => {
                        let entries = o.entries();
                        assert(json::entry_models(entries@) == o.model());
                        if entries.len() > 0 {
                            assert(o.model()[0].1 == entries@[0].1.model());
                            entries[0].1.copy()
                        } else {
                            Json::Null
                        }
                    },
                    _ => Json::Null,
                }
            } else {
                Json::Null
            };
            object_of("value", value)
        },
    }
}

/// The answer that says how many rows were affected.
pub fn affected(n: u64) -> (r: Json)
    ensures
        r.model() == one("affected"@, JsonV::Int(n as int)),
{
    object_of("affected", Json::Unsigned(n))
}

// ---------------------------------------------------------------------------
// Calls without a server
// ---------------------------------------------------------------------------

/// The version of the package, which is given.
pub fn mssql__version(version: &str) -> (r: Json)
    ensures
        r.model() == one("version"@, JsonV::Str(version@)),
{
    object_of("version", Json::Str(version.to_string()))
}

/// Reads a connection string.
pub fn mssql__parse_url(v: &Json) -> (r: Result<Json, Failure>)
    ensures
        match v.model().text_field("url"@) {
            Some(url) => r matches Ok(answer) && ado::is_parsed(answer.model(), url),
            None => r matches Err(failure) && failure == Failure::MissingUrl,
        },
{
    match v.get_str("url") {
        Some(url) => Ok(ado::parse_ado(&url)),
        None => Err(Failure::MissingUrl),
    }
}

/// Masks the password of a connection string.
pub fn mssql__redact_url(v: &Json) -> (r: Result<Json, Failure>)
    ensures
        match v.model().text_field("url"@) {
            Some(url) => r matches Ok(answer) && answer.model() == one(
                "value"@,
                JsonV::Str(ado::redacted(url)),
            ),
            None => r matches Err(failure) && failure == Failure::MissingUrl,
        },
{
    match v.get_str("url") {
        Some(url) => Ok(object_of("value", Json::Str(ado::redact_ado(&url)))),
        None => Err(Failure::MissingUrl),
    }
}

/// Builds a connection string from its components.
pub fn mssql__build_url(v: &Json) -> (r: Result<Json, Failure>)
    ensures
        match v.model().object_field("parts"@) {
            Some(parts) => r matches Ok(answer) && answer.model() == one(
                "value"@,
                JsonV::Str(ado::built(parts)),
            ),
            None => r matches Err(failure) && failure == Failure::MissingParts,
        },
{
    match v.get_object("parts") {
        Some(parts) => Ok(object_of("value", Json::Str(ado::build_ado(&parts)))),
        None => Err(Failure::MissingParts),
    }
}

/// Quotes an identifier.
pub fn mssql__quote_ident(v: &Json) -> (r: Result<Json, Failure>)
    ensures
        match v.model().text_field("name"@) {
            Some(name) => r matches Ok(answer) && answer.model() == one(
                "value"@,
                JsonV::Str(tsql::quoted(name)),
            ),
            None => r matches Err(failure) && failure == Failure::MissingName,
        },
{
    match v.get_str("name") {
        Some(name) => Ok(object_of("value", Json::Str(tsql::quote_ident(&name)))),
        None => Err(Failure::MissingName),
    }
}

/// Texts as a JSON array.
pub open spec fn string_array(texts: Seq<Seq<char>>) -> JsonV {
    JsonV::Array(texts.map_values(|t: Seq<char>| JsonV::Str(t)))
}

/// Splits a script into its batches.
pub fn mssql__split_batch(v: &Json) -> (r: Result<Json, Failure>)
    ensures
        match v.model().text_field("script"@) {
            Some(script) => r matches Ok(answer) && answer.model() == one(
                "batches"@,
                string_array(tsql::batches(script)),
            ),
            None => r matches Err(failure) && failure == Failure::MissingScript,
        },
{
    match v.get_str("script") {
        Some(script) => {
            let batches = tsql::split_batch(&script);
            let mut items: Vec<Json> = Vec::new();
            let n = batches.len();
            for i in 0..n
                invariant
                    n == batches@.len(),
                    items@.len() == i,
                    forall|j: int|
                        0 <= j < i ==> (#[trigger] items@[j]).model() == JsonV::Str(batches@[j]@),
            {
                items.push(Json::Str(batches[i].clone()));
            }
            assert(JsonV::Array(json::models(items@)) == string_array(tsql::views(batches@))) by {
                assert(json::models(items@) =~= tsql::views(batches@).map_values(
                    |t: Seq<char>| JsonV::Str(t),
                ));
            }
            Ok(object_of("batches", Json::array(items)))
        },
        None => Err(Failure::MissingScript),
    }
}

// ---------------------------------------------------------------------------
// Arguments and replies
// ---------------------------------------------------------------------------

/// A value, or null where there is none.
pub open spec fn or_null(v: Option<JsonV>) -> JsonV {
    match v {
        Some(v) => v,
        None => JsonV::Null,
    }
}

/// The value that the argument of a call holds: null if there is none or if it is no JSON.
pub open spec fn argument_of(args: Option<Seq<u8>>) -> JsonV {
    match args {
        Some(bytes) => or_null(json::json_read(bytes)),
        None => JsonV::Null,
    }
}

/// A value, or null where there is none.
pub fn value_or_null(v: Option<Json>) -> (r: Json)
    ensures
        r.model() == or_null(
            match v {
                Some(v) => Some(v.model()),
                None => None,
            },
        ),
{
    match v {
        Some(v) => v,
        None => Json::Null,
    }
}

/// The value that the argument of a call holds.
pub fn argument(args: Option<&[u8]>) -> (r: Json)
    ensures
        r.model() == argument_of(
            match args {
                Some(bytes) => Some(bytes@),
                None => None,
            },
        ),
{
    match args {
        Some(bytes) => value_or_null(Json::parse(bytes)),
        None => value_or_null(None),
    }
}

/// The reply to a call: its answer, or an object whose field `error` is the message of the
/// failure.
pub open spec fn reply_of(outcome: Result<Json, Failure>) -> JsonV {
    match outcome {
        Ok(answer) => answer.model(),
        Err(failure) => one("error"@, JsonV::Str(failure.text())),
    }
}

/// The reply to a call.
pub fn reply_value(outcome: Result<Json, Failure>) -> (r: Json)
    ensures
        r.model() == reply_of(outcome),
{
    match outcome {
        Ok(answer) => answer,
        Err(failure) => object_of("error", Json::Str(failure.message())),
    }
}

/// The text of the reply to a call. It holds no NUL, so that it can be handed out as a C
/// string.
pub fn reply(outcome: Result<Json, Failure>) -> (r: String)
    ensures
        r@ == json::json_text(reply_of(outcome)),
        forall|i: int| 0 <= i < r@.len() ==> (#[trigger] r@[i]) != '\0',
{
    reply_value(outcome).print()
}

} // verus!
