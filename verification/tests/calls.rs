use stryke_mssql::call;
use stryke_mssql::call::{Shape, Task};
use stryke_mssql::failure::Failure;
use stryke_mssql::json::Json;
use stryke_mssql::query::{bind_params, build_query, params_of};

fn json(text: &str) -> Json {
    Json::parse(text.as_bytes()).unwrap()
}

fn list(text: &str) -> Vec<Json> {
    match json(text) {
        Json::Array(items) => items,
        other => panic!("no array: {:?}", other),
    }
}

#[test]
fn params_extraction() {
    let v = json(r#"{"sql": "SELECT 1", "params": [1, "a", true, null]}"#);
    let p = params_of(&v);
    assert_eq!(p.len(), 4);
    assert_eq!(p[1], json("\"a\""));
    assert!(params_of(&json(r#"{"sql": "x"}"#)).is_empty());
}

#[test]
fn params_that_are_no_array() {
    assert!(params_of(&json(r#"{"params": {"a": 1}}"#)).is_empty());
    assert!(params_of(&json("[1]")).is_empty());
    assert!(params_of(&json("null")).is_empty());
}

#[test]
fn values_are_bound_in_their_order() {
    let params = list(
        r#"[null, true, -3, 9223372036854775807, 18446744073709551615, 2.5, "a",
            {"b": 1, "a": []}, [1, "x"]]"#,
    );
    let query = build_query("SELECT @P1", &params);
    assert_eq!(
        format!("{query:?}"),
        "Query { sql: \"SELECT @P1\", params: [I32(None), Bit(Some(true)), I64(Some(-3)), \
         I64(Some(9223372036854775807)), I64(Some(-1)), F64(Some(2.5)), String(Some(\"a\")), \
         String(Some(\"{\\\"a\\\":[],\\\"b\\\":1}\")), String(Some(\"[1,\\\"x\\\"]\"))] }"
    );
}

#[test]
fn values_are_bound_behind_those_that_were() {
    let query = bind_params(build_query("s", &list("[1]")), &list("[false, 9223372036854775808]"));
    assert_eq!(
        format!("{query:?}"),
        "Query { sql: \"s\", params: [I64(Some(1)), Bit(Some(false)), \
         I64(Some(-9223372036854775808))] }"
    );
}

fn check_query(task: Task, sql: &str, params: &str, shape: Shape) {
    match task {
        Task::Query { sql: s, params: p, shape: h } => {
            assert_eq!(s, sql);
            assert_eq!(p, list(params));
            assert_eq!(h, shape);
        }
        other => panic!("no query: {:?}", other),
    }
}

#[test]
fn tasks_with_fixed_queries() {
    check_query(call::mssql__ping(), "SELECT 1 AS ok", "[]", Shape::Any);
    check_query(
        call::mssql__server_version(),
        "SELECT @@VERSION AS version",
        "[]",
        Shape::Version,
    );
    check_query(
        call::mssql__databases(),
        "SELECT name FROM sys.databases ORDER BY name",
        "[]",
        Shape::Rows,
    );
    check_query(
        call::mssql__tables(),
        "SELECT TABLE_SCHEMA, TABLE_NAME, TABLE_TYPE FROM INFORMATION_SCHEMA.TABLES \
         ORDER BY TABLE_SCHEMA, TABLE_NAME",
        "[]",
        Shape::Rows,
    );
    check_query(
        call::mssql__columns(&json(r#"{"table": "users"}"#)).unwrap(),
        "SELECT COLUMN_NAME, DATA_TYPE, IS_NULLABLE, CHARACTER_MAXIMUM_LENGTH \
         FROM INFORMATION_SCHEMA.COLUMNS WHERE TABLE_NAME = @P1 ORDER BY ORDINAL_POSITION",
        r#"["users"]"#,
        Shape::Rows,
    );
}

#[test]
fn tasks_with_given_queries() {
    let v = json(r#"{"sql": "SELECT @P1", "params": [1, null]}"#);
    check_query(call::mssql__query(&v).unwrap(), "SELECT @P1", "[1, null]", Shape::Rows);
    check_query(call::mssql__query_one(&v).unwrap(), "SELECT @P1", "[1, null]", Shape::FirstRow);
    check_query(call::mssql__scalar(&v).unwrap(), "SELECT @P1", "[1, null]", Shape::FirstValue);
    check_query(call::mssql__exists(&v).unwrap(), "SELECT @P1", "[1, null]", Shape::Any);
    match call::mssql__execute(&v).unwrap() {
        Task::Execute { sql, params } => {
            assert_eq!(sql, "SELECT @P1");
            assert_eq!(params, list("[1, null]"));
        }
        other => panic!("no statement: {:?}", other),
    }
    match call::mssql__simple_query(&v).unwrap() {
        Task::Simple { sql } => assert_eq!(sql, "SELECT @P1"),
        other => panic!("no simple query: {:?}", other),
    }
}

#[test]
fn a_transaction_takes_the_strings_of_its_list() {
    let v = json(r#"{"statements": ["a", 1, "b", null, ["c"], ""]}"#);
    match call::mssql__batch(&v).unwrap() {
        Task::Batch { statements } => assert_eq!(statements, vec!["a", "b", ""]),
        other => panic!("no transaction: {:?}", other),
    }
}

#[test]
fn calls_that_miss_a_field() {
    for text in ["{}", "null", r#"{"sql": 1, "table": [], "statements": "x"}"#] {
        let v = json(text);
        assert!(matches!(call::mssql__query(&v), Err(Failure::MissingSql)));
        assert!(matches!(call::mssql__query_one(&v), Err(Failure::MissingSql)));
        assert!(matches!(call::mssql__scalar(&v), Err(Failure::MissingSql)));
        assert!(matches!(call::mssql__exists(&v), Err(Failure::MissingSql)));
        assert!(matches!(call::mssql__execute(&v), Err(Failure::MissingSql)));
        assert!(matches!(call::mssql__simple_query(&v), Err(Failure::MissingSql)));
        assert!(matches!(call::mssql__columns(&v), Err(Failure::MissingTable)));
        assert!(matches!(call::mssql__batch(&v), Err(Failure::MissingStatements)));
        assert!(matches!(call::mssql__parse_url(&v), Err(Failure::MissingUrl)));
        assert!(matches!(call::mssql__redact_url(&v), Err(Failure::MissingUrl)));
        assert!(matches!(call::mssql__build_url(&v), Err(Failure::MissingParts)));
        assert!(matches!(call::mssql__quote_ident(&v), Err(Failure::MissingName)));
        assert!(matches!(call::mssql__split_batch(&v), Err(Failure::MissingScript)));
    }
}

fn answer(shape: Shape, rows: &str) -> String {
    call::answer(shape, list(rows)).print()
}

#[test]
fn answers_from_rows() {
    let rows = r#"[{"version": "v", "a": 1}, {"a": 2}]"#;
    assert_eq!(answer(Shape::Any, rows), r#"{"value":true}"#);
    assert_eq!(answer(Shape::Version, rows), r#"{"value":"v"}"#);
    assert_eq!(answer(Shape::Rows, rows), r#"{"rows":[{"a":1,"version":"v"},{"a":2}]}"#);
    assert_eq!(answer(Shape::FirstRow, rows), r#"{"row":{"a":1,"version":"v"}}"#);
    assert_eq!(answer(Shape::FirstValue, rows), r#"{"value":1}"#);
}

#[test]
fn answers_without_rows() {
    assert_eq!(answer(Shape::Any, "[]"), r#"{"value":false}"#);
    assert_eq!(answer(Shape::Version, "[]"), r#"{"value":null}"#);
    assert_eq!(answer(Shape::Version, r#"[{"a": 1}]"#), r#"{"value":null}"#);
    assert_eq!(answer(Shape::Rows, "[]"), r#"{"rows":[]}"#);
    assert_eq!(answer(Shape::FirstRow, "[]"), r#"{"row":null}"#);
    assert_eq!(answer(Shape::FirstValue, "[]"), r#"{"value":null}"#);
    assert_eq!(answer(Shape::FirstValue, "[{}]"), r#"{"value":null}"#);
    assert_eq!(answer(Shape::FirstValue, "[3]"), r#"{"value":null}"#);
}

#[test]
fn answers_with_counts_and_versions() {
    assert_eq!(call::affected(u64::MAX).print(), r#"{"affected":18446744073709551615}"#);
    assert_eq!(call::mssql__version("1.2.3").print(), r#"{"version":"1.2.3"}"#);
}

#[test]
fn calls_without_a_server() {
    let reply = |r: Result<Json, Failure>| r.unwrap().print();
    assert_eq!(
        reply(call::mssql__parse_url(&json(r#"{"url": "Server=db;Pwd=x"}"#))),
        r#"{"pwd":"***","server":"db"}"#
    );
    assert_eq!(
        reply(call::mssql__redact_url(&json(r#"{"url": "Server=db;Pwd=x"}"#))),
        r#"{"value":"Server=db;Pwd=***"}"#
    );
    assert_eq!(
        reply(call::mssql__build_url(&json(r#"{"parts": {"server": "db", "x": 1}}"#))),
        r#"{"value":"Server=db;x=1"}"#
    );
    assert_eq!(
        reply(call::mssql__quote_ident(&json(r#"{"name": "a]b"}"#))),
        r#"{"value":"[a]]b]"}"#
    );
    assert_eq!(
        reply(call::mssql__split_batch(&json(r#"{"script": "a\nGO\nb"}"#))),
        r#"{"batches":["a","b"]}"#
    );
}

#[test]
fn arguments() {
    assert_eq!(call::argument(None), Json::Null);
    assert_eq!(call::argument(Some(b"")), Json::Null);
    assert_eq!(call::argument(Some(b"{")), Json::Null);
    assert_eq!(call::argument(Some(b"\xff")), Json::Null);
    assert_eq!(call::argument(Some(b" {\"a\": 1} ")), json(r#"{"a": 1}"#));
}

#[test]
fn replies() {
    assert_eq!(call::reply(Ok(json(r#"{"b": 1, "a": [null]}"#))), r#"{"a":[null],"b":1}"#);
    assert_eq!(call::reply(Err(Failure::MissingSql)), r#"{"error":"missing sql"}"#);
    assert_eq!(
        call::reply(Err(Failure::Panicked)),
        r#"{"error":"stryke-mssql handler panicked"}"#
    );
}

#[test]
fn a_failure_is_answered_with_its_message() {
    let reply = call::reply_value(Err(Failure::Query("no such table".to_string())));
    assert_eq!(reply.get_str("error"), Some("query: no such table".to_string()));
    assert_eq!(call::reply_value(Ok(Json::Bool(true))), Json::Bool(true));
}

#[test]
fn a_missing_value_is_null() {
    assert_eq!(call::value_or_null(None), Json::Null);
    assert_eq!(call::value_or_null(Some(Json::Unsigned(3))), Json::Unsigned(3));
}

#[test]
fn a_reply_holds_no_nul() {
    let reply = call::reply(Ok(Json::Str("a\u{0}b".to_string())));
    assert_eq!(reply, "\"a\\u0000b\"");
    assert!(!reply.contains('\u{0}'));
}

#[test]
fn documents_are_read_and_written() {
    for text in [
        "null", "true", "false", "0", "-1", "18446744073709551615", "-9223372036854775808",
        "0.1", "-2.5e300", "\"\"", "[]", "{}", r#"[1,[2,{"a":null}]]"#,
    ] {
        let v = json(text);
        assert_eq!(v.print(), Json::from_value(v.to_value()).print());
        assert_eq!(json(&v.print()), v);
    }
    assert_eq!(json("1e2").print(), "100.0");
    assert_eq!(json("[ 1 , -2 ]").print(), "[1,-2]");
    assert_eq!(json(r#"{"b": 1, "a": 2, "b": 3}"#).print(), r#"{"a":2,"b":3}"#);
}
