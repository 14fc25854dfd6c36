use stryke_mssql::ado::{build_ado, parse_ado, redact_ado, value_str};
use stryke_mssql::json::{Json, Object};

fn json(text: &str) -> Json {
    Json::parse(text.as_bytes()).unwrap()
}

fn object(text: &str) -> Object {
    match json(text) {
        Json::Object(o) => o,
        other => panic!("no object: {:?}", other),
    }
}

fn text(v: &Json, name: &str) -> String {
    v.get_str(name).unwrap()
}

#[test]
fn parse_ado_redacts_password() {
    let v = parse_ado("Server=db;Database=app;User Id=sa;Password=Secret1;");
    assert_eq!(text(&v, "server"), "db");
    assert_eq!(text(&v, "database"), "app");
    assert_eq!(text(&v, "user id"), "sa");
    assert_eq!(text(&v, "password"), "***");
}

#[test]
fn redact_ado_keeps_structure() {
    assert_eq!(
        redact_ado("Server=db;Password=Secret1;Database=app"),
        "Server=db;Password=***;Database=app"
    );
    assert_eq!(redact_ado("Server=db;pwd=x"), "Server=db;pwd=***");
}

#[test]
fn build_ado_stable_order_and_extras() {
    let m = object(
        r#"{
            "database": "app",
            "server": "db",
            "user_id": "sa",
            "password": "Secret1",
            "application name": "stryke"
        }"#,
    );
    assert_eq!(
        build_ado(&m),
        "Server=db;Database=app;User Id=sa;Password=Secret1;application name=stryke"
    );
}

#[test]
fn build_ado_roundtrips_through_parse() {
    let m = object(r#"{"server": "db", "database": "app"}"#);
    let url = build_ado(&m);
    let parsed = parse_ado(&url);
    assert_eq!(text(&parsed, "server"), "db");
    assert_eq!(text(&parsed, "database"), "app");
}

#[test]
fn parse_trims_skips_and_lets_the_last_count() {
    let v = parse_ado("  Server = a ; ;nothing; SERVER=b=c ;PWD = x;=y");
    assert_eq!(v.print(), r#"{"":"y","pwd":"***","server":"b=c"}"#);
    assert_eq!(parse_ado("").print(), "{}");
}

#[test]
fn parse_lowers_letters_beyond_ascii() {
    let v = parse_ado("\u{c4}PFEL=1;\u{130}=2");
    assert_eq!(text(&v, "\u{e4}pfel"), "1");
    assert_eq!(text(&v, "i\u{307}"), "2");
    let v = parse_ado("\u{3a3}\u{391}\u{3a3}=3");
    assert_eq!(text(&v, "\u{3c3}\u{3b1}\u{3c2}"), "3");
}

#[test]
fn parse_trims_white_space_beyond_ascii() {
    let v = parse_ado("\u{a0}Server\u{2003}=\u{3000}db\t");
    assert_eq!(text(&v, "server"), "db");
}

#[test]
fn redact_leaves_the_rest_alone() {
    let url = " Server = db ;; x ;=y;passwords=1";
    assert_eq!(redact_ado(url), url);
}

#[test]
fn redact_keeps_the_spelling_of_the_key() {
    assert_eq!(redact_ado(" PassWord =a=b; PWD=;pwd"), " PassWord =***; PWD=***;pwd");
}

#[test]
fn redact_masks_a_quoted_password_whole() {
    let expected = "Server=db;Password=***;Database=app";
    assert_eq!(redact_ado("Server=db;Password=\"a;b\";Database=app"), expected);
    assert_eq!(redact_ado("Server=db;Password= 'a;b=c' ;Database=app"), expected);
    assert_eq!(redact_ado("Server=db;Password={a;b};Database=app"), expected);
    assert_eq!(redact_ado("Server=db;Password=\"a\"\";b\";Database=app"), expected);
    assert_eq!(redact_ado("pwd='it''s;'"), "pwd=***");
    assert_eq!(redact_ado("pwd=\"\";a=1"), "pwd=***;a=1");
}

#[test]
fn quotes_within_values_are_characters() {
    assert_eq!(
        redact_ado("jdbc:sqlserver://db;user=O'Brien;password=it's"),
        "jdbc:sqlserver://db;user=O'Brien;password=***"
    );
    assert_eq!(redact_ado("u=O'B;pwd=i's"), "u=O'B;pwd=***");
    assert_eq!(parse_ado("u=O'B;pwd=i's").print(), r#"{"pwd":"***","u":"O'B"}"#);
    assert_eq!(redact_ado("a{=1;pwd}=x;pwd=y}"), "a{=1;pwd}=x;pwd=***");
    assert_eq!(redact_ado("pwd=x'a;b'y"), "pwd=***;b'y");
}

#[test]
fn what_is_not_closed_before_a_separator_hides_none() {
    assert_eq!(redact_ado("App='it;Password=x;B={"), "App='it;Password=***;B={");
    assert_eq!(redact_ado("App='a;Password=x'y;B=1"), "App='a;Password=***;B=1");
    let v = parse_ado("App=it's;Database=\"a");
    assert_eq!(v.print(), r#"{"app":"it's","database":"\"a"}"#);
}

#[test]
fn a_password_does_not_show_in_what_is_read() {
    let a = parse_ado("s=1;pwd=a'b;x='");
    assert_eq!(a, parse_ado("s=1;pwd=ab;x='"));
    assert_eq!(a.print(), r#"{"pwd":"***","s":"1","x":"'"}"#);
    assert_eq!(redact_ado("s=1;pwd=a'b;x='"), redact_ado("s=1;pwd=;x='"));
}

#[test]
fn a_value_that_closes_and_goes_on_may_change_the_pieces() {
    let once = redact_ado("x=\"a;pwd=b\"c;y=\"");
    assert_eq!(once, "x=\"a;pwd=***;y=\"");
    assert_eq!(parse_ado(&once).print(), r#"{"x":"\"a;pwd=***;y=\""}"#);
}

#[test]
fn parse_keeps_quoted_values_whole() {
    let v = parse_ado("Server=db;Password=\"a;b=c\";Database='x;y';D={p;q=r}");
    assert_eq!(v.print(), r#"{"d":"{p;q=r}","database":"'x;y'","password":"***","server":"db"}"#);
    assert_eq!(parse_ado("App=\"x\"").print(), r#"{"app":"\"x\""}"#);
}

#[test]
fn build_writes_values_without_separators_as_they_are() {
    let m = object(r#"{"server": "a'", "database": "O\"B", "d": "{SQL Server}", "x": "p{q"}"#);
    let url = build_ado(&m);
    assert_eq!(url, "Server=a';Database=O\"B;d={SQL Server};x=p{q");
    assert_eq!(parse_ado(&url), Json::Object(m));
}

#[test]
fn build_quotes_values_that_would_fall_apart() {
    let m = object(r#"{"server": "a;b", "x": "p\"q;", "y": "{a;b}", "z": "'a"}"#);
    let url = build_ado(&m);
    assert_eq!(url, "Server=\"a;b\";x='p\"q;';y={a;b};z=\"'a\"");
    assert_eq!(redact_ado(&url), url);
    let v = parse_ado(&url);
    assert_eq!(text(&v, "server"), "\"a;b\"");
    assert_eq!(text(&v, "y"), "{a;b}");
    let m = object(r#"{"x": "it's \"a;b\";"}"#);
    assert_eq!(build_ado(&m), "x=\"it's \"\"a;b\"\";\"");
    assert_eq!(parse_ado(&build_ado(&m)).print(), r#"{"x":"\"it's \"\"a;b\"\";\""}"#);
}

#[test]
fn redact_twice_is_redact_once() {
    let once = redact_ado("Server=db;Password=Secret1;PWD=2;");
    assert_eq!(redact_ado(&once), once);
}

#[test]
fn redact_then_parse_is_parse() {
    let url = "Server=db; Password = Secret1 ;User Id=sa";
    assert_eq!(parse_ado(&redact_ado(url)), parse_ado(url));
}

#[test]
fn build_writes_scalars_and_drops_empty_known_components() {
    let m = object(
        r#"{"trust_server_certificate": true, "encrypt": "", "password": null, "server": 5,
            "b": null, "a": [1, "x"], "c": -2}"#,
    );
    assert_eq!(build_ado(&m), r#"Server=5;TrustServerCertificate=true;a=[1,"x"];b=;c=-2"#);
    assert_eq!(build_ado(&Object::new()), "");
}

#[test]
fn build_orders_known_components_by_its_own_order() {
    let m = object(
        r#"{"trust_server_certificate": "t", "encrypt": "e", "password": "p", "user_id": "u",
            "database": "d", "server": "s"}"#,
    );
    assert_eq!(
        build_ado(&m),
        "Server=s;Database=d;User Id=u;Password=p;Encrypt=e;TrustServerCertificate=t"
    );
}

#[test]
fn build_then_parse_gives_the_components_back() {
    let m = object(r#"{"server": "db", "user_id": "sa", "password": "x", "app": "y"}"#);
    let v = parse_ado(&build_ado(&m));
    assert_eq!(v.print(), r#"{"app":"y","password":"***","server":"db","user id":"sa"}"#);
}

#[test]
fn value_texts() {
    assert_eq!(value_str(&json("null")), "");
    assert_eq!(value_str(&json(r#""a\"b""#)), "a\"b");
    assert_eq!(value_str(&json("true")), "true");
    assert_eq!(value_str(&json("18446744073709551615")), "18446744073709551615");
    assert_eq!(value_str(&json("-7")), "-7");
    assert_eq!(value_str(&json("1.5")), "1.5");
    assert_eq!(value_str(&json(r#"{"b": [1, null], "a": "x"}"#)), r#"{"a":"x","b":[1,null]}"#);
}
