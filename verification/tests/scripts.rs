use stryke_mssql::tsql::{quote_ident, split_batch};

#[test]
fn cdylib_crate_compiles() {
    // Reaching here means that the library was built and linked into the test harness.
}

#[test]
fn quote_ident_escapes_brackets() {
    assert_eq!(quote_ident("users"), "[users]");
    assert_eq!(quote_ident("weird]name"), "[weird]]name]");
}

#[test]
fn split_batch_on_go_lines() {
    let script = "CREATE TABLE a (id int)\nGO\nINSERT INTO a VALUES (1)\ngo\n";
    let b = split_batch(script);
    assert_eq!(b.len(), 2);
    assert_eq!(b[0], "CREATE TABLE a (id int)");
    assert_eq!(b[1], "INSERT INTO a VALUES (1)");
    // a "GO" inside a longer token is not a separator
    assert_eq!(split_batch("SELECT 'GONE'").len(), 1);
}

#[test]
fn quote_keeps_every_other_character() {
    assert_eq!(quote_ident(""), "[]");
    assert_eq!(quote_ident("[a].[b]"), "[[a]].[b]]]");
    assert_eq!(quote_ident("na\u{ef}ve 'x'"), "[na\u{ef}ve 'x']");
}

#[test]
fn quote_tells_names_apart() {
    assert_ne!(quote_ident("a]"), quote_ident("a]]"));
    assert_eq!(quote_ident("]]"), "[]]]]]");
}

#[test]
fn split_drops_empty_batches_and_trims() {
    assert_eq!(split_batch("GO\n\n  \nGO\n"), Vec::<String>::new());
    assert_eq!(split_batch(""), Vec::<String>::new());
    assert_eq!(split_batch("\n  a\n b \n\nGo\n"), vec!["a\n b"]);
}

#[test]
fn split_takes_separators_with_blanks_and_carriage_returns() {
    assert_eq!(split_batch("a\r\n \tgO\u{a0}\r\nb\r\nc"), vec!["a", "b\nc"]);
}

#[test]
fn split_takes_no_longer_line_for_a_separator() {
    assert_eq!(split_batch("a\nGO 5\nb\nGO;"), vec!["a\nGO 5\nb\nGO;"]);
}

#[test]
fn split_without_separator_is_the_trimmed_script() {
    assert_eq!(split_batch("  SELECT 1\nFROM t  "), vec!["SELECT 1\nFROM t"]);
}

#[test]
fn joined_batches_split_into_themselves() {
    let batches = vec!["a\nb", "c", "d  e"];
    let script = format!("{}\nGO\n{}\nGO\n{}", batches[0], batches[1], batches[2]);
    assert_eq!(split_batch(&script), batches);
    for batch in batches {
        assert_eq!(split_batch(batch), vec![batch]);
    }
}

#[test]
fn a_batch_with_a_carriage_return_before_a_line_break_changes_when_split_again() {
    let once = split_batch("a\r\r\nb");
    assert_eq!(once, vec!["a\r\nb"]);
    assert_eq!(split_batch(&once[0]), vec!["a\nb"]);
}
