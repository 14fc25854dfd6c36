//! ADO connection strings, `key=value;key=value`: reading, redacting and building them. A `;` in a
//! quoted value does not separate.
use vstd::prelude::*;

use crate::json;
use crate::json::{Json, JsonV, Object};
use crate::quoting;
use crate::render;
use crate::text;

verus! {

// ---------------------------------------------------------------------------
// Reading
// ---------------------------------------------------------------------------

/// Whether a value under this lower-case key is a secret.
pub open spec fn is_secret(key: Seq<char>) -> bool {
    key == "password"@ || key == "pwd"@
}

/// What is shown of a value: a secret is masked.
pub open spec fn shown(key: Seq<char>, value: Seq<char>) -> Seq<char> {
    if is_secret(key) {
        "***"@
    } else {
        value
    }
}

/// What the key of a pair is looked up by.
pub open spec fn key_of(name: Seq<char>) -> Seq<char> {
    text::lowercase(text::trim(name))
}

/// The key and the shown value of one piece of a connection string. A piece without `=` has
/// none.
pub open spec fn entry(piece: Seq<char>) -> Option<(Seq<char>, Seq<char>)> {
    match text::split_once(piece, '=') {
        Some(kv) => Some((key_of(kv.0), shown(key_of(kv.0), text::trim(kv.1)))),
        None => None,
    }
}

/// The entries of the pieces by key. Of two entries with one key the later counts.
pub open spec fn parsed(pieces: Seq<Seq<char>>) -> Map<Seq<char>, JsonV>
    decreases pieces.len(),
{
    if pieces.len() == 0 {
        Map::empty()
    } else {
        let before = parsed(pieces.drop_last());
        match entry(pieces.last()) {
            Some(e) => before.insert(e.0, JsonV::Str(e.1)),
            None => before,
        }
    }
}

/// Whether the value under this key is a secret.
fn secret(key: &str) -> (r: bool)
    ensures
        r == is_secret(key@),
{
    text::same_text(key, "password") || text::same_text(key, "pwd")
}

/// Whether a JSON value is the object that a connection string is read into.
pub open spec fn is_parsed(v: JsonV, url: Seq<char>) -> bool {
    v matches JsonV::Object(entries) && json::ascending(entries) && json::fields(entries)
        == parsed(quoting::pieces(url))
}

/// Reads an ADO connection string into an object: keys in lower case, the password masked.
pub fn parse_ado(url: &str) -> (r: Json)
    ensures
        is_parsed(r.model(), url@),
{
    let mut obj = Object::new();
    let chars = text::chars_of(url);
    let pieces = quoting::pieces_chars(&chars);
    let ghost all = text::texts(pieces@);
    assert(json::fields(obj.model()) =~= parsed(all.take(0)));
    assert(json::ascending(obj.model()));
    for i in 0..pieces.len()
        invariant
            all == text::texts(pieces@),
            json::ascending(obj.model()),
            json::fields(obj.model()) == parsed(all.take(i as int)),
    {
        assert(all.take(i + 1).drop_last() =~= all.take(i as int));
        assert(all.take(i + 1).last() == pieces@[i as int]@);
        if let Some((k, val)) = text::split_once_chars(&pieces[i], '=') {
            let name = text::string_of(&text::trim_chars(&k));
            let key = name.to_lowercase();
            let value = if secret(&key) {
                "***".to_string()
            } else {
                text::string_of(&text::trim_chars(&val))
            };
            obj.insert(key, Json::Str(value));
        }
    }
    assert(all.take(pieces@.len() as int) =~= all);
    Json::Object(obj)
}

// ---------------------------------------------------------------------------
// Redacting
// ---------------------------------------------------------------------------

/// One piece of a connection string with its value masked, if that is a secret.
pub open spec fn redacted_piece(piece: Seq<char>) -> Seq<char> {
    match text::split_once(piece, '=') {
        Some(kv) => if is_secret(key_of(kv.0)) {
            kv.0.push('=') + "***"@
        } else {
            piece
        },
        None => piece,
    }
}

/// The pieces with their secrets masked.
pub open spec fn redacted_pieces(pieces: Seq<Seq<char>>) -> Seq<Seq<char>> {
    pieces.map_values(|p: Seq<char>| redacted_piece(p))
}

/// A connection string with its secrets masked.
pub open spec fn redacted(url: Seq<char>) -> Seq<char> {
    text::join(redacted_pieces(quoting::pieces(url)), ';')
}

/// The connection string with the password replaced by `***` and everything else as it was.
pub fn redact_ado(url: &str) -> (r: String)
    ensures
        r@ == redacted(url@),
{
    let chars = text::chars_of(url);
    let pieces = quoting::pieces_chars(&chars);
    let ghost all = text::texts(pieces@);
    let mut out: Vec<Vec<char>> = Vec::new();
    for i in 0..pieces.len()
        invariant
            all == text::texts(pieces@),
            text::texts(out@) == redacted_pieces(all.take(i as int)),
    {
        let ghost done = text::texts(out@);
        let mut piece = text::slice_of(&pieces[i], 0, pieces[i].len());
        assert(piece@ =~= all[i as int]);
        if let Some((k, _)) = text::split_once_chars(&piece, '=') {
            let name = text::string_of(&text::trim_chars(&k));
            let key = name.to_lowercase();
            if secret(&key) {
                piece = k;
                piece.push('=');
                text::append(&mut piece, &text::chars_of("***"));
            }
        }
        let ghost masked = piece@;
        assert(masked == redacted_piece(all[i as int]));
        out.push(piece);
        assert(text::texts(out@) =~= done.push(masked));
        assert(done.push(masked) =~= redacted_pieces(all.take(i + 1)));
    }
    assert(all.take(pieces@.len() as int) =~= all);
    text::string_of(&text::join_chars(&out, ';'))
}

// ---------------------------------------------------------------------------
// Building
// ---------------------------------------------------------------------------

/// The text of a JSON value in a connection string: that of a string is the string, that of
/// `null` is empty, that of any other value is its JSON text.
pub open spec fn value_text(v: JsonV) -> Seq<char> {
    match v {
        JsonV::Str(s) => s,
        JsonV::Null => Seq::empty(),
        JsonV::Bool(b) => if b {
            "true"@
        } else {
            "false"@
        },
        JsonV::Int(i) => render::signed_decimal(i),
        _ => json::json_text(v),
    }
}

/// The text of a JSON value in a connection string.
pub fn value_str(v: &Json) -> (r: String)
    ensures
        r@ == value_text(v.model()),
{
    match v {
        Json::Str(s) => s.clone(),
        Json::Null => String::new(),
        other => other.print(),
    }
}

/// The components that have a place of their own: the name of each and its label, in the
/// order in which they stand in a connection string.
pub open spec fn known() -> Seq<(Seq<char>, Seq<char>)> {
    seq![
        ("server"@, "Server"@),
        ("database"@, "Database"@),
        ("user_id"@, "User Id"@),
        ("password"@, "Password"@),
        ("encrypt"@, "Encrypt"@),
        ("trust_server_certificate"@, "TrustServerCertificate"@),
    ]
}

/// Whether a component has a place of its own.
pub open spec fn is_known(name: Seq<char>) -> bool {
    exists|i: int| 0 <= i < known().len() && (#[trigger] known()[i]).0 == name
}

/// The labelled values of the first `n` components with a place of their own. One that is
/// missing or has an empty text is left out.
pub open spec fn known_pairs(entries: Seq<(Seq<char>, JsonV)>, n: nat) -> Seq<
    (Seq<char>, Seq<char>),
>
    decreases n,
{
    if n == 0 {
        Seq::empty()
    } else {
        let before = known_pairs(entries, (n - 1) as nat);
        let (name, label) = known()[n - 1];
        if json::fields(entries).contains_key(name) && value_text(
            json::fields(entries)[name],
        ).len() > 0 {
            before.push((label, value_text(json::fields(entries)[name])))
        } else {
            before
        }
    }
}

/// The other components under their own names, in the order in which they stand.
pub open spec fn extra_pairs(entries: Seq<(Seq<char>, JsonV)>) -> Seq<(Seq<char>, Seq<char>)>
    decreases entries.len(),
{
    if entries.len() == 0 {
        Seq::empty()
    } else {
        let before = extra_pairs(entries.drop_last());
        let (name, v) = entries.last();
        if is_known(name) {
            before
        } else {
            before.push((name, value_text(v)))
        }
    }
}

/// The labelled values of a connection string built from the components.
pub open spec fn built_pairs(entries: Seq<(Seq<char>, JsonV)>) -> Seq<(Seq<char>, Seq<char>)> {
    known_pairs(entries, 6) + extra_pairs(entries)
}

/// The pieces `label=value`. A value that could not stand there as it is stands in quotes.
pub open spec fn pieces_of(pairs: Seq<(Seq<char>, Seq<char>)>) -> Seq<Seq<char>> {
    pairs.map_values(|p: (Seq<char>, Seq<char>)| p.0.push('=') + quoting::written(p.1))
}

/// The connection string built from the components.
pub open spec fn built(entries: Seq<(Seq<char>, JsonV)>) -> Seq<char> {
    text::join(pieces_of(built_pairs(entries)), ';')
}

/// The name of component `i`.
fn known_name(i: usize) -> (r: &'static str)
    requires
        i < 6,
    ensures
        r@ == known()[i as int].0,
{
    if i == 0 {
        "server"
    } else if i == 1 {
        "database"
    } else if i == 2 {
        "user_id"
    } else if i == 3 {
        "password"
    } else if i == 4 {
        "encrypt"
    } else {
        "trust_server_certificate"
    }
}

/// The label of component `i`.
fn known_label(i: usize) -> (r: &'static str)
    requires
        i < 6,
    ensures
        r@ == known()[i as int].1,
{
    if i == 0 {
        "Server"
    } else if i == 1 {
        "Database"
    } else if i == 2 {
        "User Id"
    } else if i == 3 {
        "Password"
    } else if i == 4 {
        "Encrypt"
    } else {
        "TrustServerCertificate"
    }
}

/// Whether a component has a place of its own.
fn has_place(name: &str) -> (r: bool)
    ensures
        r == is_known(name@),
{
    for i in 0..6usize
        invariant
            forall|j: int| 0 <= j < i ==> (#[trigger] known()[j]).0 != name@,
    {
        if text::same_text(known_name(i), name) {
            assert(known()[i as int].0 == name@);
            return true;
        }
    }
    false
}

/// The piece `label=value`.
fn piece_of(label: &str, value: &str) -> (r: Vec<char>)
    ensures
        r@ == label@.push('=') + quoting::written(value@),
{
    let mut piece = text::chars_of(label);
    piece.push('=');
    text::append(&mut piece, &quoting::written_chars(&text::chars_of(value)));
    piece
}

/// Builds an ADO connection string from components. The known components come first, in a
/// fixed order and under their labels; the others follow under their own names, in the order
/// of the names.
pub fn build_ado(v: &Object) -> (r: String)
    ensures
        r@ == built(v.model()),
{
    let ghost entries = v.model();
    let mut parts: Vec<Vec<char>> = Vec::new();
    assert(text::texts(parts@) =~= pieces_of(known_pairs(entries, 0)));
    for i in 0..6usize
        invariant
            entries == v.model(),
            text::texts(parts@) == pieces_of(known_pairs(entries, i as nat)),
    {
        let ghost done = text::texts(parts@);
        let ghost before = known_pairs(entries, i as nat);
        let ghost after = known_pairs(entries, (i + 1) as nat);
        if let Some(val) = v.get(known_name(i)) {
            let val = value_str(&val);
            if !val.as_str().is_empty() {
                let piece = piece_of(known_label(i), &val);
                let ghost p = piece@;
                parts.push(piece);
                assert(text::texts(parts@) =~= done.push(p));
                assert(after == before.push((known()[i as int].1, val@)));
                assert(done.push(p) =~= pieces_of(after));
            }
        }
    }
    let ghost first = known_pairs(entries, 6);
    assert(pieces_of(first + extra_pairs(entries.take(0))) =~= pieces_of(first));
    let listed = v.entries();
    let n = listed.len();
    for i in 0..n
        invariant
            n == entries.len(),
            entries == json::entry_models(listed@),
            text::texts(parts@) == pieces_of(first + extra_pairs(entries.take(i as int))),
    {
        let ghost done = text::texts(parts@);
        let ghost before = extra_pairs(entries.take(i as int));
        let ghost after = extra_pairs(entries.take(i + 1));
        assert(entries.take(i + 1).drop_last() =~= entries.take(i as int));
        assert(entries.take(i + 1).last() == entries[i as int]);
        assert(entries[i as int] == (listed@[i as int].0@, listed@[i as int].1.model()));
        let name = &listed[i].0;
        if !has_place(name) {
            let val = value_str(&listed[i].1);
            let piece = piece_of(name, &val);
            let ghost p = piece@;
            parts.push(piece);
            assert(text::texts(parts@) =~= done.push(p));
            assert(after == before.push((name@, val@)));
            assert(done.push(p) =~= pieces_of(first + after));
        }
    }
    assert(entries.take(n as int) =~= entries);
    text::string_of(&text::join_chars(&parts, ';'))
}

// ---------------------------------------------------------------------------
// Laws
// ---------------------------------------------------------------------------

/// Splitting at the first `=`: what stands before holds none, and the two halves with the `=`
/// between them are the text.
proof fn lemma_split_once(s: Seq<char>)
    ensures
        match text::split_once(s, '=') {
            Some(kv) => s == kv.0.push('=') + kv.1 && !kv.0.contains('='),
            None => !s.contains('='),
        },
{
    text::lemma_find_first(s, '=');
    let i = text::find(s, '=');
    if i < s.len() {
        assert(s =~= s.take(i).push('=') + s.skip(i + 1));
    }
}

/// A text with a first `=` splits there.
proof fn lemma_split_once_at(k: Seq<char>, v: Seq<char>)
    requires
        !k.contains('='),
    ensures
        text::split_once(k.push('=') + v, '=') == Some((k, v)),
{
    let s = k.push('=') + v;
    assert forall|j: int| 0 <= j < k.len() implies s[j] != '=' by {
        assert(k.contains(k[j]));
    }
    text::lemma_find(s, '=', k.len() as int);
    assert(s.take(k.len() as int) =~= k);
    assert(s.skip(k.len() as int + 1) =~= v);
}

/// Masking a piece does not change its entry, and a masked piece is masked to itself.
proof fn lemma_redacted_piece(piece: Seq<char>)
    ensures
        entry(redacted_piece(piece)) == entry(piece),
        redacted_piece(redacted_piece(piece)) == redacted_piece(piece),
{
    lemma_split_once(piece);
    match text::split_once(piece, '=') {
        Some(kv) => {
            lemma_split_once_at(kv.0, "***"@);
            reveal_strlit("***");
            text::lemma_trim_start_at("***"@, 0);
            text::lemma_trim_end_at("***"@, 3);
        },
        None => {},
    }
}

/// The first piece of a redacted string is the redacted first piece.
proof fn lemma_redacted_front(url: Seq<char>)
    ensures
        ({
            let i = quoting::piece_end(url);
            if i < url.len() {
                redacted(url) == redacted_piece(url.take(i)).push(';') + redacted(url.skip(i + 1))
            } else {
                redacted(url) == redacted_piece(url)
            }
        }),
{
    let i = quoting::piece_end(url);
    quoting::lemma_piece_end(url);
    if i < url.len() {
        let p = url.take(i);
        let rest = url.skip(i + 1);
        quoting::lemma_join_pieces(rest);
        assert(redacted_pieces(quoting::pieces(url)) =~= seq![redacted_piece(p)]
            + redacted_pieces(quoting::pieces(rest)));
        quoting::lemma_join_front(
            redacted_piece(p),
            redacted_pieces(quoting::pieces(rest)),
            ';',
        );
    } else {
        assert(redacted_pieces(quoting::pieces(url)) =~= seq![redacted_piece(url)]);
    }
}

/// What a piece does not close, the redacted piece does not close.
proof fn lemma_redacted_piece_unclosed(piece: Seq<char>, c: char)
    requires
        quoting::close_at(piece, c) is None,
        c == '"' || c == '\'' || c == '}',
    ensures
        quoting::close_at(redacted_piece(piece), c) is None,
{
    lemma_split_once(piece);
    match text::split_once(piece, '=') {
        Some(kv) => {
            quoting::lemma_unclosed(kv.0, '=', kv.1, c);
            quoting::lemma_unclosed(kv.0, '=', "***"@, c);
            reveal_strlit("***");
            let mask = "***"@;
            assert(mask.skip(1).skip(1).skip(1) =~= Seq::empty());
            assert(quoting::close_at(Seq::<char>::empty(), c) is None);
            assert(quoting::close_at(mask.skip(1).skip(1), c) is None);
            assert(quoting::close_at(mask.skip(1), c) is None);
        },
        None => {},
    }
}

/// What a connection string does not close, the redacted string does not close.
proof fn lemma_redacted_unclosed(url: Seq<char>, c: char)
    requires
        quoting::close_at(url, c) is None,
        c == '"' || c == '\'' || c == '}',
    ensures
        quoting::close_at(redacted(url), c) is None,
    decreases url.len(),
{
    let i = quoting::piece_end(url);
    quoting::lemma_piece_end(url);
    lemma_redacted_front(url);
    if i < url.len() {
        let p = url.take(i);
        let rest = url.skip(i + 1);
        assert(url =~= p.push(';') + rest);
        quoting::lemma_unclosed(p, ';', rest, c);
        lemma_redacted_piece_unclosed(p, c);
        lemma_redacted_unclosed(rest, c);
        quoting::lemma_unclosed(redacted_piece(p), ';', redacted(rest), c);
    } else {
        lemma_redacted_piece_unclosed(url, c);
    }
}

/// Whether no value of a connection string closes what it opens and goes on with other text.
pub open spec fn tidy(url: Seq<char>) -> bool
    decreases url.len(),
{
    let i = quoting::piece_end(url);
    &&& quoting::has_value(url) ==> !quoting::garbled(quoting::value_on(url))
    &&& 0 <= i < url.len() ==> tidy(url.skip(i + 1))
}

/// The first piece of a redacted string ends where the redacted first piece does.
proof fn lemma_redacted_end(url: Seq<char>)
    requires
        tidy(url),
    ensures
        quoting::piece_end(redacted(url)) == redacted_piece(
            url.take(quoting::piece_end(url)),
        ).len(),
{
    let i = quoting::piece_end(url);
    quoting::lemma_piece_end(url);
    lemma_redacted_front(url);
    let p = url.take(i);
    let after: Seq<char> = if i < url.len() {
        seq![';'] + redacted(url.skip(i + 1))
    } else {
        Seq::empty()
    };
    assert(i == url.len() ==> p =~= url);
    assert(redacted(url) =~= redacted_piece(p) + after);
    lemma_split_once(p);
    if redacted_piece(p) == p {
        let e = text::find(url, '=');
        let v = quoting::value_on(url);
        if quoting::has_value(url) && quoting::begins(v) && quoting::value_end(v) is None {
            let l = text::lead(v);
            text::lemma_trim_start(v);
            let c = quoting::closer(v[l])->Some_0;
            assert(quoting::close_of(v) is None);
            text::lemma_find_first(url, ';');
            text::lemma_find_first(url, '=');
            // The opening character stands before the first `;`.
            assert(e + 1 + l < i) by {
                if e + 1 + l >= i {
                    if i < url.len() {
                        assert(v[i - e - 1] == ';');
                        assert(e + 1 + l != i);
                        assert(text::is_space(v[i - e - 1]));
                    }
                }
            }
            let tail = p.skip(e + l + 2);
            let open = v.skip(l + 1);
            if i < url.len() {
                let rest = url.skip(i + 1);
                assert(open =~= tail.push(';') + rest);
                quoting::lemma_unclosed(tail, ';', rest, c);
                lemma_redacted_unclosed(rest, c);
                quoting::lemma_unclosed(tail, ';', redacted(rest), c);
                assert(tail + after =~= tail.push(';') + redacted(rest));
            } else {
                assert(open =~= tail);
                assert(tail + after =~= tail);
            }
        }
        quoting::lemma_piece_same(url, after);
    } else {
        let kv = text::split_once(p, '=')->Some_0;
        let k = kv.0;
        reveal_strlit("***");
        assert(!k.contains(';')) by {
            text::lemma_find_first(url, ';');
            text::lemma_find_first(url, '=');
            text::lemma_find_first(p, '=');
            if k.contains(';') {
                let j = choose|j: int| 0 <= j < k.len() && k[j] == ';';
                assert(url[j] == ';');
                assert(p[k.len() as int] == '=');
                assert(url[k.len() as int] == '=');
                if text::find(url, '=') < text::find(url, ';') {
                    assert(k[text::find(url, '=')] == '=');
                }
            }
        }
        assert(!quoting::begins("***"@)) by {
            text::lemma_trim_start_at("***"@, 0);
        }
        quoting::lemma_plain_piece(k, "***"@, after);
    }
}

/// Redacting keeps the structure: the pieces of the redacted string are the redacted pieces,
/// one for each piece and in the same order. Strings with a value that closes what it opens and
/// goes on with other text are left out.
pub proof fn law_redact_keeps_structure(url: Seq<char>)
    requires
        tidy(url),
    ensures
        quoting::pieces(redacted(url)) == redacted_pieces(quoting::pieces(url)),
    decreases url.len(),
{
    let i = quoting::piece_end(url);
    quoting::lemma_piece_end(url);
    lemma_redacted_front(url);
    lemma_redacted_end(url);
    let r = redacted(url);
    let first = redacted_piece(url.take(i));
    if i < url.len() {
        let rest = url.skip(i + 1);
        law_redact_keeps_structure(rest);
        assert(r.take(first.len() as int) =~= first);
        assert(r.skip(first.len() as int + 1) =~= redacted(rest));
        assert(redacted_pieces(quoting::pieces(url)) =~= seq![first] + redacted_pieces(
            quoting::pieces(rest),
        ));
    } else {
        assert(url.take(i) =~= url);
        assert(redacted_pieces(quoting::pieces(url)) =~= seq![first]);
    }
}

/// Where no value begins with a quote or a brace, reading goes segment by segment.
pub proof fn law_parse_goes_by_segments(url: Seq<char>)
    requires
        forall|i: int|
            0 <= i < text::split(url, ';').len() ==> !quoting::opens(
                #[trigger] text::split(url, ';')[i],
            ),
    ensures
        parsed(quoting::pieces(url)) == parsed(text::split(url, ';')),
{
    quoting::law_pieces_are_segments(url);
}

/// Where no value begins with a quote or a brace, redacting goes segment by segment: there are as
/// many segments as before, each is as it was or masked, and every one with a secret is masked.
pub proof fn law_redact_goes_by_segments(url: Seq<char>)
    requires
        forall|i: int|
            0 <= i < text::split(url, ';').len() ==> !quoting::opens(
                #[trigger] text::split(url, ';')[i],
            ),
    ensures
        text::split(redacted(url), ';') == redacted_pieces(text::split(url, ';')),
{
    quoting::law_pieces_are_segments(url);
    let segments = text::split(url, ';');
    let masked = redacted_pieces(segments);
    quoting::lemma_join_pieces(url);
    text::lemma_split_pieces(url, text::is_char(';'));
    assert forall|i: int| 0 <= i < masked.len() implies !(#[trigger] masked[i]).contains(';') by {
        let piece = segments[i];
        let p = text::is_char(';');
        assert(!piece.contains(';')) by {
            if piece.contains(';') {
                let j = choose|j: int| 0 <= j < piece.len() && piece[j] == ';';
                assert(!p(piece[j]));
            }
        }
        lemma_split_once(piece);
        reveal_strlit("***");
        let r = masked[i];
        if r != piece && r.contains(';') {
            let k = text::split_once(piece, '=')->Some_0.0;
            let j = choose|j: int| 0 <= j < r.len() && r[j] == ';';
            if j < k.len() {
                assert(piece[j] == ';');
            }
        }
    }
    text::lemma_split_join(masked, ';');
}

/// Whether two pieces are the same but for the value of a secret.
pub open spec fn same_but_secret(a: Seq<char>, b: Seq<char>) -> bool {
    a == b || match (text::split_once(a, '='), text::split_once(b, '=')) {
        (Some(x), Some(y)) => x.0 == y.0 && is_secret(key_of(x.0)),
        _ => false,
    }
}

/// Nothing of a secret is left: connection strings that differ in the values of secrets alone
/// are redacted to the same string.
pub proof fn law_redact_hides_secrets(a: Seq<char>, b: Seq<char>)
    requires
        quoting::pieces(a).len() == quoting::pieces(b).len(),
        forall|i: int|
            0 <= i < quoting::pieces(a).len() ==> same_but_secret(
                #[trigger] quoting::pieces(a)[i],
                quoting::pieces(b)[i],
            ),
    ensures
        redacted(a) == redacted(b),
{
    assert(redacted_pieces(quoting::pieces(a)) =~= redacted_pieces(quoting::pieces(b)));
}

/// A connection string without a secret is redacted to itself.
pub proof fn law_redact_leaves_the_rest(url: Seq<char>)
    requires
        forall|i: int|
            0 <= i < quoting::pieces(url).len() ==> match text::split_once(
                #[trigger] quoting::pieces(url)[i],
                '=',
            ) {
                Some(kv) => !is_secret(key_of(kv.0)),
                None => true,
            },
    ensures
        redacted(url) == url,
{
    assert(redacted_pieces(quoting::pieces(url)) =~= quoting::pieces(url));
    quoting::lemma_join_pieces(url);
}

/// Redacting a redacted connection string changes nothing. Strings with a value that closes what
/// it opens and goes on with other text are left out.
pub proof fn law_redact_idempotent(url: Seq<char>)
    requires
        tidy(url),
    ensures
        redacted(redacted(url)) == redacted(url),
{
    law_redact_keeps_structure(url);
    let masked = redacted_pieces(quoting::pieces(url));
    assert forall|i: int| 0 <= i < masked.len() implies redacted_piece(#[trigger] masked[i])
        == masked[i] by {
        lemma_redacted_piece(quoting::pieces(url)[i]);
    }
    assert(redacted_pieces(masked) =~= masked);
}

/// Pieces with the same entries read the same.
proof fn lemma_parsed_same(a: Seq<Seq<char>>, b: Seq<Seq<char>>)
    requires
        a.len() == b.len(),
        forall|i: int| 0 <= i < a.len() ==> entry(#[trigger] a[i]) == entry(b[i]),
    ensures
        parsed(a) == parsed(b),
    decreases a.len(),
{
    if a.len() > 0 {
        let a1 = a.drop_last();
        let b1 = b.drop_last();
        assert forall|i: int| 0 <= i < a1.len() implies entry(#[trigger] a1[i]) == entry(b1[i]) by {
            assert(a1[i] == a[i] && b1[i] == b[i]);
        }
        lemma_parsed_same(a1, b1);
        assert(entry(a[a.len() - 1]) == entry(b[b.len() - 1]));
    }
}

/// A redacted connection string reads as the string it was made of. Strings with a value that
/// closes what it opens and goes on with other text are left out.
pub proof fn law_redact_then_parse(url: Seq<char>)
    requires
        tidy(url),
    ensures
        parsed(quoting::pieces(redacted(url))) == parsed(quoting::pieces(url)),
{
    law_redact_keeps_structure(url);
    let pieces = quoting::pieces(url);
    let masked = redacted_pieces(pieces);
    assert forall|i: int| 0 <= i < masked.len() implies entry(#[trigger] masked[i]) == entry(
        pieces[i],
    ) by {
        lemma_redacted_piece(pieces[i]);
    }
    lemma_parsed_same(masked, pieces);
}

/// A connection string with one piece in the middle: what stands before it and behind it, and
/// the piece.
proof fn lemma_pieces_around(p: Seq<char>, k: Seq<char>, v: Seq<char>, q: Seq<char>)
    requires
        quoting::settled(p),
        !k.contains('='),
        !k.contains(';'),
        quoting::stands(v),
        quoting::follows(q),
    ensures
        quoting::pieces(p).len() >= 1,
        quoting::pieces(p + k.push('=') + v + q) == quoting::pieces(p).drop_last().push(
            k.push('=') + v,
        ) + (if q.len() == 0 {
            Seq::empty()
        } else {
            quoting::pieces(q.skip(1))
        }),
{
    let piece = k.push('=') + v;
    let t = piece + q;
    assert(p + k.push('=') + v + q =~= p + t);
    quoting::lemma_settled(p, t);
    if !v.contains(';') && !quoting::begins(v) {
        quoting::lemma_plain_piece(k, v, q);
    } else {
        quoting::lemma_quoted_piece(k, v, q);
    }
    let front = quoting::pieces(p).drop_last();
    if q.len() == 0 {
        assert(t =~= piece);
        assert(quoting::pieces(t) =~= seq![piece]);
        assert(front + seq![piece] =~= front.push(piece) + Seq::empty());
    } else {
        assert(t.take(piece.len() as int) =~= piece);
        assert(t.skip(piece.len() as int + 1) =~= q.skip(1));
        assert(front + (seq![piece] + quoting::pieces(q.skip(1))) =~= front.push(piece)
            + quoting::pieces(q.skip(1)));
    }
}

/// What is read and what is redacted says nothing about a password, not even its length: it is
/// the same for every password that can stand in a connection string as it is, whether it is one
/// without `;` that does not begin with a quote or a brace, or a quoted one.
pub proof fn law_password_does_not_show(
    p: Seq<char>,
    k: Seq<char>,
    s1: Seq<char>,
    s2: Seq<char>,
    q: Seq<char>,
)
    requires
        quoting::settled(p),
        !k.contains('='),
        !k.contains(';'),
        is_secret(key_of(k)),
        quoting::stands(s1),
        quoting::stands(s2),
        quoting::follows(q),
    ensures
        parsed(quoting::pieces(p + k.push('=') + s1 + q)) == parsed(
            quoting::pieces(p + k.push('=') + s2 + q),
        ),
        redacted(p + k.push('=') + s1 + q) == redacted(p + k.push('=') + s2 + q),
{
    lemma_pieces_around(p, k, s1, q);
    lemma_pieces_around(p, k, s2, q);
    lemma_split_once_at(k, s1);
    lemma_split_once_at(k, s2);
    let a = quoting::pieces(p + k.push('=') + s1 + q);
    let b = quoting::pieces(p + k.push('=') + s2 + q);
    let n = quoting::pieces(p).len() - 1;
    assert(a[n] == k.push('=') + s1);
    assert(b[n] == k.push('=') + s2);
    assert forall|i: int| 0 <= i < a.len() implies entry(#[trigger] a[i]) == entry(b[i]) by {
        if i != n {
            assert(a[i] == b[i]);
        }
    }
    lemma_parsed_same(a, b);
    assert(redacted_pieces(a) =~= redacted_pieces(b)) by {
        assert forall|i: int| 0 <= i < a.len() implies redacted_piece(#[trigger] a[i])
            == redacted_piece(b[i]) by {
            if i != n {
                assert(a[i] == b[i]);
            }
        }
    }
}

/// A password is masked whole wherever it stands, quoted or not, and the rest stays as it was:
/// what comes before the piece and behind it is redacted as it is on its own.
pub proof fn law_password_is_masked(p: Seq<char>, k: Seq<char>, v: Seq<char>, q: Seq<char>)
    requires
        quoting::settled(p),
        !k.contains('='),
        !k.contains(';'),
        is_secret(key_of(k)),
        quoting::stands(v),
        quoting::follows(q),
    ensures
        redacted_pieces(quoting::pieces(p + k.push('=') + v + q)) == redacted_pieces(
            quoting::pieces(p).drop_last(),
        ).push(k.push('=') + "***"@) + (if q.len() == 0 {
            Seq::empty()
        } else {
            redacted_pieces(quoting::pieces(q.skip(1)))
        }),
{
    lemma_pieces_around(p, k, v, q);
    lemma_split_once_at(k, v);
    let front = quoting::pieces(p).drop_last();
    let all = quoting::pieces(p + k.push('=') + v + q);
    let piece = k.push('=') + v;
    assert(redacted_piece(piece) == k.push('=') + "***"@);
    if q.len() == 0 {
        assert(redacted_pieces(all) =~= redacted_pieces(front).push(k.push('=') + "***"@)
            + Seq::empty());
    } else {
        assert(redacted_pieces(all) =~= redacted_pieces(front).push(k.push('=') + "***"@)
            + redacted_pieces(quoting::pieces(q.skip(1))));
    }
}

/// Reading a connection string never shows a password: under `password` and `pwd` there is
/// `***` or nothing. Every value is a string.
pub proof fn law_parse_masks_passwords(pieces: Seq<Seq<char>>)
    ensures
        forall|key: Seq<char>|
            parsed(pieces).contains_key(key) ==> (#[trigger] parsed(pieces)[key]) is Str && (
            is_secret(key) ==> parsed(pieces)[key] == JsonV::Str("***"@)),
    decreases pieces.len(),
{
    if pieces.len() > 0 {
        law_parse_masks_passwords(pieces.drop_last());
    }
}

/// The entries that labelled values give, in their order: of two with one key the later counts.
pub open spec fn read_back(pairs: Seq<(Seq<char>, Seq<char>)>) -> Map<Seq<char>, JsonV>
    decreases pairs.len(),
{
    if pairs.len() == 0 {
        Map::empty()
    } else {
        let (label, value) = pairs.last();
        read_back(pairs.drop_last()).insert(
            key_of(label),
            JsonV::Str(shown(key_of(label), text::trim(quoting::written(value)))),
        )
    }
}

/// Whether a name can be told apart again in a connection string.
pub open spec fn readable(name: Seq<char>) -> bool {
    !name.contains('=') && !name.contains(';')
}

/// The piece of a labelled value ends with the value, and its entry is that of the label and the
/// value.
proof fn lemma_piece(label: Seq<char>, value: Seq<char>, t: Seq<char>)
    requires
        readable(label),
        quoting::follows(t),
    ensures
        ({
            let piece = label.push('=') + quoting::written(value);
            quoting::piece_end(piece + t) == piece.len()
        }),
        entry(label.push('=') + quoting::written(value)) == Some(
            (key_of(label), shown(key_of(label), text::trim(quoting::written(value)))),
        ),
{
    let v = quoting::written(value);
    quoting::law_written_stands(value);
    lemma_split_once_at(label, v);
    if !v.contains(';') && !quoting::begins(v) {
        quoting::lemma_plain_piece(label, v, t);
    } else {
        quoting::lemma_quoted_piece(label, v, t);
    }
}

/// Joined labelled values fall into the same pieces again.
proof fn lemma_pieces_join(pairs: Seq<(Seq<char>, Seq<char>)>)
    requires
        pairs.len() > 0,
        forall|i: int| 0 <= i < pairs.len() ==> readable((#[trigger] pairs[i]).0),
    ensures
        quoting::pieces(text::join(pieces_of(pairs), ';')) == pieces_of(pairs),
    decreases pairs.len(),
{
    let (label, value) = pairs[0];
    assert(readable(pairs[0].0));
    let a = label.push('=') + quoting::written(value);
    let list = pieces_of(pairs);
    assert(list[0] == a);
    if pairs.len() == 1 {
        lemma_piece(label, value, Seq::empty());
        assert(a + Seq::empty() =~= a);
        assert(text::join(list, ';') == a);
        assert(list =~= seq![a]);
    } else {
        let others = pairs.skip(1);
        assert forall|i: int| 0 <= i < others.len() implies readable((#[trigger] others[i]).0) by {
            assert(others[i] == pairs[i + 1]);
        }
        lemma_pieces_join(others);
        assert(list =~= seq![a] + pieces_of(others));
        quoting::lemma_join_front(a, pieces_of(others), ';');
        let rest = text::join(pieces_of(others), ';');
        let t = seq![';'] + rest;
        lemma_piece(label, value, t);
        let s = a.push(';') + rest;
        assert(s =~= a + t);
        assert(s.take(a.len() as int) =~= a);
        assert(s.skip(a.len() as int + 1) =~= rest);
    }
}

/// Joined labelled values read back as themselves.
proof fn lemma_read_back(pairs: Seq<(Seq<char>, Seq<char>)>)
    requires
        forall|i: int| 0 <= i < pairs.len() ==> readable((#[trigger] pairs[i]).0),
    ensures
        parsed(pieces_of(pairs)) == read_back(pairs),
    decreases pairs.len(),
{
    if pairs.len() > 0 {
        let front = pairs.drop_last();
        assert forall|i: int| 0 <= i < front.len() implies readable((#[trigger] front[i]).0) by {
            assert(front[i] == pairs[i]);
        }
        lemma_read_back(front);
        assert(pieces_of(pairs).drop_last() =~= pieces_of(front));
        let pair = pairs[pairs.len() - 1];
        assert(readable(pair.0));
        lemma_piece(pair.0, pair.1, Seq::empty());
    }
}

/// The labels of the known components can be told apart.
proof fn lemma_known_labels()
    ensures
        forall|i: int| 0 <= i < 6 ==> readable((#[trigger] known()[i]).1),
{
    reveal_strlit("Server");
    reveal_strlit("Database");
    reveal_strlit("User Id");
    reveal_strlit("Password");
    reveal_strlit("Encrypt");
    reveal_strlit("TrustServerCertificate");
}

/// Whether the name of every component without a place of its own can be told apart.
pub open spec fn separable(entries: Seq<(Seq<char>, JsonV)>) -> bool {
    forall|i: int|
        0 <= i < entries.len() ==> is_known((#[trigger] entries[i]).0) || readable(entries[i].0)
}

proof fn lemma_known_pairs_readable(entries: Seq<(Seq<char>, JsonV)>, n: nat)
    requires
        n <= 6,
    ensures
        forall|i: int|
            0 <= i < known_pairs(entries, n).len() ==> readable(
                (#[trigger] known_pairs(entries, n)[i]).0,
            ),
    decreases n,
{
    if n > 0 {
        lemma_known_pairs_readable(entries, (n - 1) as nat);
        lemma_known_labels();
        assert(readable(known()[n - 1].1));
        let before = known_pairs(entries, (n - 1) as nat);
        let after = known_pairs(entries, n);
        assert forall|i: int| 0 <= i < after.len() implies readable((#[trigger] after[i]).0) by {
            if i < before.len() {
                assert(after[i] == before[i]);
            }
        }
    }
}

proof fn lemma_extra_pairs_readable(entries: Seq<(Seq<char>, JsonV)>)
    requires
        separable(entries),
    ensures
        forall|i: int|
            0 <= i < extra_pairs(entries).len() ==> readable(
                (#[trigger] extra_pairs(entries)[i]).0,
            ),
    decreases entries.len(),
{
    if entries.len() > 0 {
        let front = entries.drop_last();
        assert(separable(front)) by {
            assert forall|i: int| 0 <= i < front.len() implies is_known((#[trigger] front[i]).0)
                || readable(front[i].0) by {
                assert(front[i] == entries[i]);
            }
        }
        lemma_extra_pairs_readable(front);
        let last = entries[entries.len() - 1];
        assert(is_known(last.0) || readable(last.0));
        let before = extra_pairs(front);
        let after = extra_pairs(entries);
        assert forall|i: int| 0 <= i < after.len() implies readable((#[trigger] after[i]).0) by {
            if i < before.len() {
                assert(after[i] == before[i]);
            }
        }
    }
}

/// Building and reading are inverse: a connection string built from components reads back as
/// the labelled values of the components, each key in lower case, each value as it is written
/// and trimmed, and the password masked. Components whose names cannot be told apart in a
/// connection string are left out.
pub proof fn law_build_then_parse(entries: Seq<(Seq<char>, JsonV)>)
    requires
        separable(entries),
    ensures
        parsed(quoting::pieces(built(entries))) == read_back(built_pairs(entries)),
{
    let pairs = built_pairs(entries);
    let pieces = pieces_of(pairs);
    lemma_known_pairs_readable(entries, 6);
    lemma_extra_pairs_readable(entries);
    assert forall|i: int| 0 <= i < pairs.len() implies readable((#[trigger] pairs[i]).0) by {
        let n = known_pairs(entries, 6).len();
        if i < n {
            assert(pairs[i] == known_pairs(entries, 6)[i]);
        } else {
            assert(pairs[i] == extra_pairs(entries)[i - n]);
        }
    }
    lemma_read_back(pairs);
    if pieces.len() == 0 {
        let none = Seq::<char>::empty();
        assert(built(entries) == none);
        assert(quoting::piece_end(none) == 0);
        let only = quoting::pieces(none);
        assert(only =~= seq![none]);
        assert(only.drop_last() =~= Seq::empty());
        assert(parsed(only.drop_last()) == Map::<Seq<char>, JsonV>::empty());
        assert(entry(only.last()) is None);
    } else {
        lemma_pieces_join(pairs);
    }
}

/// The keys under which the known components are read back.
pub open spec fn known_keys() -> Seq<Seq<char>> {
    seq![
        "server"@,
        "database"@,
        "user id"@,
        "password"@,
        "encrypt"@,
        "trustservercertificate"@,
    ]
}

/// The key of an ASCII label without white space at its ends.
proof fn lemma_key(label: Seq<char>, key: Seq<char>)
    requires
        label.len() == key.len(),
        label.len() > 0,
        !text::is_space(label[0]),
        !text::is_space(label.last()),
        text::all_ascii(label),
        forall|i: int| 0 <= i < label.len() ==> text::ascii_lower(#[trigger] label[i]) == key[i],
    ensures
        key_of(label) == key,
{
    text::lemma_trim_start_at(label, 0);
    assert(label.skip(0) =~= label);
    text::lemma_trim_end_at(label, label.len() as int);
    assert(label.take(label.len() as int) =~= label);
    assert(text::lowercase(label) =~= key);
}

/// The label of a known component in lower case is its key, and the keys differ.
pub proof fn law_known_keys()
    ensures
        forall|i: int| 0 <= i < 6 ==> key_of((#[trigger] known()[i]).1) == known_keys()[i],
        forall|i: int, j: int|
            0 <= i < j < 6 ==> #[trigger] known_keys()[i] != #[trigger] known_keys()[j],
{
    reveal_strlit("Server");
    reveal_strlit("Database");
    reveal_strlit("User Id");
    reveal_strlit("Password");
    reveal_strlit("Encrypt");
    reveal_strlit("TrustServerCertificate");
    reveal_strlit("server");
    reveal_strlit("database");
    reveal_strlit("user id");
    reveal_strlit("password");
    reveal_strlit("encrypt");
    reveal_strlit("trustservercertificate");
    lemma_key("Server"@, "server"@);
    lemma_key("Database"@, "database"@);
    lemma_key("User Id"@, "user id"@);
    lemma_key("Password"@, "password"@);
    lemma_key("Encrypt"@, "encrypt"@);
    lemma_key("TrustServerCertificate"@, "trustservercertificate"@);
    assert("database"@[0] != "password"@[0]);
    assert("user id"@[0] != "encrypt"@[0]);
    let k = known_keys();
    assert(k[0].len() == 6 && k[1].len() == 8 && k[2].len() == 7 && k[3].len() == 8 && k[4].len()
        == 7 && k[5].len() == 22);
    assert(k[1][0] != k[3][0] && k[2][0] != k[4][0]);
}

/// A key that one labelled value alone has is read back from that one.
proof fn lemma_read_back_only(pairs: Seq<(Seq<char>, Seq<char>)>, i: int)
    requires
        0 <= i < pairs.len(),
        forall|j: int|
            0 <= j < pairs.len() && j != i ==> key_of((#[trigger] pairs[j]).0) != key_of(
                pairs[i].0,
            ),
    ensures
        read_back(pairs).contains_key(key_of(pairs[i].0)),
        read_back(pairs)[key_of(pairs[i].0)] == JsonV::Str(
            shown(key_of(pairs[i].0), text::trim(quoting::written(pairs[i].1))),
        ),
    decreases pairs.len(),
{
    if i < pairs.len() - 1 {
        let front = pairs.drop_last();
        assert(front[i] == pairs[i]);
        assert forall|j: int| 0 <= j < front.len() && j != i implies key_of(
            (#[trigger] front[j]).0,
        ) != key_of(front[i].0) by {
            assert(front[j] == pairs[j]);
        }
        lemma_read_back_only(front, i);
        assert(key_of(pairs[pairs.len() - 1].0) != key_of(pairs[i].0));
    }
}

/// Where the labelled value of component `c` stands among the first `n` known ones; no other
/// has its key.
proof fn lemma_known_pairs_labels(entries: Seq<(Seq<char>, JsonV)>, n: nat, c: int) -> (at: int)
    requires
        n <= 6,
        0 <= c < 6,
    ensures
        forall|j: int|
            0 <= j < known_pairs(entries, n).len() && j != at ==> key_of(
                (#[trigger] known_pairs(entries, n)[j]).0,
            ) != known_keys()[c],
        ({
            let name = known()[c].0;
            let v = value_text(json::fields(entries)[name]);
            c < n && json::fields(entries).contains_key(name) && v.len() > 0 ==> 0 <= at
                < known_pairs(entries, n).len() && known_pairs(entries, n)[at] == (
                known()[c].1,
                v,
            )
        }),
    decreases n,
{
    law_known_keys();
    if n == 0 {
        -1
    } else {
        let at = lemma_known_pairs_labels(entries, (n - 1) as nat, c);
        let before = known_pairs(entries, (n - 1) as nat);
        let after = known_pairs(entries, n);
        assert(forall|j: int| 0 <= j < before.len() ==> #[trigger] after[j] == before[j]);
        assert(key_of(known()[n - 1].1) == known_keys()[n - 1]);
        if c == n - 1 {
            lemma_known_pairs_before(entries, (n - 1) as nat, c);
            before.len() as int
        } else {
            if c < n - 1 {
                assert(known_keys()[c] != known_keys()[n - 1]);
            } else {
                assert(known_keys()[n - 1] != known_keys()[c]);
            }
            at
        }
    }
}

/// The labelled values of the first `n` known components have other keys than component `c`
/// behind them.
proof fn lemma_known_pairs_before(entries: Seq<(Seq<char>, JsonV)>, n: nat, c: int)
    requires
        n <= c < 6,
    ensures
        forall|j: int|
            0 <= j < known_pairs(entries, n).len() ==> key_of(
                (#[trigger] known_pairs(entries, n)[j]).0,
            ) != known_keys()[c],
    decreases n,
{
    if n > 0 {
        law_known_keys();
        lemma_known_pairs_before(entries, (n - 1) as nat, c);
        let before = known_pairs(entries, (n - 1) as nat);
        let after = known_pairs(entries, n);
        assert(key_of(known()[n - 1].1) == known_keys()[n - 1]);
        assert(known_keys()[n - 1] != known_keys()[c]);
        assert forall|j: int| 0 <= j < after.len() implies key_of((#[trigger] after[j]).0)
            != known_keys()[c] by {
            if j < before.len() {
                assert(after[j] == before[j]);
            }
        }
    }
}

/// The other components have the keys of their names.
proof fn lemma_extra_pairs_keys(entries: Seq<(Seq<char>, JsonV)>, key: Seq<char>)
    requires
        forall|i: int|
            0 <= i < entries.len() && !is_known((#[trigger] entries[i]).0) ==> key_of(
                entries[i].0,
            ) != key,
    ensures
        forall|i: int|
            0 <= i < extra_pairs(entries).len() ==> key_of((#[trigger] extra_pairs(entries)[i]).0)
                != key,
    decreases entries.len(),
{
    if entries.len() > 0 {
        let front = entries.drop_last();
        assert forall|i: int|
            0 <= i < front.len() && !is_known((#[trigger] front[i]).0) implies key_of(front[i].0)
            != key by {
            assert(front[i] == entries[i]);
        }
        lemma_extra_pairs_keys(front, key);
        let before = extra_pairs(front);
        let after = extra_pairs(entries);
        let last = entries[entries.len() - 1];
        assert(!is_known(last.0) ==> key_of(last.0) != key);
        assert forall|i: int| 0 <= i < after.len() implies key_of((#[trigger] after[i]).0)
            != key by {
            if i < before.len() {
                assert(after[i] == before[i]);
            }
        }
    }
}

/// A known component with a text of its own is read back under its key, as it is written and
/// trimmed, and masked if it is the password, unless a component without a place of its own takes the same key.
pub proof fn law_known_component_reads_back(entries: Seq<(Seq<char>, JsonV)>, c: int)
    requires
        separable(entries),
        0 <= c < 6,
        json::fields(entries).contains_key(known()[c].0),
        value_text(json::fields(entries)[known()[c].0]).len() > 0,
        forall|i: int|
            0 <= i < entries.len() && !is_known((#[trigger] entries[i]).0) ==> key_of(
                entries[i].0,
            ) != known_keys()[c],
    ensures
        parsed(quoting::pieces(built(entries))).contains_key(known_keys()[c]),
        parsed(quoting::pieces(built(entries)))[known_keys()[c]] == JsonV::Str(
            shown(
                known_keys()[c],
                text::trim(quoting::written(value_text(json::fields(entries)[known()[c].0]))),
            ),
        ),
{
    law_build_then_parse(entries);
    law_known_keys();
    let at = lemma_known_pairs_labels(entries, 6, c);
    lemma_extra_pairs_keys(entries, known_keys()[c]);
    let pairs = built_pairs(entries);
    let n = known_pairs(entries, 6).len();
    assert(pairs[at] == known_pairs(entries, 6)[at]);
    assert(key_of(known()[c].1) == known_keys()[c]);
    assert forall|j: int| 0 <= j < pairs.len() && j != at implies key_of((#[trigger] pairs[j]).0)
        != key_of(pairs[at].0) by {
        if j < n {
            assert(pairs[j] == known_pairs(entries, 6)[j]);
        } else {
            assert(pairs[j] == extra_pairs(entries)[j - n]);
        }
    }
    lemma_read_back_only(pairs, at);
}

/// Whether a component comes back as it is from a connection string: its name is its own key,
/// holds no separator, and is neither that of a secret nor one that has another label; its value
/// is a string that is not empty, has no white space around it, holds no `;` and does not begin
/// with a quote or a brace.
pub open spec fn comes_back(e: (Seq<char>, JsonV)) -> bool {
    &&& readable(e.0)
    &&& key_of(e.0) == e.0
    &&& !is_secret(e.0)
    &&& e.0 != "user_id"@
    &&& e.0 != "trust_server_certificate"@
    &&& e.1 is Str
    &&& e.1->Str_0.len() > 0
    &&& text::trim(e.1->Str_0) == e.1->Str_0
    &&& !e.1->Str_0.contains(';')
    &&& !quoting::begins(e.1->Str_0)
}

/// Whether a labelled value is that of a field.
spec fn is_of_field(pair: (Seq<char>, Seq<char>), fields: Map<Seq<char>, JsonV>) -> bool {
    &&& fields.contains_key(key_of(pair.0))
    &&& fields[key_of(pair.0)] == JsonV::Str(
        shown(key_of(pair.0), text::trim(quoting::written(pair.1))),
    )
}

/// Labelled values that are all those of fields read back as some of the fields.
proof fn lemma_read_back_within(
    pairs: Seq<(Seq<char>, Seq<char>)>,
    fields: Map<Seq<char>, JsonV>,
)
    requires
        forall|i: int| 0 <= i < pairs.len() ==> is_of_field(#[trigger] pairs[i], fields),
    ensures
        forall|key: Seq<char>| #[trigger]
            read_back(pairs).contains_key(key) ==> fields.contains_key(key)
                && read_back(pairs)[key] == fields[key],
        forall|i: int|
            0 <= i < pairs.len() ==> read_back(pairs).contains_key(
                key_of((#[trigger] pairs[i]).0),
            ),
    decreases pairs.len(),
{
    if pairs.len() > 0 {
        let front = pairs.drop_last();
        assert forall|i: int| 0 <= i < front.len() implies is_of_field(
            #[trigger] front[i],
            fields,
        ) by {
            assert(front[i] == pairs[i]);
        }
        lemma_read_back_within(front, fields);
        assert(is_of_field(pairs[pairs.len() - 1], fields));
        assert forall|key: Seq<char>| #[trigger]
            read_back(pairs).contains_key(key) implies fields.contains_key(key)
            && read_back(pairs)[key] == fields[key] by {
            if key != key_of(pairs.last().0) {
                assert(read_back(front).contains_key(key));
            }
        }
        assert forall|i: int| 0 <= i < pairs.len() implies read_back(pairs).contains_key(
            key_of((#[trigger] pairs[i]).0),
        ) by {
            if i < front.len() {
                assert(front[i] == pairs[i]);
                assert(read_back(front).contains_key(key_of(front[i].0)));
            }
        }
    }
}

/// A value that comes back is written as it is.
proof fn lemma_comes_back(e: (Seq<char>, JsonV), label: Seq<char>, fields: Map<Seq<char>, JsonV>)
    requires
        comes_back(e),
        key_of(label) == e.0,
        fields.contains_key(e.0),
        fields[e.0] == e.1,
    ensures
        is_of_field((label, value_text(e.1)), fields),
{
    quoting::law_written_stands(e.1->Str_0);
}

/// The labelled values of known components are those of fields, and none is missing.
proof fn lemma_known_come_back(entries: Seq<(Seq<char>, JsonV)>, n: nat)
    requires
        n <= 6,
        json::ascending(entries),
        forall|i: int| 0 <= i < entries.len() ==> comes_back(#[trigger] entries[i]),
    ensures
        forall|i: int|
            0 <= i < known_pairs(entries, n).len() ==> is_of_field(
                #[trigger] known_pairs(entries, n)[i],
                json::fields(entries),
            ),
        forall|c: int|
            0 <= c < n && json::fields(entries).contains_key((#[trigger] known()[c]).0)
                ==> exists|i: int|
                0 <= i < known_pairs(entries, n).len() && key_of(
                    (#[trigger] known_pairs(entries, n)[i]).0,
                ) == known()[c].0,
    decreases n,
{
    if n > 0 {
        lemma_known_come_back(entries, (n - 1) as nat);
        law_known_keys();
        json::lemma_fields(entries);
        let fields = json::fields(entries);
        let before = known_pairs(entries, (n - 1) as nat);
        let after = known_pairs(entries, n);
        let (name, label) = known()[n - 1];
        if fields.contains_key(name) {
            let j = choose|j: int| #[trigger] json::is_field(entries, name, j);
            assert(json::is_field(entries, name, j));
            let e = entries[j];
            assert(comes_back(e));
            assert(name != "password"@);
            assert(key_of(known()[n - 1].1) == known_keys()[n - 1]);
            assert(known_keys()[n - 1] == name);
            lemma_comes_back(e, label, fields);
            assert(after == before.push((label, value_text(e.1))));
            assert(after[before.len() as int].0 == label);
        }
        assert forall|i: int| 0 <= i < after.len() implies is_of_field(
            #[trigger] after[i],
            fields,
        ) by {
            if i < before.len() {
                assert(after[i] == before[i]);
            }
        }
        assert forall|c: int|
            0 <= c < n && fields.contains_key((#[trigger] known()[c]).0) implies exists|i: int|
            0 <= i < after.len() && key_of((#[trigger] after[i]).0) == known()[c].0 by {
            if c < n - 1 {
                let i = choose|i: int|
                    0 <= i < before.len() && key_of((#[trigger] before[i]).0) == known()[c].0;
                assert(after[i] == before[i]);
            } else {
                assert(key_of(after[before.len() as int].0) == known()[c].0);
            }
        }
    }
}

/// The labelled values of the other components are those of fields, and none is missing.
proof fn lemma_extra_come_back(entries: Seq<(Seq<char>, JsonV)>, fields: Map<Seq<char>, JsonV>)
    requires
        forall|i: int| 0 <= i < entries.len() ==> comes_back(#[trigger] entries[i]),
        forall|i: int|
            0 <= i < entries.len() ==> fields.contains_key((#[trigger] entries[i]).0)
                && fields[entries[i].0] == entries[i].1,
    ensures
        forall|i: int|
            0 <= i < extra_pairs(entries).len() ==> is_of_field(
                #[trigger] extra_pairs(entries)[i],
                fields,
            ),
        forall|j: int|
            0 <= j < entries.len() && !is_known((#[trigger] entries[j]).0) ==> exists|i: int|
                0 <= i < extra_pairs(entries).len() && key_of(
                    (#[trigger] extra_pairs(entries)[i]).0,
                ) == entries[j].0,
    decreases entries.len(),
{
    if entries.len() > 0 {
        let front = entries.drop_last();
        assert forall|i: int| 0 <= i < front.len() implies comes_back(#[trigger] front[i]) && (
        fields.contains_key(front[i].0) && fields[front[i].0] == front[i].1) by {
            assert(front[i] == entries[i]);
            assert(comes_back(entries[i]));
        }
        lemma_extra_come_back(front, fields);
        let before = extra_pairs(front);
        let after = extra_pairs(entries);
        let e = entries[entries.len() - 1];
        assert(comes_back(e));
        lemma_comes_back(e, e.0, fields);
        assert forall|i: int| 0 <= i < after.len() implies is_of_field(
            #[trigger] after[i],
            fields,
        ) by {
            if i < before.len() {
                assert(after[i] == before[i]);
            }
        }
        assert forall|j: int|
            0 <= j < entries.len() && !is_known((#[trigger] entries[j]).0) implies exists|i: int|
            0 <= i < after.len() && key_of((#[trigger] after[i]).0) == entries[j].0 by {
            if j < front.len() {
                assert(front[j] == entries[j]);
                let i = choose|i: int|
                    0 <= i < before.len() && key_of((#[trigger] before[i]).0) == front[j].0;
                assert(after[i] == before[i]);
            } else {
                assert(after == before.push((e.0, value_text(e.1))));
                assert(key_of(after[before.len() as int].0) == e.0);
            }
        }
    }
}

/// Reading undoes building: a connection string built from components that come back reads as
/// the components.
pub proof fn law_built_reads_as_components(entries: Seq<(Seq<char>, JsonV)>)
    requires
        json::ascending(entries),
        forall|i: int| 0 <= i < entries.len() ==> comes_back(#[trigger] entries[i]),
    ensures
        parsed(quoting::pieces(built(entries))) == json::fields(entries),
{
    let fields = json::fields(entries);
    assert(separable(entries)) by {
        assert forall|i: int| 0 <= i < entries.len() implies is_known((#[trigger] entries[i]).0)
            || readable(entries[i].0) by {
            assert(comes_back(entries[i]));
        }
    }
    law_build_then_parse(entries);
    json::lemma_fields(entries);
    lemma_known_come_back(entries, 6);
    lemma_extra_come_back(entries, fields);
    let first = known_pairs(entries, 6);
    let others = extra_pairs(entries);
    let pairs = built_pairs(entries);
    assert forall|i: int| 0 <= i < pairs.len() implies is_of_field(#[trigger] pairs[i], fields) by {
        if i < first.len() {
            assert(pairs[i] == first[i]);
        } else {
            assert(pairs[i] == others[i - first.len()]);
        }
    }
    lemma_read_back_within(pairs, fields);
    let read = read_back(pairs);
    assert forall|key: Seq<char>| fields.contains_key(key) implies read.contains_key(key) by {
        let j = choose|j: int| #[trigger] json::is_field(entries, key, j);
        assert(json::is_field(entries, key, j));
        assert(entries[j].0 == key);
        if is_known(key) {
            let c = choose|c: int| 0 <= c < known().len() && (#[trigger] known()[c]).0 == key;
            let i = choose|i: int|
                0 <= i < first.len() && key_of((#[trigger] first[i]).0) == known()[c].0;
            assert(pairs[i] == first[i]);
        } else {
            let i = choose|i: int|
                0 <= i < others.len() && key_of((#[trigger] others[i]).0) == entries[j].0;
            assert(pairs[i + first.len()] == others[i]);
        }
    }
    assert(read =~= fields);
}

} // verus!
