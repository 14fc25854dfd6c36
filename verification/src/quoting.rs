//! Quoted values of connection strings: `'…'`, `"…"` and `{…}`. A value that begins with a quote or a
//! brace, and is closed before the next separator, may hold separators.
use vstd::prelude::*;

use crate::text;

verus! {

// ---------------------------------------------------------------------------
// Values
// ---------------------------------------------------------------------------

/// The character that closes a quoted value, by the one that opens it.
pub open spec fn closer(c: char) -> Option<char> {
    if c == '"' || c == '\'' {
        Some(c)
    } else if c == '{' {
        Some('}')
    } else {
        None
    }
}

/// Whether a value begins with a quote or a brace, white space aside.
pub open spec fn begins(v: Seq<char>) -> bool {
    text::lead(v) < v.len() && closer(v[text::lead(v)]) is Some
}

/// Where `c` closes what was opened before the text, if it does: at the first `c`, where a doubled
/// quote does not count.
pub open spec fn close_at(s: Seq<char>, c: char) -> Option<int>
    decreases s.len(),
{
    if s.len() == 0 {
        None
    } else if s[0] != c {
        match close_at(s.skip(1), c) {
            Some(j) => Some(j + 1),
            None => None,
        }
    } else if c != '}' && s.len() >= 2 && s[1] == c {
        match close_at(s.skip(2), c) {
            Some(j) => Some(j + 2),
            None => None,
        }
    } else {
        Some(0)
    }
}

/// Where what a value opens is closed, if it is: behind the closing character.
pub open spec fn close_of(v: Seq<char>) -> Option<int> {
    let l = text::lead(v);
    match close_at(v.skip(l + 1), closer(v[l])->Some_0) {
        Some(j) => Some(l + j + 2),
        None => None,
    }
}

/// Where a quoted value at the start of a text ends: at the `;` or at the end of the text, with
/// white space at most between it and the closing character. `None` if the text does not start
/// with such a value.
pub open spec fn value_end(v: Seq<char>) -> Option<int> {
    if !begins(v) {
        None
    } else {
        match close_of(v) {
            Some(e) => {
                let rest = v.skip(e);
                let b = text::lead(rest);
                if b == rest.len() || rest[b] == ';' {
                    Some(e + b)
                } else {
                    None
                }
            },
            None => None,
        }
    }
}

// ---------------------------------------------------------------------------
// Pieces
// ---------------------------------------------------------------------------

/// Where the first piece of a connection string ends: where its quoted value does, or else at the
/// first `;`.
pub open spec fn piece_end(s: Seq<char>) -> int {
    let e = text::find(s, '=');
    let semi = text::find(s, ';');
    if e < semi {
        match value_end(s.skip(e + 1)) {
            Some(n) => e + 1 + n,
            None => semi,
        }
    } else {
        semi
    }
}

/// The pieces of a connection string: what stands between the `;`, but for those in quoted values.
pub open spec fn pieces(s: Seq<char>) -> Seq<Seq<char>>
    decreases s.len(),
{
    let i = piece_end(s);
    if 0 <= i < s.len() {
        seq![s.take(i)] + pieces(s.skip(i + 1))
    } else {
        seq![s]
    }
}

/// How much white space a text begins with.
proof fn lemma_lead(s: Seq<char>, n: int)
    requires
        0 <= n <= s.len(),
        forall|i: int| 0 <= i < n ==> text::is_space(#[trigger] s[i]),
        n < s.len() ==> !text::is_space(s[n]),
    ensures
        text::lead(s) == n,
{
    text::lemma_trim_start_at(s, n);
}

/// Where it closes, there is the closing character.
proof fn lemma_close_at(s: Seq<char>, c: char)
    ensures
        close_at(s, c) matches Some(j) ==> 0 <= j < s.len() && s[j] == c && (j + 1 < s.len() && c
            != '}' ==> s[j + 1] != c),
    decreases s.len(),
{
    if s.len() > 0 {
        if s[0] != c {
            lemma_close_at(s.skip(1), c);
        } else if c != '}' && s.len() >= 2 && s[1] == c {
            lemma_close_at(s.skip(2), c);
        }
    }
}

/// The end is within the text, and where it is not at the end there is a `;`.
pub proof fn lemma_value_end(v: Seq<char>)
    ensures
        value_end(v) matches Some(n) ==> 0 < n <= v.len() && (n < v.len() ==> v[n] == ';'),
{
    if value_end(v) is Some {
        let l = text::lead(v);
        text::lemma_trim_start(v);
        lemma_close_at(v.skip(l + 1), closer(v[l])->Some_0);
        let e = close_of(v)->Some_0;
        text::lemma_trim_start(v.skip(e));
    }
}

/// The end is within the text, and where it is not at the end there is a `;`.
pub proof fn lemma_piece_end(s: Seq<char>)
    ensures
        0 <= piece_end(s) <= s.len(),
        piece_end(s) < s.len() ==> s[piece_end(s)] == ';',
        text::find(s, '=') < text::find(s, ';') ==> piece_end(s) > text::find(s, '='),
        text::find(s, '=') >= text::find(s, ';') ==> piece_end(s) == text::find(s, ';'),
{
    let e = text::find(s, '=');
    text::lemma_find_first(s, '=');
    text::lemma_find_first(s, ';');
    if e < text::find(s, ';') {
        lemma_value_end(s.skip(e + 1));
    }
}

/// How many characters from position `from` on are white space.
fn blanks(s: &Vec<char>, from: usize) -> (r: usize)
    requires
        from <= s@.len(),
    ensures
        r == from + text::lead(s@.skip(from as int)),
        from <= r <= s@.len(),
{
    let n = s.len();
    let mut i: usize = from;
    while i < n && s[i].is_whitespace()
        invariant
            from <= i <= n,
            n == s@.len(),
            forall|j: int| from <= j < i ==> text::is_space(#[trigger] s@[j]),
        decreases n - i,
    {
        i = i + 1;
    }
    proof {
        let t = s@.skip(from as int);
        assert forall|j: int| 0 <= j < i - from implies text::is_space(#[trigger] t[j]) by {
            assert(t[j] == s@[from + j]);
        }
        lemma_lead(t, i - from);
    }
    i
}

/// Where `c` closes what was opened before position `from`.
fn close_from(s: &Vec<char>, from: usize, c: char) -> (r: Option<usize>)
    requires
        from <= s@.len(),
    ensures
        match r {
            Some(j) => from <= j < s@.len() && close_at(s@.skip(from as int), c) == Some(j - from),
            None => close_at(s@.skip(from as int), c) is None,
        },
{
    let n = s.len();
    let ghost start = close_at(s@.skip(from as int), c);
    let mut i: usize = from;
    while i < n
        invariant
            from <= i <= n,
            n == s@.len(),
            start == close_at(s@.skip(from as int), c),
            match close_at(s@.skip(i as int), c) {
                Some(j) => start == Some(j + i - from),
                None => start is None,
            },
        decreases n - i,
    {
        let ghost t = s@.skip(i as int);
        assert(t.skip(1) =~= s@.skip(i + 1));
        if s[i] != c {
            i = i + 1;
        } else if c != '}' && i + 1 < n && s[i + 1] == c {
            assert(t.skip(2) =~= s@.skip(i + 2));
            i = i + 2;
        } else {
            return Some(i);
        }
    }
    None
}

/// Where a quoted value at position `from` ends.
fn value_end_from(s: &Vec<char>, from: usize) -> (r: Option<usize>)
    requires
        from <= s@.len(),
    ensures
        match r {
            Some(j) => from <= j <= s@.len() && value_end(s@.skip(from as int)) == Some(j - from),
            None => value_end(s@.skip(from as int)) is None,
        },
{
    let ghost v = s@.skip(from as int);
    let n = s.len();
    let l = blanks(s, from);
    if l == n {
        return None;
    }
    let c = s[l];
    let close: char = if c == '"' || c == '\'' {
        c
    } else if c == '{' {
        '}'
    } else {
        return None;
    };
    assert(v.skip(l - from + 1) =~= s@.skip(l + 1));
    match close_from(s, l + 1, close) {
        Some(j) => {
            let b = blanks(s, j + 1);
            assert(v.skip(j + 1 - from) =~= s@.skip(j + 1));
            if b == n || s[b] == ';' {
                Some(b)
            } else {
                None
            }
        },
        None => None,
    }
}

/// Where the piece at position `from` ends.
fn piece_end_from(s: &Vec<char>, from: usize) -> (r: usize)
    requires
        from <= s@.len(),
    ensures
        from <= r <= s@.len(),
        r == from + piece_end(s@.skip(from as int)),
{
    let ghost t = s@.skip(from as int);
    proof {
        lemma_piece_end(t);
    }
    let n = s.len();
    let mut semi: usize = from;
    let mut eq: usize = n;
    while semi < n && s[semi] != ';'
        invariant
            from <= semi <= n,
            n == s@.len(),
            eq == n || from <= eq < semi,
            eq < n ==> s@[eq as int] == '=',
            forall|j: int| from <= j < semi ==> s@[j] != ';',
            forall|j: int| from <= j < semi && j < eq ==> s@[j] != '=',
        decreases n - semi,
    {
        if eq == n && s[semi] == '=' {
            eq = semi;
        }
        semi = semi + 1;
    }
    proof {
        assert forall|j: int| 0 <= j < semi - from implies t[j] != ';' by {
            assert(t[j] == s@[from + j]);
        }
        text::lemma_find(t, ';', semi - from);
        text::lemma_find_first(t, '=');
        if eq < n {
            assert forall|j: int| 0 <= j < eq - from implies t[j] != '=' by {
                assert(t[j] == s@[from + j]);
            }
            text::lemma_find(t, '=', eq - from);
        } else {
            let e = text::find(t, '=');
            if e < semi - from {
                assert(t[e] == s@[from + e]);
            }
        }
    }
    if eq < n {
        assert(t.skip(eq - from + 1) =~= s@.skip(eq + 1));
        match value_end_from(s, eq + 1) {
            Some(j) => j,
            None => semi,
        }
    } else {
        semi
    }
}

/// The pieces of a connection string.
pub fn pieces_chars(s: &Vec<char>) -> (r: Vec<Vec<char>>)
    ensures
        text::texts(r@) == pieces(s@),
{
    let n = s.len();
    let mut out: Vec<Vec<char>> = Vec::new();
    let mut from: usize = 0;
    assert(s@.skip(0) =~= s@);
    assert(text::texts(out@) + pieces(s@) =~= pieces(s@));
    loop
        invariant
            n == s@.len(),
            from <= n,
            text::texts(out@) + pieces(s@.skip(from as int)) == pieces(s@),
        decreases n - from,
    {
        let ghost rest = s@.skip(from as int);
        let ghost done = text::texts(out@);
        let i = piece_end_from(s, from);
        let piece = text::slice_of(s, from, i);
        let ghost p = piece@;
        assert(p =~= rest.take(i - from));
        out.push(piece);
        assert(text::texts(out@) =~= done.push(p));
        if i < n {
            assert(rest.skip(i - from + 1) =~= s@.skip(i + 1));
            assert(done + (seq![p] + pieces(s@.skip(i + 1))) =~= done.push(p) + pieces(
                s@.skip(i + 1),
            ));
            from = i + 1;
        } else {
            assert(p =~= rest);
            assert(done + seq![p] =~= done.push(p));
            return out;
        }
    }
}

// ---------------------------------------------------------------------------
// Joining
// ---------------------------------------------------------------------------

/// A list of texts with one more in front, joined.
pub proof fn lemma_join_front(a: Seq<char>, rest: Seq<Seq<char>>, sep: char)
    requires
        rest.len() > 0,
    ensures
        text::join(seq![a] + rest, sep) == a.push(sep) + text::join(rest, sep),
    decreases rest.len(),
{
    let all = seq![a] + rest;
    assert(all.drop_last() =~= seq![a] + rest.drop_last());
    assert(all.last() == rest.last());
    if rest.len() == 1 {
        assert(all.drop_last() =~= seq![a]);
        assert(text::join(seq![a], sep) == a);
        assert(text::join(all, sep) =~= a.push(sep) + rest[0]);
    } else {
        lemma_join_front(a, rest.drop_last(), sep);
        assert(text::join(all, sep) =~= a.push(sep) + text::join(rest, sep));
    }
}

/// The pieces joined are the text.
pub proof fn lemma_join_pieces(s: Seq<char>)
    ensures
        pieces(s).len() >= 1,
        text::join(pieces(s), ';') == s,
    decreases s.len(),
{
    let i = piece_end(s);
    lemma_piece_end(s);
    if i < s.len() {
        let rest = s.skip(i + 1);
        lemma_join_pieces(rest);
        lemma_join_front(s.take(i), pieces(rest), ';');
        assert(s =~= s.take(i).push(';') + rest);
    }
}

// ---------------------------------------------------------------------------
// What follows a piece
// ---------------------------------------------------------------------------

/// Whether a text can follow a piece: it is empty, or it begins with a `;`.
pub open spec fn follows(t: Seq<char>) -> bool {
    t.len() == 0 || t[0] == ';'
}

/// What is closed is closed at the same place in a text that agrees up to there.
proof fn lemma_close_same(s: Seq<char>, u: Seq<char>, c: char, j: int)
    requires
        close_at(s, c) == Some(j),
        j < u.len(),
        forall|i: int| 0 <= i <= j ==> u[i] == s[i],
        c != '}' && j + 1 < u.len() ==> u[j + 1] != c,
    ensures
        close_at(u, c) == Some(j),
    decreases s.len(),
{
    lemma_close_at(s, c);
    assert(u[0] == s[0]);
    if s[0] != c {
        assert forall|i: int| 0 <= i <= j - 1 implies u.skip(1)[i] == s.skip(1)[i] by {}
        lemma_close_same(s.skip(1), u.skip(1), c, j - 1);
    } else if c != '}' && s.len() >= 2 && s[1] == c {
        lemma_close_at(s.skip(2), c);
        assert(u[1] == s[1]);
        assert forall|i: int| 0 <= i <= j - 2 implies u.skip(2)[i] == s.skip(2)[i] by {}
        lemma_close_same(s.skip(2), u.skip(2), c, j - 2);
    }
}

/// A quoted value ends where it does, whatever follows.
proof fn lemma_value_same(v: Seq<char>, n: int, t: Seq<char>)
    requires
        value_end(v) == Some(n),
        follows(t),
    ensures
        value_end(v.take(n) + t) == Some(n),
{
    lemma_value_end(v);
    let l = text::lead(v);
    text::lemma_trim_start(v);
    let c = closer(v[l])->Some_0;
    let s = v.skip(l + 1);
    lemma_close_at(s, c);
    let j = close_at(s, c)->Some_0;
    let e = l + j + 2;
    let rest = v.skip(e);
    text::lemma_trim_start(rest);
    let b = text::lead(rest);
    let u = v.take(n) + t;
    assert(n == e + b);
    assert forall|i: int| 0 <= i < n implies u[i] == v[i] by {}
    assert forall|i: int| 0 <= i < l implies text::is_space(#[trigger] u[i]) by {
        assert(u[i] == v[i]);
    }
    lemma_lead(u, l);
    let w = u.skip(l + 1);
    assert forall|i: int| 0 <= i <= j implies w[i] == s[i] by {}
    if j + 1 < w.len() {
        assert(w[j + 1] == u[e]);
        if b > 0 {
            assert(u[e] == v[e]);
            assert(v[e] == rest[0]);
        } else {
            assert(u[e] == t[0]);
        }
    }
    lemma_close_same(s, w, c, j);
    let after = u.skip(e);
    assert forall|i: int| 0 <= i < b implies text::is_space(#[trigger] after[i]) by {
        assert(after[i] == rest[i]);
    }
    if b < after.len() {
        assert(after[b] == t[0]);
    }
    lemma_lead(after, b);
}

/// What is never closed in two texts is never closed in both, with another character between
/// them; and the other way round.
pub proof fn lemma_unclosed(a: Seq<char>, x: char, b: Seq<char>, c: char)
    requires
        x != c,
    ensures
        close_at(a.push(x) + b, c) is None <==> close_at(a, c) is None && close_at(b, c) is None,
    decreases a.len(),
{
    let s = a.push(x) + b;
    if a.len() == 0 {
        assert(s[0] == x);
        assert(s.skip(1) =~= b);
    } else {
        assert(s[0] == a[0]);
        if a[0] != c {
            assert(s.skip(1) =~= a.skip(1).push(x) + b);
            lemma_unclosed(a.skip(1), x, b, c);
        } else if c != '}' && a.len() >= 2 && a[1] == c {
            assert(s[1] == a[1]);
            assert(s.skip(2) =~= a.skip(2).push(x) + b);
            lemma_unclosed(a.skip(2), x, b, c);
        } else {
            assert(s[1] == if a.len() >= 2 {
                a[1]
            } else {
                x
            });
        }
    }
}

/// Whether a value that opens something closes it and goes on with other text before the next
/// `;`.
pub open spec fn garbled(v: Seq<char>) -> bool {
    begins(v) && close_of(v) is Some && value_end(v) is None
}

/// The value in a text that begins with a piece, up to the end of the text.
pub open spec fn value_on(s: Seq<char>) -> Seq<char> {
    s.skip(text::find(s, '=') + 1)
}

/// Whether a text begins with a piece that has a value.
pub open spec fn has_value(s: Seq<char>) -> bool {
    text::find(s, '=') < text::find(s, ';')
}

/// A piece ends where it does whatever follows, if the value is not garbled and what it leaves
/// open stays so.
pub proof fn lemma_piece_same(s: Seq<char>, t: Seq<char>)
    requires
        follows(t),
        has_value(s) && begins(value_on(s)) && value_end(value_on(s)) is None ==> {
            let v = value_on(s);
            let l = text::lead(v);
            let c = closer(v[l])->Some_0;
            let tail = s.take(piece_end(s)).skip(text::find(s, '=') + l + 2);
            close_at(tail + t, c) is None
        },
    ensures
        piece_end(s.take(piece_end(s)) + t) == piece_end(s),
{
    let i = piece_end(s);
    lemma_piece_end(s);
    let e = text::find(s, '=');
    let semi = text::find(s, ';');
    text::lemma_find_first(s, '=');
    text::lemma_find_first(s, ';');
    let p = s.take(i);
    let u = p + t;
    assert forall|k: int| 0 <= k < i implies u[k] == s[k] by {}
    if e < semi {
        text::lemma_find(u, '=', e);
        let v = s.skip(e + 1);
        let w = u.skip(e + 1);
        // The first `;` of the new text stands behind the `=`.
        text::lemma_find_first(u, ';');
        if text::find(u, ';') <= e {
            assert(u[text::find(u, ';')] == s[text::find(u, ';')]);
        }
        match value_end(v) {
            Some(n) => {
                assert(w =~= v.take(n) + t);
                lemma_value_same(v, n, t);
            },
            None => {
                assert(i == semi);
                assert forall|k: int| 0 <= k < i implies u[k] != ';' by {
                    assert(u[k] == s[k]);
                }
                text::lemma_find(u, ';', i);
                let m = i - (e + 1);
                assert(w =~= v.take(m) + t);
                let l = text::lead(v);
                text::lemma_trim_start(v);
                if l < m {
                    assert forall|k: int| 0 <= k < l implies text::is_space(#[trigger] w[k]) by {
                        assert(w[k] == v[k]);
                    }
                    assert(w[l] == v[l]);
                    lemma_lead(w, l);
                    if begins(v) {
                        let tail = p.skip(e + l + 2);
                        assert(w.skip(l + 1) =~= tail + t);
                    }
                } else {
                    // Nothing but white space before the `;`.
                    assert forall|k: int| 0 <= k < m implies text::is_space(#[trigger] w[k]) by {
                        assert(w[k] == v[k]);
                    }
                    if t.len() > 0 {
                        assert(w[m] == ';');
                    }
                    lemma_lead(w, m);
                    if m < v.len() {
                        assert(v[m] == ';');
                    }
                }
            },
        }
    } else {
        assert forall|k: int| 0 <= k < i implies u[k] != ';' && u[k] != '=' by {
            assert(u[k] == s[k]);
        }
        text::lemma_find(u, ';', i);
        text::lemma_find_first(u, '=');
        if text::find(u, '=') < i {
            assert(u[text::find(u, '=')] != '=');
        }
    }
}

/// The piece of a name and a value that does not begin with a quote or a brace ends with the
/// value.
pub proof fn lemma_plain_piece(k: Seq<char>, v: Seq<char>, t: Seq<char>)
    requires
        !k.contains('='),
        !k.contains(';'),
        !v.contains(';'),
        !begins(v),
        follows(t),
    ensures
        piece_end(k.push('=') + v + t) == k.len() + 1 + v.len(),
{
    let s = k.push('=') + v;
    let e = k.len() as int;
    assert forall|j: int| 0 <= j < e implies s[j] != '=' && s[j] != ';' by {
        assert(k.contains(k[j]));
    }
    assert forall|j: int| e < j < s.len() implies s[j] != ';' by {
        assert(v.contains(v[j - e - 1]));
    }
    text::lemma_find(s, '=', e);
    text::lemma_find(s, ';', s.len() as int);
    assert(s.skip(e + 1) =~= v);
    assert(s.take(s.len() as int) =~= s);
    lemma_piece_same(s, t);
}

/// The piece of a name and a quoted value ends with the value.
pub proof fn lemma_quoted_piece(k: Seq<char>, v: Seq<char>, t: Seq<char>)
    requires
        !k.contains('='),
        !k.contains(';'),
        value_end(v) == Some(v.len() as int),
        follows(t),
    ensures
        piece_end(k.push('=') + v + t) == k.len() + 1 + v.len(),
{
    let s = k.push('=') + v;
    let e = k.len() as int;
    assert forall|j: int| 0 <= j < e implies s[j] != '=' && s[j] != ';' by {
        assert(k.contains(k[j]));
    }
    text::lemma_find(s, '=', e);
    text::lemma_find_first(s, ';');
    if text::find(s, ';') < e {
        assert(s[text::find(s, ';')] != ';');
    }
    assert(s.skip(e + 1) =~= v);
    assert(s.take(s.len() as int) =~= s);
    lemma_piece_same(s, t);
}

// ---------------------------------------------------------------------------
// Segments
// ---------------------------------------------------------------------------

/// Whether a segment has a value that begins with a quote or a brace.
pub open spec fn opens(segment: Seq<char>) -> bool {
    match text::split_once(segment, '=') {
        Some(kv) => begins(kv.1),
        None => false,
    }
}

/// The segments of a text from the first to the rest.
proof fn lemma_segments(s: Seq<char>)
    ensures
        ({
            let i = text::find(s, ';');
            if i < s.len() {
                text::split(s, ';') == seq![s.take(i)] + text::split(s.skip(i + 1), ';')
            } else {
                text::split(s, ';') == seq![s]
            }
        }),
{
    let i = text::find(s, ';');
    text::lemma_find_first(s, ';');
    let p = text::is_char(';');
    if i < s.len() {
        let a = s.take(i);
        text::lemma_split_concat(a, ';', s.skip(i + 1), p);
        assert(a.push(';') + s.skip(i + 1) =~= s);
        assert forall|j: int| 0 <= j < a.len() implies !p(#[trigger] a[j]) by {
            assert(a[j] == s[j]);
        }
        text::lemma_split_whole(a, p);
    } else {
        text::lemma_split_whole(s, p);
    }
}

/// The first segment of a text opens a quoted value if and only if its first piece does.
proof fn lemma_first_segment(s: Seq<char>)
    ensures
        opens(s.take(text::find(s, ';'))) <==> has_value(s) && begins(value_on(s)),
{
    let i = text::find(s, ';');
    text::lemma_find_first(s, ';');
    text::lemma_find_first(s, '=');
    let a = s.take(i);
    text::lemma_find_first(a, '=');
    let e = text::find(s, '=');
    if e < i {
        text::lemma_find(a, '=', e);
        let v = s.skip(e + 1);
        let w = a.skip(e + 1);
        let m = i - (e + 1);
        assert(w =~= v.take(m));
        let l = text::lead(v);
        text::lemma_trim_start(v);
        if l < m {
            assert forall|k: int| 0 <= k < l implies text::is_space(#[trigger] w[k]) by {
                assert(w[k] == v[k]);
            }
            assert(w[l] == v[l]);
            lemma_lead(w, l);
        } else {
            assert forall|k: int| 0 <= k < m implies text::is_space(#[trigger] w[k]) by {
                assert(w[k] == v[k]);
            }
            lemma_lead(w, m);
            if m < v.len() {
                assert(v[m] == ';');
                assert(!text::is_space(v[m]));
                lemma_lead(v, m);
            }
        }
    } else {
        let f = text::find(a, '=');
        if f < a.len() {
            assert(s[f] == '=');
        }
    }
}

/// Where no segment has a value that begins with a quote or a brace, the pieces are the segments
/// between the `;`.
pub proof fn law_pieces_are_segments(s: Seq<char>)
    requires
        forall|i: int|
            0 <= i < text::split(s, ';').len() ==> !opens(#[trigger] text::split(s, ';')[i]),
    ensures
        pieces(s) == text::split(s, ';'),
    decreases s.len(),
{
    let i = text::find(s, ';');
    text::lemma_find_first(s, ';');
    lemma_segments(s);
    lemma_first_segment(s);
    let all = text::split(s, ';');
    assert(s.take(s.len() as int) =~= s);
    assert(all[0] == s.take(i));
    assert(!opens(all[0]));
    assert(piece_end(s) == i);
    if i < s.len() {
        let rest = s.skip(i + 1);
        let others = text::split(rest, ';');
        assert forall|j: int| 0 <= j < others.len() implies !opens(#[trigger] others[j]) by {
            assert(all[j + 1] == others[j]);
        }
        law_pieces_are_segments(rest);
    }
}

/// Whether a text is made of pieces with a `;` behind each, whose quoted values are closed.
pub open spec fn settled(s: Seq<char>) -> bool
    decreases s.len(),
{
    s.len() == 0 || {
        let i = piece_end(s);
        &&& 0 <= i < s.len()
        &&& has_value(s) && begins(value_on(s)) ==> value_end(value_on(s)) is Some
        &&& settled(s.skip(i + 1))
    }
}

/// A text that ends in a `;`, or is empty, and has no segment with a value that begins with a
/// quote or a brace, is made of closed pieces.
pub proof fn law_plain_text_is_settled(s: Seq<char>)
    requires
        s.len() > 0 ==> s.last() == ';',
        forall|i: int|
            0 <= i < text::split(s, ';').len() ==> !opens(#[trigger] text::split(s, ';')[i]),
    ensures
        settled(s),
    decreases s.len(),
{
    if s.len() > 0 {
        let i = text::find(s, ';');
        text::lemma_find_first(s, ';');
        assert(i < s.len()) by {
            if i == s.len() {
                assert(s[s.len() - 1] != ';');
            }
        }
        lemma_segments(s);
        lemma_first_segment(s);
        let all = text::split(s, ';');
        assert(all[0] == s.take(i));
        assert(!opens(all[0]));
        assert(piece_end(s) == i);
        let rest = s.skip(i + 1);
        let others = text::split(rest, ';');
        assert forall|j: int| 0 <= j < others.len() implies !opens(#[trigger] others[j]) by {
            assert(all[j + 1] == others[j]);
        }
        law_plain_text_is_settled(rest);
    }
}

/// Closed pieces stay the pieces they are in front of another text.
pub proof fn lemma_settled(p: Seq<char>, t: Seq<char>)
    requires
        settled(p),
    ensures
        pieces(p).len() >= 1,
        pieces(p + t) == pieces(p).drop_last() + pieces(t),
    decreases p.len(),
{
    if p.len() == 0 {
        assert(p + t =~= t);
        assert(piece_end(p) == 0);
        assert(pieces(p) =~= seq![p]);
        assert(pieces(p).drop_last() =~= Seq::empty());
        assert(Seq::empty() + pieces(t) =~= pieces(t));
    } else {
        let i = piece_end(p);
        lemma_piece_end(p);
        let rest = p.skip(i + 1);
        let behind = p.skip(i) + t;
        lemma_piece_same(p, behind);
        assert(p.take(i) + behind =~= p + t);
        assert((p + t).take(i) =~= p.take(i));
        assert((p + t).skip(i + 1) =~= rest + t);
        lemma_settled(rest, t);
        let first = seq![p.take(i)];
        assert((first + pieces(rest)).drop_last() =~= first + pieces(rest).drop_last());
        assert(first + (pieces(rest).drop_last() + pieces(t)) =~= first + pieces(
            rest,
        ).drop_last() + pieces(t));
    }
}

// ---------------------------------------------------------------------------
// Writing values
// ---------------------------------------------------------------------------

/// Whether a value can stand in a connection string as it is: there is no `;` in it and it does
/// not begin with a quote or a brace, or it is a quoted value as it stands.
pub open spec fn stands(v: Seq<char>) -> bool {
    (!v.contains(';') && !begins(v)) || value_end(v) == Some(v.len() as int)
}

/// A text with every `q` doubled.
pub open spec fn doubled(s: Seq<char>, q: char) -> Seq<char>
    decreases s.len(),
{
    if s.len() == 0 {
        Seq::empty()
    } else if s[0] == q {
        seq![q, q] + doubled(s.skip(1), q)
    } else {
        seq![s[0]] + doubled(s.skip(1), q)
    }
}

/// A text in quotes: in those that do not occur in it, or else in double quotes, doubling those
/// that do.
pub open spec fn quoted(s: Seq<char>) -> Seq<char> {
    let q = if s.contains('"') && !s.contains('\'') {
        '\''
    } else {
        '"'
    };
    seq![q] + doubled(s, q) + seq![q]
}

/// A value as it is written into a connection string: as it is, or in quotes where it could not
/// stand as it is.
pub open spec fn written(v: Seq<char>) -> Seq<char> {
    if stands(v) {
        v
    } else {
        quoted(v)
    }
}

/// A text with every doubled `q` made single.
pub open spec fn halved(s: Seq<char>, q: char) -> Seq<char>
    decreases s.len(),
{
    if s.len() == 0 {
        Seq::empty()
    } else if s.len() >= 2 && s[0] == q && s[1] == q {
        seq![q] + halved(s.skip(2), q)
    } else {
        seq![s[0]] + halved(s.skip(1), q)
    }
}

/// The text that stands in quotes.
pub open spec fn unquoted(s: Seq<char>) -> Seq<char> {
    halved(s.subrange(1, s.len() - 1), s[0])
}

proof fn lemma_halved_doubled(s: Seq<char>, q: char)
    ensures
        halved(doubled(s, q), q) == s,
    decreases s.len(),
{
    if s.len() > 0 {
        let t = s.skip(1);
        lemma_halved_doubled(t, q);
        let d = doubled(s, q);
        if s[0] == q {
            assert(d.skip(2) =~= doubled(t, q));
        } else {
            assert(d[0] == s[0]);
            assert(d.skip(1) =~= doubled(t, q));
        }
        assert(s =~= seq![s[0]] + t);
    }
}

/// Doubled quotes close nothing; the quote behind them does.
proof fn lemma_close_doubled(s: Seq<char>, q: char)
    requires
        q != '}',
    ensures
        close_at(doubled(s, q).push(q), q) == Some(doubled(s, q).len() as int),
    decreases s.len(),
{
    let u = doubled(s, q).push(q);
    if s.len() == 0 {
        assert(u =~= seq![q]);
    } else {
        let t = s.skip(1);
        lemma_close_doubled(t, q);
        if s[0] == q {
            assert(u[0] == q && u[1] == q);
            assert(u.skip(2) =~= doubled(t, q).push(q));
        } else {
            assert(u[0] == s[0]);
            assert(u.skip(1) =~= doubled(t, q).push(q));
        }
    }
}

/// Every value can be written into a connection string: as it is written it can stand there, and
/// where it is put in quotes, what stands in the quotes is the value.
pub proof fn law_written_stands(v: Seq<char>)
    ensures
        stands(written(v)),
        stands(v) ==> written(v) == v,
        !stands(v) ==> unquoted(written(v)) == v,
{
    if !stands(v) {
        let u = quoted(v);
        let q = u[0];
        assert(u == seq![q] + doubled(v, q) + seq![q]);
        lemma_halved_doubled(v, q);
        assert(u.subrange(1, u.len() - 1) =~= doubled(v, q));
        lemma_lead(u, 0);
        assert(u.skip(1) =~= doubled(v, q).push(q));
        lemma_close_doubled(v, q);
        let rest = u.skip(u.len() as int);
        assert(rest =~= Seq::empty());
        lemma_lead(rest, 0);
        assert(value_end(u) == Some(u.len() as int));
    }
}

/// Whether a character occurs.
fn has_char(s: &Vec<char>, c: char) -> (r: bool)
    ensures
        r == s@.contains(c),
{
    for i in 0..s.len()
        invariant
            forall|j: int| 0 <= j < i ==> s@[j] != c,
    {
        if s[i] == c {
            assert(s@[i as int] == c);
            return true;
        }
    }
    false
}

/// Whether a value can stand in a connection string as it is.
fn can_stand(v: &Vec<char>) -> (r: bool)
    ensures
        r == stands(v@),
{
    assert(v@.skip(0) =~= v@);
    let n = v.len();
    let l = blanks(v, 0);
    if l < n && (v[l] == '"' || v[l] == '\'' || v[l] == '{') {
        match value_end_from(v, 0) {
            Some(e) => e == n,
            None => false,
        }
    } else {
        !has_char(v, ';')
    }
}

/// A text in `q`, with every `q` in it doubled.
fn in_quotes(s: &Vec<char>, q: char) -> (r: Vec<char>)
    ensures
        r@ == seq![q] + doubled(s@, q) + seq![q],
{
    let n = s.len();
    let mut out: Vec<char> = Vec::new();
    out.push(q);
    assert(s@.skip(0) =~= s@);
    let ghost all = seq![q] + doubled(s@, q);
    assert(out@ + doubled(s@, q) =~= all);
    for i in 0..n
        invariant
            n == s@.len(),
            out@ + doubled(s@.skip(i as int), q) == all,
    {
        let ghost t = s@.skip(i as int);
        let ghost before = out@;
        assert(t.skip(1) =~= s@.skip(i + 1));
        if s[i] == q {
            out.push(q);
        }
        out.push(s[i]);
        assert(out@ + doubled(s@.skip(i + 1), q) =~= before + doubled(t, q));
    }
    assert(doubled(s@.skip(n as int), q) =~= Seq::empty());
    out.push(q);
    out
}

/// A value as it is written into a connection string.
pub fn written_chars(v: &Vec<char>) -> (r: Vec<char>)
    ensures
        r@ == written(v@),
{
    if can_stand(v) {
        let r = text::slice_of(v, 0, v.len());
        assert(r@ =~= v@);
        r
    } else if has_char(v, '"') && !has_char(v, '\'') {
        in_quotes(v, '\'')
    } else {
        in_quotes(v, '"')
    }
}

} // verus!
