//! How the driver divides a connection string: there `'…'`, `"…"` and `{…}` are sections wherever they
//! stand, and a separator within one does not separate.
use vstd::prelude::*;

use crate::quoting;
use crate::text;

verus! {

/// How many characters at the start of a text go together: a section, or one character. What
/// opens a section and is never closed is a character like any other.
pub open spec fn unit(s: Seq<char>) -> int {
    match quoting::closer(s[0]) {
        Some(c) => if text::find(s.skip(1), c) < s.len() - 1 {
            text::find(s.skip(1), c) + 2
        } else {
            1
        },
        None => 1,
    }
}

/// A unit is a part of the text.
pub proof fn lemma_unit(s: Seq<char>)
    requires
        s.len() > 0,
    ensures
        1 <= unit(s) <= s.len(),
{
    match quoting::closer(s[0]) {
        Some(c) => text::lemma_find_first(s.skip(1), c),
        None => {},
    }
}

/// The position of the first `sep` outside sections, or the length of the text.
pub open spec fn free_find(s: Seq<char>, sep: char) -> int
    decreases s.len(),
{
    if s.len() == 0 || s[0] == sep {
        0
    } else {
        proof {
            lemma_unit(s);
        }
        unit(s) + free_find(s.skip(unit(s)), sep)
    }
}

/// What stands before and after the first `sep` outside sections, if there is one.
pub open spec fn split_free(s: Seq<char>, sep: char) -> Option<(Seq<char>, Seq<char>)> {
    let i = free_find(s, sep);
    if i < s.len() {
        Some((s.take(i), s.skip(i + 1)))
    } else {
        None
    }
}

/// The pieces of a text between the `;` outside sections.
pub open spec fn pieces(s: Seq<char>) -> Seq<Seq<char>>
    decreases s.len(),
{
    let i = free_find(s, ';');
    if 0 <= i < s.len() {
        seq![s.take(i)] + pieces(s.skip(i + 1))
    } else {
        seq![s]
    }
}

/// Whether every section that opens is closed.
pub open spec fn closed(s: Seq<char>) -> bool
    decreases s.len(),
{
    s.len() == 0 || ((quoting::closer(s[0]) matches Some(c) ==> text::find(s.skip(1), c) < s.len() - 1) && {
        proof {
            lemma_unit(s);
        }
        closed(s.skip(unit(s)))
    })
}

/// How many characters at position `i` go together.
fn unit_at(s: &Vec<char>, i: usize) -> (r: usize)
    requires
        i < s@.len(),
    ensures
        r == unit(s@.skip(i as int)),
        1 <= r <= s@.len() - i,
{
    let ghost t = s@.skip(i as int);
    proof {
        lemma_unit(t);
    }
    let c = s[i];
    let close: char = if c == '"' || c == '\'' {
        c
    } else if c == '{' {
        '}'
    } else {
        return 1;
    };
    let n = s.len();
    let mut j: usize = i + 1;
    while j < n && s[j] != close
        invariant
            i < j <= n,
            n == s@.len(),
            forall|k: int| i < k < j ==> s@[k] != close,
        decreases n - j,
    {
        j = j + 1;
    }
    proof {
        assert forall|k: int| 0 <= k < j - i - 1 implies t.skip(1)[k] != close by {
            assert(t.skip(1)[k] == s@[i + 1 + k]);
        }
        text::lemma_find(t.skip(1), close, j - i - 1);
    }
    if j < n {
        j - i + 1
    } else {
        1
    }
}

/// The position of the first `sep` outside sections from position `from` on.
fn find_free(s: &Vec<char>, from: usize, sep: char) -> (r: usize)
    requires
        from <= s@.len(),
    ensures
        r == from + free_find(s@.skip(from as int), sep),
        from <= r <= s@.len(),
{
    let n = s.len();
    let mut i: usize = from;
    while i < n && s[i] != sep
        invariant
            from <= i <= n,
            n == s@.len(),
            from + free_find(s@.skip(from as int), sep) == i + free_find(s@.skip(i as int), sep),
        decreases n - i,
    {
        let u = unit_at(s, i);
        assert(s@.skip(i as int).skip(u as int) =~= s@.skip(i + u));
        i = i + u;
    }
    i
}

/// What stands before and after the first `sep` outside sections, if there is one.
pub fn split_free_chars(s: &Vec<char>, sep: char) -> (r: Option<(Vec<char>, Vec<char>)>)
    ensures
        match r {
            Some(kv) => split_free(s@, sep) == Some((kv.0@, kv.1@)),
            None => split_free(s@, sep) is None,
        },
{
    assert(s@.skip(0) =~= s@);
    let n = s.len();
    let i = find_free(s, 0, sep);
    if i < n {
        let k = text::slice_of(s, 0, i);
        let v = text::slice_of(s, i + 1, n);
        assert(k@ =~= s@.take(i as int));
        assert(v@ =~= s@.skip(i + 1));
        Some((k, v))
    } else {
        None
    }
}

/// The pieces of a text between the `;` outside sections.
pub fn pieces_chars(s: &Vec<char>) -> (r: Vec<Vec<char>>)
    ensures
        text::texts(r@) == pieces(s@),
{
    let n = s.len();
    let mut out: Vec<Vec<char>> = Vec::new();
    let mut from: usize = 0;
    assert(s@.skip(0) =~= s@);
    assert(text::texts(out@) + pieces(s@) =~= pieces(s@));
    loop
        invariant
            n == s@.len(),
            from <= n,
            text::texts(out@) + pieces(s@.skip(from as int)) == pieces(s@),
        decreases n - from,
    {
        let ghost rest = s@.skip(from as int);
        let ghost done = text::texts(out@);
        let i = find_free(s, from, ';');
        let piece = text::slice_of(s, from, i);
        let ghost p = piece@;
        assert(p =~= rest.take(i - from));
        out.push(piece);
        assert(text::texts(out@) =~= done.push(p));
        if i < n {
            assert(rest.skip(i - from + 1) =~= s@.skip(i + 1));
            assert(done + (seq![p] + pieces(s@.skip(i + 1))) =~= done.push(p) + pieces(
                s@.skip(i + 1),
            ));
            from = i + 1;
        } else {
            assert(p =~= rest);
            assert(done + seq![p] =~= done.push(p));
            return out;
        }
    }
}

/// Whether every section that opens is closed.
pub fn is_closed(s: &Vec<char>) -> (r: bool)
    ensures
        r == closed(s@),
{
    let n = s.len();
    let mut i: usize = 0;
    assert(s@.skip(0) =~= s@);
    while i < n
        invariant
            i <= n,
            n == s@.len(),
            closed(s@) == closed(s@.skip(i as int)),
        decreases n - i,
    {
        let ghost t = s@.skip(i as int);
        let c = s[i];
        let u = unit_at(s, i);
        proof {
            match quoting::closer(c) {
                Some(close) => text::lemma_find_first(t.skip(1), close),
                None => {},
            }
        }
        if u == 1 && (c == '"' || c == '\'' || c == '{') {
            return false;
        }
        assert(t.skip(u as int) =~= s@.skip(i + u));
        i = i + u;
    }
    assert(s@.skip(i as int) =~= Seq::empty());
    true
}

/// Whether a character is no part of a name or a value but marks where a section begins or
/// ends, or where a line ends.
pub open spec fn is_mark(c: char) -> bool {
    c == '"' || c == '\'' || c == '{' || c == '}' || c == '\n'
}

/// A text without marks.
pub open spec fn bare(s: Seq<char>) -> Seq<char>
    decreases s.len(),
{
    if s.len() == 0 {
        Seq::empty()
    } else if is_mark(s.last()) {
        bare(s.drop_last())
    } else {
        bare(s.drop_last()).push(s.last())
    }
}

/// A text without marks.
pub fn bare_chars(s: &Vec<char>) -> (r: Vec<char>)
    ensures
        r@ == bare(s@),
{
    let mut out: Vec<char> = Vec::new();
    assert(s@.take(0) =~= Seq::empty());
    for i in 0..s.len()
        invariant
            out@ == bare(s@.take(i as int)),
    {
        assert(s@.take(i + 1).drop_last() =~= s@.take(i as int));
        let c = s[i];
        if !(c == '"' || c == '\'' || c == '{' || c == '}' || c == '\n') {
            out.push(c);
        }
    }
    assert(s@.take(s@.len() as int) =~= s@);
    out
}

} // verus!
