//! Text as sequences of characters: trimming, splitting, joining, line breaking, ordering.
//!
//! Each operation is a spec function on `Seq<char>` and an executable function on
//! `Vec<char>` that computes it.
use vstd::prelude::*;

verus! {

// ---------------------------------------------------------------------------
// Characters and strings of std
// ---------------------------------------------------------------------------

/// Whether `c` has the Unicode property `White_Space`.
pub open spec fn is_space(c: char) -> bool {
    ||| '\u{9}' <= c <= '\u{d}'
    ||| c == ' '
    ||| c == '\u{85}'
    ||| c == '\u{a0}'
    ||| c == '\u{1680}'
    ||| '\u{2000}' <= c <= '\u{200a}'
    ||| c == '\u{2028}'
    ||| c == '\u{2029}'
    ||| c == '\u{202f}'
    ||| c == '\u{205f}'
    ||| c == '\u{3000}'
}

/// `char::is_whitespace` of std: true of exactly the characters with the Unicode property
/// `White_Space`, which are listed in [`is_space`].
pub assume_specification[ char::is_whitespace ](c: char) -> (r: bool)
    ensures
        r == is_space(c),
;

/// `String::push` of std: appends one character.
pub assume_specification[ String::push ](s: &mut String, c: char)
    ensures
        final(s)@ == old(s)@.push(c),
;

/// The lower-case form of a text that is not all ASCII, as `str::to_lowercase` of std gives it.
pub uninterp spec fn unicode_lowercase(s: Seq<char>) -> Seq<char>;

/// The lower-case form of an ASCII letter; every other character is itself.
pub open spec fn ascii_lower(c: char) -> char {
    if 'A' <= c <= 'Z' {
        (c as u32 + 32) as char
    } else {
        c
    }
}

/// Whether every character is ASCII.
pub open spec fn all_ascii(s: Seq<char>) -> bool {
    forall|i: int| 0 <= i < s.len() ==> #[trigger] s[i] < '\u{80}'
}

/// The lower-case form of a text.
pub open spec fn lowercase(s: Seq<char>) -> Seq<char> {
    if all_ascii(s) {
        s.map_values(|c: char| ascii_lower(c))
    } else {
        unicode_lowercase(s)
    }
}

/// `str::to_lowercase` of std. On an ASCII text each of the letters `A` to `Z` becomes its
/// lower-case counterpart and nothing else changes. On any other text the result is Unicode's
/// case mapping, a function of the text alone, and is left to the name.
pub assume_specification[ str::to_lowercase ](s: &str) -> (r: String)
    ensures
        r@ == (if all_ascii(s@) {
            s@.map_values(|c: char| ascii_lower(c))
        } else {
            unicode_lowercase(s@)
        }),
;

/// The characters of `s`.
pub fn chars_of(s: &str) -> (r: Vec<char>)
    ensures
        r@ == s@,
{
    let mut out: Vec<char> = Vec::new();
    for c in it: s.chars()
        invariant
            out@ == s@.take(it.index()),
            it.seq() == s@,
    {
        out.push(c);
    }
    out
}

/// The string with the characters `s`.
pub fn string_of(s: &Vec<char>) -> (r: String)
    ensures
        r@ == s@,
{
    let mut out = String::new();
    for i in 0..s.len()
        invariant
            out@ == s@.take(i as int),
    {
        out.push(s[i]);
    }
    out
}

/// Whether two texts are the same.
pub fn same_text(a: &str, b: &str) -> (r: bool)
    ensures
        r == (a@ == b@),
{
    a.to_string() == b.to_string()
}

/// The characters of `s` from position `from` up to position `to`.
pub fn slice_of(s: &Vec<char>, from: usize, to: usize) -> (r: Vec<char>)
    requires
        from <= to <= s@.len(),
    ensures
        r@ == s@.subrange(from as int, to as int),
{
    let mut out: Vec<char> = Vec::new();
    for i in from..to
        invariant
            from <= to <= s@.len(),
            out@ == s@.subrange(from as int, i as int),
    {
        out.push(s[i]);
    }
    out
}

/// Appends the characters of `s` to `out`.
pub fn append(out: &mut Vec<char>, s: &Vec<char>)
    ensures
        final(out)@ == old(out)@ + s@,
{
    let ghost before = out@;
    for i in 0..s.len()
        invariant
            out@ == before + s@.take(i as int),
    {
        out.push(s[i]);
    }
}

/// The two texts one after the other.
pub fn concat(a: &str, b: &str) -> (r: String)
    ensures
        r@ == a@ + b@,
{
    let mut out = chars_of(a);
    append(&mut out, &chars_of(b));
    string_of(&out)
}

// ---------------------------------------------------------------------------
// Trimming
// ---------------------------------------------------------------------------

/// `s` without the white space it begins with.
pub open spec fn trim_start(s: Seq<char>) -> Seq<char>
    decreases s.len(),
{
    if s.len() > 0 && is_space(s[0]) {
        trim_start(s.skip(1))
    } else {
        s
    }
}

/// `s` without the white space it ends with.
pub open spec fn trim_end(s: Seq<char>) -> Seq<char>
    decreases s.len(),
{
    if s.len() > 0 && is_space(s.last()) {
        trim_end(s.drop_last())
    } else {
        s
    }
}

/// `s` without the white space at its two ends.
pub open spec fn trim(s: Seq<char>) -> Seq<char> {
    trim_end(trim_start(s))
}

/// The text without the white space at its two ends.
pub fn trim_chars(s: &Vec<char>) -> (r: Vec<char>)
    ensures
        r@ == trim(s@),
{
    let mut from: usize = 0;
    assert(s@.skip(0) =~= s@);
    while from < s.len() && s[from].is_whitespace()
        invariant
            from <= s@.len(),
            trim_start(s@) == trim_start(s@.skip(from as int)),
        decreases s@.len() - from,
    {
        assert(s@.skip(from as int).skip(1) =~= s@.skip(from + 1));
        from = from + 1;
    }
    let ghost started = s@.skip(from as int);
    assert(trim_start(s@) == started);
    let mut to: usize = s.len();
    assert(s@.subrange(from as int, to as int) =~= started);
    while from < to && s[to - 1].is_whitespace()
        invariant
            from <= to <= s@.len(),
            trim_end(started) == trim_end(s@.subrange(from as int, to as int)),
        decreases to,
    {
        assert(s@.subrange(from as int, to as int).drop_last() =~= s@.subrange(
            from as int,
            to - 1,
        ));
        to = to - 1;
    }
    slice_of(s, from, to)
}

// ---------------------------------------------------------------------------
// Splitting and joining
// ---------------------------------------------------------------------------

/// The pieces of `s` between the elements that satisfy `p`: one piece more than there are
/// such elements.
pub open spec fn split_by<T>(s: Seq<T>, p: spec_fn(T) -> bool) -> Seq<Seq<T>>
    decreases s.len(),
{
    if s.len() == 0 {
        seq![Seq::empty()]
    } else {
        let before = split_by(s.drop_last(), p);
        if p(s.last()) {
            before.push(Seq::empty())
        } else {
            before.drop_last().push(before.last().push(s.last()))
        }
    }
}

/// The predicate "is the character `sep`".
pub open spec fn is_char(sep: char) -> spec_fn(char) -> bool {
    |c: char| c == sep
}

/// The pieces of `s` between the occurrences of `sep`.
pub open spec fn split(s: Seq<char>, sep: char) -> Seq<Seq<char>> {
    split_by(s, is_char(sep))
}

/// The pieces one after the other, with `sep` between neighbours.
pub open spec fn join(parts: Seq<Seq<char>>, sep: char) -> Seq<char>
    decreases parts.len(),
{
    if parts.len() == 0 {
        Seq::empty()
    } else if parts.len() == 1 {
        parts[0]
    } else {
        join(parts.drop_last(), sep).push(sep) + parts.last()
    }
}

/// What a list of texts holds.
pub open spec fn texts(v: Seq<Vec<char>>) -> Seq<Seq<char>> {
    v.map_values(|t: Vec<char>| t@)
}

/// The pieces of `s` between the occurrences of `sep`.
pub fn split_chars(s: &Vec<char>, sep: char) -> (r: Vec<Vec<char>>)
    ensures
        texts(r@) == split(s@, sep),
{
    let mut out: Vec<Vec<char>> = Vec::new();
    let mut piece: Vec<char> = Vec::new();
    assert(s@.take(0) =~= Seq::empty());
    assert(texts(out@).push(piece@) =~= split(s@.take(0), sep));
    for i in 0..s.len()
        invariant
            texts(out@).push(piece@) == split(s@.take(i as int), sep),
    {
        let ghost done = texts(out@);
        let ghost last = piece@;
        assert(s@.take(i + 1).drop_last() =~= s@.take(i as int));
        assert(done.push(last).drop_last() =~= done);
        let c = s[i];
        if c == sep {
            out.push(piece);
            piece = Vec::new();
            assert(texts(out@) =~= done.push(last));
        } else {
            piece.push(c);
        }
    }
    assert(s@.take(s@.len() as int) =~= s@);
    let ghost done = texts(out@);
    let ghost last = piece@;
    out.push(piece);
    assert(texts(out@) =~= done.push(last));
    out
}

/// The pieces one after the other, with `sep` between neighbours.
pub fn join_chars(parts: &Vec<Vec<char>>, sep: char) -> (r: Vec<char>)
    ensures
        r@ == join(texts(parts@), sep),
{
    let mut out: Vec<char> = Vec::new();
    for i in 0..parts.len()
        invariant
            out@ == join(texts(parts@).take(i as int), sep),
    {
        assert(texts(parts@).take(i + 1).drop_last() =~= texts(parts@).take(i as int));
        if i > 0 {
            out.push(sep);
        }
        append(&mut out, &parts[i]);
        assert(out@ =~= join(texts(parts@).take(i + 1), sep));
    }
    assert(texts(parts@).take(parts@.len() as int) =~= texts(parts@));
    out
}

/// The position of the first `c` in `s`, or the length of `s` if there is none.
pub open spec fn find(s: Seq<char>, c: char) -> int
    decreases s.len(),
{
    if s.len() == 0 || s[0] == c {
        0
    } else {
        1 + find(s.skip(1), c)
    }
}

/// What stands before and after the first `sep` of `s`, if there is one.
pub open spec fn split_once(s: Seq<char>, sep: char) -> Option<(Seq<char>, Seq<char>)> {
    let i = find(s, sep);
    if i < s.len() {
        Some((s.take(i), s.skip(i + 1)))
    } else {
        None
    }
}

/// `find` gives the first position, and only that.
pub proof fn lemma_find(s: Seq<char>, c: char, i: int)
    requires
        0 <= i <= s.len(),
        i < s.len() ==> s[i] == c,
        forall|j: int| 0 <= j < i ==> s[j] != c,
    ensures
        find(s, c) == i,
    decreases s.len(),
{
    if i > 0 {
        assert forall|j: int| 0 <= j < i - 1 implies s.skip(1)[j] != c by {
            assert(s.skip(1)[j] == s[j + 1]);
        }
        lemma_find(s.skip(1), c, i - 1);
    }
}

/// Before the position that `find` gives there is no `c`, and at it there is.
pub proof fn lemma_find_first(s: Seq<char>, c: char)
    ensures
        0 <= find(s, c) <= s.len(),
        find(s, c) < s.len() ==> s[find(s, c)] == c,
        forall|j: int| 0 <= j < find(s, c) ==> #[trigger] s[j] != c,
    decreases s.len(),
{
    if s.len() > 0 && s[0] != c {
        lemma_find_first(s.skip(1), c);
        assert forall|j: int| 0 <= j < find(s, c) implies #[trigger] s[j] != c by {
            if j > 0 {
                assert(s[j] == s.skip(1)[j - 1]);
            }
        }
    }
}

/// What stands before and after the first `sep` of `s`, if there is one.
pub fn split_once_chars(s: &Vec<char>, sep: char) -> (r: Option<(Vec<char>, Vec<char>)>)
    ensures
        match r {
            Some(kv) => split_once(s@, sep) == Some((kv.0@, kv.1@)),
            None => split_once(s@, sep) is None,
        },
{
    let mut i: usize = 0;
    while i < s.len() && s[i] != sep
        invariant
            i <= s@.len(),
            forall|j: int| 0 <= j < i ==> s@[j] != sep,
        decreases s@.len() - i,
    {
        i = i + 1;
    }
    proof {
        lemma_find(s@, sep, i as int);
    }
    if i < s.len() {
        let before = slice_of(s, 0, i);
        let after = slice_of(s, i + 1, s.len());
        assert(before@ =~= s@.take(i as int));
        assert(after@ =~= s@.skip(i + 1));
        Some((before, after))
    } else {
        None
    }
}

// ---------------------------------------------------------------------------
// Lines
// ---------------------------------------------------------------------------

/// `s` without the carriage return it ends with, if it does.
pub open spec fn strip_cr(s: Seq<char>) -> Seq<char> {
    if s.len() > 0 && s.last() == '\r' {
        s.drop_last()
    } else {
        s
    }
}

/// The lines of `s`. A line ends with `\n` or `\r\n`; the end of the last line is optional,
/// and a `\r` that no `\n` follows belongs to its line.
pub open spec fn lines(s: Seq<char>) -> Seq<Seq<char>> {
    let pieces = split(s, '\n');
    let ended = pieces.drop_last().map_values(|l: Seq<char>| strip_cr(l));
    if pieces.last().len() == 0 {
        ended
    } else {
        ended.push(pieces.last())
    }
}

/// The lines of the text.
pub fn lines_of(s: &Vec<char>) -> (r: Vec<Vec<char>>)
    ensures
        texts(r@) == lines(s@),
{
    let mut pieces = split_chars(s, '\n');
    let ghost all = texts(pieces@);
    proof {
        lemma_split_len(s@, is_char('\n'));
    }
    let last = pieces.pop();
    let mut out: Vec<Vec<char>> = Vec::new();
    assert(texts(pieces@) =~= all.drop_last());
    for i in 0..pieces.len()
        invariant
            texts(pieces@) == all.drop_last(),
            texts(out@) == all.drop_last().take(i as int).map_values(
                |l: Seq<char>| strip_cr(l),
            ),
    {
        let ghost done = texts(out@);
        let line = &pieces[i];
        assert(line@ == texts(pieces@)[i as int]);
        let len = line.len();
        let kept: Vec<char> = if len > 0 && line[len - 1] == '\r' {
            slice_of(line, 0, len - 1)
        } else {
            slice_of(line, 0, len)
        };
        assert(kept@ =~= strip_cr(line@));
        let ghost line_kept = kept@;
        out.push(kept);
        assert(texts(out@) =~= done.push(line_kept));
        assert(done.push(line_kept) =~= all.drop_last().take(i + 1).map_values(
            |l: Seq<char>| strip_cr(l),
        ));
    }
    assert(all.drop_last().take(pieces@.len() as int) =~= all.drop_last());
    if let Some(last) = last {
        assert(last@ == all.last());
        if last.len() > 0 {
            let ghost done = texts(out@);
            out.push(last);
            assert(texts(out@) =~= done.push(all.last()));
        }
    }
    out
}

// ---------------------------------------------------------------------------
// Order
// ---------------------------------------------------------------------------

/// Whether `a` comes before `b` in the order of strings: by the first character in which
/// they differ, a proper prefix first.
pub open spec fn text_lt(a: Seq<char>, b: Seq<char>) -> bool
    decreases a.len(),
{
    if b.len() == 0 {
        false
    } else if a.len() == 0 {
        true
    } else if a[0] == b[0] {
        text_lt(a.skip(1), b.skip(1))
    } else {
        a[0] < b[0]
    }
}

/// No text comes before itself.
pub proof fn lemma_text_lt_irreflexive(a: Seq<char>)
    ensures
        !text_lt(a, a),
    decreases a.len(),
{
    if a.len() > 0 {
        lemma_text_lt_irreflexive(a.skip(1));
    }
}

/// The order of strings is transitive.
pub proof fn lemma_text_lt_transitive(a: Seq<char>, b: Seq<char>, c: Seq<char>)
    requires
        text_lt(a, b),
        text_lt(b, c),
    ensures
        text_lt(a, c),
    decreases a.len(),
{
    if a.len() > 0 && a[0] == b[0] && b[0] == c[0] {
        lemma_text_lt_transitive(a.skip(1), b.skip(1), c.skip(1));
    }
}

// ---------------------------------------------------------------------------
// Facts on splitting and joining
// ---------------------------------------------------------------------------

/// There is at least one piece.
pub proof fn lemma_split_len<T>(s: Seq<T>, p: spec_fn(T) -> bool)
    ensures
        split_by(s, p).len() >= 1,
    decreases s.len(),
{
    if s.len() > 0 {
        lemma_split_len(s.drop_last(), p);
    }
}

/// No piece holds an element that satisfies the predicate.
pub proof fn lemma_split_pieces<T>(s: Seq<T>, p: spec_fn(T) -> bool)
    ensures
        forall|i: int, j: int|
            0 <= i < split_by(s, p).len() && 0 <= j < split_by(s, p)[i].len() ==> !p(
                #[trigger] split_by(s, p)[i][j],
            ),
    decreases s.len(),
{
    if s.len() > 0 {
        lemma_split_len(s.drop_last(), p);
        lemma_split_pieces(s.drop_last(), p);
        let before = split_by(s.drop_last(), p);
        let after = split_by(s, p);
        assert forall|i: int, j: int| 0 <= i < after.len() && 0 <= j < after[i].len() implies !p(
            #[trigger] after[i][j],
        ) by {
            if i < before.len() - 1 {
                assert(after[i] == before[i]);
            } else if p(s.last()) {
                if i == before.len() - 1 {
                    assert(after[i] == before[i]);
                }
            } else if j < before.last().len() {
                assert(after[i][j] == before[i][j]);
            }
        }
    }
}

/// Text without a separator goes into the last piece.
pub proof fn lemma_split_append<T>(a: Seq<T>, b: Seq<T>, p: spec_fn(T) -> bool)
    requires
        forall|j: int| 0 <= j < b.len() ==> !p(#[trigger] b[j]),
    ensures
        split_by(a + b, p) == split_by(a, p).drop_last().push(split_by(a, p).last() + b),
    decreases b.len(),
{
    lemma_split_len(a, p);
    if b.len() == 0 {
        assert(a + b =~= a);
        assert(split_by(a, p).last() + b =~= split_by(a, p).last());
        assert(split_by(a, p).drop_last().push(split_by(a, p).last()) =~= split_by(a, p));
    } else {
        let pieces = split_by(a, p);
        lemma_split_append(a, b.drop_last(), p);
        assert((a + b).drop_last() =~= a + b.drop_last());
        assert(!p(b[b.len() - 1]));
        let before = split_by(a + b.drop_last(), p);
        assert(before.drop_last() =~= pieces.drop_last());
        assert(before.last().push(b.last()) =~= pieces.last() + b);
    }
}

/// A separator ends the last piece and opens an empty one.
pub proof fn lemma_split_push<T>(a: Seq<T>, x: T, p: spec_fn(T) -> bool)
    requires
        p(x),
    ensures
        split_by(a.push(x), p) == split_by(a, p).push(Seq::empty()),
{
    assert(a.push(x).drop_last() =~= a);
}

/// A text with a separator in it: the pieces before it, then the pieces behind it.
pub proof fn lemma_split_concat<T>(a: Seq<T>, x: T, b: Seq<T>, p: spec_fn(T) -> bool)
    requires
        p(x),
    ensures
        split_by(a.push(x) + b, p) == split_by(a, p) + split_by(b, p),
    decreases b.len(),
{
    let before = split_by(a, p);
    if b.len() == 0 {
        assert(a.push(x) + b =~= a.push(x));
        lemma_split_push(a, x, p);
        assert(before.push(Seq::empty()) =~= before + split_by(b, p));
    } else {
        let front = b.drop_last();
        lemma_split_concat(a, x, front, p);
        lemma_split_len(front, p);
        assert((a.push(x) + b).drop_last() =~= a.push(x) + front);
        assert((a.push(x) + b).last() == b.last());
        let pieces = before + split_by(front, p);
        assert(pieces.last() == split_by(front, p).last());
        assert(pieces.drop_last() =~= before + split_by(front, p).drop_last());
        assert(split_by(a.push(x) + b, p) =~= before + split_by(b, p));
    }
}

/// An element before the text that is no separator goes into the first piece.
pub proof fn lemma_split_front<T>(x: T, s: Seq<T>, p: spec_fn(T) -> bool)
    requires
        !p(x),
    ensures
        split_by(seq![x] + s, p) == split_by(s, p).update(0, seq![x] + split_by(s, p)[0]),
    decreases s.len(),
{
    let t = seq![x] + s;
    lemma_split_len(s, p);
    if s.len() == 0 {
        assert(t =~= seq![x]);
        assert(t.drop_last() =~= Seq::empty());
        assert(split_by(t.drop_last(), p) == seq![Seq::<T>::empty()]);
        assert(Seq::<T>::empty().push(x) =~= seq![x] + Seq::<T>::empty());
        assert(split_by(t, p) =~= split_by(s, p).update(0, seq![x] + split_by(s, p)[0]));
    } else {
        let u = s.drop_last();
        lemma_split_front(x, u, p);
        lemma_split_len(u, p);
        assert(t.drop_last() =~= seq![x] + u);
        assert(t.last() == s.last());
        let before = split_by(u, p);
        let fronted = before.update(0, seq![x] + before[0]);
        if !p(s.last()) && before.len() == 1 {
            assert((seq![x] + before[0]).push(s.last()) =~= seq![x] + before[0].push(s.last()));
        }
        assert(split_by(t, p) =~= split_by(s, p).update(0, seq![x] + split_by(s, p)[0]));
    }
}

/// Joining the pieces gives the text back.
pub proof fn lemma_join_split(s: Seq<char>, sep: char)
    ensures
        join(split(s, sep), sep) == s,
    decreases s.len(),
{
    if s.len() == 0 {
        assert(split(s, sep)[0] =~= s);
    } else {
        let p = is_char(sep);
        let t = s.drop_last();
        let before = split(t, sep);
        lemma_join_split(t, sep);
        lemma_split_len(t, p);
        assert(s =~= t.push(s.last()));
        if s.last() == sep {
            let after = before.push(Seq::empty());
            assert(after.drop_last() =~= before);
            assert(join(after, sep) =~= s);
        } else {
            let after = before.drop_last().push(before.last().push(s.last()));
            assert(after.drop_last() =~= before.drop_last());
            assert(join(after, sep) =~= join(before, sep).push(s.last()));
        }
    }
}

/// Splitting a joined list of pieces, none of which holds the separator, gives the list back.
pub proof fn lemma_split_join(parts: Seq<Seq<char>>, sep: char)
    requires
        parts.len() >= 1,
        forall|i: int| 0 <= i < parts.len() ==> !(#[trigger] parts[i]).contains(sep),
    ensures
        split(join(parts, sep), sep) == parts,
    decreases parts.len(),
{
    let p = is_char(sep);
    let last = parts.last();
    assert(!parts[parts.len() - 1].contains(sep));
    assert forall|j: int| 0 <= j < last.len() implies !p(#[trigger] last[j]) by {
        assert(last.contains(last[j]));
    }
    if parts.len() == 1 {
        let none = Seq::<char>::empty();
        lemma_split_append(none, last, p);
        assert(none + last =~= last);
        assert(split(join(parts, sep), sep) =~= parts);
    } else {
        let front = parts.drop_last();
        assert forall|i: int| 0 <= i < front.len() implies !(#[trigger] front[i]).contains(
            sep,
        ) by {
            assert(front[i] == parts[i]);
        }
        lemma_split_join(front, sep);
        let a = join(front, sep).push(sep);
        lemma_split_push(join(front, sep), sep, p);
        lemma_split_append(a, last, p);
        assert(split(a, sep).drop_last() =~= front);
        assert(Seq::<char>::empty() + last =~= last);
        assert(front.push(last) =~= parts);
    }
}

/// A text without the separator is its own only piece.
pub proof fn lemma_split_whole<T>(s: Seq<T>, p: spec_fn(T) -> bool)
    requires
        forall|j: int| 0 <= j < s.len() ==> !p(#[trigger] s[j]),
    ensures
        split_by(s, p) == seq![s],
{
    let none = Seq::<T>::empty();
    lemma_split_append(none, s, p);
    assert(none + s =~= s);
    assert(split_by(s, p) =~= seq![s]);
}

// ---------------------------------------------------------------------------
// Facts on trimming
// ---------------------------------------------------------------------------

/// How much white space a text begins with.
pub open spec fn lead(s: Seq<char>) -> int {
    s.len() - trim_start(s).len()
}

/// `trim_start` drops a prefix of white space and stops at the first other character.
pub proof fn lemma_trim_start(s: Seq<char>)
    ensures
        0 <= lead(s) <= s.len(),
        trim_start(s) == s.skip(lead(s)),
        forall|i: int| 0 <= i < lead(s) ==> is_space(#[trigger] s[i]),
        lead(s) < s.len() ==> !is_space(s[lead(s)]),
    decreases s.len(),
{
    if s.len() > 0 && is_space(s[0]) {
        lemma_trim_start(s.skip(1));
        let n = lead(s.skip(1));
        assert(s.skip(1).skip(n) =~= s.skip(n + 1));
        assert forall|i: int| 0 <= i < n + 1 implies is_space(#[trigger] s[i]) by {
            if i > 0 {
                assert(s[i] == s.skip(1)[i - 1]);
            }
        }
    } else {
        assert(s.skip(0) =~= s);
    }
}

/// A prefix of white space that another character follows is what `trim_start` drops.
pub proof fn lemma_trim_start_at(s: Seq<char>, n: int)
    requires
        0 <= n <= s.len(),
        forall|i: int| 0 <= i < n ==> is_space(#[trigger] s[i]),
        n < s.len() ==> !is_space(s[n]),
    ensures
        trim_start(s) == s.skip(n),
{
    lemma_trim_start(s);
    if lead(s) < n {
        assert(is_space(s[lead(s)]));
    }
}

/// `trim_end` drops a suffix of white space and stops at the last other character.
pub proof fn lemma_trim_end(s: Seq<char>)
    ensures
        trim_end(s).len() <= s.len(),
        trim_end(s) == s.take(trim_end(s).len() as int),
        forall|i: int| trim_end(s).len() <= i < s.len() ==> is_space(#[trigger] s[i]),
        trim_end(s).len() > 0 ==> !is_space(trim_end(s).last()),
    decreases s.len(),
{
    if s.len() > 0 && is_space(s.last()) {
        lemma_trim_end(s.drop_last());
        let n = trim_end(s).len() as int;
        assert(s.drop_last().take(n) =~= s.take(n));
        assert forall|i: int| n <= i < s.len() implies is_space(#[trigger] s[i]) by {
            if i < s.len() - 1 {
                assert(s[i] == s.drop_last()[i]);
            }
        }
    } else {
        assert(s.take(s.len() as int) =~= s);
    }
}

/// A suffix of white space that another character precedes is what `trim_end` drops.
pub proof fn lemma_trim_end_at(s: Seq<char>, n: int)
    requires
        0 <= n <= s.len(),
        forall|i: int| n <= i < s.len() ==> is_space(#[trigger] s[i]),
        n > 0 ==> !is_space(s[n - 1]),
    ensures
        trim_end(s) == s.take(n),
{
    lemma_trim_end(s);
    let m = trim_end(s).len() as int;
    if m < n {
        assert(is_space(s[n - 1]));
    } else if n < m {
        assert(trim_end(s).last() == s[m - 1]);
        assert(is_space(s[m - 1]));
    }
}

/// What is left of a text after trimming its start and its end in either order is the same.
pub proof fn lemma_trim_commutes(s: Seq<char>)
    ensures
        trim_start(trim_end(s)) == trim(s),
{
    lemma_trim_start(s);
    lemma_trim_end(s);
    let n = lead(s);
    let m = trim_end(s).len() as int;
    if n == s.len() {
        assert(m == 0) by {
            if m > 0 {
                assert(is_space(s[m - 1]));
                assert(trim_end(s).last() == s[m - 1]);
            }
        }
        lemma_trim_start_at(trim_end(s), 0);
        lemma_trim_end_at(trim_start(s), 0);
        assert(trim_start(trim_end(s)) =~= trim(s));
    } else {
        assert(n < m) by {
            if m <= n {
                assert(is_space(s[n]));
            }
        }
        let e = trim_end(s);
        assert forall|i: int| 0 <= i < n implies is_space(#[trigger] e[i]) by {
            assert(e[i] == s[i]);
        }
        assert(e[n] == s[n]);
        lemma_trim_start_at(e, n);
        let b = trim_start(s);
        assert forall|i: int| m - n <= i < b.len() implies is_space(#[trigger] b[i]) by {
            assert(b[i] == s[i + n]);
        }
        assert(b[m - n - 1] == s[m - 1]);
        assert(e.last() == s[m - 1]);
        lemma_trim_end_at(b, m - n);
        assert(e.skip(n) =~= b.take(m - n));
    }
}

/// Trimming a trimmed text changes nothing.
pub proof fn lemma_trim_idempotent(s: Seq<char>)
    ensures
        trim_start(trim_start(s)) == trim_start(s),
        trim_end(trim_end(s)) == trim_end(s),
        trim(trim_start(s)) == trim(s),
        trim(trim_end(s)) == trim(s),
        trim(trim(s)) == trim(s),
{
    lemma_trim_start(s);
    lemma_trim_start_at(trim_start(s), 0);
    assert(trim_start(s).skip(0) =~= trim_start(s));
    lemma_trim_end(s);
    lemma_trim_end_at(trim_end(s), trim_end(s).len() as int);
    assert(trim_end(s).take(trim_end(s).len() as int) =~= trim_end(s));
    lemma_trim_commutes(s);
    let b = trim_start(s);
    lemma_trim_end(b);
    lemma_trim_end_at(trim_end(b), trim_end(b).len() as int);
    assert(trim_end(b).take(trim_end(b).len() as int) =~= trim_end(b));
    lemma_trim_commutes(b);
    let e = trim_end(s);
    lemma_trim_start(e);
    lemma_trim_start_at(trim_start(e), 0);
    assert(trim_start(e).skip(0) =~= trim_start(e));
}

} // verus!
