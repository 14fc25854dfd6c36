//! T-SQL text: quoting identifiers and splitting scripts into batches.
use vstd::prelude::*;

use crate::text;

verus! {

// ---------------------------------------------------------------------------
// Identifiers
// ---------------------------------------------------------------------------

/// A name with every `]` doubled.
pub open spec fn doubled(name: Seq<char>) -> Seq<char>
    decreases name.len(),
{
    if name.len() == 0 {
        Seq::empty()
    } else if name[0] == ']' {
        seq![']', ']'] + doubled(name.skip(1))
    } else {
        seq![name[0]] + doubled(name.skip(1))
    }
}

/// A name as a quoted identifier.
pub open spec fn quoted(name: Seq<char>) -> Seq<char> {
    seq!['['] + doubled(name) + seq![']']
}

/// Quotes a T-SQL identifier as `[name]`, doubling any `]`. For identifiers (the names of
/// tables and columns) that cannot be parameters.
pub fn quote_ident(name: &str) -> (r: String)
    ensures
        r@ == quoted(name@),
{
    let chars = text::chars_of(name);
    let mut out: Vec<char> = Vec::new();
    out.push('[');
    assert(name@.skip(0) =~= name@);
    for i in 0..chars.len()
        invariant
            chars@ == name@,
            out@ + doubled(name@.skip(i as int)) == seq!['['] + doubled(name@),
    {
        let ghost before = out@;
        assert(name@.skip(i as int).skip(1) =~= name@.skip(i + 1));
        let c = chars[i];
        if c == ']' {
            out.push(']');
        }
        out.push(c);
        assert(out@ + doubled(name@.skip(i + 1)) =~= before + doubled(name@.skip(i as int)));
    }
    assert(name@.skip(chars@.len() as int) =~= Seq::empty());
    assert(out@ =~= seq!['['] + doubled(name@));
    out.push(']');
    assert(out@ =~= quoted(name@));
    text::string_of(&out)
}

/// How the server reads on after the opening `[` of an identifier: up to the first `]` that is
/// not doubled. Gives the name and what follows the identifier.
pub open spec fn read_bracketed(s: Seq<char>) -> Option<(Seq<char>, Seq<char>)>
    decreases s.len(),
{
    if s.len() == 0 {
        None
    } else if s[0] == ']' && !(s.len() > 1 && s[1] == ']') {
        Some((Seq::empty(), s.skip(1)))
    } else {
        let taken = if s[0] == ']' {
            2
        } else {
            1int
        };
        match read_bracketed(s.skip(taken)) {
            Some(r) => Some((seq![s[0]] + r.0, r.1)),
            None => None,
        }
    }
}

/// How the server reads a quoted identifier at the start of a text.
pub open spec fn read_ident(s: Seq<char>) -> Option<(Seq<char>, Seq<char>)> {
    if s.len() > 0 && s[0] == '[' {
        read_bracketed(s.skip(1))
    } else {
        None
    }
}

proof fn lemma_read_doubled(name: Seq<char>, rest: Seq<char>)
    requires
        rest.len() > 0 ==> rest[0] != ']',
    ensures
        read_bracketed(doubled(name) + seq![']'] + rest) == Some((name, rest)),
    decreases name.len(),
{
    let s = doubled(name) + seq![']'] + rest;
    if name.len() == 0 {
        assert(s =~= seq![']'] + rest);
        assert(s.skip(1) =~= rest);
        assert(name =~= Seq::empty());
    } else {
        let tail = name.skip(1);
        lemma_read_doubled(tail, rest);
        let t = doubled(tail) + seq![']'] + rest;
        if name[0] == ']' {
            assert(s =~= seq![']', ']'] + t);
            assert(s.skip(2) =~= t);
        } else {
            assert(s =~= seq![name[0]] + t);
            assert(s.skip(1) =~= t);
        }
        assert(seq![name[0]] + tail =~= name);
    }
}

/// A quoted name is one identifier and nothing more, whatever the name holds: read at the
/// start of a text, it gives back the name and leaves the rest of the text.
pub proof fn law_quote_is_one_identifier(name: Seq<char>, rest: Seq<char>)
    requires
        rest.len() > 0 ==> rest[0] != ']',
    ensures
        read_ident(quoted(name) + rest) == Some((name, rest)),
{
    lemma_read_doubled(name, rest);
    let s = quoted(name) + rest;
    assert(s.skip(1) =~= doubled(name) + seq![']'] + rest);
}

/// Different names are quoted differently.
pub proof fn law_quote_injective(a: Seq<char>, b: Seq<char>)
    requires
        quoted(a) == quoted(b),
    ensures
        a == b,
{
    let none = Seq::<char>::empty();
    law_quote_is_one_identifier(a, none);
    law_quote_is_one_identifier(b, none);
}

// ---------------------------------------------------------------------------
// Batches
// ---------------------------------------------------------------------------

/// Whether a line is a batch separator: nothing but `GO`, in any case, and white space.
pub open spec fn is_go(line: Seq<char>) -> bool {
    let t = text::trim(line);
    t.len() == 2 && (t[0] == 'G' || t[0] == 'g') && (t[1] == 'O' || t[1] == 'o')
}

/// The predicate "is a batch separator".
pub open spec fn go_line() -> spec_fn(Seq<char>) -> bool {
    |line: Seq<char>| is_go(line)
}

/// The lines one after the other, each ended by `\n`.
pub open spec fn ended(lines: Seq<Seq<char>>) -> Seq<char>
    decreases lines.len(),
{
    if lines.len() == 0 {
        Seq::empty()
    } else {
        ended(lines.drop_last()) + lines.last().push('\n')
    }
}

/// The batches that groups of lines make: the text of each group, trimmed; empty ones are
/// left out.
pub open spec fn batches_of(groups: Seq<Seq<Seq<char>>>) -> Seq<Seq<char>>
    decreases groups.len(),
{
    if groups.len() == 0 {
        Seq::empty()
    } else {
        let before = batches_of(groups.drop_last());
        let last = text::trim(ended(groups.last()));
        if last.len() == 0 {
            before
        } else {
            before.push(last)
        }
    }
}

/// The batches of a script: the groups of lines between the separators.
pub open spec fn batches(script: Seq<char>) -> Seq<Seq<char>> {
    batches_of(text::split_by(text::lines(script), go_line()))
}

/// What a list of strings holds.
pub open spec fn views(v: Seq<String>) -> Seq<Seq<char>> {
    v.map_values(|s: String| s@)
}

/// Whether a line is a batch separator.
fn is_separator(line: &Vec<char>) -> (r: bool)
    ensures
        r == is_go(line@),
{
    let t = text::trim_chars(line);
    t.len() == 2 && (t[0] == 'G' || t[0] == 'g') && (t[1] == 'O' || t[1] == 'o')
}

/// Adds the text to the batches, trimmed, unless that leaves nothing of it.
fn push_batch(batches: &mut Vec<String>, cur: &Vec<char>)
    ensures
        views(final(batches)@) == (if text::trim(cur@).len() == 0 {
            views(old(batches)@)
        } else {
            views(old(batches)@).push(text::trim(cur@))
        }),
{
    let ghost before = views(batches@);
    let t = text::trim_chars(cur);
    if t.len() > 0 {
        batches.push(text::string_of(&t));
        assert(views(batches@) =~= before.push(text::trim(cur@)));
    }
}

/// Splits a T-SQL script into batches at the lines that hold only `GO`, in any case. Empty
/// batches are dropped.
pub fn split_batch(script: &str) -> (r: Vec<String>)
    ensures
        views(r@) == batches(script@),
{
    let mut out: Vec<String> = Vec::new();
    let mut cur: Vec<char> = Vec::new();
    let lines = text::lines_of(&text::chars_of(script));
    let ghost all = text::texts(lines@);
    let ghost p = go_line();
    assert(all.take(0) =~= Seq::empty());
    assert(views(out@) =~= Seq::empty());
    assert(text::split_by(all.take(0), p).drop_last() =~= Seq::empty());
    for i in 0..lines.len()
        invariant
            p == go_line(),
            all == text::texts(lines@),
            views(out@) == batches_of(text::split_by(all.take(i as int), p).drop_last()),
            cur@ == ended(text::split_by(all.take(i as int), p).last()),
    {
        let ghost groups = text::split_by(all.take(i as int), p);
        let ghost next = text::split_by(all.take(i + 1), p);
        proof {
            text::lemma_split_len(all.take(i as int), p);
            assert(all.take(i + 1).drop_last() =~= all.take(i as int));
            assert(all.take(i + 1).last() == all[i as int]);
        }
        assert(all[i as int] == lines@[i as int]@);
        if is_separator(&lines[i]) {
            push_batch(&mut out, &cur);
            cur = Vec::new();
            assert(next.drop_last() =~= groups);
            assert(cur@ =~= ended(next.last()));
        } else {
            let ghost before = cur@;
            text::append(&mut cur, &lines[i]);
            cur.push('\n');
            assert(next.drop_last() =~= groups.drop_last());
            assert(next.last().drop_last() =~= groups.last());
            assert(cur@ =~= before + all[i as int].push('\n'));
        }
    }
    proof {
        assert(all.take(lines@.len() as int) =~= all);
        text::lemma_split_len(all, p);
    }
    push_batch(&mut out, &cur);
    out
}

// ---------------------------------------------------------------------------
// Laws of splitting
// ---------------------------------------------------------------------------

proof fn lemma_batches_trimmed(groups: Seq<Seq<Seq<char>>>)
    ensures
        forall|i: int|
            0 <= i < batches_of(groups).len() ==> (#[trigger] batches_of(groups)[i]).len() > 0
                && text::trim(batches_of(groups)[i]) == batches_of(groups)[i],
    decreases groups.len(),
{
    if groups.len() > 0 {
        let front = groups.drop_last();
        lemma_batches_trimmed(front);
        text::lemma_trim_idempotent(ended(groups.last()));
        let before = batches_of(front);
        let after = batches_of(groups);
        assert forall|i: int| 0 <= i < after.len() implies (#[trigger] after[i]).len() > 0
            && text::trim(after[i]) == after[i] by {
            if i < before.len() {
                assert(after[i] == before[i]);
            }
        }
    }
}

/// No batch is empty, and none begins or ends with white space.
pub proof fn law_batches_trimmed(script: Seq<char>)
    ensures
        forall|i: int|
            0 <= i < batches(script).len() ==> (#[trigger] batches(script)[i]).len() > 0
                && text::trim(batches(script)[i]) == batches(script)[i],
{
    lemma_batches_trimmed(text::split_by(text::lines(script), go_line()));
}

/// Whether some piece of the text between its line ends is a separator.
pub open spec fn has_go(s: Seq<char>) -> bool {
    exists|i: int|
        0 <= i < text::split(s, '\n').len() && is_go(#[trigger] text::split(s, '\n')[i])
}

/// White space at the end of a line does not matter to trimming.
proof fn lemma_trim_push_space(s: Seq<char>, c: char)
    requires
        text::is_space(c),
    ensures
        text::trim(s.push(c)) == text::trim(s),
{
    text::lemma_trim_commutes(s.push(c));
    text::lemma_trim_commutes(s);
    assert(s.push(c).drop_last() =~= s);
}

/// White space at the start of a line does not matter to trimming.
proof fn lemma_trim_front_space(c: char, s: Seq<char>)
    requires
        text::is_space(c),
    ensures
        text::trim(seq![c] + s) == text::trim(s),
{
    assert((seq![c] + s).skip(1) =~= s);
}

/// Dropping white space at the end of a text makes no separator.
proof fn lemma_has_go_drop_last(s: Seq<char>)
    requires
        s.len() > 0,
        text::is_space(s.last()),
        has_go(s.drop_last()),
    ensures
        has_go(s),
{
    let p = text::is_char('\n');
    let before = text::split(s.drop_last(), '\n');
    let after = text::split(s, '\n');
    text::lemma_split_len(s.drop_last(), p);
    let i = choose|i: int| 0 <= i < before.len() && is_go(#[trigger] before[i]);
    if s.last() != '\n' && i == before.len() - 1 {
        lemma_trim_push_space(before[i], s.last());
        assert(after[i] == before[i].push(s.last()));
    } else {
        assert(after[i] == before[i]);
    }
    assert(is_go(after[i]));
}

/// Dropping white space at the start of a text makes no separator.
proof fn lemma_has_go_skip(s: Seq<char>)
    requires
        s.len() > 0,
        text::is_space(s[0]),
        has_go(s.skip(1)),
    ensures
        has_go(s),
{
    let p = text::is_char('\n');
    let t = s.skip(1);
    let before = text::split(t, '\n');
    let after = text::split(s, '\n');
    let i = choose|i: int| 0 <= i < before.len() && is_go(#[trigger] before[i]);
    assert(s =~= seq![s[0]] + t);
    if s[0] == '\n' {
        let none = Seq::<char>::empty();
        text::lemma_split_concat(none, s[0], t, p);
        assert(none.push(s[0]) + t =~= s);
        assert(text::split(none, '\n').len() == 1);
        assert(after[i + 1] == before[i]);
        assert(is_go(after[i + 1]));
    } else {
        text::lemma_split_front(s[0], t, p);
        if i == 0 {
            lemma_trim_front_space(s[0], before[0]);
            assert(after[0] == seq![s[0]] + before[0]);
        } else {
            assert(after[i] == before[i]);
        }
        assert(is_go(after[i]));
    }
}

proof fn lemma_has_go_trim_start(s: Seq<char>)
    requires
        has_go(text::trim_start(s)),
    ensures
        has_go(s),
    decreases s.len(),
{
    if s.len() > 0 && text::is_space(s[0]) {
        lemma_has_go_trim_start(s.skip(1));
        lemma_has_go_skip(s);
    }
}

proof fn lemma_has_go_trim_end(s: Seq<char>)
    requires
        has_go(text::trim_end(s)),
    ensures
        has_go(s),
    decreases s.len(),
{
    if s.len() > 0 && text::is_space(s.last()) {
        lemma_has_go_trim_end(s.drop_last());
        lemma_has_go_drop_last(s);
    }
}

/// The pieces of ended lines are the lines and an empty piece.
proof fn lemma_split_ended(lines: Seq<Seq<char>>)
    requires
        forall|i: int| 0 <= i < lines.len() ==> !(#[trigger] lines[i]).contains('\n'),
    ensures
        text::split(ended(lines), '\n') == lines.push(Seq::empty()),
    decreases lines.len(),
{
    let none = Seq::<char>::empty();
    if lines.len() == 0 {
        assert(text::split(ended(lines), '\n') =~= lines.push(none));
    } else {
        let p = text::is_char('\n');
        let front = lines.drop_last();
        let last = lines[lines.len() - 1];
        assert forall|i: int| 0 <= i < front.len() implies !(#[trigger] front[i]).contains(
            '\n',
        ) by {
            assert(front[i] == lines[i]);
        }
        lemma_split_ended(front);
        assert(!last.contains('\n'));
        assert forall|j: int| 0 <= j < last.len() implies !p(#[trigger] last[j]) by {
            assert(last.contains(last[j]));
        }
        let a = ended(front);
        text::lemma_split_append(a, last, p);
        text::lemma_split_push(a + last, '\n', p);
        assert(ended(lines) =~= (a + last).push('\n'));
        assert(front.push(none).drop_last() =~= front);
        assert(none + last =~= last);
        assert(front.push(last) =~= lines);
    }
}

/// The lines of a text hold no line end.
proof fn lemma_lines_whole(s: Seq<char>)
    ensures
        forall|i: int|
            0 <= i < text::lines(s).len() ==> !(#[trigger] text::lines(s)[i]).contains('\n'),
{
    let p = text::is_char('\n');
    let pieces = text::split(s, '\n');
    let lines = text::lines(s);
    text::lemma_split_len(s, p);
    text::lemma_split_pieces(s, p);
    assert forall|i: int| 0 <= i < lines.len() implies !(#[trigger] lines[i]).contains('\n') by {
        if lines[i].contains('\n') {
            let j = choose|j: int| 0 <= j < lines[i].len() && lines[i][j] == '\n';
            assert(pieces[i][j] == '\n');
            assert(!p(pieces[i][j]));
        }
    }
}

/// The lines of a text are its pieces, but for a `\r` at the end of some.
proof fn lemma_lines_go(s: Seq<char>, i: int)
    requires
        0 <= i < text::lines(s).len(),
        is_go(text::lines(s)[i]),
    ensures
        has_go(s),
{
    let pieces = text::split(s, '\n');
    let line = text::lines(s)[i];
    text::lemma_split_len(s, text::is_char('\n'));
    if pieces[i].len() > 0 && pieces[i].last() == '\r' && line != pieces[i] {
        lemma_trim_push_space(line, '\r');
        assert(pieces[i] =~= line.push('\r'));
    }
    assert(is_go(pieces[i]));
}

/// The groups of lines between separators hold lines of the script, none of them a separator.
proof fn lemma_group_lines(lines: Seq<Seq<char>>)
    requires
        forall|i: int| 0 <= i < lines.len() ==> !(#[trigger] lines[i]).contains('\n'),
    ensures
        forall|g: int, i: int|
            0 <= g < text::split_by(lines, go_line()).len() && 0 <= i < text::split_by(
                lines,
                go_line(),
            )[g].len() ==> !(#[trigger] text::split_by(lines, go_line())[g][i]).contains('\n'),
    decreases lines.len(),
{
    if lines.len() > 0 {
        let p = go_line();
        let front = lines.drop_last();
        assert forall|i: int| 0 <= i < front.len() implies !(#[trigger] front[i]).contains(
            '\n',
        ) by {
            assert(front[i] == lines[i]);
        }
        lemma_group_lines(front);
        text::lemma_split_len(front, p);
        let before = text::split_by(front, p);
        let after = text::split_by(lines, p);
        assert(!lines[lines.len() - 1].contains('\n'));
        assert forall|g: int, i: int| 0 <= g < after.len() && 0 <= i < after[g].len() implies !(
        #[trigger] after[g][i]).contains('\n') by {
            if g < before.len() - 1 {
                assert(after[g][i] == before[g][i]);
            } else if p(lines.last()) {
                if g == before.len() - 1 {
                    assert(after[g][i] == before[g][i]);
                }
            } else if i < before.last().len() {
                assert(after[g][i] == before[g][i]);
            }
        }
    }
}

proof fn lemma_batches_without_go(groups: Seq<Seq<Seq<char>>>)
    requires
        forall|g: int, i: int|
            0 <= g < groups.len() && 0 <= i < groups[g].len() ==> !(
            #[trigger] groups[g][i]).contains('\n') && !is_go(groups[g][i]),
    ensures
        forall|i: int|
            0 <= i < batches_of(groups).len() ==> !has_go(#[trigger] batches_of(groups)[i]),
    decreases groups.len(),
{
    if groups.len() > 0 {
        let front = groups.drop_last();
        assert forall|g: int, i: int| 0 <= g < front.len() && 0 <= i < front[g].len() implies !(
        #[trigger] front[g][i]).contains('\n') && !is_go(front[g][i]) by {
            assert(front[g][i] == groups[g][i]);
        }
        lemma_batches_without_go(front);
        let group = groups[groups.len() - 1];
        assert forall|i: int| 0 <= i < group.len() implies !(#[trigger] group[i]).contains(
            '\n',
        ) by {
            assert(group[i] == groups[groups.len() - 1][i]);
        }
        lemma_split_ended(group);
        let whole = ended(group);
        let pieces = text::split(whole, '\n');
        assert(!has_go(whole)) by {
            if has_go(whole) {
                let i = choose|i: int| 0 <= i < pieces.len() && is_go(#[trigger] pieces[i]);
                if i < group.len() {
                    assert(pieces[i] == groups[groups.len() - 1][i]);
                } else {
                    assert(pieces[i] =~= Seq::empty());
                }
            }
        }
        if has_go(text::trim(whole)) {
            lemma_has_go_trim_end(text::trim_start(whole));
            lemma_has_go_trim_start(whole);
        }
        let before = batches_of(front);
        let after = batches_of(groups);
        assert forall|i: int| 0 <= i < after.len() implies !has_go(#[trigger] after[i]) by {
            if i < before.len() {
                assert(after[i] == before[i]);
            }
        }
    }
}

/// No batch holds a separator: no line of a batch is a line that holds only `GO`.
pub proof fn law_batches_without_separator(script: Seq<char>)
    ensures
        forall|i: int, j: int|
            0 <= i < batches(script).len() && 0 <= j < text::lines(batches(script)[i]).len()
                ==> !is_go(#[trigger] text::lines(batches(script)[i])[j]),
{
    let p = go_line();
    let lines = text::lines(script);
    let groups = text::split_by(lines, p);
    lemma_lines_whole(script);
    lemma_group_lines(lines);
    text::lemma_split_pieces(lines, p);
    assert forall|g: int, i: int| 0 <= g < groups.len() && 0 <= i < groups[g].len() implies !(
    #[trigger] groups[g][i]).contains('\n') && !is_go(groups[g][i]) by {
        assert(!p(groups[g][i]));
    }
    lemma_batches_without_go(groups);
    assert forall|i: int, j: int|
        0 <= i < batches(script).len() && 0 <= j < text::lines(batches(script)[i]).len() implies !is_go(
        #[trigger] text::lines(batches(script)[i])[j],
    ) by {
        if is_go(text::lines(batches(script)[i])[j]) {
            lemma_lines_go(batches(script)[i], j);
        }
    }
}

/// Whether a line of the text ends with `\r\n`.
pub open spec fn has_crlf(s: Seq<char>) -> bool {
    exists|i: int| 0 <= i < s.len() - 1 && #[trigger] s[i] == '\r' && s[i + 1] == '\n'
}

/// The batches as one script, with a line `GO` between neighbours.
pub open spec fn script_of(list: Seq<Seq<char>>) -> Seq<char>
    decreases list.len(),
{
    if list.len() == 0 {
        Seq::empty()
    } else if list.len() == 1 {
        list[0]
    } else {
        script_of(list.drop_last()).push('\n') + seq!['G', 'O', '\n'] + list.last()
    }
}

/// Whether a text can be a batch that a script holds as it stands.
pub open spec fn plain_batch(b: Seq<char>) -> bool {
    &&& b.len() > 0
    &&& text::trim(b) == b
    &&& !has_crlf(b)
    &&& forall|j: int| 0 <= j < text::lines(b).len() ==> !is_go(#[trigger] text::lines(b)[j])
}

/// The lines of the batches, with a line `GO` between neighbours.
spec fn script_lines(list: Seq<Seq<char>>) -> Seq<Seq<char>>
    decreases list.len(),
{
    if list.len() == 0 {
        Seq::empty()
    } else if list.len() == 1 {
        text::split(list[0], '\n')
    } else {
        script_lines(list.drop_last()).push(seq!['G', 'O']) + text::split(list.last(), '\n')
    }
}

/// A piece that is not the last and ends with `\r` is the end of a line with `\r\n`. The last
/// piece ends where the text ends.
proof fn lemma_cr_pieces(s: Seq<char>)
    requires
        !has_crlf(s),
    ensures
        forall|i: int|
            0 <= i < text::split(s, '\n').len() - 1 ==> text::strip_cr(
                #[trigger] text::split(s, '\n')[i],
            ) == text::split(s, '\n')[i],
        text::split(s, '\n').last().len() > 0 ==> s.len() > 0 && text::split(
            s,
            '\n',
        ).last().last() == s.last(),
        s.len() > 0 && s.last() != '\n' ==> text::split(s, '\n').last().len() > 0,
    decreases s.len(),
{
    if s.len() > 0 {
        let t = s.drop_last();
        assert(!has_crlf(t)) by {
            if has_crlf(t) {
                let i = choose|i: int| 0 <= i < t.len() - 1 && #[trigger] t[i] == '\r' && t[i
                    + 1] == '\n';
                assert(s[i] == '\r' && s[i + 1] == '\n');
            }
        }
        lemma_cr_pieces(t);
        text::lemma_split_len(t, text::is_char('\n'));
        let before = text::split(t, '\n');
        let after = text::split(s, '\n');
        assert forall|i: int| 0 <= i < after.len() - 1 implies text::strip_cr(#[trigger] after[i])
            == after[i] by {
            assert(after[i] == before[i]);
            if i == before.len() - 1 && before[i].len() > 0 && before[i].last() == '\r' {
                assert(s[s.len() - 2] == '\r' && s[s.len() - 1] == '\n');
            }
        }
    }
}

/// A trimmed text that is not empty ends with a character that is no white space.
proof fn lemma_trimmed_last(b: Seq<char>)
    requires
        b.len() > 0,
        text::trim(b) == b,
    ensures
        !text::is_space(b.last()),
        !text::is_space(b[0]),
{
    text::lemma_trim_start(b);
    text::lemma_trim_end(text::trim_start(b));
    text::lemma_trim_commutes(b);
    text::lemma_trim_end(b);
    text::lemma_trim_start(text::trim_end(b));
}

/// The lines of a plain batch are its pieces.
proof fn lemma_plain_lines(b: Seq<char>)
    requires
        plain_batch(b),
    ensures
        text::lines(b) == text::split(b, '\n'),
        text::split(b, '\n').len() >= 1,
        text::split(b, '\n').last().len() > 0,
        text::strip_cr(text::split(b, '\n').last()) == text::split(b, '\n').last(),
        forall|j: int|
            0 <= j < text::split(b, '\n').len() ==> text::strip_cr(
                #[trigger] text::split(b, '\n')[j],
            ) == text::split(b, '\n')[j],
{
    lemma_trimmed_last(b);
    lemma_cr_pieces(b);
    text::lemma_split_len(b, text::is_char('\n'));
    let pieces = text::split(b, '\n');
    assert(text::lines(b) =~= pieces);
}

/// Lines that are ended make the joined lines, ended.
proof fn lemma_ended_join(lines: Seq<Seq<char>>)
    requires
        lines.len() >= 1,
    ensures
        ended(lines) == text::join(lines, '\n').push('\n'),
    decreases lines.len(),
{
    if lines.len() == 1 {
        assert(lines.drop_last() =~= Seq::empty());
        assert(ended(lines.drop_last()) =~= Seq::empty());
        assert(ended(lines) =~= lines[0].push('\n'));
    } else {
        lemma_ended_join(lines.drop_last());
        assert(ended(lines) =~= text::join(lines, '\n').push('\n'));
    }
}

/// The pieces of the script are the lines of the batches with `GO` between them, its lines are
/// those pieces, and the groups between the separators are the pieces of the batches.
proof fn lemma_script(list: Seq<Seq<char>>)
    requires
        list.len() >= 1,
        forall|i: int| 0 <= i < list.len() ==> plain_batch(#[trigger] list[i]),
    ensures
        text::split(script_of(list), '\n') == script_lines(list),
        script_lines(list).len() >= 1,
        script_lines(list).last().len() > 0,
        forall|j: int|
            0 <= j < script_lines(list).len() ==> text::strip_cr(#[trigger] script_lines(list)[j])
                == script_lines(list)[j],
        text::split_by(script_lines(list), go_line()) == list.map_values(
            |b: Seq<char>| text::split(b, '\n'),
        ),
    decreases list.len(),
{
    let p = go_line();
    let last = list[list.len() - 1];
    assert(plain_batch(last));
    lemma_plain_lines(last);
    let pieces = text::split(last, '\n');
    let groups = list.map_values(|b: Seq<char>| text::split(b, '\n'));
    assert forall|j: int| 0 <= j < pieces.len() implies !p(#[trigger] pieces[j]) by {
        assert(!is_go(text::lines(last)[j]));
    }
    text::lemma_split_whole(pieces, p);
    if list.len() == 1 {
        assert(groups =~= seq![pieces]);
    } else {
        let front = list.drop_last();
        assert forall|i: int| 0 <= i < front.len() implies plain_batch(#[trigger] front[i]) by {
            assert(front[i] == list[i]);
        }
        lemma_script(front);
        let go = seq!['G', 'O'];
        let nl = text::is_char('\n');
        let a = script_of(front);
        assert forall|j: int| 0 <= j < go.len() implies !nl(#[trigger] go[j]) by {}
        text::lemma_split_whole(go, nl);
        text::lemma_split_concat(a, '\n', go, nl);
        let b = a.push('\n') + go;
        text::lemma_split_concat(b, '\n', last, nl);
        assert(script_of(list) =~= b.push('\n') + last);
        let lines = script_lines(front);
        assert(lines + seq![go] =~= lines.push(go));
        assert(text::split(script_of(list), '\n') =~= script_lines(list));
        assert(is_go(go)) by {
            text::lemma_trim_start_at(go, 0);
            assert(go.skip(0) =~= go);
            text::lemma_trim_end_at(go, 2);
            assert(go.take(2) =~= go);
        }
        text::lemma_split_concat(lines, go, pieces, p);
        assert(groups =~= front.map_values(|b: Seq<char>| text::split(b, '\n')) + seq![pieces]);
        let all = script_lines(list);
        assert forall|j: int| 0 <= j < all.len() implies text::strip_cr(#[trigger] all[j])
            == all[j] by {
            if j < lines.len() {
                assert(all[j] == lines[j]);
            } else if j > lines.len() {
                assert(all[j] == pieces[j - lines.len() - 1]);
            }
        }
    }
}

/// The text of the pieces of a batch is the batch.
proof fn lemma_batch_text(b: Seq<char>)
    requires
        b.len() > 0,
        text::trim(b) == b,
    ensures
        text::trim(ended(text::split(b, '\n'))) == b,
{
    text::lemma_split_len(b, text::is_char('\n'));
    lemma_ended_join(text::split(b, '\n'));
    text::lemma_join_split(b, '\n');
    lemma_trim_push_space(b, '\n');
}

proof fn lemma_batches_back(list: Seq<Seq<char>>)
    requires
        forall|i: int| 0 <= i < list.len() ==> plain_batch(#[trigger] list[i]),
    ensures
        batches_of(list.map_values(|b: Seq<char>| text::split(b, '\n'))) == list,
    decreases list.len(),
{
    let groups = list.map_values(|b: Seq<char>| text::split(b, '\n'));
    if list.len() == 0 {
        assert(list =~= Seq::empty());
    } else {
        let front = list.drop_last();
        assert forall|i: int| 0 <= i < front.len() implies plain_batch(#[trigger] front[i]) by {
            assert(front[i] == list[i]);
        }
        lemma_batches_back(front);
        assert(groups.drop_last() =~= front.map_values(|b: Seq<char>| text::split(b, '\n')));
        let last = list[list.len() - 1];
        assert(plain_batch(last));
        lemma_batch_text(last);
        assert(front.push(last) =~= list);
    }
}

/// Splitting undoes joining: batches that are trimmed, hold no separator and have no line that
/// ends with `\r\n` come out of the script that holds them with `GO` lines between them.
pub proof fn law_join_then_split(list: Seq<Seq<char>>)
    requires
        forall|i: int| 0 <= i < list.len() ==> plain_batch(#[trigger] list[i]),
    ensures
        batches(script_of(list)) == list,
{
    let s = script_of(list);
    if list.len() == 0 {
        let none = Seq::<char>::empty();
        text::lemma_split_whole(none, text::is_char('\n'));
        assert(text::lines(s) =~= Seq::empty());
        let groups = text::split_by(text::lines(s), go_line());
        assert(groups.drop_last() =~= Seq::empty());
        assert(ended(groups.last()) =~= Seq::empty());
        assert(text::trim(ended(groups.last())).len() == 0);
        assert(batches_of(groups.drop_last()) =~= Seq::empty());
        assert(list =~= Seq::empty());
        assert(batches(s) =~= list);
    } else {
        lemma_script(list);
        assert(text::lines(s) =~= script_lines(list));
        lemma_batches_back(list);
    }
}

/// Splitting again changes nothing: where no batch of a script has a line that ends with
/// `\r\n`, the script made of its batches has the same batches.
pub proof fn law_split_stable(script: Seq<char>)
    requires
        forall|i: int| 0 <= i < batches(script).len() ==> !has_crlf(#[trigger] batches(script)[i]),
    ensures
        batches(script_of(batches(script))) == batches(script),
{
    let list = batches(script);
    law_batches_trimmed(script);
    law_batches_without_separator(script);
    assert forall|i: int| 0 <= i < list.len() implies plain_batch(#[trigger] list[i]) by {
        assert(list[i].len() > 0);
    }
    law_join_then_split(list);
}

/// A script without a separator is one batch: its text, trimmed. A blank one has none.
pub proof fn law_no_separator(script: Seq<char>)
    requires
        forall|i: int|
            0 <= i < text::lines(script).len() ==> !is_go(#[trigger] text::lines(script)[i]),
    ensures
        batches(script) == (if text::trim(ended(text::lines(script))).len() == 0 {
            Seq::<Seq<char>>::empty()
        } else {
            seq![text::trim(ended(text::lines(script)))]
        }),
{
    let p = go_line();
    let lines = text::lines(script);
    assert forall|j: int| 0 <= j < lines.len() implies !p(#[trigger] lines[j]) by {}
    text::lemma_split_whole(lines, p);
    let groups = seq![lines];
    assert(groups.drop_last() =~= Seq::empty());
    assert(batches_of(groups.drop_last()) =~= Seq::empty());
    assert(batches(script) =~= (if text::trim(ended(lines)).len() == 0 {
        Seq::<Seq<char>>::empty()
    } else {
        seq![text::trim(ended(lines))]
    }));
}

} // verus!
