//! Laws of the operations: what each result must be, said of the inputs and results themselves.
use vstd::arithmetic::power::pow;
use vstd::prelude::*;

use crate::ado;
use crate::batch;
use crate::batch::{Action, Outcome, Phase};
use crate::cache;
use crate::cache::{Event, Move};
use crate::call;
use crate::call::{Shape, Task, TaskV};
use crate::cell;
use crate::cell::Cell;
use crate::config;
use crate::config::{Auth, Encryption, Trust};
use crate::conn;
use crate::conn::{ConnKey, ConnKeyV};
use crate::failure::Failure;
use crate::json;
use crate::json::{Float, Json, JsonV, Object};
use crate::lexing;
use crate::query;
use crate::query::Param;
use crate::quoting;
use crate::readback;
use crate::render;
use crate::temporal;
use crate::text;
use crate::tsql;

verus! {

// ---------------------------------------------------------------------------
// Text
// ---------------------------------------------------------------------------

/// Whether a text is white space alone.
pub open spec fn blank(s: Seq<char>) -> bool {
    forall|i: int| 0 <= i < s.len() ==> text::is_space(#[trigger] s[i])
}

/// White space is what Unicode calls so, by its numbers.
pub proof fn law_white_space(c: char)
    ensures
        text::is_space(c) <==> ({
            let n = c as u32;
            9 <= n <= 13 || n == 32 || n == 133 || n == 160 || n == 5760 || 8192 <= n <= 8202 || n
                == 8232 || n == 8233 || n == 8239 || n == 8287 || n == 12288
        }),
{
}

/// Trimming takes the white space off both ends and nothing else.
pub proof fn law_trim(a: Seq<char>, m: Seq<char>, b: Seq<char>)
    requires
        blank(a),
        blank(b),
        m.len() > 0 ==> !text::is_space(m[0]) && !text::is_space(m.last()),
    ensures
        text::trim(a + m + b) == m,
{
    let s = a + m + b;
    if m.len() == 0 {
        assert forall|i: int| 0 <= i < s.len() implies text::is_space(#[trigger] s[i]) by {
            if i < a.len() {
                assert(s[i] == a[i]);
            } else {
                assert(s[i] == b[i - a.len()]);
            }
        }
        text::lemma_trim_start_at(s, s.len() as int);
        assert(s.skip(s.len() as int) =~= Seq::empty());
        assert(m =~= Seq::empty());
    } else {
        assert forall|i: int| 0 <= i < a.len() implies text::is_space(#[trigger] s[i]) by {
            assert(s[i] == a[i]);
        }
        assert(s[a.len() as int] == m[0]);
        text::lemma_trim_start_at(s, a.len() as int);
        let t = m + b;
        assert(s.skip(a.len() as int) =~= t);
        assert forall|i: int| m.len() <= i < t.len() implies text::is_space(#[trigger] t[i]) by {
            assert(t[i] == b[i - m.len()]);
        }
        assert(t[m.len() - 1] == m[m.len() - 1]);
        text::lemma_trim_end_at(t, m.len() as int);
        assert(t.take(m.len() as int) =~= m);
    }
}

/// Lower case changes the letters from `A` to `Z` alone, each into the one that is 32 further on.
pub proof fn law_ascii_lower_case(s: Seq<char>)
    requires
        text::all_ascii(s),
    ensures
        text::lowercase(s).len() == s.len(),
        forall|i: int|
            0 <= i < s.len() ==> (#[trigger] text::lowercase(s)[i]) as u32 == (if 'A' <= s[i] <= 'Z' {
                s[i] as u32 + 32
            } else {
                s[i] as u32 as int
            }),
{
}

/// A text is divided at the first separator.
pub proof fn law_split_once(k: Seq<char>, sep: char, v: Seq<char>)
    requires
        !k.contains(sep),
    ensures
        text::split_once(k.push(sep) + v, sep) == Some((k, v)),
        text::split_once(k, sep) is None,
{
    let s = k.push(sep) + v;
    assert forall|j: int| 0 <= j < k.len() implies s[j] != sep && k[j] != sep by {
        assert(k.contains(k[j]));
    }
    text::lemma_find(s, sep, k.len() as int);
    text::lemma_find(k, sep, k.len() as int);
    assert(s.take(k.len() as int) =~= k);
    assert(s.skip(k.len() as int + 1) =~= v);
}

/// A list of character lists holds their texts, each in its place.
pub proof fn law_texts(v: Seq<Vec<char>>, i: int)
    ensures
        text::texts(v).len() == v.len(),
        0 <= i < v.len() ==> text::texts(v)[i] == v[i]@,
{
}

/// Names are ordered as in a dictionary: by the first character in which they differ, and a name
/// comes before the longer ones that begin with it.
pub proof fn law_order_of_names(a: Seq<char>, x: char, b: Seq<char>, y: char, c: Seq<char>)
    ensures
        text::text_lt(a.push(x) + b, a.push(y) + c) <==> (x < y || (x == y && text::text_lt(b, c))),
        text::text_lt(a, a.push(x) + b),
        !text::text_lt(a.push(x) + b, a),
    decreases a.len(),
{
    let s = a.push(x) + b;
    let t = a.push(y) + c;
    if a.len() == 0 {
        assert(s.skip(1) =~= b);
        assert(t.skip(1) =~= c);
    } else {
        let r = a.skip(1);
        law_order_of_names(r, x, b, y, c);
        assert(s.skip(1) =~= r.push(x) + b);
        assert(t.skip(1) =~= r.push(y) + c);
    }
}

/// Joining puts a separator between neighbours, and nothing else.
pub proof fn law_join(list: Seq<Seq<char>>, last: Seq<char>, sep: char)
    ensures
        text::join(Seq::empty(), sep) == Seq::<char>::empty(),
        text::join(seq![last], sep) == last,
        list.len() > 0 ==> text::join(list.push(last), sep) == text::join(list, sep).push(sep)
            + last,
{
    assert(list.push(last).drop_last() =~= list);
}

/// The lines of a text: one that a line end follows is a line, without the line end, and so is
/// what stands behind the last line end, if anything does.
pub proof fn law_lines(a: Seq<char>, b: Seq<char>)
    requires
        !a.contains('\n'),
    ensures
        text::lines(a.push('\n') + b) == seq![
            if a.len() > 0 && a.last() == '\r' {
                a.drop_last()
            } else {
                a
            },
        ] + text::lines(b),
        text::lines(a) == (if a.len() == 0 {
            Seq::<Seq<char>>::empty()
        } else {
            seq![a]
        }),
{
    let p = text::is_char('\n');
    assert forall|j: int| 0 <= j < a.len() implies !p(#[trigger] a[j]) by {
        assert(a.contains(a[j]));
    }
    text::lemma_split_whole(a, p);
    text::lemma_split_concat(a, '\n', b, p);
    text::lemma_split_len(b, p);
    let rest = text::split(b, '\n');
    let all = text::split(a.push('\n') + b, '\n');
    assert(all == seq![a] + rest);
    assert(all.last() == rest.last());
    assert(all.drop_last() =~= seq![a] + rest.drop_last());
    assert(text::lines(a.push('\n') + b) =~= seq![text::strip_cr(a)] + text::lines(b));
    assert(seq![a].drop_last() =~= Seq::empty());
    assert(text::lines(a) =~= (if a.len() == 0 {
        Seq::<Seq<char>>::empty()
    } else {
        seq![a]
    }));
}

/// The characters of a text that are no white space.
pub open spec fn ink(s: Seq<char>) -> Seq<char>
    decreases s.len(),
{
    if s.len() == 0 {
        Seq::empty()
    } else if text::is_space(s[0]) {
        ink(s.skip(1))
    } else {
        seq![s[0]] + ink(s.skip(1))
    }
}

/// The characters of texts, one after the other, that are no white space.
pub open spec fn ink_of(list: Seq<Seq<char>>) -> Seq<char>
    decreases list.len(),
{
    if list.len() == 0 {
        Seq::empty()
    } else {
        ink(list[0]) + ink_of(list.skip(1))
    }
}

proof fn lemma_ink_append(a: Seq<char>, b: Seq<char>)
    ensures
        ink(a + b) == ink(a) + ink(b),
    decreases a.len(),
{
    if a.len() == 0 {
        assert(a + b =~= b);
        assert(ink(a) + ink(b) =~= ink(b));
    } else {
        assert((a + b).skip(1) =~= a.skip(1) + b);
        assert((a + b)[0] == a[0]);
        lemma_ink_append(a.skip(1), b);
        assert(ink(a + b) =~= ink(a) + ink(b));
    }
}

proof fn lemma_ink_blank(s: Seq<char>)
    requires
        blank(s),
    ensures
        ink(s) == Seq::<char>::empty(),
    decreases s.len(),
{
    if s.len() > 0 {
        assert(text::is_space(s[0]));
        assert forall|i: int| 0 <= i < s.skip(1).len() implies text::is_space(
            #[trigger] s.skip(1)[i],
        ) by {
            assert(s.skip(1)[i] == s[i + 1]);
        }
        lemma_ink_blank(s.skip(1));
    }
}

proof fn lemma_ink_trim(s: Seq<char>)
    ensures
        ink(text::trim(s)) == ink(s),
{
    let l = text::lead(s);
    text::lemma_trim_start(s);
    let a = s.take(l);
    let t = text::trim_start(s);
    assert(s =~= a + t);
    assert(blank(a)) by {
        assert forall|i: int| 0 <= i < a.len() implies text::is_space(#[trigger] a[i]) by {
            assert(a[i] == s[i]);
        }
    }
    lemma_ink_append(a, t);
    lemma_ink_blank(a);
    lemma_ink_trim_end(t);
    assert(ink(s) =~= ink(t));
}

proof fn lemma_ink_trim_end(s: Seq<char>)
    ensures
        ink(text::trim_end(s)) == ink(s),
    decreases s.len(),
{
    if s.len() > 0 && text::is_space(s.last()) {
        let front = s.drop_last();
        lemma_ink_trim_end(front);
        assert(s =~= front + seq![s.last()]);
        lemma_ink_append(front, seq![s.last()]);
        lemma_ink_blank(seq![s.last()]);
        assert(ink(s) =~= ink(front));
    }
}

proof fn lemma_ink_of_append(a: Seq<Seq<char>>, b: Seq<Seq<char>>)
    ensures
        ink_of(a + b) == ink_of(a) + ink_of(b),
    decreases a.len(),
{
    if a.len() == 0 {
        assert(a + b =~= b);
        assert(ink_of(a) + ink_of(b) =~= ink_of(b));
    } else {
        assert((a + b).skip(1) =~= a.skip(1) + b);
        assert((a + b)[0] == a[0]);
        lemma_ink_of_append(a.skip(1), b);
        assert(ink_of(a + b) =~= ink_of(a) + ink_of(b));
    }
}

proof fn lemma_ink_of_one(s: Seq<char>)
    ensures
        ink_of(seq![s]) == ink(s),
{
    let rest = seq![s].skip(1);
    assert(rest.len() == 0);
    assert(ink_of(rest) =~= Seq::empty());
    assert(ink_of(seq![s]) =~= ink(s) + ink_of(rest));
}

/// The lines hold all of a text but white space.
pub proof fn law_lines_keep_the_text(s: Seq<char>)
    ensures
        ink_of(text::lines(s)) == ink(s),
    decreases s.len(),
{
    text::lemma_find_first(s, '\n');
    let i = text::find(s, '\n');
    if i < s.len() {
        let a = s.take(i);
        let b = s.skip(i + 1);
        assert(!a.contains('\n')) by {
            if a.contains('\n') {
                let j = choose|j: int| 0 <= j < a.len() && a[j] == '\n';
                assert(s[j] == '\n');
            }
        }
        assert(s =~= a.push('\n') + b);
        law_lines(a, b);
        law_lines_keep_the_text(b);
        let line = if a.len() > 0 && a.last() == '\r' {
            a.drop_last()
        } else {
            a
        };
        assert(ink(line) == ink(a)) by {
            if a.len() > 0 && a.last() == '\r' {
                assert(a =~= line + seq!['\r']);
                lemma_ink_append(line, seq!['\r']);
                lemma_ink_blank(seq!['\r']);
                assert(ink(a) =~= ink(line));
            }
        }
        lemma_ink_of_append(seq![line], text::lines(b));
        lemma_ink_of_one(line);
        assert(a.push('\n') =~= a + seq!['\n']);
        lemma_ink_append(a, seq!['\n']);
        lemma_ink_blank(seq!['\n']);
        lemma_ink_append(a.push('\n'), b);
        assert(ink(s) =~= ink(a) + ink(b));
    } else {
        assert(!s.contains('\n')) by {
            if s.contains('\n') {
                let j = choose|j: int| 0 <= j < s.len() && s[j] == '\n';
                assert(s[j] != '\n');
            }
        }
        law_lines(s, Seq::empty());
        if s.len() > 0 {
            lemma_ink_of_one(s);
        }
    }
}

// ---------------------------------------------------------------------------
// Scripts
// ---------------------------------------------------------------------------

/// Whether a text is `go` when the white space around it is taken off and its ASCII letters are
/// put in lower case.
pub open spec fn reads_go(line: Seq<char>) -> bool {
    text::trim(line).map_values(|c: char| text::ascii_lower(c)) == "go"@
}

/// A line separates if and only if it is `GO`, in any case, with white space at most around it.
pub proof fn law_go_lines(line: Seq<char>)
    ensures
        tsql::is_go(line) <==> reads_go(line),
        tsql::go_line()(line) <==> reads_go(line),
{
    reveal_strlit("go");
    let t = text::trim(line);
    let low = t.map_values(|c: char| text::ascii_lower(c));
    if reads_go(line) {
        assert(low.len() == 2);
        assert(low[0] == 'g' && low[1] == 'o');
    }
    if tsql::is_go(line) {
        assert(low =~= "go"@);
    }
}

/// A line with two letters and white space around them separates if and only if the letters are
/// those of `GO`; any other text between the white space does not separate.
pub proof fn law_go_letters(a: Seq<char>, m: Seq<char>, b: Seq<char>)
    requires
        blank(a),
        blank(b),
        m.len() > 0 ==> !text::is_space(m[0]) && !text::is_space(m.last()),
    ensures
        tsql::is_go(a + m + b) <==> m == seq!['G', 'O'] || m == seq!['G', 'o'] || m == seq![
            'g',
            'O',
        ] || m == seq!['g', 'o'],
{
    law_trim(a, m, b);
    if m.len() == 2 {
        assert(m =~= seq![m[0], m[1]]);
    }
}

/// The lines that do not separate, in their order.
pub open spec fn kept(lines: Seq<Seq<char>>) -> Seq<Seq<char>>
    decreases lines.len(),
{
    if lines.len() == 0 {
        Seq::empty()
    } else if reads_go(lines[0]) {
        kept(lines.skip(1))
    } else {
        seq![lines[0]] + kept(lines.skip(1))
    }
}

proof fn lemma_kept_push(lines: Seq<Seq<char>>, line: Seq<char>)
    ensures
        kept(lines.push(line)) == if reads_go(line) {
            kept(lines)
        } else {
            kept(lines).push(line)
        },
    decreases lines.len(),
{
    let all = lines.push(line);
    if lines.len() == 0 {
        assert(all.skip(1).len() == 0);
        assert(kept(all.skip(1)) =~= Seq::empty());
        assert(all[0] == line);
        assert(kept(all) =~= if reads_go(line) {
            kept(lines)
        } else {
            kept(lines).push(line)
        });
    } else {
        assert(all.skip(1) =~= lines.skip(1).push(line));
        assert(all[0] == lines[0]);
        lemma_kept_push(lines.skip(1), line);
        assert(kept(all) =~= if reads_go(line) {
            kept(lines)
        } else {
            kept(lines).push(line)
        });
    }
}

proof fn lemma_ink_ended(lines: Seq<Seq<char>>)
    ensures
        ink(tsql::ended(lines)) == ink_of(lines),
    decreases lines.len(),
{
    if lines.len() > 0 {
        let front = lines.drop_last();
        let last = lines.last();
        lemma_ink_ended(front);
        lemma_ink_append(tsql::ended(front), last.push('\n'));
        assert(last.push('\n') =~= last + seq!['\n']);
        lemma_ink_append(last, seq!['\n']);
        lemma_ink_blank(seq!['\n']);
        assert(lines =~= front + seq![last]);
        lemma_ink_of_append(front, seq![last]);
        lemma_ink_of_one(last);
        assert(ink(tsql::ended(lines)) =~= ink_of(lines));
    }
}

/// The batches of groups of lines hold the lines but for white space.
proof fn lemma_ink_groups(lines: Seq<Seq<char>>)
    ensures
        ({
            let groups = text::split_by(lines, tsql::go_line());
            groups.len() >= 1 && ink_of(tsql::batches_of(groups.drop_last())) + ink_of(
                groups.last(),
            ) == ink_of(kept(lines))
        }),
    decreases lines.len(),
{
    let p = tsql::go_line();
    let groups = text::split_by(lines, p);
    text::lemma_split_len(lines, p);
    if lines.len() == 0 {
        assert(groups.drop_last() =~= Seq::empty());
        assert(groups.last() =~= Seq::empty());
        assert(tsql::batches_of(groups.drop_last()) =~= Seq::empty());
        assert(ink_of(tsql::batches_of(groups.drop_last())) + ink_of(groups.last()) =~= ink_of(
            kept(lines),
        ));
    } else {
        let front = lines.drop_last();
        let last = lines.last();
        lemma_ink_groups(front);
        law_go_lines(last);
        assert(lines =~= front.push(last));
        lemma_kept_push(front, last);
        let before = text::split_by(front, p);
        text::lemma_split_len(front, p);
        if p(last) {
            assert(groups.drop_last() =~= before);
            let t = text::trim(tsql::ended(before.last()));
            lemma_ink_trim(tsql::ended(before.last()));
            lemma_ink_ended(before.last());
            let rest = tsql::batches_of(before.drop_last());
            let all = tsql::batches_of(before);
            if t.len() == 0 {
                assert(ink(t) =~= Seq::empty());
            } else {
                assert(all =~= rest + seq![t]);
                lemma_ink_of_append(rest, seq![t]);
                lemma_ink_of_one(t);
            }
            assert(ink_of(all) =~= ink_of(rest) + ink_of(before.last()));
            assert(ink_of(all) + ink_of(groups.last()) =~= ink_of(all));
        } else {
            assert(groups.drop_last() =~= before.drop_last());
            assert(groups.last() =~= before.last() + seq![last]);
            lemma_ink_of_append(before.last(), seq![last]);
            assert(kept(lines) =~= kept(front) + seq![last]);
            lemma_ink_of_append(kept(front), seq![last]);
            let b = ink_of(tsql::batches_of(before.drop_last()));
            assert(b + (ink_of(before.last()) + ink_of(seq![last])) =~= (b + ink_of(
                before.last(),
            )) + ink_of(seq![last]));
        }
    }
}

/// No text is lost and none is added: but for white space, the batches are the lines of the script
/// that are not `GO`, in their order.
pub proof fn law_batches_keep_the_text(script: Seq<char>)
    ensures
        ink_of(tsql::batches(script)) == ink_of(kept(text::lines(script))),
{
    let lines = text::lines(script);
    let p = tsql::go_line();
    let groups = text::split_by(lines, p);
    lemma_ink_groups(lines);
    let t = text::trim(tsql::ended(groups.last()));
    lemma_ink_trim(tsql::ended(groups.last()));
    lemma_ink_ended(groups.last());
    let rest = tsql::batches_of(groups.drop_last());
    let all = tsql::batches_of(groups);
    if t.len() == 0 {
        assert(ink(t) =~= Seq::empty());
        assert(ink_of(all) =~= ink_of(rest) + ink_of(groups.last()));
    } else {
        assert(all =~= rest + seq![t]);
        lemma_ink_of_append(rest, seq![t]);
        lemma_ink_of_one(t);
    }
}

proof fn lemma_lines_append(a: Seq<char>, b: Seq<char>)
    requires
        a.len() > 0 ==> a.last() == '\n',
    ensures
        text::lines(a + b) == text::lines(a) + text::lines(b),
    decreases a.len(),
{
    if a.len() == 0 {
        assert(a + b =~= b);
        assert(!a.contains('\n'));
        law_lines(a, b);
        assert(text::lines(a) + text::lines(b) =~= text::lines(b));
    } else {
        text::lemma_find_first(a, '\n');
        let i = text::find(a, '\n');
        assert(i < a.len()) by {
            if i == a.len() {
                assert(a[a.len() - 1] != '\n');
            }
        }
        let first = a.take(i);
        let rest = a.skip(i + 1);
        assert(!first.contains('\n')) by {
            if first.contains('\n') {
                let j = choose|j: int| 0 <= j < first.len() && first[j] == '\n';
                assert(a[j] == '\n');
            }
        }
        assert(rest.len() > 0 ==> rest.last() == a.last());
        assert(a =~= first.push('\n') + rest);
        assert(a + b =~= first.push('\n') + (rest + b));
        law_lines(first, rest);
        law_lines(first, rest + b);
        lemma_lines_append(rest, b);
        assert(text::lines(a + b) =~= text::lines(a) + text::lines(b));
    }
}

proof fn lemma_batches_of_append(a: Seq<Seq<Seq<char>>>, b: Seq<Seq<Seq<char>>>)
    ensures
        tsql::batches_of(a + b) == tsql::batches_of(a) + tsql::batches_of(b),
    decreases b.len(),
{
    if b.len() == 0 {
        assert(a + b =~= a);
        assert(tsql::batches_of(a) + tsql::batches_of(b) =~= tsql::batches_of(a));
    } else {
        assert((a + b).drop_last() =~= a + b.drop_last());
        assert((a + b).last() == b.last());
        lemma_batches_of_append(a, b.drop_last());
        assert(tsql::batches_of(a + b) =~= tsql::batches_of(a) + tsql::batches_of(b));
    }
}

/// A `GO` line divides a script: the batches are those of what stands before it, and then those of
/// what stands behind it.
pub proof fn law_go_divides(a: Seq<char>, line: Seq<char>, b: Seq<char>)
    requires
        a.len() > 0 ==> a.last() == '\n',
        !line.contains('\n'),
        reads_go(line),
    ensures
        tsql::batches(a + line.push('\n') + b) == tsql::batches(a) + tsql::batches(b),
{
    let p = tsql::go_line();
    let s = line.push('\n') + b;
    assert(a + line.push('\n') + b =~= a + s);
    lemma_lines_append(a, s);
    law_lines(line, b);
    let g = text::lines(s)[0];
    assert(reads_go(g)) by {
        if line.len() > 0 && line.last() == '\r' {
            let front = line.drop_last();
            assert(g == front);
            text::lemma_trim_commutes(line);
            text::lemma_trim_commutes(front);
            assert(text::trim_end(line) == text::trim_end(front));
        }
    }
    law_go_lines(g);
    let la = text::lines(a);
    let lb = text::lines(b);
    assert(text::lines(a + s) =~= la.push(g) + lb);
    text::lemma_split_concat(la, g, lb, p);
    lemma_batches_of_append(text::split_by(la, p), text::split_by(lb, p));
}

/// Quoting goes character by character: a `]` is doubled and every other character stays, between
/// a `[` and a `]`.
pub proof fn law_quote_by_characters(a: Seq<char>, c: char, b: Seq<char>)
    ensures
        tsql::quoted(Seq::empty()) == seq!['[', ']'],
        tsql::quoted(a) == seq!['['] + tsql::doubled(a) + seq![']'],
        tsql::doubled(a + b) == tsql::doubled(a) + tsql::doubled(b),
        tsql::doubled(seq![c]) == (if c == ']' {
            seq![']', ']']
        } else {
            seq![c]
        }),
        !a.contains(']') ==> tsql::quoted(a) == seq!['['] + a + seq![']'],
    decreases a.len(),
{
    assert(tsql::doubled(Seq::<char>::empty()) == Seq::<char>::empty());
    assert(tsql::quoted(Seq::<char>::empty()) =~= seq!['[', ']']);
    assert(seq![c].skip(1) =~= Seq::empty());
    assert(tsql::doubled(seq![c]) =~= if c == ']' {
        seq![']', ']']
    } else {
        seq![c]
    });
    if a.len() == 0 {
        assert(a + b =~= b);
        assert(tsql::doubled(a) + tsql::doubled(b) =~= tsql::doubled(b));
        assert(a =~= Seq::empty());
        assert(seq!['['] + a + seq![']'] =~= seq!['[', ']']);
    } else {
        let t = a.skip(1);
        assert((a + b).skip(1) =~= t + b);
        assert((a + b)[0] == a[0]);
        law_quote_by_characters(t, c, b);
        assert(tsql::doubled(a + b) =~= tsql::doubled(a) + tsql::doubled(b));
        if !a.contains(']') {
            assert(a.contains(a[0]));
            assert(!t.contains(']')) by {
                if t.contains(']') {
                    let j = choose|j: int| 0 <= j < t.len() && t[j] == ']';
                    assert(a[j + 1] == ']');
                }
            }
            assert(tsql::quoted(t).len() == t.len() + 2);
            assert(tsql::doubled(t) =~= tsql::quoted(t).subrange(1, t.len() as int + 1));
            assert(tsql::doubled(t) =~= t);
            assert(tsql::doubled(a) =~= a);
        }
    }
}

// ---------------------------------------------------------------------------
// JSON
// ---------------------------------------------------------------------------

/// A field of an object is found by its name, and nothing is found under another name; what is no
/// object has no fields.
pub proof fn law_fields_by_name(entries: Seq<(Seq<char>, JsonV)>, i: int, other: Seq<char>)
    requires
        json::ascending(entries),
        0 <= i < entries.len(),
        forall|j: int| 0 <= j < entries.len() ==> (#[trigger] entries[j]).0 != other,
    ensures
        JsonV::Object(entries).field(entries[i].0) == Some(entries[i].1),
        JsonV::Object(entries).field(other) is None,
{
    json::lemma_fields(entries);
    let v = JsonV::Object(entries);
    if json::fields(entries).contains_key(other) {
        let j = choose|j: int| #[trigger] json::is_field(entries, other, j);
        assert(json::is_field(entries, other, j));
        assert(entries[j].0 == other);
    }
}

/// A value that is no object, and an object without fields, have no field.
pub proof fn law_no_fields(v: JsonV, name: Seq<char>)
    requires
        v matches JsonV::Object(entries) ==> entries.len() == 0,
    ensures
        v.field(name) is None,
        v.text_field(name) is None,
        v.array_field(name) is None,
        v.object_field(name) is None,
{
    if v is Object && v.field(name) is Some {
        let j = choose|j: int| #[trigger] json::is_field(v->Object_0, name, j);
        assert(json::is_field(v->Object_0, name, j));
    }
}

/// A field is a text, an array or an object if and only if its value is one, and then it is that
/// one.
pub proof fn law_typed_fields(v: JsonV, name: Seq<char>, s: Seq<char>, items: Seq<JsonV>)
    ensures
        v.text_field(name) == Some(s) <==> v.field(name) == Some(JsonV::Str(s)),
        v.text_field(name) is Some <==> (v.field(name) matches Some(x) && x is Str),
        v.array_field(name) == Some(items) <==> v.field(name) == Some(JsonV::Array(items)),
        v.array_field(name) is Some <==> (v.field(name) matches Some(x) && x is Array),
        v.object_field(name) is Some <==> (v.field(name) matches Some(x) && x is Object),
        v.object_field(name) matches Some(e) ==> v.field(name) == Some(JsonV::Object(e)),
{
}

/// A list of values is as long as the list of what they are, and each is what it is.
pub proof fn law_models(items: Seq<Json>, i: int)
    ensures
        json::models(items).len() == items.len(),
        0 <= i < items.len() ==> json::models(items)[i] == items[i].model(),
{
}

/// The fields of an object, as values, are those of the object, each with its name and in its place.
pub proof fn law_entry_models(entries: Seq<(String, Json)>, i: int)
    ensures
        json::entry_models(entries).len() == entries.len(),
        0 <= i < entries.len() ==> json::entry_models(entries)[i] == (
            entries[i].0@,
            entries[i].1.model(),
        ),
{
}

/// What each JSON value is.
pub proof fn law_values(
    b: bool,
    u: u64,
    i: i64,
    f: Float,
    s: String,
    items: Vec<Json>,
    fields: Object,
)
    ensures
        Json::Float(f).model() == JsonV::Float(f.bits()),
        Json::Object(fields).model() == JsonV::Object(fields.model()),
        Json::Null.model() == JsonV::Null,
        Json::Bool(b).model() == JsonV::Bool(b),
        Json::Unsigned(u).model() == JsonV::Int(u as int),
        Json::Signed(i).model() == JsonV::Int(i as int),
        Json::Str(s).model() == JsonV::Str(s@),
        Json::Array(items).model() == JsonV::Array(json::models(items@)),
{
    assert(Json::Array(items).model()->Array_0 =~= json::models(items@));
}

// ---------------------------------------------------------------------------
// Parameters
// ---------------------------------------------------------------------------

/// An integer that fits 64 bits is bound as itself, one beyond as the integer that is less by two
/// to the power 64; null is bound as null and nothing else is; a truth value, a double and a text
/// are bound as themselves, and so is the JSON text of an array or an object.
pub proof fn law_bound_values(v: JsonV)
    ensures
        query::param_of(v) is NullInt <==> v is Null,
        v matches JsonV::Int(i) ==> (i64::MIN <= i <= i64::MAX ==> (query::param_of(
            v,
        ) matches Param::BigInt(n) && n as int == i)),
        v matches JsonV::Int(i) ==> (i64::MAX < i <= u64::MAX ==> (query::param_of(
            v,
        ) matches Param::BigInt(n) && n + u64::MAX + 1 == i)),
        v matches JsonV::Bool(b) ==> query::param_of(v) == Param::Bit(b),
        v matches JsonV::Float(bits) ==> query::param_of(v) == Param::Double(bits),
        v matches JsonV::Str(s) ==> query::param_of(v) == Param::Text(s),
        v is Array || v is Object ==> query::param_of(v) == Param::Text(json::json_text(v)),
{
}

/// Values that differ, of those that can be parameters as they are, are bound differently.
pub proof fn law_bound_values_differ(a: JsonV, b: JsonV)
    requires
        a is Null || a is Bool || a is Float || a is Str || (a matches JsonV::Int(i) && i64::MIN <= i
            <= i64::MAX),
        b is Null || b is Bool || b is Float || b is Str || (b matches JsonV::Int(i) && i64::MIN <= i
            <= i64::MAX),
        query::param_of(a) == query::param_of(b),
    ensures
        a == b,
{
}

/// Parameter `i` is value `i`: there are as many as values, and each is bound on its own.
pub proof fn law_bound_in_order(values: Seq<JsonV>, i: int)
    ensures
        query::params_for(values).len() == values.len(),
        0 <= i < values.len() ==> query::params_for(values)[i] == query::param_of(values[i]),
{
}

/// The parameters of a call are the elements of the array `params`; without such an array there
/// are none.
pub proof fn law_call_params(v: JsonV, items: Seq<JsonV>)
    ensures
        v.field("params"@) == Some(JsonV::Array(items)) ==> query::call_params(v) == items,
        !(v.field("params"@) matches Some(x) && x is Array) ==> query::call_params(v).len() == 0,
{
}

// ---------------------------------------------------------------------------
// Calls
// ---------------------------------------------------------------------------

/// A call asks for a query if and only if it has a text `sql`: then for that text with the
/// parameters of the call, and otherwise it fails for want of it.
pub proof fn law_query_asked(v: JsonV, sql: Seq<char>, shape: Shape)
    ensures
        v.field("sql"@) == Some(JsonV::Str(sql)) ==> call::query_of(v, shape) == Ok::<
            TaskV,
            Failure,
        >(TaskV::Query { sql, params: query::call_params(v), shape }),
        !(v.field("sql"@) matches Some(x) && x is Str) ==> call::query_of(v, shape) == Err::<
            TaskV,
            Failure,
        >(Failure::MissingSql),
        call::plain_query(sql, shape) == (TaskV::Query { sql, params: Seq::empty(), shape }),
{
}

/// What a task asks for is all that it holds.
pub proof fn law_tasks(sql: String, params: Vec<Json>, shape: Shape, statements: Vec<String>)
    ensures
        (Task::Query { sql, params, shape }).model() == (TaskV::Query {
            sql: sql@,
            params: json::models(params@),
            shape,
        }),
        (Task::Simple { sql }).model() == (TaskV::Simple { sql: sql@ }),
        (Task::Execute { sql, params }).model() == (TaskV::Execute {
            sql: sql@,
            params: json::models(params@),
        }),
        (Task::Batch { statements }).model() == (TaskV::Batch {
            statements: statements@.map_values(|s: String| s@),
        }),
{
}

/// A call comes to what it should if and only if it is the very task, or the very failure.
pub proof fn law_asks(t: Task, f: Failure, m: TaskV, g: Failure)
    ensures
        call::asks(Ok(t), Ok(m)) <==> t.model() == m,
        call::asks(Err(f), Err(g)) <==> f == g,
        !call::asks(Ok(t), Err(g)),
        !call::asks(Err(f), Ok(m)),
{
}

/// The statements of two lists one after the other are those of the first and then those of the
/// second; a text is a statement, and nothing else is.
pub proof fn law_statements_append(a: Seq<JsonV>, b: Seq<JsonV>, v: JsonV)
    ensures
        call::strings_of(a + b) == call::strings_of(a) + call::strings_of(b),
        v matches JsonV::Str(s) ==> call::strings_of(seq![v]) == seq![s],
        !(v is Str) ==> call::strings_of(seq![v]) == Seq::<Seq<char>>::empty(),
        call::strings_of(Seq::empty()) == Seq::<Seq<char>>::empty(),
    decreases b.len(),
{
    assert(seq![v].drop_last() =~= Seq::empty());
    assert(call::strings_of(seq![v].drop_last()) =~= Seq::empty());
    assert(call::strings_of(seq![v]) =~= match v.text() {
        Some(s) => seq![s],
        None => Seq::empty(),
    });
    if b.len() == 0 {
        assert(a + b =~= a);
        assert(call::strings_of(a) + call::strings_of(b) =~= call::strings_of(a));
    } else {
        assert((a + b).drop_last() =~= a + b.drop_last());
        assert((a + b).last() == b.last());
        law_statements_append(a, b.drop_last(), v);
        assert(call::strings_of(a + b) =~= call::strings_of(a) + call::strings_of(b));
    }
}

/// Of a list of texts every one is a statement, in its place.
pub proof fn law_every_statement(items: Seq<JsonV>)
    requires
        forall|i: int| 0 <= i < items.len() ==> (#[trigger] items[i]) is Str,
    ensures
        call::strings_of(items).len() == items.len(),
        forall|i: int|
            0 <= i < items.len() ==> JsonV::Str(#[trigger] call::strings_of(items)[i]) == items[i],
    decreases items.len(),
{
    if items.len() > 0 {
        let front = items.drop_last();
        assert forall|i: int| 0 <= i < front.len() implies (#[trigger] front[i]) is Str by {
            assert(front[i] == items[i]);
        }
        law_every_statement(front);
        assert(items[items.len() - 1] is Str);
        let before = call::strings_of(front);
        let after = call::strings_of(items);
        assert forall|i: int| 0 <= i < items.len() implies JsonV::Str(#[trigger] after[i])
            == items[i] by {
            if i < front.len() {
                assert(after[i] == before[i]);
                assert(front[i] == items[i]);
            }
        }
    }
}

/// The statements that a transaction holds are those that it was made of, each in its place.
pub proof fn law_views(v: Seq<String>, i: int)
    ensures
        tsql::views(v).len() == v.len(),
        0 <= i < v.len() ==> tsql::views(v)[i] == v[i]@,
{
}

/// The value of a query is that of the first field of its first row, whatever rows follow: the
/// only one, or the one whose name comes before all the other names.
pub proof fn law_scalar(entries: Seq<(Seq<char>, JsonV)>, rest: Seq<JsonV>, j: int)
    requires
        json::ascending(entries),
        0 <= j < entries.len(),
        forall|k: int|
            0 <= k < entries.len() && k != j ==> text::text_lt(
                entries[j].0,
                (#[trigger] entries[k]).0,
            ),
    ensures
        call::answer_of(Shape::FirstValue, seq![JsonV::Object(entries)] + rest) == JsonV::Object(
            seq![("value"@, entries[j].1)],
        ),
{
    let rows = seq![JsonV::Object(entries)] + rest;
    assert(rows[0] == JsonV::Object(entries));
    if j > 0 {
        assert(text::text_lt(entries[j].0, entries[0].0));
        assert(text::text_lt(entries[0].0, entries[j].0));
        text::lemma_text_lt_transitive(entries[0].0, entries[j].0, entries[0].0);
        text::lemma_text_lt_irreflexive(entries[0].0);
    }
}

/// A row with one field has the value of that field.
pub proof fn law_scalar_of_one_column(name: Seq<char>, x: JsonV, rest: Seq<JsonV>)
    ensures
        call::answer_of(Shape::FirstValue, seq![JsonV::Object(seq![(name, x)])] + rest)
            == JsonV::Object(seq![("value"@, x)]),
{
    law_scalar(seq![(name, x)], rest, 0);
}

/// The value is null where there is no row, or where the first row has no field.
pub proof fn law_scalar_of_nothing(row: JsonV, rest: Seq<JsonV>)
    requires
        row matches JsonV::Object(entries) ==> entries.len() == 0,
    ensures
        call::answer_of(Shape::FirstValue, Seq::empty()) == JsonV::Object(
            seq![("value"@, JsonV::Null)],
        ),
        call::answer_of(Shape::FirstValue, seq![row] + rest) == JsonV::Object(
            seq![("value"@, JsonV::Null)],
        ),
{
    assert((seq![row] + rest)[0] == row);
}

/// Of the rows, the first is the row of the query, all of them are its rows, and that there is one
/// is what shows that it has any; without rows there is neither a row nor a version.
pub proof fn law_answers(row: JsonV, rest: Seq<JsonV>)
    ensures
        ({
            let rows = seq![row] + rest;
            &&& call::answer_of(Shape::FirstRow, rows) == JsonV::Object(seq![("row"@, row)])
            &&& call::answer_of(Shape::Rows, rows) == JsonV::Object(
                seq![("rows"@, JsonV::Array(rows))],
            )
            &&& call::answer_of(Shape::Any, rows) == JsonV::Object(
                seq![("value"@, JsonV::Bool(true))],
            )
            &&& row.field("version"@) matches Some(x) ==> call::answer_of(Shape::Version, rows)
                == JsonV::Object(seq![("value"@, x)])
            &&& row.field("version"@) is None ==> call::answer_of(Shape::Version, rows)
                == JsonV::Object(seq![("value"@, JsonV::Null)])
        }),
        call::answer_of(Shape::FirstRow, Seq::empty()) == JsonV::Object(
            seq![("row"@, JsonV::Null)],
        ),
        call::answer_of(Shape::Rows, Seq::empty()) == JsonV::Object(
            seq![("rows"@, JsonV::Array(Seq::empty()))],
        ),
        call::answer_of(Shape::Any, Seq::empty()) == JsonV::Object(
            seq![("value"@, JsonV::Bool(false))],
        ),
        call::answer_of(Shape::Version, Seq::empty()) == JsonV::Object(
            seq![("value"@, JsonV::Null)],
        ),
{
    assert((seq![row] + rest)[0] == row);
}

/// A list of texts is the array of these texts, each in its place.
pub proof fn law_string_array(texts: Seq<Seq<char>>, i: int)
    ensures
        call::string_array(texts) is Array,
        call::string_array(texts)->Array_0.len() == texts.len(),
        0 <= i < texts.len() ==> call::string_array(texts)->Array_0[i] == JsonV::Str(texts[i]),
{
}

/// An object with one field holds that field and nothing else.
pub proof fn law_one(name: Seq<char>, x: JsonV, other: Seq<char>)
    requires
        other != name,
    ensures
        call::one(name, x) == JsonV::Object(seq![(name, x)]),
        call::one(name, x).field(name) == Some(x),
        call::one(name, x).field(other) is None,
{
    let entries = seq![(name, x)];
    assert(entries[0].0 == name);
    law_fields_by_name(entries, 0, other);
}

/// A call that succeeds is answered with its answer, and one that fails with an object whose only
/// field `error` is the message of the failure.
pub proof fn law_replies(answer: Json, failure: Failure)
    ensures
        call::reply_of(Ok(answer)) == answer.model(),
        call::reply_of(Err(failure)) == JsonV::Object(
            seq![("error"@, JsonV::Str(failure.text()))],
        ),
{
}

/// The argument of a call is the value that its bytes denote; without bytes, or where they denote
/// none, it is null.
pub proof fn law_arguments(bytes: Seq<u8>, v: JsonV)
    ensures
        json::json_read(bytes) == Some(v) ==> call::argument_of(Some(bytes)) == v,
        json::json_read(bytes) is None ==> call::argument_of(Some(bytes)) == JsonV::Null,
        call::argument_of(None) == JsonV::Null,
        call::or_null(Some(v)) == v,
        call::or_null(None) == JsonV::Null,
{
}

/// The messages: what is missing, or what was done and then the cause.
pub proof fn law_messages(a: String, e: String)
    ensures
        Failure::MissingSql.text() == "missing sql"@,
        Failure::MissingStatements.text() == "missing statements array"@,
        Failure::MissingTable.text() == "missing table"@,
        Failure::MissingUrl.text() == "missing url"@,
        Failure::MissingParts.text() == "missing parts object"@,
        Failure::MissingName.text() == "missing name"@,
        Failure::MissingScript.text() == "missing script"@,
        Failure::Panicked.text() == "stryke-mssql handler panicked"@,
        Failure::ParseUrl(e).text() == "parse url: "@ + e@,
        Failure::Connect(a, e).text() == "connect "@ + a@ + ": "@ + e@,
        Failure::Handshake(e).text() == "tds handshake: "@ + e@,
        Failure::Query(e).text() == "query: "@ + e@,
        Failure::ReadRows(e).text() == "read rows: "@ + e@,
        Failure::Execute(e).text() == "execute: "@ + e@,
        Failure::SimpleQuery(e).text() == "simple_query: "@ + e@,
        Failure::Read(e).text() == "read: "@ + e@,
        Failure::Begin(e).text() == "begin: "@ + e@,
        Failure::Statement(e).text() == "statement failed (rolled back): "@ + e@,
        Failure::Commit(e).text() == "commit: "@ + e@,
{
}

// ---------------------------------------------------------------------------
// Connections
// ---------------------------------------------------------------------------

/// Every option that is a text is what the connection takes, under its name; one that is missing
/// or of another type has its default.
pub proof fn law_text_options(opts: JsonV, s: Seq<char>)
    ensures
        opts.field("url"@) == Some(JsonV::Str(s)) ==> conn::key_for(opts).url == s,
        opts.field("host"@) == Some(JsonV::Str(s)) ==> conn::key_for(opts).host == s,
        opts.field("database"@) == Some(JsonV::Str(s)) ==> conn::key_for(opts).database == s,
        opts.field("username"@) == Some(JsonV::Str(s)) ==> conn::key_for(opts).username == s,
        opts.field("password"@) == Some(JsonV::Str(s)) ==> conn::key_for(opts).password == s,
        opts.field("encrypt"@) == Some(JsonV::Str(s)) ==> conn::key_for(opts).encrypt == s,
        !(opts.field("url"@) matches Some(x) && x is Str) ==> conn::key_for(opts).url == ""@,
        !(opts.field("host"@) matches Some(x) && x is Str) ==> conn::key_for(opts).host
            == "127.0.0.1"@,
        !(opts.field("database"@) matches Some(x) && x is Str) ==> conn::key_for(opts).database
            == ""@,
        !(opts.field("username"@) matches Some(x) && x is Str) ==> conn::key_for(opts).username
            == ""@,
        !(opts.field("password"@) matches Some(x) && x is Str) ==> conn::key_for(opts).password
            == ""@,
        !(opts.field("encrypt"@) matches Some(x) && x is Str) ==> conn::key_for(opts).encrypt
            == "required"@,
{
}

/// The port is the option, if that is a port number; a number beyond is taken modulo 65536, and
/// without a number from 0 on the port is 1433. The certificate is trusted if and only if the
/// option is `true` or 1.
pub proof fn law_other_options(opts: JsonV, i: int)
    ensures
        opts.field("port"@) == Some(JsonV::Int(i)) && 0 <= i < 65536 ==> conn::key_for(opts).port
            == i,
        opts.field("port"@) == Some(JsonV::Int(i)) && 0 <= i ==> (i - conn::key_for(opts).port)
            % 65536 == 0,
        opts.field("port"@) == Some(JsonV::Int(i)) && i < 0 ==> conn::key_for(opts).port == 1433,
        !(opts.field("port"@) matches Some(x) && x is Int) ==> conn::key_for(opts).port == 1433,
        conn::key_for(opts).trust <==> opts.field("trust_cert"@) == Some(JsonV::Bool(true))
            || opts.field("trust_cert"@) == Some(JsonV::Int(1)),
{
}

/// Connections are shared only where everything about them is the same.
pub proof fn law_keys_tell_apart(a: ConnKey, b: ConnKey)
    ensures
        a@ == b@ <==> a.url@ == b.url@ && a.host@ == b.host@ && a.port == b.port && a.database@
            == b.database@ && a.username@ == b.username@ && a.password@ == b.password@
            && a.encrypt@ == b.encrypt@ && a.trust == b.trust,
        a@.url == a.url@,
        a@.host == a.host@,
        a@.port == a.port,
        a@.database == a.database@,
        a@.username == a.username@,
        a@.password == a.password@,
        a@.encrypt == a.encrypt@,
        a@.trust == a.trust,
{
}

/// A connection without a connection string is configured from the options: the login is the user
/// and the password that are given, the server is the host and the port that are given, and so is
/// the database, unless its name is empty.
pub proof fn law_login_and_server(key: ConnKeyV)
    ensures
        config::settings_for(key).auth matches Auth::SqlServer { user, password } && user
            == key.username && password == key.password,
        config::settings_for(key).host == Some(key.host),
        config::settings_for(key).port == Some(key.port),
        key.database.len() > 0 ==> config::settings_for(key).database == Some(key.database),
        key.database.len() == 0 ==> config::settings_for(key).database is None,
        config::settings_for(key).instance is None,
        config::settings_for(key).application is None,
        !config::settings_for(key).readonly,
{
}

/// The same, on the options of a call: user and password are the options `username` and
/// `password`.
pub proof fn law_login_from_options(opts: JsonV, user: Seq<char>, password: Seq<char>)
    requires
        opts.field("username"@) == Some(JsonV::Str(user)),
        opts.field("password"@) == Some(JsonV::Str(password)),
    ensures
        config::settings_for(conn::key_for(opts)).auth == (Auth::SqlServer { user, password }),
{
}

/// Configurations from options that differ in the user or in the password differ.
pub proof fn law_logins_differ(
    a: JsonV,
    b: JsonV,
    user_a: Seq<char>,
    password_a: Seq<char>,
    user_b: Seq<char>,
    password_b: Seq<char>,
)
    requires
        a.field("username"@) == Some(JsonV::Str(user_a)),
        a.field("password"@) == Some(JsonV::Str(password_a)),
        b.field("username"@) == Some(JsonV::Str(user_b)),
        b.field("password"@) == Some(JsonV::Str(password_b)),
        user_a != user_b || password_a != password_b,
    ensures
        config::settings_for(conn::key_for(a)) != config::settings_for(conn::key_for(b)),
{
    law_login_from_options(a, user_a, password_a);
    law_login_from_options(b, user_b, password_b);
}

/// Every certificate is accepted if and only if that is asked for; encryption is off or not
/// supported if and only if that is asked for by its name, and otherwise it is required.
pub proof fn law_trust_and_encryption(key: ConnKeyV)
    ensures
        key.trust ==> config::settings_for(key).trust == Trust::All,
        !key.trust ==> config::settings_for(key).trust == Trust::System,
        config::settings_for(key).encryption == Encryption::Off <==> key.encrypt == "off"@,
        config::settings_for(key).encryption == Encryption::NotSupported <==> key.encrypt
            == "not_supported"@,
        config::settings_for(key).encryption == Encryption::Required <==> key.encrypt != "off"@
            && key.encrypt != "not_supported"@,
        config::settings_for(key).encryption == config::encryption_of(key.encrypt),
{
    reveal_strlit("off");
    reveal_strlit("not_supported");
    assert("off"@.len() != "not_supported"@.len());
}

/// Configurations of connections that differ in the server, the database or the login differ.
pub proof fn law_configurations_differ(a: ConnKeyV, b: ConnKeyV)
    requires
        config::settings_for(a) == config::settings_for(b),
    ensures
        a.host == b.host,
        a.port == b.port,
        a.database == b.database,
        a.username == b.username,
        a.password == b.password,
        a.trust == b.trust,
{
    assert(a.database.len() == 0 && b.database.len() == 0 ==> a.database =~= b.database);
}

/// A connection is opened if and only if none is open, and one that is open is worked on; asking
/// changes nothing, and an event tells what to do next whatever is open.
pub proof fn law_connects_only_once<H>(open: Map<ConnKeyV, H>, key: ConnKeyV, handle: H, failed: bool)
    ensures
        cache::move_after(open, key, Event::<H>::Asked) == Move::Run <==> open.contains_key(key),
        cache::move_after(open, key, Event::<H>::Asked) == Move::Connect <==> !open.contains_key(
            key,
        ),
        cache::open_after(open, key, Event::<H>::Asked) == open,
        cache::move_after(open, key, Event::Opened(handle)) == Move::Run,
        cache::move_after(open, key, Event::<H>::Refused) == Move::Report,
        cache::move_after(open, key, Event::<H>::Ended { failed }) == Move::Report,
        cache::open_after(open, key, Event::<H>::Ended { failed: false }) == open,
        cache::open_after(open, key, Event::Opened(handle)).contains_key(key),
        cache::open_after(open, key, Event::Opened(handle))[key] == handle,
{
}

// ---------------------------------------------------------------------------
// Transactions
// ---------------------------------------------------------------------------

/// The sum of counts adds up: that of two lists is the sum of theirs, and that of one count is the
/// count.
pub proof fn law_total(a: Seq<u64>, b: Seq<u64>, n: u64)
    ensures
        batch::total(Seq::empty()) == 0,
        batch::total(seq![n]) == n,
        batch::total(a + b) == batch::total(a) + batch::total(b),
    decreases b.len(),
{
    assert(seq![n].drop_last() =~= Seq::empty());
    assert(batch::total(seq![n].drop_last()) == 0);
    if b.len() == 0 {
        assert(a + b =~= a);
    } else {
        assert((a + b).drop_last() =~= a + b.drop_last());
        assert((a + b).last() == b.last());
        law_total(a, b.drop_last(), n);
    }
}

/// The rows that outcomes affect add up in the same way; a failure affects none.
pub proof fn law_rows(a: Seq<Outcome>, n: u64, e: String)
    ensures
        batch::rows(Seq::empty()) == 0,
        batch::rows(a.push(Outcome::Done(n))) == batch::rows(a) + n,
        batch::rows(a.push(Outcome::Failed(e))) == batch::rows(a),
{
    assert(a.push(Outcome::Done(n)).drop_last() =~= a);
    assert(a.push(Outcome::Failed(e)).drop_last() =~= a);
}

/// Only a sum that is too large does not fit, and only a statement that is done adds to it.
pub proof fn law_what_fits(phase: Phase, n: nat, outcome: Outcome)
    ensures
        !batch::total_fits(phase, n, outcome) <==> (phase matches Phase::Running { done, total }
            && outcome matches Outcome::Done(rows) && done < n && total + rows > u64::MAX),
{
}

/// A statement that is done adds the rows that it affected to those before it, and the next one
/// follows; an action is what its phase says.
pub proof fn law_statement_counts(done: usize, sum: u64, n: nat, rows: u64)
    requires
        done < n <= usize::MAX,
        sum + rows <= u64::MAX,
    ensures
        batch::phase_after(
            Phase::Running { done, total: sum },
            n,
            Outcome::Done(rows),
        ) matches Phase::Running { done: d, total: t } && d == done + 1 && t == sum + rows,
        batch::action_in(Phase::Running { done, total: sum }, n) == Action::Execute(done),
        batch::action_in(Phase::Start, n) == Action::Begin,
{
}

/// What is over stays over.
pub proof fn law_over_stays(result: Result<u64, Failure>, n: nat, outcome: Outcome)
    ensures
        batch::phase_after(Phase::Over { result }, n, outcome) == (Phase::Over { result }),
        batch::action_in(Phase::Over { result }, n) == Action::Stop,
{
}

// ---------------------------------------------------------------------------
// Connection strings
// ---------------------------------------------------------------------------

/// Whether a name is that of a password: `password` or `pwd`, in any case, with white space at most
/// around it.
pub open spec fn names_password(k: Seq<char>) -> bool {
    text::lowercase(text::trim(k)) == "password"@ || text::lowercase(text::trim(k)) == "pwd"@
}

/// The keys of the known labels and of passwords in ASCII: the letters between the white space, in
/// lower case.
pub proof fn law_key(a: Seq<char>, m: Seq<char>, b: Seq<char>)
    requires
        blank(a),
        blank(b),
        m.len() > 0 ==> !text::is_space(m[0]) && !text::is_space(m.last()),
    ensures
        ado::key_of(a + m + b) == text::lowercase(m),
        ado::is_secret(ado::key_of(a + m + b)) <==> text::lowercase(m) == "password"@
            || text::lowercase(m) == "pwd"@,
{
    law_trim(a, m, b);
}

/// The entry of a piece `name=value`: under the name in lower case there is `***` for a password,
/// and the trimmed value for anything else. A piece without `=` has no entry.
pub proof fn law_entry(k: Seq<char>, v: Seq<char>)
    requires
        !k.contains('='),
    ensures
        ado::entry(k.push('=') + v) == Some(
            (
                text::lowercase(text::trim(k)),
                if names_password(k) {
                    "***"@
                } else {
                    text::trim(v)
                },
            ),
        ),
        ado::entry(k) is None,
{
    law_split_once(k, '=', v);
}

/// A piece is masked if and only if it has a password: the name stays as it is, and the value is
/// replaced.
pub proof fn law_masked_piece(k: Seq<char>, v: Seq<char>)
    requires
        !k.contains('='),
    ensures
        names_password(k) ==> ado::redacted_piece(k.push('=') + v) == k.push('=') + "***"@,
        !names_password(k) ==> ado::redacted_piece(k.push('=') + v) == k.push('=') + v,
        ado::redacted_piece(k) == k,
{
    law_split_once(k, '=', v);
}

/// Redacting goes piece by piece, and the pieces are joined again.
pub proof fn law_every_piece_is_redacted(url: Seq<char>, i: int)
    ensures
        ado::redacted(url) == text::join(ado::redacted_pieces(quoting::pieces(url)), ';'),
        ado::redacted_pieces(quoting::pieces(url)).len() == quoting::pieces(url).len(),
        0 <= i < quoting::pieces(url).len() ==> ado::redacted_pieces(quoting::pieces(url))[i]
            == ado::redacted_piece(quoting::pieces(url)[i]),
{
}

/// There is a value under a key if and only if some piece has an entry with that key, and it is
/// that of the last such piece.
pub proof fn law_last_entry_counts(pieces: Seq<Seq<char>>, key: Seq<char>, i: int)
    requires
        0 <= i < pieces.len(),
        ado::entry(pieces[i]) matches Some(e) && e.0 == key,
        forall|j: int|
            i < j < pieces.len() ==> (ado::entry(#[trigger] pieces[j]) matches Some(e) ==> e.0
                != key),
    ensures
        ado::parsed(pieces).contains_key(key),
        ado::parsed(pieces)[key] == JsonV::Str(ado::entry(pieces[i])->Some_0.1),
    decreases pieces.len(),
{
    if i < pieces.len() - 1 {
        let front = pieces.drop_last();
        assert(front[i] == pieces[i]);
        assert forall|j: int| i < j < front.len() implies (ado::entry(
            #[trigger] front[j],
        ) matches Some(e) ==> e.0 != key) by {
            assert(front[j] == pieces[j]);
        }
        law_last_entry_counts(front, key, i);
        assert(ado::entry(pieces[pieces.len() - 1]) matches Some(e) ==> e.0 != key);
    }
}

/// Nothing is read that no piece has.
pub proof fn law_no_other_entries(pieces: Seq<Seq<char>>, key: Seq<char>)
    requires
        ado::parsed(pieces).contains_key(key),
    ensures
        exists|i: int|
            0 <= i < pieces.len() && (ado::entry(#[trigger] pieces[i]) matches Some(e) && e.0
                == key),
    decreases pieces.len(),
{
    if pieces.len() > 0 {
        let last = pieces[pieces.len() - 1];
        assert(pieces.last() == last);
        if !(ado::entry(last) matches Some(e) && e.0 == key) {
            let front = pieces.drop_last();
            law_no_other_entries(front, key);
            let i = choose|i: int|
                0 <= i < front.len() && (ado::entry(#[trigger] front[i]) matches Some(e) && e.0
                    == key);
            assert(front[i] == pieces[i]);
        }
    }
}

/// What a connection string is read into is an object with exactly the entries of its pieces.
pub proof fn law_read_object(v: JsonV, url: Seq<char>)
    ensures
        ado::is_parsed(v, url) <==> (v matches JsonV::Object(entries) && json::ascending(entries)
            && json::fields(entries) == ado::parsed(quoting::pieces(url))),
{
}

/// The text of a component: a string is itself, null is empty, a truth value is its word, an
/// integer is written in decimal, and any other value is its JSON text.
pub proof fn law_component_texts(v: JsonV)
    ensures
        v matches JsonV::Str(s) ==> ado::value_text(v) == s,
        v is Null ==> ado::value_text(v).len() == 0,
        v == JsonV::Bool(true) ==> ado::value_text(v) == "true"@,
        v == JsonV::Bool(false) ==> ado::value_text(v) == "false"@,
        v matches JsonV::Int(i) ==> ({
            let t = ado::value_text(v);
            let first = if i < 0 {
                1int
            } else {
                0
            };
            &&& readback::read_exact(t) == (i, 0nat)
            &&& t.len() > first
            &&& i < 0 ==> t[0] == '-'
            &&& forall|j: int| first <= j < t.len() ==> is_digit(#[trigger] t[j])
            &&& t[first] == '0' ==> t.len() == 1
        }),
        v is Float || v is Array || v is Object ==> ado::value_text(v) == json::json_text(v),
{
    if let JsonV::Int(i) = v {
        readback::lemma_signed_reads_back(i);
        let first = if i < 0 {
            1int
        } else {
            0
        };
        let size: nat = (if i < 0 {
            -i
        } else {
            i
        }) as nat;
        let t = ado::value_text(v);
        let d = render::decimal(size);
        lemma_decimal_digits(size);
        assert(t.len() == first + d.len());
        assert forall|j: int| first <= j < t.len() implies is_digit(#[trigger] t[j]) by {
            assert(t[j] == d[j - first]);
        }
        assert(t[first] == d[0]);
    }
}

/// The piece of a component with a label of its own, if the component has a text.
pub open spec fn labelled(entries: Seq<(Seq<char>, JsonV)>, name: Seq<char>, label: Seq<char>) -> Seq<
    (Seq<char>, Seq<char>),
> {
    match JsonV::Object(entries).field(name) {
        Some(v) => if ado::value_text(v).len() > 0 {
            seq![(label, ado::value_text(v))]
        } else {
            Seq::empty()
        },
        None => Seq::empty(),
    }
}

/// A connection string is built of the server, the database, the user, the password, the
/// encryption and the trust in the certificate, in this order and under these labels, each if it
/// has a text, and then of the other components.
pub proof fn law_built_in_order(entries: Seq<(Seq<char>, JsonV)>)
    ensures
        ado::built_pairs(entries) == labelled(entries, "server"@, "Server"@) + labelled(
            entries,
            "database"@,
            "Database"@,
        ) + labelled(entries, "user_id"@, "User Id"@) + labelled(
            entries,
            "password"@,
            "Password"@,
        ) + labelled(entries, "encrypt"@, "Encrypt"@) + labelled(
            entries,
            "trust_server_certificate"@,
            "TrustServerCertificate"@,
        ) + ado::extra_pairs(entries),
{
    reveal_with_fuel(ado::known_pairs, 7);
    assert(ado::known_pairs(entries, 0) =~= Seq::empty());
    assert(ado::known_pairs(entries, 1) =~= labelled(entries, "server"@, "Server"@));
    assert(ado::known_pairs(entries, 2) =~= ado::known_pairs(entries, 1) + labelled(
        entries,
        "database"@,
        "Database"@,
    ));
    assert(ado::known_pairs(entries, 3) =~= ado::known_pairs(entries, 2) + labelled(
        entries,
        "user_id"@,
        "User Id"@,
    ));
    assert(ado::known_pairs(entries, 4) =~= ado::known_pairs(entries, 3) + labelled(
        entries,
        "password"@,
        "Password"@,
    ));
    assert(ado::known_pairs(entries, 5) =~= ado::known_pairs(entries, 4) + labelled(
        entries,
        "encrypt"@,
        "Encrypt"@,
    ));
    assert(ado::known_pairs(entries, 6) =~= ado::known_pairs(entries, 5) + labelled(
        entries,
        "trust_server_certificate"@,
        "TrustServerCertificate"@,
    ));
}

/// The other components stand under their own names, in the order in which they stand in the
/// object, each once.
pub proof fn law_other_components(
    a: Seq<(Seq<char>, JsonV)>,
    b: Seq<(Seq<char>, JsonV)>,
    name: Seq<char>,
    v: JsonV,
)
    ensures
        ado::extra_pairs(Seq::empty()) == Seq::<(Seq<char>, Seq<char>)>::empty(),
        ado::extra_pairs(a + b) == ado::extra_pairs(a) + ado::extra_pairs(b),
        ado::extra_pairs(seq![(name, v)]) == (if name == "server"@ || name == "database"@ || name
            == "user_id"@ || name == "password"@ || name == "encrypt"@ || name
            == "trust_server_certificate"@ {
            Seq::<(Seq<char>, Seq<char>)>::empty()
        } else {
            seq![(name, ado::value_text(v))]
        }),
    decreases b.len(),
{
    let only = seq![(name, v)];
    assert(only.drop_last() =~= Seq::empty());
    assert(ado::extra_pairs(only.drop_last()) =~= Seq::empty());
    assert(only.last() == (name, v));
    let known = name == "server"@ || name == "database"@ || name == "user_id"@ || name
        == "password"@ || name == "encrypt"@ || name == "trust_server_certificate"@;
    assert(ado::is_known(name) == known) by {
        assert(ado::known()[0].0 == "server"@);
        assert(ado::known()[1].0 == "database"@);
        assert(ado::known()[2].0 == "user_id"@);
        assert(ado::known()[3].0 == "password"@);
        assert(ado::known()[4].0 == "encrypt"@);
        assert(ado::known()[5].0 == "trust_server_certificate"@);
    }
    assert(ado::extra_pairs(only) =~= if known {
        Seq::empty()
    } else {
        seq![(name, ado::value_text(v))]
    });
    if b.len() == 0 {
        assert(a + b =~= a);
        assert(ado::extra_pairs(a) + ado::extra_pairs(b) =~= ado::extra_pairs(a));
    } else {
        assert((a + b).drop_last() =~= a + b.drop_last());
        assert((a + b).last() == b.last());
        law_other_components(a, b.drop_last(), name, v);
        assert(ado::extra_pairs(a + b) =~= ado::extra_pairs(a) + ado::extra_pairs(b));
    }
}

/// The string is made of the pieces `label=value`, with a `;` between neighbours, and a value
/// without `;` that does not begin with a quote or a brace is written as it is.
pub proof fn law_built_of_pieces(entries: Seq<(Seq<char>, JsonV)>, i: int)
    ensures
        ado::built(entries) == text::join(ado::pieces_of(ado::built_pairs(entries)), ';'),
        ado::pieces_of(ado::built_pairs(entries)).len() == ado::built_pairs(entries).len(),
        0 <= i < ado::built_pairs(entries).len() ==> ({
            let (label, value) = ado::built_pairs(entries)[i];
            let piece = ado::pieces_of(ado::built_pairs(entries))[i];
            &&& piece == label.push('=') + quoting::written(value)
            &&& !value.contains(';') && !quoting::begins(value) ==> piece == label.push('=')
                + value
        }),
{
}

/// A value begins with a quote or a brace if and only if its first character that is no white
/// space is one.
pub proof fn law_values_that_begin_so(a: Seq<char>, c: char, b: Seq<char>)
    requires
        blank(a),
        !text::is_space(c),
    ensures
        quoting::begins(a + seq![c] + b) <==> c == '"' || c == '\'' || c == '{',
        !quoting::begins(a),
{
    let s = a + seq![c] + b;
    assert forall|i: int| 0 <= i < a.len() implies text::is_space(#[trigger] s[i]) by {
        assert(s[i] == a[i]);
    }
    assert(s[a.len() as int] == c);
    text::lemma_trim_start_at(s, a.len() as int);
    text::lemma_trim_start_at(a, a.len() as int);
}

proof fn lemma_closes(x: Seq<char>, c: char, after: Seq<char>)
    requires
        !x.contains(c),
        c != '}' && after.len() > 0 ==> after[0] != c,
    ensures
        quoting::close_at(x.push(c) + after, c) == Some(x.len() as int),
    decreases x.len(),
{
    let s = x.push(c) + after;
    if x.len() > 0 {
        assert(x.contains(x[0]));
        let t = x.skip(1);
        assert(!t.contains(c)) by {
            if t.contains(c) {
                let j = choose|j: int| 0 <= j < t.len() && t[j] == c;
                assert(x[j + 1] == c);
            }
        }
        lemma_closes(t, c, after);
        assert(s[0] == x[0]);
        assert(s.skip(1) =~= t.push(c) + after);
    } else {
        assert(s[0] == c);
        if s.len() >= 2 {
            assert(s[1] == after[0]);
        }
    }
}

/// A quoted value is one piece with its name, whatever separators it holds, with white space at
/// most before and behind it: the next piece begins behind the `;` that follows.
pub proof fn law_quoted_value_is_one_piece(
    k: Seq<char>,
    a: Seq<char>,
    open: char,
    x: Seq<char>,
    close: char,
    b: Seq<char>,
    rest: Seq<char>,
)
    requires
        !k.contains('='),
        !k.contains(';'),
        blank(a),
        blank(b),
        (open == '"' && close == '"') || (open == '\'' && close == '\'') || (open == '{' && close
            == '}'),
        !x.contains(close),
    ensures
        ({
            let piece = k.push('=') + (a + seq![open] + x + seq![close] + b);
            &&& quoting::pieces(piece) == seq![piece]
            &&& quoting::pieces(piece.push(';') + rest) == seq![piece] + quoting::pieces(rest)
        }),
{
    let v = a + seq![open] + x + seq![close] + b;
    let piece = k.push('=') + v;
    let none = Seq::<char>::empty();
    lemma_quoted_end(a, open, x, close, b, none);
    assert(v + none =~= v);
    quoting::lemma_quoted_piece(k, v, none);
    assert(piece + none =~= piece);
    let t = seq![';'] + rest;
    quoting::lemma_quoted_piece(k, v, t);
    let s = piece.push(';') + rest;
    assert(s =~= piece + t);
    assert(s.take(piece.len() as int) =~= piece);
    assert(s.skip(piece.len() as int + 1) =~= rest);
}

/// Where a quoted value ends, if white space and then the end of the text or another character
/// follows.
proof fn lemma_quoted_end(
    a: Seq<char>,
    open: char,
    x: Seq<char>,
    close: char,
    b: Seq<char>,
    after: Seq<char>,
)
    requires
        blank(a),
        blank(b),
        (open == '"' && close == '"') || (open == '\'' && close == '\'') || (open == '{' && close
            == '}'),
        !x.contains(close),
        after.len() > 0 ==> !text::is_space(after[0]),
        close != '}' && b.len() == 0 && after.len() > 0 ==> after[0] != close,
    ensures
        ({
            let v = a + seq![open] + x + seq![close] + b + after;
            quoting::begins(v) && quoting::value_end(v) == if after.len() == 0 || after[0] == ';' {
                Some((v.len() - after.len()) as int)
            } else {
                None::<int>
            }
        }),
{
    let v = a + seq![open] + x + seq![close] + b + after;
    assert forall|i: int| 0 <= i < a.len() implies text::is_space(#[trigger] v[i]) by {
        assert(v[i] == a[i]);
    }
    assert(v[a.len() as int] == open);
    text::lemma_trim_start_at(v, a.len() as int);
    assert(text::lead(v) == a.len());
    let tail = b + after;
    assert(v.skip(a.len() as int + 1) =~= x.push(close) + tail);
    if tail.len() > 0 {
        if b.len() > 0 {
            assert(tail[0] == b[0]);
            assert(text::is_space(b[0]));
        } else {
            assert(tail[0] == after[0]);
        }
    }
    lemma_closes(x, close, tail);
    let e = a.len() + x.len() + 2;
    assert(quoting::close_of(v) == Some(e as int));
    assert(v.skip(e as int) =~= tail);
    assert forall|i: int| 0 <= i < b.len() implies text::is_space(#[trigger] tail[i]) by {
        assert(tail[i] == b[i]);
    }
    if after.len() > 0 {
        assert(tail[b.len() as int] == after[0]);
    }
    text::lemma_trim_start_at(tail, b.len() as int);
    assert(text::lead(tail) == b.len());
}

/// A doubled quote within quotes does not end the value; it stands for the quote.
pub proof fn law_doubled_quote_is_text(
    k: Seq<char>,
    q: char,
    x: Seq<char>,
    y: Seq<char>,
    rest: Seq<char>,
)
    requires
        !k.contains('='),
        !k.contains(';'),
        q == '"' || q == '\'',
        !x.contains(q),
        !y.contains(q),
    ensures
        ({
            let piece = k.push('=') + (seq![q] + x + seq![q, q] + y + seq![q]);
            &&& quoting::pieces(piece) == seq![piece]
            &&& quoting::pieces(piece.push(';') + rest) == seq![piece] + quoting::pieces(rest)
        }),
{
    let v = seq![q] + x + seq![q, q] + y + seq![q];
    let piece = k.push('=') + v;
    let none = Seq::<char>::empty();
    text::lemma_trim_start_at(v, 0);
    let inner = x + seq![q, q] + y + seq![q];
    assert(v.skip(1) =~= inner);
    lemma_closes_behind(x, q, y);
    assert(v.skip(v.len() as int) =~= none);
    text::lemma_trim_start_at(none, 0);
    assert(quoting::value_end(v) == Some(v.len() as int));
    quoting::lemma_quoted_piece(k, v, none);
    assert(piece + none =~= piece);
    let t = seq![';'] + rest;
    quoting::lemma_quoted_piece(k, v, t);
    let s = piece.push(';') + rest;
    assert(s =~= piece + t);
    assert(s.take(piece.len() as int) =~= piece);
    assert(s.skip(piece.len() as int + 1) =~= rest);
}

proof fn lemma_closes_behind(x: Seq<char>, q: char, y: Seq<char>)
    requires
        q == '"' || q == '\'',
        !x.contains(q),
        !y.contains(q),
    ensures
        quoting::close_at(x + seq![q, q] + y + seq![q], q) == Some((x.len() + 2 + y.len()) as int),
    decreases x.len(),
{
    let s = x + seq![q, q] + y + seq![q];
    if x.len() > 0 {
        assert(x.contains(x[0]));
        let t = x.skip(1);
        assert(!t.contains(q)) by {
            if t.contains(q) {
                let j = choose|j: int| 0 <= j < t.len() && t[j] == q;
                assert(x[j + 1] == q);
            }
        }
        lemma_closes_behind(t, q, y);
        assert(s[0] == x[0]);
        assert(s.skip(1) =~= t + seq![q, q] + y + seq![q]);
    } else {
        let none = Seq::<char>::empty();
        assert(s[0] == q && s[1] == q);
        assert(s.skip(2) =~= y.push(q) + none);
        lemma_closes(y, q, none);
    }
}

/// A value that cannot stand as it is gets quotes around it: double ones, or single ones if it has
/// double ones and no single ones. What the quotes are of is doubled within, character by
/// character.
pub proof fn law_written_in_quotes(v: Seq<char>, a: Seq<char>, c: char, b: Seq<char>, q: char)
    ensures
        quoting::stands(v) ==> quoting::written(v) == v,
        !quoting::stands(v) ==> ({
            let with = if v.contains('"') && !v.contains('\'') {
                '\''
            } else {
                '"'
            };
            quoting::written(v) == seq![with] + quoting::doubled(v, with) + seq![with]
        }),
        v.contains(';') && !quoting::begins(v) ==> !quoting::stands(v),
        quoting::doubled(a + b, q) == quoting::doubled(a, q) + quoting::doubled(b, q),
        quoting::doubled(seq![c], q) == (if c == q {
            seq![q, q]
        } else {
            seq![c]
        }),
        !a.contains(q) ==> quoting::doubled(a, q) == a,
    decreases a.len(),
{
    assert(seq![c].skip(1) =~= Seq::empty());
    assert(quoting::doubled(seq![c].skip(1), q) =~= Seq::empty());
    assert(quoting::doubled(seq![c], q) =~= if c == q {
        seq![q, q]
    } else {
        seq![c]
    });
    if a.len() == 0 {
        assert(a + b =~= b);
        assert(quoting::doubled(a, q) =~= a);
        assert(quoting::doubled(a, q) + quoting::doubled(b, q) =~= quoting::doubled(b, q));
    } else {
        let t = a.skip(1);
        assert((a + b).skip(1) =~= t + b);
        assert((a + b)[0] == a[0]);
        law_written_in_quotes(v, t, c, b, q);
        assert(quoting::doubled(a + b, q) =~= quoting::doubled(a, q) + quoting::doubled(b, q));
        if !a.contains(q) {
            assert(a.contains(a[0]));
            assert(!t.contains(q)) by {
                if t.contains(q) {
                    let j = choose|j: int| 0 <= j < t.len() && t[j] == q;
                    assert(a[j + 1] == q);
                }
            }
            assert(quoting::doubled(a, q) =~= a);
        }
    }
}

proof fn lemma_never_closes(x: Seq<char>, c: char)
    requires
        !x.contains(c),
    ensures
        quoting::close_at(x, c) is None,
    decreases x.len(),
{
    if x.len() > 0 {
        assert(x.contains(x[0]));
        let t = x.skip(1);
        assert(!t.contains(c)) by {
            if t.contains(c) {
                let j = choose|j: int| 0 <= j < t.len() && t[j] == c;
                assert(x[j + 1] == c);
            }
        }
        lemma_never_closes(t, c);
    }
}

/// A quote that is never closed, or behind whose end other text than white space stands, has no
/// meaning: the piece ends at the first `;`.
pub proof fn law_broken_quotes_do_not_count(
    k: Seq<char>,
    a: Seq<char>,
    open: char,
    x: Seq<char>,
    close: char,
    b: Seq<char>,
    c: char,
    rest: Seq<char>,
)
    requires
        !k.contains('='),
        !k.contains(';'),
        blank(a),
        blank(b),
        (open == '"' && close == '"') || (open == '\'' && close == '\'') || (open == '{' && close
            == '}'),
        !x.contains(close),
        !text::is_space(c),
        c != ';',
        close != '}' && b.len() == 0 ==> c != close,
    ensures
        ({
            let s = k.push('=') + (a + seq![open] + x);
            let t = k.push('=') + (a + seq![open] + x + seq![close] + b + (seq![c] + rest));
            &&& quoting::pieces(s)[0] == s.take(text::find(s, ';'))
            &&& quoting::pieces(t)[0] == t.take(text::find(t, ';'))
        }),
{
    let v = a + seq![open] + x;
    let s = k.push('=') + v;
    assert forall|i: int| 0 <= i < a.len() implies text::is_space(#[trigger] v[i]) by {
        assert(v[i] == a[i]);
    }
    assert(v[a.len() as int] == open);
    text::lemma_trim_start_at(v, a.len() as int);
    assert(v.skip(a.len() as int + 1) =~= x);
    lemma_never_closes(x, close);
    assert(quoting::value_end(v) is None);
    lemma_first_piece(k, v);
    let w = a + seq![open] + x + seq![close] + b + (seq![c] + rest);
    lemma_quoted_end(a, open, x, close, b, seq![c] + rest);
    lemma_first_piece(k, w);
}

proof fn lemma_first_piece(k: Seq<char>, v: Seq<char>)
    requires
        !k.contains('='),
        !k.contains(';'),
        quoting::value_end(v) is None,
    ensures
        ({
            let s = k.push('=') + v;
            quoting::pieces(s)[0] == s.take(text::find(s, ';'))
        }),
{
    let s = k.push('=') + v;
    assert forall|j: int| 0 <= j < k.len() implies s[j] != '=' && s[j] != ';' by {
        assert(s[j] == k[j]);
        assert(k.contains(k[j]));
    }
    text::lemma_find(s, '=', k.len() as int);
    text::lemma_find_first(s, ';');
    assert(s.skip(k.len() as int + 1) =~= v);
    assert(s.take(s.len() as int) =~= s);
}

// ---------------------------------------------------------------------------
// Options on the certificate
// ---------------------------------------------------------------------------

/// Whether a text has no quotes, braces and line ends.
pub open spec fn unmarked(s: Seq<char>) -> bool {
    forall|i: int|
        0 <= i < s.len() ==> (#[trigger] s[i]) != '"' && s[i] != '\'' && s[i] != '{' && s[i] != '}'
            && s[i] != '\n'
}

proof fn lemma_unmarked(s: Seq<char>, sep: char)
    requires
        unmarked(s),
    ensures
        lexing::free_find(s, sep) == text::find(s, sep),
        lexing::closed(s),
    decreases s.len(),
{
    if s.len() > 0 {
        let t = s.skip(1);
        assert(s[0] != '"');
        assert(unmarked(t)) by {
            assert forall|i: int| 0 <= i < t.len() implies (#[trigger] t[i]) != '"' && t[i] != '\''
                && t[i] != '{' && t[i] != '}' && t[i] != '\n' by {
                assert(t[i] == s[i + 1]);
            }
        }
        lemma_unmarked(t, sep);
        assert(lexing::unit(s) == 1);
    }
}

proof fn lemma_unmarked_bare(s: Seq<char>)
    requires
        unmarked(s),
    ensures
        lexing::bare(s) == s,
    decreases s.len(),
{
    if s.len() > 0 {
        let t = s.drop_last();
        assert(s[s.len() - 1] != '"');
        assert(unmarked(t)) by {
            assert forall|i: int| 0 <= i < t.len() implies (#[trigger] t[i]) != '"' && t[i] != '\''
                && t[i] != '{' && t[i] != '}' && t[i] != '\n' by {
                assert(t[i] == s[i]);
            }
        }
        lemma_unmarked_bare(t);
        assert(lexing::bare(s) =~= s);
    } else {
        assert(lexing::bare(s) =~= s);
    }
}

/// Quotes, braces and line ends are dropped wherever they stand, and nothing else is; what is left
/// is compared without the white space around it and in lower case.
pub proof fn law_marks_are_dropped(a: Seq<char>, b: Seq<char>, c: char)
    ensures
        lexing::bare(a + b) == lexing::bare(a) + lexing::bare(b),
        lexing::bare(seq![c]) == (if c == '"' || c == '\'' || c == '{' || c == '}' || c == '\n' {
            Seq::<char>::empty()
        } else {
            seq![c]
        }),
        reads_as(lexing::bare(a), config::plain(a)),
    decreases b.len(),
{
    assert(seq![c].drop_last() =~= Seq::empty());
    assert(lexing::bare(seq![c].drop_last()) =~= Seq::empty());
    assert(lexing::bare(seq![c]) =~= if lexing::is_mark(c) {
        Seq::<char>::empty()
    } else {
        seq![c]
    });
    if b.len() == 0 {
        assert(a + b =~= a);
        assert(lexing::bare(a) + lexing::bare(b) =~= lexing::bare(a));
    } else {
        assert((a + b).drop_last() =~= a + b.drop_last());
        assert((a + b).last() == b.last());
        law_marks_are_dropped(a, b.drop_last(), c);
        assert(lexing::bare(a + b) =~= lexing::bare(a) + lexing::bare(b));
    }
}

/// Without quotes, braces and line ends a string is divided at every `;`, and nothing in it is
/// left open.
pub proof fn law_driver_pieces(s: Seq<char>)
    requires
        unmarked(s),
    ensures
        lexing::pieces(s) == text::split(s, ';'),
        lexing::closed(s),
    decreases s.len(),
{
    lemma_unmarked(s, ';');
    text::lemma_find_first(s, ';');
    let i = text::find(s, ';');
    let p = text::is_char(';');
    if i < s.len() {
        let a = s.take(i);
        let b = s.skip(i + 1);
        assert(unmarked(b)) by {
            assert forall|j: int| 0 <= j < b.len() implies (#[trigger] b[j]) != '"' && b[j] != '\''
                && b[j] != '{' && b[j] != '}' && b[j] != '\n' by {
                assert(b[j] == s[i + 1 + j]);
            }
        }
        law_driver_pieces(b);
        assert forall|j: int| 0 <= j < a.len() implies !p(#[trigger] a[j]) by {
            assert(a[j] == s[j]);
        }
        text::lemma_split_whole(a, p);
        text::lemma_split_concat(a, ';', b, p);
        assert(s =~= a.push(';') + b);
    } else {
        assert forall|j: int| 0 <= j < s.len() implies !p(#[trigger] s[j]) by {}
        text::lemma_split_whole(s, p);
    }
}

/// A separator within quotes or braces does not separate: the search goes on behind them.
pub proof fn law_driver_sections(open: char, x: Seq<char>, close: char, rest: Seq<char>, sep: char)
    requires
        (open == '"' && close == '"') || (open == '\'' && close == '\'') || (open == '{' && close
            == '}'),
        !x.contains(close),
        sep != open,
    ensures
        lexing::free_find(seq![open] + x + seq![close] + rest, sep) == x.len() + 2
            + lexing::free_find(rest, sep),
        lexing::closed(seq![open] + x + seq![close] + rest) <==> lexing::closed(rest),
        !lexing::closed(seq![open] + x),
{
    let s = seq![open] + x + seq![close] + rest;
    let t = s.skip(1);
    assert(t =~= x + seq![close] + rest);
    assert forall|j: int| 0 <= j < x.len() implies t[j] != close && x[j] != close by {
        assert(t[j] == x[j]);
        assert(x.contains(x[j]));
    }
    text::lemma_find(t, close, x.len() as int);
    assert(s.skip(x.len() as int + 2) =~= rest);
    let left = seq![open] + x;
    assert(left.skip(1) =~= x);
    text::lemma_find(x, close, x.len() as int);
}

/// Whether a text is a name when the white space around it is taken off and its ASCII letters are
/// put in lower case.
pub open spec fn reads_as(s: Seq<char>, name: Seq<char>) -> bool {
    text::trim(s).map_values(|c: char| text::ascii_lower(c)) == name
}

/// A piece `name=value` trusts every certificate if and only if it says so: the name is
/// `TrustServerCertificate`, the value is `true` or `yes`, both in any case. It names an authority
/// if and only if the name is `TrustServerCertificateCA`.
pub proof fn law_trust_options(k: Seq<char>, v: Seq<char>)
    requires
        unmarked(k),
        unmarked(v),
        !k.contains('='),
    ensures
        ({
            let piece = k.push('=') + v;
            &&& config::trusts_all(piece) <==> reads_as(k, "trustservercertificate"@) && (reads_as(
                v,
                "true"@,
            ) || reads_as(v, "yes"@))
            &&& config::names_authority(piece) <==> reads_as(k, "trustservercertificateca"@)
            &&& (forall|i: int| 0 <= i < piece.len() ==> ' ' <= #[trigger] piece[i] <= '~') ==> (
            config::decides_trust(piece) <==> reads_as(k, "trustservercertificate"@))
            &&& !config::trusts_all(k) && !config::names_authority(k) && !config::decides_trust(k)
        }),
{
    let piece = k.push('=') + v;
    assert(unmarked(piece)) by {
        assert forall|i: int| 0 <= i < piece.len() implies (#[trigger] piece[i]) != '"' && piece[i]
            != '\'' && piece[i] != '{' && piece[i] != '}' && piece[i] != '\n' by {
            if i < k.len() {
                assert(piece[i] == k[i]);
            } else if i > k.len() {
                assert(piece[i] == v[i - k.len() - 1]);
            }
        }
    }
    assert forall|j: int| 0 <= j < k.len() implies piece[j] != '=' && k[j] != '=' by {
        assert(k.contains(k[j]));
    }
    lemma_unmarked(piece, '=');
    lemma_unmarked(k, '=');
    text::lemma_find(piece, '=', k.len() as int);
    text::lemma_find(k, '=', k.len() as int);
    assert(piece.take(k.len() as int) =~= k);
    assert(piece.skip(k.len() as int + 1) =~= v);
    lemma_unmarked_bare(k);
    lemma_unmarked_bare(v);
    if forall|i: int| 0 <= i < piece.len() ==> ' ' <= #[trigger] piece[i] <= '~' {
        assert(config::clear(piece)) by {
            assert forall|i: int| 0 <= i < piece.len() implies ' ' <= #[trigger] piece[i] <= '~'
                && !lexing::is_mark(piece[i]) by {}
        }
    }
}

/// The last piece that speaks of it decides whether every certificate is trusted; without one, none
/// is.
pub proof fn law_last_trust_option_counts(pieces: Seq<Seq<char>>, i: int)
    requires
        -1 <= i < pieces.len(),
        i >= 0 ==> config::trusts_all(pieces[i]) || config::decides_trust(pieces[i]),
        forall|j: int|
            i < j < pieces.len() ==> !config::trusts_all(#[trigger] pieces[j])
                && !config::decides_trust(pieces[j]),
    ensures
        config::may_trust_all(pieces) <==> i >= 0 && config::trusts_all(pieces[i]),
    decreases pieces.len(),
{
    if i < pieces.len() - 1 {
        let front = pieces.drop_last();
        assert(!config::trusts_all(pieces[pieces.len() - 1]));
        assert(i >= 0 ==> front[i] == pieces[i]);
        assert forall|j: int| i < j < front.len() implies !config::trusts_all(#[trigger] front[j])
            && !config::decides_trust(front[j]) by {
            assert(front[j] == pieces[j]);
        }
        law_last_trust_option_counts(front, i);
    }
}

/// An ASCII string without quotes, braces and line ends sets both options if and only if some of
/// its pieces names an authority and the pieces trust every certificate.
pub proof fn law_both_trust_options(url: Seq<char>)
    requires
        unmarked(url),
        forall|i: int| 0 <= i < url.len() ==> (#[trigger] url[i]) < '\u{80}',
    ensures
        config::both_trust_options(url) <==> config::may_trust_all(text::split(url, ';')) && exists|
            i: int,
        |
            0 <= i < text::split(url, ';').len() && config::names_authority(
                #[trigger] text::split(url, ';')[i],
            ),
{
    law_driver_pieces(url);
}

// ---------------------------------------------------------------------------
// Cells
// ---------------------------------------------------------------------------

/// Whether a character is a decimal digit.
pub open spec fn is_digit(c: char) -> bool {
    '0' <= c <= '9'
}

/// The text of a decimal number: a minus sign if it is negative, digits without a leading zero that
/// is not needed, and a point before the decimal places, if there are any.
pub proof fn law_decimal_text(mantissa: int, scale: nat)
    ensures
        ({
            let s = render::exact_text(mantissa, scale);
            let first = if mantissa < 0 {
                1int
            } else {
                0
            };
            let point = s.len() - scale - 1;
            &&& s.len() > 0
            &&& s[0] == '-' <==> mantissa < 0
            &&& scale > 0 ==> first < point && s[point] == '.'
            &&& forall|i: int|
                first <= i < s.len() && (scale == 0 || i != point) ==> is_digit(#[trigger] s[i])
            &&& s[first] == '0' ==> first + 1 == s.len() || (scale > 0 && first + 1 == point)
        }),
{
    let size: nat = (if mantissa < 0 {
        -mantissa
    } else {
        mantissa
    }) as nat;
    let s = render::exact_text(mantissa, scale);
    let first = if mantissa < 0 {
        1int
    } else {
        0
    };
    if scale == 0 {
        let d = render::decimal(size);
        lemma_decimal_digits(size);
        assert forall|i: int| first <= i < s.len() implies is_digit(#[trigger] s[i]) by {
            assert(s[i] == d[i - first]);
        }
        assert(s[first] == d[0]);
    } else {
        let unit = pow(10, scale);
        vstd::arithmetic::power::lemma_pow_positive(10, scale);
        assert(size as int / unit >= 0 && 0 <= size as int % unit < unit) by (nonlinear_arith)
            requires
                unit > 0,
        ;
        let d = render::decimal((size as int / unit) as nat);
        let f = render::padded((size as int % unit) as nat, scale);
        lemma_decimal_digits((size as int / unit) as nat);
        lemma_padded_digits((size as int % unit) as nat, scale);
        let point = first + d.len();
        assert(s.len() == point + 1 + scale);
        assert(s[point] == '.');
        assert forall|i: int| first <= i < s.len() && i != point implies is_digit(
            #[trigger] s[i],
        ) by {
            if i < point {
                assert(s[i] == d[i - first]);
            } else {
                assert(s[i] == f[i - point - 1]);
            }
        }
        assert(s[first] == d[0]);
    }
}

/// Numbers of an `i128` and at most 38 decimal places are decimal numbers, and no others.
pub proof fn law_decimal_numbers(mantissa: i128, scale: int)
    ensures
        render::valid_exact(mantissa as int, scale) <==> 0 <= scale <= 38,
{
}

proof fn lemma_decimal_digits(n: nat)
    ensures
        render::decimal(n).len() > 0,
        forall|i: int|
            0 <= i < render::decimal(n).len() ==> is_digit(#[trigger] render::decimal(n)[i]),
        render::decimal(n)[0] == '0' ==> render::decimal(n).len() == 1 && n == 0,
    decreases n,
{
    if n >= 10 {
        lemma_decimal_digits(n / 10);
    }
}

proof fn lemma_padded_digits(n: nat, width: nat)
    ensures
        render::padded(n, width).len() == width,
        forall|i: int|
            0 <= i < width ==> is_digit(#[trigger] render::padded(n, width)[i]),
    decreases width,
{
    if width > 0 {
        lemma_padded_digits(n / 10, (width - 1) as nat);
    }
}

/// The text of a date of a year from 0 to 9999 has four digits, a hyphen, two digits, a hyphen and
/// two digits.
pub proof fn law_date_text(year: int, month: int, day: int)
    requires
        render::valid_date(year, month, day),
        0 <= year <= 9999,
    ensures
        ({
            let s = render::date_text(year, month, day);
            &&& s.len() == 10
            &&& s[4] == '-'
            &&& s[7] == '-'
            &&& forall|i: int|
                0 <= i < 10 && i != 4 && i != 7 ==> is_digit(#[trigger] s[i])
        }),
{
    let s = render::date_text(year, month, day);
    let (y, m, d) = (
        render::padded(year as nat, 4),
        render::padded(month as nat, 2),
        render::padded(day as nat, 2),
    );
    lemma_padded_digits(year as nat, 4);
    lemma_padded_digits(month as nat, 2);
    lemma_padded_digits(day as nat, 2);
    assert forall|i: int| 0 <= i < 10 && i != 4 && i != 7 implies is_digit(#[trigger] s[i]) by {
        if i < 4 {
            assert(s[i] == y[i]);
        } else if i < 7 {
            assert(s[i] == m[i - 5]);
        } else {
            assert(s[i] == d[i - 8]);
        }
    }
}

/// A year before 0 or after 9999 has a sign and at least four digits, and what follows it is as in
/// any other date.
pub proof fn law_distant_date_text(year: int, month: int, day: int)
    requires
        render::valid_date(year, month, day),
        year < 0 || year > 9999,
    ensures
        ({
            let s = render::date_text(year, month, day);
            &&& s.len() >= 11
            &&& -9999 <= year <= 9999 ==> s.len() == 11
            &&& !(-9999 <= year <= 9999) ==> s[1] != '0'
            &&& s[0] == if year < 0 {
                '-'
            } else {
                '+'
            }
            &&& s[s.len() - 6] == '-'
            &&& s[s.len() - 3] == '-'
            &&& forall|i: int|
                0 < i < s.len() && i != s.len() - 6 && i != s.len() - 3 ==> is_digit(
                    #[trigger] s[i],
                )
        }),
{
    let s = render::date_text(year, month, day);
    let size: nat = (if year < 0 {
        -year
    } else {
        year
    }) as nat;
    let y = render::year_text(year);
    let (m, d) = (render::padded(month as nat, 2), render::padded(day as nat, 2));
    lemma_padded_digits(size, 4);
    lemma_decimal_digits(size);
    lemma_padded_digits(month as nat, 2);
    lemma_padded_digits(day as nat, 2);
    if size > 9999 {
        assert(render::decimal(size).len() >= 4) by {
            reveal_with_fuel(render::decimal, 5);
        }
    }
    let n = y.len();
    assert(s.len() == n + 6);
    assert forall|i: int| 0 < i < s.len() && i != s.len() - 6 && i != s.len() - 3 implies is_digit(
        #[trigger] s[i],
    ) by {
        if i < n {
            assert(s[i] == y[i]);
        } else if i < n + 3 {
            assert(s[i] == m[i - n - 1]);
        } else {
            assert(s[i] == d[i - n - 4]);
        }
    }
    assert(s[0] == y[0]);
    assert(s[1] == y[1]);
    if size > 9999 {
        assert(y[1] == render::decimal(size)[0]);
    }
}

/// The text of an identifier has 36 characters: hyphens after 8, 12, 16 and 20 of the hexadecimal
/// digits, which are in lower case.
pub proof fn law_identifier_text(b: Seq<u8>)
    requires
        b.len() == 16,
    ensures
        ({
            let s = render::uuid_text(b);
            &&& s.len() == 36
            &&& s[8] == '-' && s[13] == '-' && s[18] == '-' && s[23] == '-'
            &&& forall|i: int|
                0 <= i < 36 && i != 8 && i != 13 && i != 18 && i != 23 ==> is_digit(#[trigger] s[i])
                    || 'a' <= s[i] <= 'f'
        }),
{
}

/// The text of a time has two digits, a colon, two digits, a colon and two digits, and then, unless
/// the second is whole, a point and digits: three for milliseconds, six for microseconds and nine
/// otherwise.
pub proof fn law_time_text(secs: int, nanos: int)
    requires
        0 <= secs < 86_400,
        0 <= nanos < 1_000_000_000,
    ensures
        ({
            let s = render::time_text(secs, nanos);
            &&& s.len() == if nanos == 0 {
                8int
            } else if nanos % 1_000_000 == 0 {
                12
            } else if nanos % 1_000 == 0 {
                15
            } else {
                18
            }
            &&& s[2] == ':'
            &&& s[5] == ':'
            &&& s.len() > 8 ==> s[8] == '.'
            &&& forall|i: int|
                0 <= i < s.len() && i != 2 && i != 5 && i != 8 ==> is_digit(#[trigger] s[i])
        }),
{
    let s = render::time_text(secs, nanos);
    let (h, m, c) = (
        render::padded((secs / 3600) as nat, 2),
        render::padded((secs / 60 % 60) as nat, 2),
        render::padded((secs % 60) as nat, 2),
    );
    lemma_padded_digits((secs / 3600) as nat, 2);
    lemma_padded_digits((secs / 60 % 60) as nat, 2);
    lemma_padded_digits((secs % 60) as nat, 2);
    let f = render::fraction_text(nanos);
    lemma_padded_digits((nanos / 1_000_000) as nat, 3);
    lemma_padded_digits((nanos / 1_000) as nat, 6);
    lemma_padded_digits(nanos as nat, 9);
    assert(s.len() == 8 + f.len());
    assert forall|i: int| 0 <= i < s.len() && i != 2 && i != 5 && i != 8 implies is_digit(
        #[trigger] s[i],
    ) by {
        if i < 2 {
            assert(s[i] == h[i]);
        } else if i < 5 {
            assert(s[i] == m[i - 3]);
        } else if i < 8 {
            assert(s[i] == c[i - 6]);
        } else {
            assert(s[i] == f[i - 8]);
        }
    }
    if f.len() > 0 {
        assert(s[8] == f[0]);
    }
}

/// The text of an offset has a sign, two digits, a colon and two digits; the sign is a minus if and
/// only if the offset is negative.
pub proof fn law_offset_text(minutes: int)
    requires
        -1440 < minutes < 1440,
    ensures
        ({
            let s = render::offset_text(minutes);
            &&& s.len() == 6
            &&& s[0] == if minutes < 0 {
                '-'
            } else {
                '+'
            }
            &&& s[3] == ':'
            &&& is_digit(s[1]) && is_digit(s[2]) && is_digit(s[4]) && is_digit(s[5])
        }),
{
    let size = if minutes < 0 {
        -minutes
    } else {
        minutes
    };
    let h = render::padded((size / 60) as nat, 2);
    let m = render::padded((size % 60) as nat, 2);
    lemma_padded_digits((size / 60) as nat, 2);
    lemma_padded_digits((size % 60) as nat, 2);
    let s = render::offset_text(minutes);
    assert(s[1] == h[0] && s[2] == h[1] && s[4] == m[0] && s[5] == m[1]);
}

/// A decimal number, an identifier, a date and a time are the strings of their texts.
pub proof fn law_cells_of_text(cell: Cell)
    ensures
        cell matches Cell::Numeric(Some(d)) ==> cell.json() == JsonV::Str(
            render::exact_text(d.spec_mantissa() as int, d.spec_scale() as nat),
        ),
        cell matches Cell::Guid(Some(b)) ==> cell.json() == JsonV::Str(render::uuid_text(b@)),
        cell matches Cell::Date(Some(d)) ==> cell.json() == JsonV::Str(
            render::date_text(d.spec_year() as int, d.spec_month() as int, d.spec_day() as int),
        ),
        cell matches Cell::Time(Some(t)) ==> cell.json() == JsonV::Str(
            render::time_text(t.spec_secs() as int, t.spec_nanos() as int),
        ),
        cell matches Cell::Binary(Some(b)) ==> cell.json() == JsonV::Str(
            render::base64_text(b@),
        ),
{
}

/// A date and a time of day stand one behind the other with a `T` between them, and an offset
/// behind both.
pub proof fn law_date_time_cells(cell: Cell)
    ensures
        cell matches Cell::DateTime(Some(dt)) ==> cell.json() == JsonV::Str(
            render::date_text(
                dt.0.spec_year() as int,
                dt.0.spec_month() as int,
                dt.0.spec_day() as int,
            ) + seq!['T'] + render::time_text(dt.1.spec_secs() as int, dt.1.spec_nanos() as int),
        ),
        cell matches Cell::DateTimeOffset(Some(dt)) ==> cell.json() == JsonV::Str(
            render::date_text(
                dt.0.spec_year() as int,
                dt.0.spec_month() as int,
                dt.0.spec_day() as int,
            ) + seq!['T'] + render::time_text(dt.1.spec_secs() as int, dt.1.spec_nanos() as int)
                + render::offset_text(dt.2 as int),
        ),
{
    if let Cell::DateTime(Some(dt)) = cell {
        assert(cell.json()->Str_0 =~= render::date_text(
            dt.0.spec_year() as int,
            dt.0.spec_month() as int,
            dt.0.spec_day() as int,
        ) + seq!['T'] + render::time_text(dt.1.spec_secs() as int, dt.1.spec_nanos() as int));
    }
    if let Cell::DateTimeOffset(Some(dt)) = cell {
        assert(cell.json()->Str_0 =~= render::date_text(
            dt.0.spec_year() as int,
            dt.0.spec_month() as int,
            dt.0.spec_day() as int,
        ) + seq!['T'] + render::time_text(dt.1.spec_secs() as int, dt.1.spec_nanos() as int)
            + render::offset_text(dt.2 as int));
    }
}

/// A row is an object with exactly the columns of the row: one more column adds its cell under its
/// name, in place of any that was there.
pub proof fn law_row_by_columns(row: Seq<(String, Cell)>, column: (String, Cell), v: JsonV)
    ensures
        cell::row_fields(Seq::empty()) == Map::<Seq<char>, JsonV>::empty(),
        cell::row_fields(row.push(column)) == cell::row_fields(row).insert(
            column.0@,
            column.1.json(),
        ),
        cell::is_row(v, row) <==> (v matches JsonV::Object(entries) && json::ascending(entries)
            && json::fields(entries) == cell::row_fields(row)),
{
    assert(row.push(column).drop_last() =~= row);
}

// ---------------------------------------------------------------------------
// Days and times
// ---------------------------------------------------------------------------

/// Days are counted from the first of January of the year 1, one after the other, through the
/// months and the years.
pub proof fn law_days_follow(year: int, month: int, day: int)
    requires
        1 <= month <= 12,
    ensures
        temporal::day_number(1, 1, 1) == 0,
        temporal::day_number(year, month, day + 1) == temporal::day_number(year, month, day) + 1,
        month < 12 ==> temporal::day_number(year, month + 1, 1) == temporal::day_number(
            year,
            month,
            render::days_in_month(year, month),
        ) + 1,
        temporal::day_number(year + 1, 1, 1) == temporal::day_number(year, 12, 31) + 1,
        month == 1 || month == 3 || month == 5 || month == 7 || month == 8 || month == 10 || month
            == 12 ==> render::days_in_month(year, month) == 31,
        month == 4 || month == 6 || month == 9 || month == 11 ==> render::days_in_month(
            year,
            month,
        ) == 30,
        render::days_in_month(year, 2) == if year % 4 == 0 && (year % 100 != 0 || year % 400 == 0) {
            29int
        } else {
            28
        },
{
    lemma_days_before(1, 1);
    lemma_days_before(year, month);
    temporal::lemma_year_step(year);
    lemma_days_before(year, 12);
}

/// How many days come before a month that follows another, and how many before December.
proof fn lemma_days_before(year: int, month: int)
    requires
        1 <= month <= 12,
    ensures
        temporal::days_before_month(year, 1) == 0,
        temporal::days_before_month(year, month + 1) == temporal::days_before_month(year, month)
            + render::days_in_month(year, month),
        temporal::days_before_month(year, 12) == if render::leap_year(year) {
            335int
        } else {
            334
        },
{
    assert(temporal::days_before_month(year, 12) == if render::leap_year(year) {
        335int
    } else {
        334
    }) by {
        reveal_with_fuel(temporal::days_before_month, 13);
    }
}

/// Ten times as many parts, of which a second has ten times as many, are the same time; a second
/// has a billion nanoseconds.
pub proof fn law_parts_of_a_second(increments: int, scale: int)
    requires
        0 <= scale < 9,
    ensures
        temporal::nanos_of(10 * increments, scale + 1) == temporal::nanos_of(increments, scale),
        temporal::nanos_of(increments, 9) == increments,
{
    reveal(pow);
    let n = (9 - scale) as nat;
    let p = pow(10, (n - 1) as nat);
    assert(pow(10, n) == 10 * p);
    assert((10 * increments) * p == increments * (10 * p)) by (nonlinear_arith);
    assert(pow(10, 0) == 1);
    assert(increments * 1 == increments);
}

/// Nanoseconds can be counted if and only if the parts of a second are nanoseconds or larger and an
/// `i64` holds their number.
pub proof fn law_times_that_can_be_counted(increments: int, scale: int)
    ensures
        scale <= 9 ==> (temporal::valid_time(increments, scale) <==> temporal::nanos_of(
            increments,
            scale,
        ) <= i64::MAX),
        scale > 9 ==> !temporal::valid_time(increments, scale),
{
}

/// A time of day is so many nanoseconds after a midnight if and only if its seconds and its
/// nanoseconds make up that number, but for whole days.
pub proof fn law_time_of_day(secs: u32, nanos: u32, total: int)
    ensures
        temporal::is_time((secs, nanos), total) <==> secs < 86_400 && nanos < 1_000_000_000 && (total
            - (secs * 1_000_000_000 + nanos)) % 86_400_000_000_000 == 0,
{
    let q = total / 1_000_000_000;
    assert(total == q * 1_000_000_000 + total % 1_000_000_000);
    assert(q == (q / 86_400) * 86_400 + q % 86_400);
    if secs < 86_400 && nanos < 1_000_000_000 && (total - (secs * 1_000_000_000 + nanos))
        % 86_400_000_000_000 == 0 {
        let d = (total - (secs * 1_000_000_000 + nanos)) / 86_400_000_000_000;
        assert(total == (d * 86_400 + secs) * 1_000_000_000 + nanos);
        assert(q == d * 86_400 + secs);
    }
}

/// The days that there are dates for are those of the years from -262143 to 262142, and a date is
/// the one of its number.
pub proof fn law_days_with_a_date(year: int, month: int, day: int, n: int)
    ensures
        forall|r: (i32, u32, u32)|
            r.0 == year && r.1 == month && r.2 == day ==> (#[trigger] temporal::is_day(r, n) <==> (
            render::valid_date(year, month, day) && temporal::day_number(year, month, day) == n)),
        render::valid_date(year, month, day) <==> -262_143 <= year <= 262_142 && 1 <= month <= 12 && 1
            <= day <= render::days_in_month(year, month),
        render::valid_date(year, month, day) ==> temporal::valid_day(
            temporal::day_number(year, month, day),
        ),
        temporal::valid_day(n) <==> -95_746_130 <= n <= 95_745_398,
{
    temporal::lemma_days();
    if render::valid_date(year, month, day) {
        temporal::lemma_day_in_year(year, month, day);
        if -262_143 < year {
            temporal::lemma_year_order(-262_143, year);
        }
        if year < 262_142 {
            temporal::lemma_year_order(year, 262_142);
        }
        temporal::lemma_day_in_year(262_142, 12, 31);
        temporal::lemma_day_in_year(-262_143, 1, 1);
    }
}

/// The local time is the time of UTC and the offset in minutes. A time of more than a day wraps
/// around and does not reach the next day.
pub proof fn law_offset_shifts(days: int, increments: int, scale: int, offset: int)
    ensures
        temporal::local_nanos(days, increments, scale, offset) == temporal::local_nanos(
            days,
            increments,
            scale,
            0,
        ) + offset * 60_000_000_000,
        temporal::local_nanos(days + 1, increments, scale, offset) == temporal::local_nanos(
            days,
            increments,
            scale,
            offset,
        ) + 86_400_000_000_000,
        0 <= temporal::local_nanos(0, increments, scale, 0) < 86_400_000_000_000,
        (temporal::local_nanos(0, increments, scale, 0) - temporal::nanos_of(increments, scale))
            % 86_400_000_000_000 == 0,
        temporal::nanos_per_day() == 86_400_000_000_000,
{
}

// ---------------------------------------------------------------------------
// What callers may rely on
// ---------------------------------------------------------------------------

/// The queries that need no argument, and what is made of their rows.
pub proof fn law_fixed_queries(r: Task)
    ensures
        call_ensures(call::mssql__ping, (), r) ==> r.model() == (TaskV::Query {
            sql: "SELECT 1 AS ok"@,
            params: Seq::empty(),
            shape: Shape::Any,
        }),
        call_ensures(call::mssql__server_version, (), r) ==> r.model() == (TaskV::Query {
            sql: "SELECT @@VERSION AS version"@,
            params: Seq::empty(),
            shape: Shape::Version,
        }),
        call_ensures(call::mssql__databases, (), r) ==> r.model() == (TaskV::Query {
            sql: "SELECT name FROM sys.databases ORDER BY name"@,
            params: Seq::empty(),
            shape: Shape::Rows,
        }),
        call_ensures(call::mssql__tables, (), r) ==> r.model() == (TaskV::Query {
            sql:
                "SELECT TABLE_SCHEMA, TABLE_NAME, TABLE_TYPE FROM INFORMATION_SCHEMA.TABLES ORDER BY TABLE_SCHEMA, TABLE_NAME"@,
            params: Seq::empty(),
            shape: Shape::Rows,
        }),
{
}

/// Every call with a text `sql` asks for that text with the elements of `params`; the calls differ
/// in what is made of the rows.
pub proof fn law_calls_with_sql(v: Json, r: Result<Task, Failure>, sql: Seq<char>, params: Seq<JsonV>)
    requires
        v.model().field("sql"@) == Some(JsonV::Str(sql)),
        v.model().field("params"@) == Some(JsonV::Array(params)),
    ensures
        call_ensures(call::mssql__query, (&v,), r) ==> r is Ok && r->Ok_0.model() == (TaskV::Query {
            sql,
            params,
            shape: Shape::Rows,
        }),
        call_ensures(call::mssql__query_one, (&v,), r) ==> r is Ok && r->Ok_0.model() == (
        TaskV::Query { sql, params, shape: Shape::FirstRow }),
        call_ensures(call::mssql__scalar, (&v,), r) ==> r is Ok && r->Ok_0.model() == (TaskV::Query {
            sql,
            params,
            shape: Shape::FirstValue,
        }),
        call_ensures(call::mssql__exists, (&v,), r) ==> r is Ok && r->Ok_0.model() == (TaskV::Query {
            sql,
            params,
            shape: Shape::Any,
        }),
        call_ensures(call::mssql__execute, (&v,), r) ==> r is Ok && r->Ok_0.model() == (
        TaskV::Execute { sql, params }),
        call_ensures(call::mssql__simple_query, (&v,), r) ==> r is Ok && r->Ok_0.model() == (
        TaskV::Simple { sql }),
{
}

/// A call without the text that it needs fails for want of it.
pub proof fn law_calls_without_argument(v: Json, r: Result<Task, Failure>)
    ensures
        !(v.model().field("sql"@) matches Some(x) && x is Str) ==> {
            &&& call_ensures(call::mssql__query, (&v,), r) ==> r == Err::<Task, Failure>(
                Failure::MissingSql,
            )
            &&& call_ensures(call::mssql__query_one, (&v,), r) ==> r == Err::<Task, Failure>(
                Failure::MissingSql,
            )
            &&& call_ensures(call::mssql__scalar, (&v,), r) ==> r == Err::<Task, Failure>(
                Failure::MissingSql,
            )
            &&& call_ensures(call::mssql__exists, (&v,), r) ==> r == Err::<Task, Failure>(
                Failure::MissingSql,
            )
            &&& call_ensures(call::mssql__execute, (&v,), r) ==> r == Err::<Task, Failure>(
                Failure::MissingSql,
            )
            &&& call_ensures(call::mssql__simple_query, (&v,), r) ==> r == Err::<Task, Failure>(
                Failure::MissingSql,
            )
        },
        !(v.model().field("statements"@) matches Some(x) && x is Array) ==> (call_ensures(
            call::mssql__batch,
            (&v,),
            r,
        ) ==> r == Err::<Task, Failure>(Failure::MissingStatements)),
        !(v.model().field("table"@) matches Some(x) && x is Str) ==> (call_ensures(
            call::mssql__columns,
            (&v,),
            r,
        ) ==> r == Err::<Task, Failure>(Failure::MissingTable)),
{
}

/// A transaction of statements that are all texts has each of them, in its place.
pub proof fn law_batch_call(v: Json, r: Result<Task, Failure>, items: Seq<JsonV>)
    requires
        v.model().field("statements"@) == Some(JsonV::Array(items)),
        forall|i: int| 0 <= i < items.len() ==> (#[trigger] items[i]) is Str,
        call_ensures(call::mssql__batch, (&v,), r),
    ensures
        r matches Ok(Task::Batch { statements }) && statements@.len() == items.len() && forall|i: int|
            0 <= i < items.len() ==> JsonV::Str((#[trigger] statements@[i])@) == items[i],
{
    law_every_statement(items);
    let statements = r->Ok_0->Batch_statements;
    assert(tsql::views(statements@) == call::strings_of(items));
    assert forall|i: int| 0 <= i < items.len() implies JsonV::Str((#[trigger] statements@[i])@)
        == items[i] by {
        assert(tsql::views(statements@)[i] == statements@[i]@);
    }
}

/// The columns of a table are asked for by its name, as the only parameter.
pub proof fn law_columns_call(v: Json, r: Result<Task, Failure>, table: Seq<char>)
    requires
        v.model().field("table"@) == Some(JsonV::Str(table)),
        call_ensures(call::mssql__columns, (&v,), r),
    ensures
        r is Ok && r->Ok_0.model() == (TaskV::Query {
            sql:
                "SELECT COLUMN_NAME, DATA_TYPE, IS_NULLABLE, CHARACTER_MAXIMUM_LENGTH FROM INFORMATION_SCHEMA.COLUMNS WHERE TABLE_NAME = @P1 ORDER BY ORDINAL_POSITION"@,
            params: seq![JsonV::Str(table)],
            shape: Shape::Rows,
        }),
{
}

/// The calls that need no server answer with one field each.
pub proof fn law_answers_without_server(v: Json, r: Result<Json, Failure>, s: Seq<char>)
    ensures
        v.model().field("url"@) == Some(JsonV::Str(s)) ==> (call_ensures(
            call::mssql__redact_url,
            (&v,),
            r,
        ) ==> r is Ok && r->Ok_0.model() == JsonV::Object(
            seq![("value"@, JsonV::Str(ado::redacted(s)))],
        )),
        v.model().field("url"@) == Some(JsonV::Str(s)) ==> (call_ensures(
            call::mssql__parse_url,
            (&v,),
            r,
        ) ==> r is Ok && ado::is_parsed(r->Ok_0.model(), s)),
        v.model().field("name"@) == Some(JsonV::Str(s)) ==> (call_ensures(
            call::mssql__quote_ident,
            (&v,),
            r,
        ) ==> r is Ok && r->Ok_0.model() == JsonV::Object(
            seq![("value"@, JsonV::Str(tsql::quoted(s)))],
        )),
        v.model().field("script"@) == Some(JsonV::Str(s)) ==> (call_ensures(
            call::mssql__split_batch,
            (&v,),
            r,
        ) ==> r is Ok && r->Ok_0.model() == JsonV::Object(
            seq![("batches"@, call::string_array(tsql::batches(s)))],
        )),
        v.model().field("parts"@) matches Some(JsonV::Object(parts)) ==> (call_ensures(
            call::mssql__build_url,
            (&v,),
            r,
        ) ==> r is Ok && r->Ok_0.model() == JsonV::Object(
            seq![("value"@, JsonV::Str(ado::built(parts)))],
        )),
{
}

/// Without its argument each of these calls fails for want of it.
pub proof fn law_failures_without_server(v: Json, r: Result<Json, Failure>)
    ensures
        !(v.model().field("url"@) matches Some(x) && x is Str) ==> {
            &&& call_ensures(call::mssql__redact_url, (&v,), r) ==> r == Err::<Json, Failure>(
                Failure::MissingUrl,
            )
            &&& call_ensures(call::mssql__parse_url, (&v,), r) ==> r == Err::<Json, Failure>(
                Failure::MissingUrl,
            )
        },
        !(v.model().field("name"@) matches Some(x) && x is Str) ==> (call_ensures(
            call::mssql__quote_ident,
            (&v,),
            r,
        ) ==> r == Err::<Json, Failure>(Failure::MissingName)),
        !(v.model().field("script"@) matches Some(x) && x is Str) ==> (call_ensures(
            call::mssql__split_batch,
            (&v,),
            r,
        ) ==> r == Err::<Json, Failure>(Failure::MissingScript)),
        !(v.model().field("parts"@) matches Some(x) && x is Object) ==> (call_ensures(
            call::mssql__build_url,
            (&v,),
            r,
        ) ==> r == Err::<Json, Failure>(Failure::MissingParts)),
{
}

/// What affected rows and the version of the package are answered with.
pub proof fn law_plain_answers(n: u64, version: &str, r: Json)
    ensures
        call_ensures(call::affected, (n,), r) ==> r.model() == JsonV::Object(
            seq![("affected"@, JsonV::Int(n as int))],
        ),
        call_ensures(call::mssql__version, (version,), r) ==> r.model() == JsonV::Object(
            seq![("version"@, JsonV::Str(version@))],
        ),
{
}

/// The configuration that comes of a key without a connection string has the server, the login and
/// the database of the key.
pub proof fn law_configuration(key: ConnKey, r: Result<tiberius::Config, Failure>)
    requires
        key.url@.len() == 0,
        call_ensures(config::config_for, (&key,), r),
    ensures
        r is Ok,
        config::settings(r->Ok_0).host == Some(key.host@),
        config::settings(r->Ok_0).port == Some(key.port),
        config::settings(r->Ok_0).auth == (Auth::SqlServer {
            user: key.username@,
            password: key.password@,
        }),
        key.database@.len() > 0 ==> config::settings(r->Ok_0).database == Some(key.database@),
{
}

/// But for white space, the batches that a script is split into are its lines other than `GO`, in
/// their order.
pub proof fn law_batches_of_a_script(script: &str, r: Vec<String>)
    requires
        call_ensures(tsql::split_batch, (script,), r),
    ensures
        ink_of(tsql::views(r@)) == ink_of(kept(text::lines(script@))),
{
    law_batches_keep_the_text(script@);
}

} // verus!
