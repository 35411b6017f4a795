//! A comment written into a flat or an INI file is what is then read.
use crate::comment::{comment_at, nodes_at, note_values, steps_nodes, with_foot};
use crate::comment_read_laws::{snug, trims, white, wrapped_is_snug};
use crate::env::{env_commented, env_noted, env_ok, env_style, scheme, EnvDoc};
use crate::ini::{ini_noted, ini_style, with_inline, IniDoc};
use crate::line_comment::{block_ending, block_lines, delim_width, marker_from, marker_stripped, one_line, placed, placed_lines, run_start, unmarked, Style};
use crate::lines::{are_lines, flat, is_line, lines_of, lines_of_flat};
use crate::model::{Cmt, CmtNode, CommentKind, St, Val};
use crate::note_laws::{bare_header, block_ending_is_one, block_is_notes, framed_lines, indent_is_white, inline_says_the_same, run_above_is_notes, suits};
use crate::rows::{
    body_end, entry_from, entry_from_bounds, entry_key, entry_value, holds_key, note_text, row_kind,
    stripped_inline, text_at, walked, walked_line, white_from_is, RowKind, Scheme,
};
use crate::semantics::starts;
use crate::seqs::joined;
use crate::strs::white_space;
use crate::text::{blank, blanks_end};
use crate::wrap::{budget_of, lines_words, width_of, words_of, wrapped, wrapping_keeps_words};
use vstd::prelude::*;
use vstd::string::*;

verus! {

/// Does a comment start with a marker and a space?
pub open spec fn spaced_style(st: Style) -> bool {
    &&& st.delim.len() == 2
    &&& st.delim[1] == ' '
    &&& exists|i: int| 0 <= i < st.marks.len() && #[trigger] st.marks[i] == seq![st.delim[0]]
    &&& forall|i: int| 0 <= i < st.marks.len() ==> (#[trigger] st.marks[i]).len() == 1 && st.marks[i][0] != ' '
}

pub proof fn no_marker(t: Seq<char>, marks: Seq<Seq<char>>, i: int)
    requires
        0 <= i <= marks.len(),
        t.len() == 0 || t[0] == ' ',
        forall|k: int| 0 <= k < marks.len() ==> (#[trigger] marks[k]).len() == 1 && marks[k][0] != ' ',
    ensures
        marker_from(t, marks, i) == marks.len(),
    decreases marks.len() - i,
{
    if i < marks.len() {
        assert(marks[i].len() == 1);
        if starts(t, marks[i]) {
            assert(t.take(1)[0] == t[0]);
            assert(marks[i][0] == t[0]);
        }
        no_marker(t, marks, i + 1);
    }
}

pub proof fn some_marker(t: Seq<char>, marks: Seq<Seq<char>>, i: int, k: int)
    requires
        0 <= i <= k < marks.len(),
        t.len() > 0,
        marks[k] == seq![t[0]],
        forall|j: int| 0 <= j < marks.len() ==> (#[trigger] marks[j]).len() == 1,
    ensures
        i <= marker_from(t, marks, i) <= k,
        marks[marker_from(t, marks, i)].len() == 1,
    decreases k - i,
{
    if starts(t, marks[i]) {
        assert(marks[i].len() == 1);
    } else {
        if i == k {
            assert(t.take(1) =~= seq![t[0]]);
        }
        some_marker(t, marks, i + 1, k);
    }
}

/// The marker and the space in front of a comment's text are taken off.
proof fn marker_comes_off(st: Style, w: Seq<char>)
    requires
        spaced_style(st),
        snug(w),
    ensures
        marker_stripped(st.delim + w, st) == w,
{
    let t = st.delim + w;
    let k = choose|i: int| 0 <= i < st.marks.len() && #[trigger] st.marks[i] == seq![st.delim[0]];
    assert(t[0] == st.delim[0]);
    assert forall|j: int| 0 <= j < st.marks.len() implies (#[trigger] st.marks[j]).len() == 1 by {}
    some_marker(t, st.marks, 0, k);
    let r = t.skip(1);
    assert(r[0] == ' ');
    no_marker(r, st.marks, 0);
    assert(unmarked(r, st) == r);
    assert(unmarked(t, st) == unmarked(r, st));
    let sp = seq![' '];
    assert(white(sp));
    trims(sp, w, Seq::empty());
    assert(r =~= sp + w + Seq::<char>::empty());
}

/// Is the line a comment line that says the text?
pub open spec fn notes_row(t: Seq<char>, g: Scheme, st: Style, w: Seq<char>) -> bool {
    row_kind(t, g) == RowKind::Note && marker_stripped(note_text(t), st) == w
}

/// A comment line that is written is a comment line that says its text.
proof fn block_line_reads(st: Style, g: Scheme, indent: Seq<char>, w: Seq<char>, eol: Seq<char>)
    requires
        spaced_style(st),
        suits(st, g),
        forall|k: int| 0 <= k < indent.len() ==> blank(#[trigger] indent[k]),
        eol == "\n"@ || eol == "\r\n"@,
        snug(w),
        !white_space(st.delim[0]),
    ensures
        row_kind(indent + st.delim + w + eol, g) == RowKind::Note,
        marker_stripped(note_text(indent + st.delim + w + eol), st) == w,
{
    reveal_strlit("\n");
    reveal_strlit("\r\n");
    let t = indent + st.delim + w + eol;
    let a = indent.len() as int;
    let e = t.len() - eol.len();
    assert(t[a] == st.delim[0]);
    assert(t[t.len() - 1] == '\n');
    if eol.len() == 2 {
        assert(t[t.len() - 2] == '\r');
    } else {
        assert(t[t.len() - 2] != '\r') by {
            if w.len() > 0 {
                assert(t[t.len() - 2] == w[w.len() - 1]);
            } else {
                assert(t[t.len() - 2] == st.delim[1]);
            }
        }
    }
    assert(body_end(t) == e);
    assert forall|k: int| 0 <= k < a implies white_space(#[trigger] t[k]) by {
        assert(t[k] == indent[k]);
        assert(blank(indent[k]));
    }
    white_from_is(t, 0, e, a);
    assert(text_at(t) == a);
    assert(note_text(t) =~= st.delim + w);
    marker_comes_off(st, w);
}

pub proof fn walked_from(st: Style, lines: Seq<Seq<char>>, g: Scheme, a: int, m: int, b: int, o: Seq<(Seq<char>, Cmt)>, p: Seq<Seq<char>>)
    requires
        a <= m <= b,
    ensures
        walked(st, lines, g, a, b, o, p) == ({
            let (o1, p1) = walked(st, lines, g, a, m, o, p);
            walked(st, lines, g, m, b, o1, p1)
        }),
    decreases b - m,
{
    if m < b {
        walked_from(st, lines, g, a, m, b - 1, o, p);
    }
}

pub proof fn walked_alike(st: Style, x: Seq<Seq<char>>, y: Seq<Seq<char>>, g: Scheme, a: int, b: int, o: Seq<(Seq<char>, Cmt)>, p: Seq<Seq<char>>)
    requires
        0 <= a <= b <= x.len(),
        b <= y.len(),
        forall|k: int| a <= k < b ==> #[trigger] x[k] == y[k],
    ensures
        walked(st, x, g, a, b, o, p) == walked(st, y, g, a, b, o, p),
    decreases b - a,
{
    if a < b {
        walked_alike(st, x, y, g, a, b - 1, o, p);
        assert(x[b - 1] == y[b - 1]);
    }
}

/// Comment lines wait for the next entry, in order.
pub proof fn walked_notes(st: Style, lines: Seq<Seq<char>>, g: Scheme, a: int, rows: Seq<Seq<char>>, n: nat, o: Seq<(Seq<char>, Cmt)>, p: Seq<Seq<char>>)
    requires
        0 <= a,
        n <= rows.len(),
        a + n <= lines.len(),
        forall|k: int| 0 <= k < n ==> notes_row(lines[a + k], g, st, #[trigger] rows[k]),
    ensures
        walked(st, lines, g, a, a + n, o, p) == (o, p + rows.take(n as int)),
    decreases n,
{
    if n == 0 {
        assert(p + rows.take(0) =~= p);
    } else {
        walked_notes(st, lines, g, a, rows, (n - 1) as nat, o, p);
        assert(notes_row(lines[a + (n - 1)], g, st, rows[n - 1]));
        assert((p + rows.take(n - 1)).push(rows[n - 1]) =~= p + rows.take(n as int));
    }
}

/// The lines with a head comment placed above an entry: what stood above the old comment,
/// the new one, and the entry with all that is below it.
#[verifier::rlimit(60)]
#[verifier::spinoff_prover]
proof fn head_placed(lines: Seq<Seq<char>>, g: Scheme, at: int, st: Style, t: Seq<char>) -> (rows: Seq<Seq<char>>)
    requires
        spaced_style(st),
        suits(st, g),
        !white_space(st.delim[0]),
        are_lines(lines),
        0 <= at < lines.len(),
    ensures
        ({
            let indent = lines[at].take(blanks_end(lines[at], 0));
            let now = lines_of(placed(flat(lines), at, true, indent, st, Some(t)));
            let s = run_start(lines, st, at);
            &&& 0 <= s <= at
            &&& rows.len() > 0
            &&& lines_words(rows, rows.len()) == words_of(t)
            &&& now.len() == s + rows.len() + (lines.len() - at)
            &&& forall|k: int| 0 <= k < s ==> #[trigger] now[k] == lines[k]
            &&& forall|k: int| 0 <= k < rows.len() ==> notes_row(now[s + k], g, st, #[trigger] rows[k])
            &&& forall|k: int| at <= k < lines.len() ==> now[k - at + s + rows.len()] == #[trigger] lines[k]
        }),
{
    let line = lines[at];
    let indent = line.take(blanks_end(line, 0));
    indent_is_white(line, 0);
    assert forall|k: int| 0 <= k < indent.len() implies blank(#[trigger] indent[k]) by {
        assert(indent[k] == line[k]);
    }
    let source = flat(lines);
    lines_of_flat(lines);
    let eol = block_ending(source, line);
    block_ending_is_one(source, line);
    let block = block_lines(source, indent, st, eol, Some(t));
    block_is_notes(source, indent, st, g, eol, Some(t));
    let budget = budget_of(width_of(source), indent.len() as int, delim_width(st.delim));
    let rows = wrapped(t, budget);
    wrapped_is_snug(t, budget);
    wrapping_keeps_words(t, budget);
    let s = run_start(lines, st, at);
    run_above_is_notes(lines, st, g, at);
    let (front, back) = (lines.take(s), lines.skip(at));
    let out = front + block + back;
    assert(are_lines(front) && are_lines(back)) by {
        assert forall|i: int| 0 <= i < back.len() implies is_line(#[trigger] back[i]) && (i < back.len() - 1
            ==> back[i].last() == '\n') by {
            assert(back[i] == lines[at + i]);
        }
        assert forall|i: int| 0 <= i < front.len() implies is_line(#[trigger] front[i]) && front[i].last()
            == '\n' by {
            assert(front[i] == lines[i]);
        }
    }
    if front.len() > 0 {
        assert(front.last() == lines[s - 1]);
    }
    framed_lines(front, block, back);
    lines_of_flat(out);
    assert(placed_lines(source, at, true, indent, st, Some(t)) == out);
    assert forall|k: int| 0 <= k < rows.len() implies notes_row(out[s + k], g, st, #[trigger] rows[k]) by {
        assert(out[s + k] == block[k]);
        assert(snug(rows[k]));
        block_line_reads(st, g, indent, rows[k], eol);
    }
    assert forall|k: int| at <= k < lines.len() implies out[k - at + s + rows.len()]
        == #[trigger] lines[k] by {
        assert(out[k - at + s + rows.len()] == back[k - at]);
    }
    rows
}

/// A head comment placed above an entry is what the entry is then read with, behind the
/// comments that stand further above: the walk over the lines gives the entries above, and
/// then this entry with lines that end in those of the text, word for word.
pub proof fn placed_head_is_read(lines: Seq<Seq<char>>, g: Scheme, at: int, st: Style, t: Seq<char>) -> (rows: Seq<Seq<char>>)
    requires
        spaced_style(st),
        suits(st, g),
        !white_space(st.delim[0]),
        are_lines(lines),
        0 <= at < lines.len(),
        row_kind(lines[at], g) == RowKind::Entry,
    ensures
        ({
            let indent = lines[at].take(blanks_end(lines[at], 0));
            let now = lines_of(placed(flat(lines), at, true, indent, st, Some(t)));
            let s = run_start(lines, st, at);
            let (o, p) = walked(st, lines, g, 0, s, Seq::empty(), Seq::empty());
            let there = s + rows.len();
            let (o1, p1) = walked(st, now, g, 0, there + 1, Seq::empty(), Seq::empty());
            &&& 0 <= s <= at && there < now.len() && rows.len() > 0
            &&& lines_words(rows, rows.len()) == words_of(t)
            &&& now[there] == lines[at]
            &&& p1.len() == 0
            &&& o1.len() == o.len() + 1
            &&& forall|k: int| 0 <= k < o.len() ==> #[trigger] o1[k] == o[k]
            &&& o1.last().0 == entry_key(lines[at], g)
            &&& o1.last().1.notes.head == p + rows
            &&& o1.last().1.node == CmtNode::Scalar(Val::Str(entry_value(lines[at], g)))
        }),
{
    let rows = head_placed(lines, g, at, st, t);
    let indent = lines[at].take(blanks_end(lines[at], 0));
    let now = lines_of(placed(flat(lines), at, true, indent, st, Some(t)));
    let s = run_start(lines, st, at);
    let none = Seq::<(Seq<char>, Cmt)>::empty();
    let quiet = Seq::<Seq<char>>::empty();
    let there = s + rows.len();
    walked_alike(st, now, lines, g, 0, s, none, quiet);
    let (o, p) = walked(st, lines, g, 0, s, none, quiet);
    walked_notes(st, now, g, s, rows, rows.len(), o, p);
    assert(rows.take(rows.len() as int) =~= rows);
    walked_from(st, now, g, 0, s, there, none, quiet);
    assert(now[at - at + s + rows.len()] == lines[at]);
    rows
}

proof fn walked_keys(st: Style, lines: Seq<Seq<char>>, g: Scheme, key: Seq<char>, to: int)
    requires
        0 <= to <= lines.len(),
        forall|k: int| 0 <= k < to ==> !holds_key(#[trigger] lines[k], g, key),
    ensures
        forall|k: int|
            0 <= k < walked(st, lines, g, 0, to, Seq::empty(), Seq::empty()).0.len() ==> (
            #[trigger] walked(st, lines, g, 0, to, Seq::empty(), Seq::empty()).0[k]).0 != key,
    decreases to,
{
    if to > 0 {
        walked_keys(st, lines, g, key, to - 1);
        assert(!holds_key(lines[to - 1], g, key));
        let (o, p) = walked(st, lines, g, 0, to - 1, Seq::empty(), Seq::empty());
        let r = walked(st, lines, g, 0, to, Seq::empty(), Seq::empty()).0;
        assert(r == walked_line(st, lines[to - 1], g, o, p).0);
        assert forall|k: int| 0 <= k < r.len() implies (#[trigger] r[k]).0 != key by {
            if k < o.len() {
                assert(r[k] == o[k]);
            }
        }
    }
}

proof fn walked_grows(st: Style, lines: Seq<Seq<char>>, g: Scheme, a: int, b: int, o: Seq<(Seq<char>, Cmt)>, p: Seq<Seq<char>>)
    requires
        0 <= a <= b <= lines.len(),
    ensures
        walked(st, lines, g, a, b, o, p).0.len() >= o.len(),
        forall|k: int| 0 <= k < o.len() ==> #[trigger] walked(st, lines, g, a, b, o, p).0[k] == o[k],
        forall|k: int|
            o.len() <= k < walked(st, lines, g, a, b, o, p).0.len() ==> (#[trigger] walked(
                st,
                lines,
                g,
                a,
                b,
                o,
                p,
            ).0[k]).1.node is Scalar,
    decreases b - a,
{
    if a < b {
        walked_grows(st, lines, g, a, b - 1, o, p);
    }
}

proof fn first_member(m: Seq<(Seq<char>, Cmt)>, k: Seq<char>, i: int, r: int)
    requires
        0 <= i <= r < m.len(),
        m[r].0 == k,
        forall|j: int| i <= j < r ==> (#[trigger] m[j]).0 != k,
    ensures
        crate::comment::entry_from(m, k, i) == r,
    decreases r - i,
{
    if i < r {
        first_member(m, k, i + 1, r);
    }
}

/// What a key of an object of scalars is read with.
proof fn key_reads(c: Cmt, m: Seq<(Seq<char>, Cmt)>, k: Seq<char>, r: int, kind: CommentKind)
    requires
        c.node == CmtNode::Object(m),
        0 <= r < m.len(),
        m[r].0 == k,
        forall|j: int| 0 <= j < r ==> (#[trigger] m[j]).0 != k,
        crate::comment::note_text(m[r].1.notes, kind) is Some,
    ensures
        comment_at(c, seq![St::Field(k), St::Comment(kind)]) == seq![
            Val::Str(crate::comment::note_text(m[r].1.notes, kind)->0),
        ],
{
    let p = seq![St::Field(k), St::Comment(kind)];
    let q = seq![St::Field(k)];
    assert(p.drop_last() =~= q);
    assert(p.last() == St::Comment(kind));
    assert(q.drop_last() =~= Seq::<St>::empty());
    first_member(m, k, 0, r);
    assert(nodes_at(c, q.drop_last()) == seq![c]);
    assert(seq![c].drop_last() =~= Seq::<Cmt>::empty());
    assert(steps_nodes(Seq::<Cmt>::empty(), q.last()) =~= Seq::<Cmt>::empty());
    assert(steps_nodes(seq![c], q.last()) =~= seq![m[r].1]);
    let ns = seq![m[r].1];
    assert(ns.drop_last() =~= Seq::<Cmt>::empty());
    assert(note_values(Seq::<Cmt>::empty(), kind) =~= Seq::<Val>::empty());
    assert(note_values(ns, kind) =~= seq![Val::Str(crate::comment::note_text(m[r].1.notes, kind)->0)]);
}

/// After a head comment is written on a key of a flat file, `.key.#` yields it: lines that
/// hold the words of the text, behind the comments that stood further above.
#[verifier::rlimit(60)]
#[verifier::spinoff_prover]
pub proof fn env_comment_reads_back(d: EnvDoc, key: Seq<char>, t: Seq<char>) -> (r: (Seq<Seq<char>>, Seq<Seq<char>>))
    requires
        env_ok(d),
        env_noted(d, seq![St::Field(key)], CommentKind::Head, t) is Ok,
    ensures
        ({
            let now = env_noted(d, seq![St::Field(key)], CommentKind::Head, t)->Ok_0.0;
            let (above, rows) = r;
            &&& lines_words(rows, rows.len()) == words_of(t)
            &&& comment_at(
                env_commented(now),
                seq![St::Field(key), St::Comment(CommentKind::Head)],
            ) == seq![Val::Str(joined(above + rows, "\n"@))]
            &&& run_start(
                d.lines,
                env_style(),
                entry_from(d.lines, scheme(d.dialect), key, 0, d.lines.len() as int),
            ) == 0 ==> above.len() == 0
        }),
{
    reveal_strlit("#");
    reveal_strlit("!");
    reveal_strlit("# ");
    let st = env_style();
    let g = scheme(d.dialect);
    let n = d.lines.len() as int;
    let at = entry_from(d.lines, g, key, 0, n);
    entry_from_bounds(d.lines, g, key, 0, n);
    assert(st.marks[0] =~= seq![st.delim[0]]);
    assert(spaced_style(st));
    assert(suits(st, g));
    let rows = placed_head_is_read(d.lines, g, at, st, t);
    let now = env_noted(d, seq![St::Field(key)], CommentKind::Head, t)->Ok_0.0;
    let s = run_start(d.lines, st, at);
    let none = Seq::<(Seq<char>, Cmt)>::empty();
    let quiet = Seq::<Seq<char>>::empty();
    let (o, p) = walked(st, d.lines, g, 0, s, none, quiet);
    let there = s + rows.len();
    let (o1, p1) = walked(st, now.lines, g, 0, there + 1, none, quiet);
    walked_keys(st, d.lines, g, key, s);
    let len = now.lines.len() as int;
    walked_from(st, now.lines, g, 0, there + 1, len, none, quiet);
    walked_grows(st, now.lines, g, there + 1, len, o1, p1);
    walked_grows(st, now.lines, g, 0, len, none, quiet);
    let (entries, pending) = walked(st, now.lines, g, 0, len, none, quiet);
    let at1 = o.len() as int;
    assert(entries[at1] == o1[at1]);
    assert forall|j: int| 0 <= j < at1 implies (#[trigger] entries[j]).0 != key by {
        assert(entries[j] == o1[j]);
        assert(o1[j] == o[j]);
    }
    assert((p + rows).len() > 0);
    let root = Cmt { notes: crate::model::no_notes(), node: CmtNode::Object(entries) };
    if pending.len() > 0 {
        let last = entries.len() - 1;
        let m = entries.update(last, (entries[last].0, with_foot(entries[last].1, pending)));
        let c = with_foot(root, pending);
        assert(c.node == CmtNode::Object(m));
        assert(entries[last].1.node is Scalar);
        assert(m[at1].0 == key);
        assert(m[at1].1.notes.head == p + rows);
        assert forall|j: int| 0 <= j < at1 implies (#[trigger] m[j]).0 != key by {
            assert(entries[j].0 != key);
        }
        key_reads(c, m, key, at1, CommentKind::Head);
    } else {
        key_reads(root, entries, key, at1, CommentKind::Head);
    }
    if s == 0 {
        assert(p =~= Seq::<Seq<char>>::empty());
    }
    (p, rows)
}

/// After an inline comment is written on an entry or a header of an INI file, it is the one
/// that the line is read with, and the line says what it said.
pub proof fn ini_inline_reads_back(t: Seq<char>, x: Seq<char>)
    requires
        is_line(t),
        row_kind(t, Scheme::Sections) == RowKind::Entry || row_kind(t, Scheme::Sections)
            == RowKind::Header,
        !bare_header(t),
        x.len() > 0 ==> !white_space(x[0]) && !white_space(x.last()),
    ensures
        stripped_inline(ini_style(), with_inline(t, Some(x)), Scheme::Sections) == Some(one_line(x)),
        row_kind(t, Scheme::Sections) == RowKind::Entry ==> row_kind(
            with_inline(t, Some(x)),
            Scheme::Sections,
        ) == RowKind::Entry && entry_key(with_inline(t, Some(x)), Scheme::Sections) == entry_key(
            t,
            Scheme::Sections,
        ) && entry_value(with_inline(t, Some(x)), Scheme::Sections) == entry_value(t, Scheme::Sections),
{
    reveal_strlit(";");
    reveal_strlit("#");
    reveal_strlit("; ");
    let st = ini_style();
    inline_says_the_same(t, Some(x));
    let w = one_line(x);
    if x.len() > 0 {
        assert(w[0] == x[0]);
        assert(w.last() == x.last());
    }
    assert(snug(w));
    assert(st.marks[0] =~= seq![st.delim[0]]);
    assert(spaced_style(st));
    marker_comes_off(st, w);
}

/// A comment written into an INI file goes to the line that its path leads to: a head comment
/// right above it, an inline comment behind it; the lines elsewhere are what they were.
pub proof fn ini_comment_goes_to_its_line(d: IniDoc, path: Seq<St>, kind: CommentKind, t: Seq<char>) -> (rows: Seq<Seq<char>>)
    requires
        are_lines(d.lines),
        crate::ini::comment_line_of(d.lines, path) is Ok,
        0 <= crate::ini::comment_line_of(d.lines, path)->Ok_0 < d.lines.len(),
        !(kind is Foot),
    ensures
        ({
            let at = crate::ini::comment_line_of(d.lines, path)->Ok_0;
            let r = ini_noted(d, path, kind, t);
            let now = r->Ok_0.0.lines;
            let s = run_start(d.lines, ini_style(), at);
            &&& r is Ok
            &&& kind is Inline ==> now.len() == d.lines.len() && now[at] == with_inline(
                d.lines[at],
                Some(t),
            ) && forall|k: int| 0 <= k < now.len() && k != at ==> #[trigger] now[k] == d.lines[k]
            &&& kind is Head ==> {
                &&& 0 <= s <= at
                &&& lines_words(rows, rows.len()) == words_of(t)
                &&& now.len() == s + rows.len() + (d.lines.len() - at)
                &&& forall|k: int| 0 <= k < s ==> #[trigger] now[k] == d.lines[k]
                &&& forall|k: int|
                    0 <= k < rows.len() ==> notes_row(
                        now[s + k],
                        Scheme::Sections,
                        ini_style(),
                        #[trigger] rows[k],
                    )
                &&& forall|k: int|
                    at <= k < d.lines.len() ==> now[k - at + s + rows.len()] == #[trigger] d.lines[k]
            }
        }),
{
    reveal_strlit(";");
    reveal_strlit("#");
    reveal_strlit("; ");
    let st = ini_style();
    let at = crate::ini::comment_line_of(d.lines, path)->Ok_0;
    assert(st.marks[0] =~= seq![st.delim[0]]);
    assert(spaced_style(st));
    assert(suits(st, Scheme::Sections));
    head_placed(d.lines, Scheme::Sections, at, st, t)
}

} // verus!
