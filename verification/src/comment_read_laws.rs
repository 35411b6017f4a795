//! A comment that is written is what is then read, in every format.
use crate::error::Er;
use crate::json_lexer::eol_at;
use crate::kdl_comments::{decor_notes, node_cmt, slash_note, slash_notes, slashes_from, trailing_note};
use crate::kdl_notes::{ending_of, indent_of, noted_node, rebuilt_leading, slash_lines};
use crate::kdl_tree::Kn;
use crate::line_comment::one_line;
use crate::lines::{flat, flat_add, flat_push, is_line, lines_are_lines, lines_of, lines_of_flat};
use crate::model::{Cmt, CommentKind, St};
use crate::strs::{trimmed, trimmed_end, trimmed_start, white_space};
use crate::text::{blank, blanks_end};
use crate::toml_comments::{
    line_note, line_notes, nd_cmt, own_lines, same_line, under_head, unhashed, value_cmt,
};
use crate::toml_edit_laws::{nd_at, only_at, same_but, slot_stays};
use crate::toml_emit::inline_suffix;
use crate::toml_notes::{blank_line, end_indent, hash_lines, leading_blank, note_walk, noted_entry, rebuilt_head};
use crate::toml_spell::{last_break, last_break_bounds, text_in};
use crate::toml_tree::{decor_in, is_header, slot, slot_bounds, with_decor, Et, Nd};
use crate::wrap::{budget_of, filled, is_word, lines_words, words_are_words, words_of, wrapped, wrapping_keeps_words};
use vstd::prelude::*;
use vstd::string::*;

verus! {

/// A line of text: no line break in it, and no white space at its ends.
pub open spec fn snug(w: Seq<char>) -> bool {
    &&& forall|i: int| 0 <= i < w.len() ==> (#[trigger] w[i]) != '\n' && w[i] != '\r'
    &&& w.len() > 0 ==> !white_space(w[0]) && !white_space(w.last())
}

/// Is every character white space?
pub open spec fn white(s: Seq<char>) -> bool {
    forall|i: int| 0 <= i < s.len() ==> white_space(#[trigger] s[i])
}

pub proof fn start_trims(a: Seq<char>, b: Seq<char>)
    requires
        white(a),
    ensures
        trimmed_start(a + b) == trimmed_start(b),
    decreases a.len(),
{
    if a.len() == 0 {
        assert(a + b =~= b);
    } else {
        assert((a + b)[0] == a[0]);
        assert((a + b).drop_first() =~= a.drop_first() + b);
        assert forall|i: int| 0 <= i < a.drop_first().len() implies white_space(
            #[trigger] a.drop_first()[i],
        ) by {
            assert(a.drop_first()[i] == a[i + 1]);
        }
        start_trims(a.drop_first(), b);
    }
}

proof fn end_trims(b: Seq<char>, c: Seq<char>)
    requires
        white(c),
    ensures
        trimmed_end(b + c) == trimmed_end(b),
    decreases c.len(),
{
    if c.len() == 0 {
        assert(b + c =~= b);
    } else {
        assert((b + c).last() == c.last());
        assert(white_space(c[c.len() - 1]));
        assert((b + c).drop_last() =~= b + c.drop_last());
        assert forall|i: int| 0 <= i < c.drop_last().len() implies white_space(
            #[trigger] c.drop_last()[i],
        ) by {
            assert(c.drop_last()[i] == c[i]);
        }
        end_trims(b, c.drop_last());
    }
}

/// White space around a text is trimmed off.
pub proof fn trims(a: Seq<char>, b: Seq<char>, c: Seq<char>)
    requires
        white(a),
        white(c),
        b.len() > 0 ==> !white_space(b[0]) && !white_space(b.last()),
    ensures
        trimmed(a + b + c) == b,
{
    assert(a + b + c =~= a + (b + c));
    start_trims(a, b + c);
    if b.len() == 0 {
        assert(b + c =~= c);
        assert(c + Seq::<char>::empty() =~= c);
        start_trims(c, Seq::empty());
        assert(trimmed_start(Seq::<char>::empty()) =~= Seq::<char>::empty());
        assert(trimmed_end(Seq::<char>::empty()) =~= Seq::<char>::empty());
        assert(b =~= Seq::<char>::empty());
    } else {
        assert((b + c)[0] == b[0]);
        end_trims(b, c);
    }
}

proof fn fills_are_snug(ws: Seq<Seq<char>>, budget: int, n: nat)
    requires
        n <= ws.len(),
        forall|k: int| 0 <= k < ws.len() ==> is_word(#[trigger] ws[k]),
    ensures
        snug(filled(ws, budget, n).1),
        forall|k: int|
            0 <= k < filled(ws, budget, n).0.len() ==> snug(#[trigger] filled(ws, budget, n).0[k]),
    decreases n,
{
    if n > 0 {
        fills_are_snug(ws, budget, (n - 1) as nat);
        let w = ws[n - 1];
        assert(is_word(w));
        assert(!white_space(w[0]) && !white_space(w[w.len() - 1]));
        assert forall|k: int| 0 <= k < w.len() implies (#[trigger] w[k]) != '\n' && w[k] != '\r' by {
            assert(!white_space(w[k]));
        }
        let cur = filled(ws, budget, (n - 1) as nat).1;
        let x = cur.push(' ') + w;
        assert forall|k: int| 0 <= k < x.len() implies (#[trigger] x[k]) != '\n' && x[k] != '\r' by {
            if k < cur.len() {
                assert(x[k] == cur[k]);
            } else if k > cur.len() {
                assert(x[k] == w[k - cur.len() - 1]);
            }
        }
        assert(x.last() == w.last());
        if cur.len() > 0 {
            assert(x[0] == cur[0]);
        }
    }
}

/// Wrapped lines are lines of text.
pub proof fn wrapped_is_snug(text: Seq<char>, budget: int)
    ensures
        wrapped(text, budget).len() > 0,
        forall|k: int| 0 <= k < wrapped(text, budget).len() ==> snug(#[trigger] wrapped(text, budget)[k]),
{
    let ws = words_of(text);
    words_are_words(text, 0);
    fills_are_snug(ws, budget, ws.len());
}

proof fn blanks_are_white(s: Seq<char>)
    requires
        forall|i: int| 0 <= i < s.len() ==> blank(#[trigger] s[i]),
    ensures
        white(s),
{
    assert forall|i: int| 0 <= i < s.len() implies white_space(#[trigger] s[i]) by {
        assert(blank(s[i]));
    }
}

/// The lines of a decor: some lines that hold white space alone, one line for each comment,
/// and an indentation.
spec fn decor_lines(front: Seq<Seq<char>>, rows: Seq<Seq<char>>, indent: Seq<char>) -> Seq<Seq<char>> {
    if indent.len() == 0 {
        front + rows
    } else {
        (front + rows).push(indent)
    }
}

proof fn decor_is_lines(front: Seq<Seq<char>>, rows: Seq<Seq<char>>, indent: Seq<char>)
    requires
        forall|i: int| 0 <= i < front.len() ==> is_line(#[trigger] front[i]) && front[i].last() == '\n',
        forall|i: int| 0 <= i < rows.len() ==> is_line(#[trigger] rows[i]) && rows[i].last() == '\n',
        forall|i: int| 0 <= i < indent.len() ==> (#[trigger] indent[i]) != '\n',
    ensures
        lines_of(flat(front) + flat(rows) + indent) == decor_lines(front, rows, indent),
{
    let ls = front + rows;
    flat_add(front, rows);
    assert forall|i: int| 0 <= i < ls.len() implies is_line(#[trigger] ls[i]) && ls[i].last() == '\n' by {
        if i < front.len() {
            assert(ls[i] == front[i]);
        } else {
            assert(ls[i] == rows[i - front.len()]);
        }
    }
    if indent.len() == 0 {
        lines_of_flat(ls);
        assert(flat(front) + flat(rows) + indent =~= flat(ls));
    } else {
        let all = ls.push(indent);
        flat_push(ls, indent);
        assert(is_line(indent));
        assert forall|i: int| 0 <= i < all.len() implies is_line(#[trigger] all[i]) && (i < all.len() - 1
            ==> all[i].last() == '\n') by {
            if i < ls.len() {
                assert(all[i] == ls[i]);
            }
        }
        lines_of_flat(all);
        assert(flat(front) + flat(rows) + indent =~= flat(all));
    }
}

proof fn leading_blanks(ls: Seq<Seq<char>>, i: int)
    requires
        0 <= i <= ls.len(),
    ensures
        i <= leading_blank(ls, i) <= ls.len(),
        forall|k: int| i <= k < leading_blank(ls, i) ==> blank_line(#[trigger] ls[k]),
    decreases ls.len() - i,
{
    if i < ls.len() && blank_line(ls[i]) {
        leading_blanks(ls, i + 1);
    }
}

/// The blank lines that a decor starts with.
proof fn blank_front(existing: Seq<char>) -> (front: Seq<Seq<char>>)
    ensures
        front == lines_of(existing).take(leading_blank(lines_of(existing), 0)),
        forall|i: int|
            0 <= i < front.len() ==> is_line(#[trigger] front[i]) && front[i].last() == '\n' && trimmed(
                front[i],
            ).len() == 0,
{
    let ls = lines_of(existing);
    leading_blanks(ls, 0);
    lines_are_lines(existing);
    let front = ls.take(leading_blank(ls, 0));
    assert forall|i: int| 0 <= i < front.len() implies is_line(#[trigger] front[i]) && front[i].last()
        == '\n' && trimmed(front[i]).len() == 0 by {
        assert(front[i] == ls[i]);
        assert(blank_line(ls[i]));
    }
    front
}

// TOML.

spec fn hash_row(indent: Seq<char>, w: Seq<char>) -> Seq<char> {
    indent + "# "@ + w + "\n"@
}

spec fn hash_rows(indent: Seq<char>, lines: Seq<Seq<char>>) -> Seq<Seq<char>> {
    Seq::new(lines.len(), |i: int| hash_row(indent, lines[i]))
}

proof fn hash_rows_flat(indent: Seq<char>, lines: Seq<Seq<char>>, n: nat)
    requires
        n <= lines.len(),
    ensures
        hash_lines(indent, lines, n) == flat(hash_rows(indent, lines).take(n as int)),
    decreases n,
{
    let rows = hash_rows(indent, lines);
    if n == 0 {
        assert(rows.take(0) =~= Seq::<Seq<char>>::empty());
    } else {
        hash_rows_flat(indent, lines, (n - 1) as nat);
        assert(rows.take(n as int) =~= rows.take(n - 1).push(rows[n - 1]));
        flat_push(rows.take(n - 1), rows[n - 1]);
    }
}

proof fn hash_row_reads(indent: Seq<char>, w: Seq<char>)
    requires
        forall|i: int| 0 <= i < indent.len() ==> blank(#[trigger] indent[i]),
        snug(w),
    ensures
        is_line(hash_row(indent, w)),
        hash_row(indent, w).last() == '\n',
        line_note(hash_row(indent, w)) == Some(w),
{
    reveal_strlit("# ");
    reveal_strlit("\n");
    let l = hash_row(indent, w);
    blanks_are_white(indent);
    let sp = seq![' '];
    assert(white(sp));
    let core = if w.len() == 0 {
        seq!['#']
    } else {
        "# "@ + w
    };
    let tail = if w.len() == 0 {
        seq![' ', '\n']
    } else {
        seq!['\n']
    };
    assert(white(tail));
    assert(l =~= indent + core + tail);
    assert(core[0] == '#');
    if w.len() > 0 {
        assert(core.last() == w.last());
    }
    trims(indent, core, tail);
    if w.len() == 0 {
        assert(core.drop_first() =~= Seq::<char>::empty());
        assert(unhashed(core.drop_first()) =~= Seq::<char>::empty());
        assert(unhashed(core) == unhashed(core.drop_first()));
        assert(trimmed(Seq::<char>::empty()) =~= w) by {
            trims(Seq::empty(), Seq::empty(), Seq::empty());
            assert(Seq::<char>::empty() + Seq::<char>::empty() + Seq::<char>::empty()
                =~= Seq::<char>::empty());
        }
    } else {
        let r = core.drop_first();
        assert(r =~= sp + w);
        assert(unhashed(r) == r);
        assert(unhashed(core) == unhashed(r));
        trims(sp, w, Seq::empty());
        assert(sp + w + Seq::<char>::empty() =~= r);
    }
    assert forall|j: int| 0 <= j < l.len() - 1 implies #[trigger] l[j] != '\n' by {
        if j < indent.len() {
            assert(l[j] == indent[j]);
            assert(blank(indent[j]));
        } else if j >= indent.len() + 2 {
            assert(l[j] == w[j - indent.len() - 2]);
        }
    }
}

proof fn no_notes_in(ls: Seq<Seq<char>>, n: nat)
    requires
        n <= ls.len(),
        forall|i: int| 0 <= i < n ==> trimmed(#[trigger] ls[i]).len() == 0,
    ensures
        line_notes(ls, n) == Seq::<Seq<char>>::empty(),
        slash_notes(ls, n) == Seq::<Seq<char>>::empty(),
    decreases n,
{
    if n > 0 {
        no_notes_in(ls, (n - 1) as nat);
        assert(trimmed(ls[n - 1]).len() == 0);
        assert(line_notes(ls, n) =~= Seq::<Seq<char>>::empty());
        assert(slash_notes(ls, n) =~= Seq::<Seq<char>>::empty());
    }
}

proof fn notes_behind(ls: Seq<Seq<char>>, m: nat, lines: Seq<Seq<char>>, n: nat)
    requires
        m + n <= ls.len(),
        n <= lines.len(),
        line_notes(ls, m) == Seq::<Seq<char>>::empty(),
        forall|i: int| 0 <= i < n ==> line_note(ls[m + i]) == Some(#[trigger] lines[i]),
    ensures
        line_notes(ls, m + n) == lines.take(n as int),
    decreases n,
{
    if n == 0 {
        assert(lines.take(0) =~= Seq::<Seq<char>>::empty());
    } else {
        notes_behind(ls, m, lines, (n - 1) as nat);
        assert(line_note(ls[m + (n - 1)]) == Some(lines[n - 1]));
        assert(line_notes(ls, m + n) =~= lines.take(n as int));
    }
}

/// The comment lines that a TOML head is rebuilt with are those that are read of it.
pub proof fn toml_head_reads_back(existing: Seq<char>, lines: Seq<Seq<char>>)
    requires
        forall|i: int| 0 <= i < lines.len() ==> snug(#[trigger] lines[i]),
    ensures
        own_lines(rebuilt_head(existing, lines)) == lines,
{
    let indent = end_indent(existing);
    last_break_bounds(existing);
    let front = blank_front(existing);
    let rows = hash_rows(indent, lines);
    assert forall|i: int| 0 <= i < indent.len() implies blank(#[trigger] indent[i]) && indent[i] != '\n' by {}
    assert forall|i: int| 0 <= i < rows.len() implies is_line(#[trigger] rows[i]) && rows[i].last()
        == '\n' && line_note(rows[i]) == Some(lines[i]) by {
        assert(snug(lines[i]));
        hash_row_reads(indent, lines[i]);
    }
    hash_rows_flat(indent, lines, lines.len());
    assert(rows.take(lines.len() as int) =~= rows);
    decor_is_lines(front, rows, indent);
    let ls = decor_lines(front, rows, indent);
    let m = front.len();
    let n = lines.len();
    assert forall|i: int| 0 <= i < m implies trimmed(#[trigger] ls[i]).len() == 0 by {
        assert(ls[i] == front[i]);
    }
    no_notes_in(ls, m);
    assert forall|i: int| 0 <= i < n implies line_note(ls[m + i]) == Some(#[trigger] lines[i]) by {
        assert(ls[m + i] == rows[i]);
    }
    notes_behind(ls, m, lines, n);
    assert(lines.take(n as int) =~= lines);
    if indent.len() > 0 {
        blanks_are_white(indent);
        trims(indent, Seq::empty(), Seq::empty());
        assert(indent + Seq::<char>::empty() + Seq::<char>::empty() =~= indent);
        assert(ls.len() == m + n + 1);
        assert(ls[m + n as int] == indent);
        assert(line_notes(ls, ls.len()) =~= lines);
    }
}

proof fn one_line_is_snug(t: Seq<char>)
    requires
        t.len() > 0 ==> !white_space(t[0]) && !white_space(t.last()),
    ensures
        snug(one_line(t)),
        forall|i: int| 0 <= i < t.len() ==> (#[trigger] one_line(t)[i]) != '\n' && one_line(t)[i] != '\r',
{
    let w = one_line(t);
    if t.len() > 0 {
        assert(w[0] == t[0]);
        assert(w.last() == t.last());
    }
}

proof fn line_stops(a: Seq<char>, b: Seq<char>, i: int)
    requires
        0 <= i <= a.len(),
        forall|k: int| 0 <= k < a.len() ==> (#[trigger] a[k]) != '\n',
        b.len() == 0 || b[0] == '\n',
    ensures
        eol_at(a + b, i) == a.len(),
    decreases a.len() - i,
{
    let s = a + b;
    if i < a.len() {
        assert(s[i] == a[i]);
        line_stops(a, b, i + 1);
    } else if b.len() > 0 {
        assert(s[i] == b[0]);
    }
}

/// The inline comment that is written behind a TOML value is the one that is read there.
pub proof fn toml_inline_reads_back(t: Seq<char>)
    requires
        t.len() > 0 ==> !white_space(t[0]) && !white_space(t.last()),
    ensures
        same_line(inline_suffix(Some(t))) == Some(one_line(t)),
{
    reveal_strlit(" # ");
    reveal_strlit("# ");
    reveal_strlit("\n");
    let w = one_line(t);
    one_line_is_snug(t);
    let s = inline_suffix(Some(t));
    assert(s =~= " # "@ + w);
    assert forall|k: int| 0 <= k < s.len() implies (#[trigger] s[k]) != '\n' by {
        if k >= 3 {
            assert(s[k] == w[k - 3]);
        }
    }
    line_stops(s, Seq::empty(), 0);
    assert(s + Seq::<char>::empty() =~= s);
    assert(s.take(s.len() as int) =~= s);
    let row = hash_row(seq![' '], w);
    hash_row_reads(seq![' '], w);
    assert(row =~= s + seq!['\n']);
    // A line feed at the end makes no difference to what a line says.
    assert(white(seq!['\n']));
    let core = if w.len() == 0 {
        seq!['#']
    } else {
        "# "@ + w
    };
    let tail = if w.len() == 0 {
        seq![' ']
    } else {
        Seq::<char>::empty()
    };
    assert(white(tail) && white(seq![' ']) && white(tail + seq!['\n']));
    if w.len() > 0 {
        assert(core.last() == w.last());
    }
    trims(seq![' '], core, tail);
    trims(seq![' '], core, tail + seq!['\n']);
    assert(s =~= seq![' '] + core + tail);
    assert(row =~= seq![' '] + core + (tail + seq!['\n']));
}

// KDL.

spec fn slash_row(indent: Seq<char>, w: Seq<char>) -> Seq<char> {
    indent + "// "@ + w + "\n"@
}

spec fn slash_rows(indent: Seq<char>, lines: Seq<Seq<char>>) -> Seq<Seq<char>> {
    Seq::new(lines.len(), |i: int| slash_row(indent, lines[i]))
}

proof fn slash_rows_flat(indent: Seq<char>, lines: Seq<Seq<char>>, n: nat)
    requires
        n <= lines.len(),
    ensures
        slash_lines(indent, lines, n) == flat(slash_rows(indent, lines).take(n as int)),
    decreases n,
{
    let rows = slash_rows(indent, lines);
    if n == 0 {
        assert(rows.take(0) =~= Seq::<Seq<char>>::empty());
    } else {
        slash_rows_flat(indent, lines, (n - 1) as nat);
        assert(rows.take(n as int) =~= rows.take(n - 1).push(rows[n - 1]));
        flat_push(rows.take(n - 1), rows[n - 1]);
    }
}

proof fn slash_row_reads(indent: Seq<char>, w: Seq<char>)
    requires
        forall|i: int| 0 <= i < indent.len() ==> blank(#[trigger] indent[i]),
        snug(w),
    ensures
        is_line(slash_row(indent, w)),
        slash_row(indent, w).last() == '\n',
        slash_note(slash_row(indent, w)) == Some(w),
{
    reveal_strlit("// ");
    reveal_strlit("\n");
    let l = slash_row(indent, w);
    blanks_are_white(indent);
    let sp = seq![' '];
    assert(white(sp));
    let core = if w.len() == 0 {
        seq!['/', '/']
    } else {
        "// "@ + w
    };
    let tail = if w.len() == 0 {
        seq![' ', '\n']
    } else {
        seq!['\n']
    };
    assert(white(tail));
    assert(l =~= indent + core + tail);
    assert(core[0] == '/' && core[1] == '/');
    if w.len() > 0 {
        assert(core.last() == w.last());
    }
    trims(indent, core, tail);
    if w.len() == 0 {
        assert(core.skip(2) =~= Seq::<char>::empty());
        trims(Seq::empty(), Seq::empty(), Seq::empty());
        assert(Seq::<char>::empty() + Seq::<char>::empty() + Seq::<char>::empty()
            =~= Seq::<char>::empty());
        assert(w =~= Seq::<char>::empty());
    } else {
        trims(sp, w, Seq::empty());
        assert(core.skip(2) =~= sp + w + Seq::<char>::empty());
    }
    assert forall|j: int| 0 <= j < l.len() - 1 implies #[trigger] l[j] != '\n' by {
        if j < indent.len() {
            assert(l[j] == indent[j]);
            assert(blank(indent[j]));
        } else if j >= indent.len() + 3 {
            assert(l[j] == w[j - indent.len() - 3]);
        }
    }
}

proof fn slashes_behind(ls: Seq<Seq<char>>, m: nat, lines: Seq<Seq<char>>, n: nat)
    requires
        m + n <= ls.len(),
        n <= lines.len(),
        slash_notes(ls, m) == Seq::<Seq<char>>::empty(),
        forall|i: int| 0 <= i < n ==> slash_note(ls[m + i]) == Some(#[trigger] lines[i]),
    ensures
        slash_notes(ls, m + n) == lines.take(n as int),
    decreases n,
{
    if n == 0 {
        assert(lines.take(0) =~= Seq::<Seq<char>>::empty());
    } else {
        slashes_behind(ls, m, lines, (n - 1) as nat);
        assert(slash_note(ls[m + (n - 1)]) == Some(lines[n - 1]));
        assert(slash_notes(ls, m + n) =~= lines.take(n as int));
    }
}

proof fn blanks_of(s: Seq<char>, i: int)
    requires
        0 <= i <= s.len(),
    ensures
        i <= blanks_end(s, i) <= s.len(),
        forall|k: int| i <= k < blanks_end(s, i) ==> blank(#[trigger] s[k]),
    decreases s.len() - i,
{
    if i < s.len() && blank(s[i]) {
        blanks_of(s, i + 1);
    }
}

/// The comment lines that the text before a KDL node is rebuilt with are those that are
/// read of it.
pub proof fn kdl_head_reads_back(existing: Seq<char>, lines: Seq<Seq<char>>)
    requires
        forall|i: int| 0 <= i < lines.len() ==> snug(#[trigger] lines[i]),
    ensures
        decor_notes(rebuilt_leading(existing, lines)) == lines,
{
    let indent = indent_of(existing);
    let tail = existing.skip(last_break(existing) + 1);
    last_break_bounds(existing);
    blanks_of(tail, 0);
    let front = blank_front(existing);
    let rows = slash_rows(indent, lines);
    assert forall|i: int| 0 <= i < indent.len() implies blank(#[trigger] indent[i]) && indent[i] != '\n' by {
        assert(indent[i] == tail[i]);
        assert(blank(tail[i]));
    }
    assert forall|i: int| 0 <= i < rows.len() implies is_line(#[trigger] rows[i]) && rows[i].last()
        == '\n' && slash_note(rows[i]) == Some(lines[i]) by {
        assert(snug(lines[i]));
        slash_row_reads(indent, lines[i]);
    }
    slash_rows_flat(indent, lines, lines.len());
    assert(rows.take(lines.len() as int) =~= rows);
    decor_is_lines(front, rows, indent);
    let ls = decor_lines(front, rows, indent);
    let m = front.len();
    let n = lines.len();
    assert forall|i: int| 0 <= i < m implies trimmed(#[trigger] ls[i]).len() == 0 by {
        assert(ls[i] == front[i]);
    }
    no_notes_in(ls, m);
    assert forall|i: int| 0 <= i < n implies slash_note(ls[m + i]) == Some(#[trigger] lines[i]) by {
        assert(ls[m + i] == rows[i]);
    }
    slashes_behind(ls, m, lines, n);
    assert(lines.take(n as int) =~= lines);
    if indent.len() > 0 {
        blanks_are_white(indent);
        trims(indent, Seq::empty(), Seq::empty());
        assert(indent + Seq::<char>::empty() + Seq::<char>::empty() =~= indent);
        assert(ls.len() == m + n + 1);
        assert(ls[m + n as int] == indent);
        assert(slash_notes(ls, ls.len()) =~= lines);
    }
}

/// After a comment is written on a KDL node, it is the one that is read of the node: a head
/// comment in lines that hold the words of the text, an inline comment as one line. The
/// other comment and the value of the node are what they were.
pub proof fn kdl_comment_reads_back(n: Kn, kind: CommentKind, t: Seq<char>, width: int)
    requires
        kind is Inline ==> (t.len() > 0 ==> !white_space(t[0]) && !white_space(t.last())),
        n.form is Some,
    ensures
        ({
            let c = node_cmt(n);
            let now = node_cmt(noted_node(n, kind, Some(t), width));
            &&& kind is Head ==> lines_words(now.notes.head, now.notes.head.len()) == words_of(t)
                && now.notes.inline == c.notes.inline
            &&& kind is Inline ==> now.notes.inline == Some(one_line(t)) && now.notes.head
                == c.notes.head
            &&& now.node == c.node
        }),
{
    let m = noted_node(n, kind, Some(t), width);
    crate::kdl_laws::layout_keeps_value(n, m);
    match kind {
        CommentKind::Foot => {},
        CommentKind::Head => {
            let existing = crate::kdl_notes::leading_of(n);
            let b = budget_of(width, indent_of(existing).len() as int, 3);
            wrapped_is_snug(t, b);
            wrapping_keeps_words(t, b);
            kdl_head_reads_back(existing, wrapped(t, b));
        },
        CommentKind::Inline => {
            kdl_inline_reads(n, t);
        },
    }
}

proof fn kdl_inline_reads(n: Kn, t: Seq<char>)
    requires
        t.len() > 0 ==> !white_space(t[0]) && !white_space(t.last()),
    ensures
        trailing_note(" // "@ + one_line(t) + ending_of(n)) == Some(one_line(t)),
{
    reveal_strlit(" // ");
    reveal_strlit("\n");
    reveal_strlit("\r\n");
    let w = one_line(t);
    one_line_is_snug(t);
    let e = ending_of(n);
    let cr = if e.len() == 2 {
        seq!['\r']
    } else {
        Seq::<char>::empty()
    };
    let s = " // "@ + w + e;
    let a = " // "@ + w + cr;
    let lf = seq!['\n'];
    assert(s =~= a + lf);
    assert forall|k: int| 0 <= k < a.len() implies (#[trigger] a[k]) != '\n' by {
        if 4 <= k < 4 + w.len() {
            assert(a[k] == w[k - 4]);
        }
    }
    line_stops(a, lf, 0);
    let seg = s.take(eol_at(s, 0));
    assert(seg =~= a);
    assert(seg[0] == ' ' && seg[1] == '/' && seg[2] == '/');
    assert(slashes_from(seg, 1) == 1);
    assert(slashes_from(seg, 0) == slashes_from(seg, 1));
    let sp = seq![' '];
    assert(white(sp) && white(cr));
    trims(sp, w, cr);
    assert(seg.skip(3) =~= sp + w + cr);
}

// TOML, at a path.

/// An entry of a standard table with the comments on it.
pub open spec fn entry_cmt(e: Et) -> Cmt {
    under_head(nd_cmt(e.node), own_lines(text_in(e.name.leaf.prefix)))
}

/// After a comment is written on an entry of a TOML table, it is the one that is read of the
/// entry: a head comment in lines that hold the words of the text, an inline comment as one
/// line. The other comment and the value of the entry are what they were.
pub proof fn toml_entry_comment_reads_back(e: Et, kind: CommentKind, t: Seq<char>, budget: int)
    requires
        !(kind is Foot),
        kind is Inline ==> (t.len() > 0 ==> !white_space(t[0]) && !white_space(t.last())),
        noted_entry(e, kind, wrapped(t, budget), inline_suffix(Some(t))) is Ok,
    ensures
        ({
            let lines = wrapped(t, budget);
            let c = entry_cmt(e);
            let now = entry_cmt(noted_entry(e, kind, lines, inline_suffix(Some(t)))->Ok_0);
            let above = own_lines(text_in(e.name.leaf.prefix));
            &&& lines_words(lines, lines.len()) == words_of(t)
            &&& kind is Head && !is_header(e.node) ==> now.notes.head == lines
            &&& kind is Head && is_header(e.node) ==> now.notes.head == above + lines
            &&& kind is Head ==> now.notes.inline == c.notes.inline
            &&& kind is Inline ==> now.notes.inline == Some(one_line(t)) && now.notes.head
                == c.notes.head
            &&& now.notes.foot == c.notes.foot
            &&& now.node == c.node
        }),
{
    let lines = wrapped(t, budget);
    wrapped_is_snug(t, budget);
    wrapping_keeps_words(t, budget);
    let x = noted_entry(e, kind, lines, inline_suffix(Some(t)))->Ok_0;
    let d = decor_in(e.node);
    assert(with_decor(e.node, d) == e.node);
    assert(x.node == with_decor(e.node, decor_in(x.node)));
    value_ignores_decor(e.node, x.node);
    if kind is Head {
        if is_header(e.node) {
            toml_head_reads_back(text_in(d.prefix), lines);
        } else {
            toml_head_reads_back(text_in(e.name.leaf.prefix), lines);
            assert(lines + Seq::<Seq<char>>::empty() =~= lines);
        }
    } else {
        toml_inline_reads_back(t);
    }
}

/// What a value says inside does not depend on what stands around it.
proof fn value_ignores_decor(n: Nd, m: Nd)
    requires
        exists|d: crate::toml_tree::Dc| m == #[trigger] with_decor(n, d),
    ensures
        value_cmt(m) == value_cmt(n),
        is_header(m) == is_header(n),
        m is Tables == n is Tables,
{
}

/// Writing a comment at a path of keys changes the entry that the path leads to, and
/// nothing else of the document.
pub proof fn toml_comment_goes_to_its_entry(
    root: Nd,
    p: Seq<St>,
    kind: CommentKind,
    lines: Seq<Seq<char>>,
    suffix: Seq<char>,
)
    requires
        crate::toml_notes::nd_note(root, p, kind, lines, suffix) is Ok,
    ensures
        ({
            let now = crate::toml_notes::nd_note(root, p, kind, lines, suffix)->Ok_0;
            let to = p.drop_last();
            let k = p.last()->Field_0;
            &&& p.len() > 0 && p.last() is Field
            &&& only_at(root, now, to)
            &&& nd_at(root, to) is Some && nd_at(root, to)->0 is Table
            &&& nd_at(now, to) is Some && nd_at(now, to)->0 is Table
            &&& ({
                let es = nd_at(root, to)->0->Table_0;
                let fs = nd_at(now, to)->0->Table_0;
                let j = slot(es, k);
                &&& same_but(es, fs, j)
                &&& es[j].name.key == k
                &&& noted_entry(es[j], kind, lines, suffix) == Ok::<Et, Er>(fs[j])
            })
        }),
{
    assert(p[p.len() - 1] == p.last());
    assert(rest_of(p, 0) =~= p.drop_last());
    note_touches(root, p, 0, kind, lines, suffix);
}

spec fn rest_of(p: Seq<St>, i: int) -> Seq<St> {
    p.subrange(i, p.len() - 1)
}

proof fn note_touches(t: Nd, p: Seq<St>, i: int, kind: CommentKind, lines: Seq<Seq<char>>, suffix: Seq<char>)
    requires
        0 <= i < p.len(),
        p.last() is Field,
        note_walk(t, p, i, kind, lines, suffix) is Ok,
    ensures
        ({
            let now = note_walk(t, p, i, kind, lines, suffix)->Ok_0;
            let to = rest_of(p, i);
            let k = p.last()->Field_0;
            &&& only_at(t, now, to)
            &&& nd_at(t, to) is Some && nd_at(t, to)->0 is Table
            &&& nd_at(now, to) is Some && nd_at(now, to)->0 is Table
            &&& ({
                let es = nd_at(t, to)->0->Table_0;
                let fs = nd_at(now, to)->0->Table_0;
                let j = slot(es, k);
                &&& same_but(es, fs, j)
                &&& es[j].name.key == k
                &&& noted_entry(es[j], kind, lines, suffix) == Ok::<Et, Er>(fs[j])
            })
        }),
    decreases p.len() - i,
{
    let now = note_walk(t, p, i, kind, lines, suffix)->Ok_0;
    let es = t->Table_0;
    let k = p[i]->Field_0;
    slot_bounds(es, k);
    let j = slot(es, k);
    let fs = now->Table_0;
    if i + 1 >= p.len() {
        assert(rest_of(p, i) =~= Seq::<St>::empty());
        assert(p[p.len() - 1] == p.last());
    } else {
        let to = rest_of(p, i);
        assert(to[0] == p[i]);
        assert(to.drop_first() =~= rest_of(p, i + 1));
        note_touches(es[j].node, p, i + 1, kind, lines, suffix);
        assert forall|x: int| 0 <= x < es.len() implies (#[trigger] es[x]).name.key == fs[x].name.key by {}
        slot_stays(es, fs, k);
    }
}

} // verus!
