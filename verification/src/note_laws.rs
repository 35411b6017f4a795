//! Editing comments leaves values alone.
use crate::env::{
    comment_key, env_noted, env_ok, env_placed, env_style, env_unnoted, env_whole, scheme, EnvDoc,
};
use crate::ini::{
    comment_line_of, entry_address, entry_line_bounds, header_from, header_from_bounds, heads,
    ini_noted, ini_ok, ini_placed, ini_style, ini_unnoted, ini_whole, named_from_bounds, own_end,
    section_members, with_inline, IniDoc,
};
use crate::line_comment::{
    block_ending, block_lines, comment_line, delim_width, last_target, marker_from, open_ended,
    one_line, placed, placed_lines, run_end, run_start, unbroken, unterminated, Style,
};
use crate::lines::{are_lines, flat, is_line, lines_of, lines_of_flat};
use crate::model::{CommentKind, St, Val};
use crate::rows::{
    body_end, close_at, close_from_bounds, close_from_is, dominant_is_an_ending, entry_bounds,
    entry_from, entry_from_bounds, entry_key, entry_members, entry_value, header_bounds,
    header_name, inline_text, marks, note_from_bounds, note_from_is, note_opens, region_end, row_kind,
    run_from_bounds, run_from_is, sep_at, sep_end, sep_from_bounds, sep_from_is,
    terminated_line_reads_alike, text_at, value_end, value_start, white_back, white_back_bounds,
    white_back_is, white_from_bounds, white_from_is, RowKind, Scheme,
};
use crate::semantics::starts;
use crate::strs::{trimmed_start, white_space};
use crate::text::{blank, blanks_end, ending_len, ends_lf, line_ending};
use crate::wrap::{budget_of, filled, is_word, width_of, words_are_words, words_of, wrapped};
use vstd::prelude::*;
use vstd::string::*;

verus! {

/// What a line says: an entry, a section header, or nothing.
pub enum Saying {
    Item(Seq<char>, Seq<char>),
    Head(Seq<char>),
}

/// What a line says.
pub open spec fn says(t: Seq<char>, g: Scheme) -> Option<Saying> {
    match row_kind(t, g) {
        RowKind::Entry => Some(Saying::Item(entry_key(t, g), entry_value(t, g))),
        RowKind::Header => Some(Saying::Head(header_name(t))),
        _ => None,
    }
}

/// What the first `n` lines say.
pub open spec fn sayings(lines: Seq<Seq<char>>, g: Scheme, n: nat) -> Seq<Saying>
    decreases n,
{
    if n == 0 || n > lines.len() {
        Seq::empty()
    } else {
        match says(lines[n - 1], g) {
            Some(x) => sayings(lines, g, (n - 1) as nat).push(x),
            None => sayings(lines, g, (n - 1) as nat),
        }
    }
}

/// What lines say.
pub open spec fn said(lines: Seq<Seq<char>>, g: Scheme) -> Seq<Saying> {
    sayings(lines, g, lines.len())
}

proof fn sayings_prefix(a: Seq<Seq<char>>, b: Seq<Seq<char>>, g: Scheme, n: nat)
    requires
        n <= a.len(),
    ensures
        sayings(a + b, g, n) == sayings(a, g, n),
    decreases n,
{
    if n > 0 {
        sayings_prefix(a, b, g, (n - 1) as nat);
        assert((a + b)[n - 1] == a[n - 1]);
    }
}

proof fn sayings_add(a: Seq<Seq<char>>, b: Seq<Seq<char>>, g: Scheme, n: nat)
    requires
        n <= b.len(),
    ensures
        sayings(a + b, g, a.len() + n) == said(a, g) + sayings(b, g, n),
    decreases n,
{
    if n == 0 {
        sayings_prefix(a, b, g, a.len());
        assert(said(a, g) + sayings(b, g, 0) =~= said(a, g));
    } else {
        sayings_add(a, b, g, (n - 1) as nat);
        assert((a + b)[a.len() + n - 1] == b[n - 1]);
        assert(sayings(a + b, g, a.len() + n) =~= said(a, g) + sayings(b, g, n));
    }
}

/// What lines and further lines say.
proof fn said_add(a: Seq<Seq<char>>, b: Seq<Seq<char>>, g: Scheme)
    ensures
        said(a + b, g) == said(a, g) + said(b, g),
{
    sayings_add(a, b, g, b.len());
}

/// Lines that are all comments.
pub open spec fn all_notes(lines: Seq<Seq<char>>, g: Scheme) -> bool {
    forall|i: int| 0 <= i < lines.len() ==> row_kind(#[trigger] lines[i], g) == RowKind::Note
}

/// Comments say nothing.
proof fn notes_say_nothing(lines: Seq<Seq<char>>, g: Scheme, n: nat)
    requires
        all_notes(lines, g),
        n <= lines.len(),
    ensures
        sayings(lines, g, n) == Seq::<Saying>::empty(),
    decreases n,
{
    if n > 0 {
        notes_say_nothing(lines, g, (n - 1) as nat);
        assert(row_kind(lines[n - 1], g) == RowKind::Note);
    }
}

/// A line whose text opens with a marker is a comment.
pub proof fn marked_line_is_note(t: Seq<char>, g: Scheme, a: int)
    requires
        0 <= a < t.len(),
        forall|k: int| 0 <= k < a ==> white_space(#[trigger] t[k]),
        marks(g, t[a]),
    ensures
        row_kind(t, g) == RowKind::Note,
{
    assert(!white_space(t[a]));
    assert(a < body_end(t));
    white_from_is(t, 0, body_end(t), a);
}

/// How a comment style and a line format go together: each marker is a character
/// that opens a comment line, and so does the delimiter.
pub open spec fn suits(st: Style, g: Scheme) -> bool {
    &&& st.delim.len() > 0
    &&& marks(g, st.delim[0])
    &&& forall|i: int| 0 <= i < st.delim.len() ==> #[trigger] st.delim[i] != '\n'
    &&& forall|i: int|
        0 <= i < st.marks.len() ==> (#[trigger] st.marks[i]).len() > 0 && marks(g, st.marks[i][0])
}

proof fn marker_bounds(t: Seq<char>, marks: Seq<Seq<char>>, i: int)
    requires
        0 <= i <= marks.len(),
        marker_from(t, marks, i) < marks.len(),
    ensures
        0 <= marker_from(t, marks, i) < marks.len(),
        starts(t, marks[marker_from(t, marks, i)]),
    decreases marks.len() - i,
{
    if i < marks.len() && !starts(t, marks[i]) {
        marker_bounds(t, marks, i + 1);
    }
}

/// The text a line starts with, behind its white space, is where its white space
/// ends.
proof fn trimmed_start_at(s: Seq<char>, i: int)
    requires
        0 <= i <= s.len(),
        forall|k: int| 0 <= k < i ==> white_space(#[trigger] s[k]),
    ensures
        exists|a: int|
            i <= a <= s.len() && trimmed_start(s.skip(i)) == #[trigger] s.skip(a) && (forall|k: int|
                0 <= k < a ==> white_space(#[trigger] s[k])),
    decreases s.len() - i,
{
    let rest = s.skip(i);
    if rest.len() > 0 && white_space(rest[0]) {
        assert(rest.drop_first() =~= s.skip(i + 1));
        trimmed_start_at(s, i + 1);
    } else {
        assert(trimmed_start(s.skip(i)) == s.skip(i));
    }
}

/// What is behind a line's text is its line breaks.
pub proof fn unterminated_parts(s: Seq<char>)
    ensures
        unterminated(s).len() <= s.len(),
        unterminated(s) == s.take(unterminated(s).len() as int),
        forall|k: int|
            unterminated(s).len() <= k < s.len() ==> #[trigger] s[k] == '\n' || s[k] == '\r',
        unterminated(s).len() > 0 ==> unterminated(s).last() != '\n' && unterminated(s).last()
            != '\r',
    decreases s.len(),
{
    if s.len() > 0 && (s.last() == '\n' || s.last() == '\r') {
        let d = s.drop_last();
        unterminated_parts(d);
        assert forall|k: int| unterminated(s).len() <= k < s.len() implies #[trigger] s[k] == '\n'
            || s[k] == '\r' by {
            if k < d.len() {
                assert(d[k] == s[k]);
            }
        }
        assert(s.take(unterminated(s).len() as int) =~= d.take(unterminated(s).len() as int));
    } else {
        assert(s.take(s.len() as int) =~= s);
    }
}

/// A comment line of the style is a comment of the format.
pub proof fn comment_line_is_note(t: Seq<char>, st: Style, g: Scheme)
    requires
        suits(st, g),
        comment_line(unterminated(t), st),
    ensures
        row_kind(t, g) == RowKind::Note,
{
    let u = unterminated(t);
    unterminated_parts(t);
    trimmed_start_at(u, 0);
    assert(u.skip(0) =~= u);
    let a = choose|a: int|
        0 <= a <= u.len() && trimmed_start(u.skip(0)) == #[trigger] u.skip(a) && (forall|k: int|
            0 <= k < a ==> white_space(#[trigger] u[k]));
    let w = u.skip(a);
    marker_bounds(w, st.marks, 0);
    let m = st.marks[marker_from(w, st.marks, 0)];
    assert(m.len() > 0 && marks(g, m[0]));
    assert(w[0] == m[0]);
    assert(t[a] == u[a] == w[0]);
    assert forall|k: int| 0 <= k < a implies white_space(#[trigger] t[k]) by {
        assert(u[k] == t[k]);
    }
    marked_line_is_note(t, g, a);
}

pub proof fn run_above_is_notes(lines: Seq<Seq<char>>, st: Style, g: Scheme, i: int)
    requires
        suits(st, g),
        0 <= i <= lines.len(),
    ensures
        0 <= run_start(lines, st, i) <= i,
        all_notes(lines.subrange(run_start(lines, st, i), i), g),
    decreases i,
{
    if 0 < i && comment_line(unterminated(lines[i - 1]), st) {
        run_above_is_notes(lines, st, g, i - 1);
        comment_line_is_note(lines[i - 1], st, g);
        let s = run_start(lines, st, i);
        let before = lines.subrange(s, i - 1);
        let run = lines.subrange(s, i);
        assert forall|k: int| 0 <= k < run.len() implies row_kind(#[trigger] run[k], g)
            == RowKind::Note by {
            if k < before.len() {
                assert(before[k] == run[k]);
            }
        }
    }
}

proof fn run_below_is_notes(lines: Seq<Seq<char>>, st: Style, g: Scheme, i: int)
    requires
        suits(st, g),
        0 <= i <= lines.len(),
    ensures
        i <= run_end(lines, st, i) <= lines.len(),
        all_notes(lines.subrange(i, run_end(lines, st, i)), g),
    decreases lines.len() - i,
{
    if i < lines.len() && comment_line(unterminated(lines[i]), st) {
        run_below_is_notes(lines, st, g, i + 1);
        comment_line_is_note(lines[i], st, g);
        let e = run_end(lines, st, i);
        let after = lines.subrange(i + 1, e);
        let run = lines.subrange(i, e);
        assert forall|k: int| 0 <= k < run.len() implies row_kind(#[trigger] run[k], g)
            == RowKind::Note by {
            if k > 0 {
                assert(after[k - 1] == run[k]);
            }
        }
    }
}

/// A text without line feeds.
pub open spec fn one_lined(s: Seq<char>) -> bool {
    forall|k: int| 0 <= k < s.len() ==> #[trigger] s[k] != '\n'
}

proof fn fills_are_one_lined(ws: Seq<Seq<char>>, budget: int, n: nat)
    requires
        n <= ws.len(),
        forall|k: int| 0 <= k < ws.len() ==> is_word(#[trigger] ws[k]),
    ensures
        one_lined(filled(ws, budget, n).1),
        forall|k: int|
            0 <= k < filled(ws, budget, n).0.len() ==> one_lined(#[trigger] filled(ws, budget, n).0[k]),
    decreases n,
{
    if n > 0 {
        fills_are_one_lined(ws, budget, (n - 1) as nat);
        let w = ws[n - 1];
        assert(is_word(w));
        assert forall|k: int| 0 <= k < w.len() implies #[trigger] w[k] != '\n' by {
            assert(!white_space(w[k]));
        }
    }
}

/// Wrapped lines are lines.
proof fn wrapped_is_one_lined(text: Seq<char>, budget: int)
    ensures
        forall|k: int|
            0 <= k < wrapped(text, budget).len() ==> one_lined(#[trigger] wrapped(text, budget)[k]),
        wrapped(text, budget).len() > 0,
{
    let ws = words_of(text);
    words_are_words(text, 0);
    fills_are_one_lined(ws, budget, ws.len());
}

/// White space that lines start with.
pub proof fn indent_is_white(line: Seq<char>, i: int)
    requires
        0 <= i <= line.len(),
        forall|k: int| 0 <= k < i ==> blank(#[trigger] line[k]),
    ensures
        i <= blanks_end(line, i) <= line.len(),
        forall|k: int| 0 <= k < blanks_end(line, i) ==> blank(#[trigger] line[k]),
    decreases line.len() - i,
{
    if i < line.len() && blank(line[i]) {
        indent_is_white(line, i + 1);
    }
}

/// The ending of a block's lines is a line ending.
pub proof fn block_ending_is_one(source: Seq<char>, line: Seq<char>)
    ensures
        block_ending(source, line) == "\n"@ || block_ending(source, line) == "\r\n"@,
{
    dominant_is_an_ending(source);
}

/// A block's lines are terminated comments; without its ending the last is one
/// too.
pub proof fn block_is_notes(
    source: Seq<char>,
    indent: Seq<char>,
    st: Style,
    g: Scheme,
    eol: Seq<char>,
    text: Option<Seq<char>>,
)
    requires
        suits(st, g),
        forall|k: int| 0 <= k < indent.len() ==> blank(#[trigger] indent[k]),
        eol == "\n"@ || eol == "\r\n"@,
    ensures
        ({
            let block = block_lines(source, indent, st, eol, text);
            let open = open_ended(block, eol);
            &&& all_notes(block, g)
            &&& all_notes(open, g)
            &&& open.len() == block.len()
            &&& forall|i: int|
                0 <= i < block.len() ==> is_line(#[trigger] block[i]) && block[i].last() == '\n'
            &&& forall|i: int| 0 <= i < block.len() ==> is_line(#[trigger] open[i])
            &&& forall|i: int| 0 <= i < block.len() - 1 ==> (#[trigger] open[i]).last() == '\n'
        }),
{
    reveal_strlit("\n");
    reveal_strlit("\r\n");
    let block = block_lines(source, indent, st, eol, text);
    let open = open_ended(block, eol);
    if let Some(t) = text {
        let budget = budget_of(width_of(source), indent.len() as int, delim_width(st.delim));
        let rows = wrapped(t, budget);
        wrapped_is_one_lined(t, budget);
        let a = indent.len() as int;
        assert forall|i: int| 0 <= i < block.len() implies is_line(#[trigger] block[i])
            && block[i].last() == '\n' && row_kind(block[i], g) == RowKind::Note && is_line(
            block[i].take(block[i].len() - eol.len()),
        ) && row_kind(block[i].take(block[i].len() - eol.len()), g) == RowKind::Note by {
            let body = indent + st.delim + rows[i];
            assert(one_lined(rows[i]));
            assert(block[i] == body + eol);
            assert forall|k: int| 0 <= k < body.len() implies #[trigger] body[k] != '\n' by {
                if k < a {
                    assert(blank(indent[k]));
                } else if k < a + st.delim.len() {
                    assert(st.delim[k - a] != '\n');
                } else {
                    assert(rows[i][k - a - st.delim.len()] != '\n');
                }
            }
            assert forall|k: int| 0 <= k < a implies white_space(#[trigger] body[k]) by {
                assert(blank(indent[k]));
            }
            assert(body[a] == st.delim[0]);
            assert forall|k: int| 0 <= k < block[i].len() - 1 implies #[trigger] block[i][k]
                != '\n' by {
                if k < body.len() {
                    assert(block[i][k] == body[k]);
                }
            }
            assert forall|k: int| 0 <= k < a implies white_space(#[trigger] block[i][k]) by {
                assert(block[i][k] == body[k]);
            }
            assert(block[i].take(block[i].len() - eol.len()) =~= body);
            marked_line_is_note(body, g, a);
            marked_line_is_note(block[i], g, a);
        }
    }
}

/// A line without its line breaks says what it said.
#[verifier::rlimit(60)]
#[verifier::spinoff_prover]
proof fn bare_line_says_the_same(t: Seq<char>, g: Scheme)
    requires
        is_line(t),
        row_kind(t, g) == RowKind::Entry || row_kind(t, g) == RowKind::Header,
    ensures
        is_line(unterminated(t)),
        says(unterminated(t), g) == says(t, g),
{
    let u = unterminated(t);
    unterminated_parts(t);
    let e = u.len() as int;
    let f = body_end(t);
    assert forall|k: int| 0 <= k < e implies #[trigger] u[k] == t[k] by {}
    let a = text_at(t);
    white_from_bounds(t, 0, f);
    assert(!white_space(t[a]));
    assert(a < e);
    assert(body_end(u) == e);
    assert(e <= f);
    assert forall|k: int| e <= k < f implies white_space(#[trigger] t[k]) by {
        assert(t[k] == '\n' || t[k] == '\r');
    }
    assert forall|j: int| 0 <= j < u.len() - 1 implies #[trigger] u[j] != '\n' by {
        assert(t[j] != '\n');
    }
    white_from_is(u, 0, e, a);
    assert(text_at(u) == a);
    if row_kind(t, g) == RowKind::Entry {
        entry_bounds(t, g);
        let sep = sep_at(t, g);
        sep_from_bounds(t, g, a, f);
        assert(sep < e);
        sep_from_is(u, g, a, e, sep);
        let ke = white_back(t, a, sep);
        white_back_bounds(t, a, sep);
        white_back_is(u, a, sep, ke);
        assert(u.subrange(a, ke) =~= t.subrange(a, ke));
        let se = sep_end(t, g);
        run_from_bounds(t, sep, f);
        assert(se <= e) by {
            if g == Scheme::Spaced && se > e {
                assert(t[e] == ' ' || t[e] == '\t');
            }
        }
        if g == Scheme::Spaced {
            run_from_is(u, sep, e, se);
        }
        assert(sep_end(u, g) == se);
        let re = region_end(t, g);
        let rf = if re < e {
            re
        } else {
            e
        };
        if g == Scheme::Sections {
            note_from_bounds(t, se, se, f);
            assert(re < f ==> re < e) by {
                if re < f {
                    assert(note_opens(t, se, re));
                }
            }
            assert forall|k: int| se <= k < rf implies !(#[trigger] note_opens(u, se, k)) by {
                assert(!note_opens(t, se, k));
            }
            if rf < e {
                assert(note_opens(t, se, re));
                assert(note_opens(u, se, rf));
            }
            note_from_is(u, se, se, e, rf);
        }
        assert(region_end(u, g) == rf);
        let vs = value_start(t, g);
        let ve = value_end(t, g);
        white_from_bounds(t, se, re);
        white_back_bounds(t, vs, re);
        if vs < re {
            assert(!white_space(t[vs]));
            assert(vs < rf);
            white_from_is(u, se, rf, vs);
            assert(ve > vs);
            assert(!white_space(t[ve - 1]));
            assert(ve <= rf);
            white_back_is(u, vs, rf, ve);
        } else {
            white_from_is(u, se, rf, rf);
            white_back_is(u, rf, rf, rf);
        }
        assert(entry_value(u, g) =~= entry_value(t, g));
    } else {
        let c = close_at(t);
        close_from_bounds(t, a + 1, f);
        if c < f {
            assert(c < e);
            close_from_is(u, a + 1, e, c);
        } else {
            assert(a + 1 == f);
            assert(e == f);
            close_from_is(u, a + 1, e, e);
        }
        assert(header_name(u) =~= header_name(t));
    }
}

/// The line a block is placed below says what it said, however the file ends.
proof fn last_target_says_the_same(t: Seq<char>, g: Scheme, block: Seq<Seq<char>>, eol: Seq<char>)
    requires
        is_line(t),
        row_kind(t, g) == RowKind::Entry || row_kind(t, g) == RowKind::Header,
        eol == "\n"@ || eol == "\r\n"@,
    ensures
        is_line(last_target(t, block, eol)),
        block.len() > 0 ==> last_target(t, block, eol).last() == '\n',
        says(last_target(t, block, eol), g) == says(t, g),
{
    if block.len() == 0 {
        bare_line_says_the_same(t, g);
    } else if !ends_lf(t) {
        terminated_line_reads_alike(t, g, eol);
    }
}

/// Placing or removing a comment block beside a line leaves lines that say the
/// same.
#[verifier::rlimit(60)]
#[verifier::spinoff_prover]
pub proof fn placing_says_the_same(
    lines: Seq<Seq<char>>,
    g: Scheme,
    target: int,
    head: bool,
    st: Style,
    text: Option<Seq<char>>,
)
    requires
        suits(st, g),
        are_lines(lines),
        0 <= target < lines.len(),
        row_kind(lines[target], g) == RowKind::Entry || row_kind(lines[target], g)
            == RowKind::Header,
    ensures
        ({
            let indent = lines[target].take(blanks_end(lines[target], 0));
            said(lines_of(placed(flat(lines), target, head, indent, st, text)), g) == said(lines, g)
        }),
{
    let line = lines[target];
    let indent = line.take(blanks_end(line, 0));
    indent_is_white(line, 0);
    assert forall|k: int| 0 <= k < indent.len() implies blank(#[trigger] indent[k]) by {
        assert(indent[k] == line[k]);
    }
    let source = flat(lines);
    lines_of_flat(lines);
    let eol = block_ending(source, line);
    block_ending_is_one(source, line);
    let block = block_lines(source, indent, st, eol, text);
    block_is_notes(source, indent, st, g, eol, text);
    notes_say_nothing(block, g, block.len());
    let out = placed_lines(source, target, head, indent, st, text);
    if head {
        let s = run_start(lines, st, target);
        run_above_is_notes(lines, st, g, target);
        let run = lines.subrange(s, target);
        let (front, back) = (lines.take(s), lines.skip(target));
        notes_say_nothing(run, g, run.len());
        assert(lines =~= front + run + back);
        said_add(front, run, g);
        said_add(front + run, back, g);
        said_add(front, block, g);
        said_add(front + block, back, g);
        assert(out == front + block + back);
        assert(said(front, g) + Seq::<Saying>::empty() =~= said(front, g));
        assert(said(out, g) == said(lines, g));
        framed_lines(front, block, back);
    } else {
        let e = run_end(lines, st, target + 1);
        run_below_is_notes(lines, st, g, target + 1);
        let run = lines.subrange(target + 1, e);
        let back = lines.skip(e);
        let front = lines.take(target + 1);
        notes_say_nothing(run, g, run.len());
        assert(lines =~= front + run + back);
        said_add(front, run, g);
        said_add(front + run, back, g);
        assert(said(front, g) + Seq::<Saying>::empty() =~= said(front, g));
        if e == lines.len() && ending_len(lines[e - 1]) == 0 {
            let last = last_target(line, block, eol);
            let open = open_ended(block, eol);
            let shorter = lines.take(target);
            last_target_says_the_same(line, g, block, eol);
            notes_say_nothing(open, g, open.len());
            assert(out == shorter.push(last) + open + back);
            assert(front =~= shorter + seq![line]);
            assert(shorter.push(last) =~= shorter + seq![last]);
            said_add(shorter, seq![line], g);
            said_add(shorter, seq![last], g);
            reveal_with_fuel(sayings, 2);
            assert(said(seq![line], g) =~= said(seq![last], g));
            said_add(shorter.push(last), open, g);
            said_add(shorter.push(last) + open, back, g);
            assert(said(out, g) == said(lines, g));
            assert forall|i: int| 0 <= i < out.len() implies is_line(#[trigger] out[i]) by {
                if i < target {
                    assert(out[i] == lines[i]);
                } else if i > target {
                    assert(out[i] == open[i - target - 1]);
                }
            }
            assert forall|i: int| 0 <= i < out.len() - 1 implies (#[trigger] out[i]).last()
                == '\n' by {
                if i < target {
                    assert(out[i] == lines[i]);
                } else if i > target {
                    assert(out[i] == open[i - target - 1]);
                }
            }
        } else {
            said_add(front, block, g);
            said_add(front + block, back, g);
            assert(out == front + block + back);
            assert(said(out, g) == said(lines, g));
            assert(front.last().last() == '\n') by {
                if e == lines.len() && e == target + 1 {
                    assert(ending_len(line) > 0);
                } else {
                    assert(target < lines.len() - 1);
                    assert(lines[target].last() == '\n');
                }
            }
            framed_lines(front, block, back);
        }
    }
    lines_of_flat(out);
}

/// Lines, terminated lines and further lines are lines.
pub proof fn framed_lines(front: Seq<Seq<char>>, block: Seq<Seq<char>>, back: Seq<Seq<char>>)
    requires
        are_lines(front),
        are_lines(back),
        front.len() > 0 ==> front.last().last() == '\n',
        forall|i: int|
            0 <= i < block.len() ==> is_line(#[trigger] block[i]) && block[i].last() == '\n',
    ensures
        are_lines(front + block + back),
{
    let out = front + block + back;
    assert forall|i: int| 0 <= i < out.len() implies is_line(#[trigger] out[i]) && (i < out.len() - 1
        ==> out[i].last() == '\n') by {
        if i < front.len() {
            assert(out[i] == front[i]);
        } else if i < front.len() + block.len() {
            assert(out[i] == block[i - front.len()]);
        } else {
            assert(out[i] == back[i - front.len() - block.len()]);
        }
    }
}

/// The members that sayings give a flat document.
pub open spec fn items(s: Seq<Saying>, n: nat) -> Seq<(Seq<char>, Val)>
    decreases n,
{
    if n == 0 || n > s.len() {
        Seq::empty()
    } else {
        match s[n - 1] {
            Saying::Item(k, v) => items(s, (n - 1) as nat).push((k, Val::Str(v))),
            Saying::Head(_) => items(s, (n - 1) as nat),
        }
    }
}

proof fn items_prefix(s: Seq<Saying>, x: Saying, n: nat)
    requires
        n <= s.len(),
    ensures
        items(s.push(x), n) == items(s, n),
    decreases n,
{
    if n > 0 {
        items_prefix(s, x, (n - 1) as nat);
    }
}

/// A flat document's members are those its lines say.
proof fn members_are_said(lines: Seq<Seq<char>>, g: Scheme, n: nat)
    requires
        n <= lines.len(),
    ensures
        entry_members(lines, g, 0, n as int) == items(sayings(lines, g, n), sayings(lines, g, n).len()),
    decreases n,
{
    if n > 0 {
        let m = (n - 1) as nat;
        members_are_said(lines, g, m);
        let before = sayings(lines, g, m);
        if let Some(x) = says(lines[m as int], g) {
            items_prefix(before, x, before.len());
        }
    }
}

/// Writing or removing a comment leaves a flat document's value as it was.
pub proof fn env_comment_edits_keep_the_value(
    d: EnvDoc,
    path: Seq<St>,
    kind: CommentKind,
    text: Seq<char>,
)
    requires
        env_ok(d),
    ensures
        env_noted(d, path, kind, text) is Ok ==> env_whole(env_noted(d, path, kind, text)->Ok_0.0)
            == env_whole(d),
        env_unnoted(d, path, kind) is Ok ==> env_whole(env_unnoted(d, path, kind)->Ok_0)
            == env_whole(d),
{
    if let Ok(key) = comment_key(path) {
        let g = scheme(d.dialect);
        let at = entry_from(d.lines, g, key, 0, d.lines.len() as int);
        entry_from_bounds(d.lines, g, key, 0, d.lines.len() as int);
        if at < d.lines.len() {
            reveal_strlit("#");
            reveal_strlit("!");
            reveal_strlit("# ");
            assert(suits(env_style(), g));
            let head = kind == CommentKind::Head;
            placing_says_the_same(d.lines, g, at, head, env_style(), Some(text));
            placing_says_the_same(d.lines, g, at, head, env_style(), None);
            let noted = env_placed(d, at, head, Some(text));
            let bare = env_placed(d, at, head, None);
            members_are_said(d.lines, g, d.lines.len());
            members_are_said(noted.lines, g, noted.lines.len());
            members_are_said(bare.lines, g, bare.lines.len());
        }
    }
}

/// The first section header among sayings from `i` on, or their number.
pub open spec fn head_at(s: Seq<Saying>, i: int) -> int
    decreases s.len() - i,
{
    if i < s.len() && !(s[i] is Head) {
        head_at(s, i + 1)
    } else {
        i
    }
}

/// The members that sayings `a` to `b` give.
pub open spec fn span_items(s: Seq<Saying>, a: int, b: int) -> Seq<(Seq<char>, Val)>
    decreases b - a,
{
    if a >= b {
        Seq::empty()
    } else {
        match s[b - 1] {
            Saying::Item(k, v) => span_items(s, a, b - 1).push((k, Val::Str(v))),
            Saying::Head(_) => span_items(s, a, b - 1),
        }
    }
}

/// The members that the sections from the header at `h` on give.
pub open spec fn sections_said(s: Seq<Saying>, h: int) -> Seq<(Seq<char>, Val)>
    decreases s.len() - h,
{
    if h >= s.len() {
        Seq::empty()
    } else {
        let next = head_at(s, h + 1);
        let one = (s[h]->Head_0, Val::Object(span_items(s, h + 1, next)));
        if h < next <= s.len() {
            seq![one] + sections_said(s, next)
        } else {
            seq![one]
        }
    }
}

/// The value that a document's sayings give.
pub open spec fn value_said(s: Seq<Saying>) -> Val {
    let h = head_at(s, 0);
    Val::Object(span_items(s, 0, h) + sections_said(s, h))
}

/// How much the first `n` lines say.
pub open spec fn count(lines: Seq<Seq<char>>, n: int) -> int {
    sayings(lines, Scheme::Sections, n as nat).len() as int
}

/// What a line says is said at the place that the lines in front of it leave.
proof fn said_in_place(lines: Seq<Seq<char>>, n: int, i: int)
    requires
        0 <= i < n <= lines.len(),
    ensures
        0 <= count(lines, i) <= count(lines, i + 1) <= count(lines, n),
        match says(lines[i], Scheme::Sections) {
            Some(x) => count(lines, i + 1) == count(lines, i) + 1 && sayings(
                lines,
                Scheme::Sections,
                n as nat,
            )[count(lines, i)] == x,
            None => count(lines, i + 1) == count(lines, i),
        },
    decreases n,
{
    if i < n - 1 {
        said_in_place(lines, n - 1, i);
    }
}

proof fn members_in_span(lines: Seq<Seq<char>>, a: int, b: int)
    requires
        0 <= a <= b <= lines.len(),
    ensures
        count(lines, a) <= count(lines, b),
        entry_members(lines, Scheme::Sections, a, b) == span_items(
            said(lines, Scheme::Sections),
            count(lines, a),
            count(lines, b),
        ),
    decreases b - a,
{
    if a < b {
        members_in_span(lines, a, b - 1);
        said_in_place(lines, lines.len() as int, b - 1);
    }
}

proof fn headers_in_place(lines: Seq<Seq<char>>, i: int)
    requires
        0 <= i <= lines.len(),
    ensures
        head_at(said(lines, Scheme::Sections), count(lines, i)) == count(
            lines,
            header_from(lines, i),
        ),
    decreases lines.len() - i,
{
    if i < lines.len() {
        said_in_place(lines, lines.len() as int, i);
        if !heads(lines[i]) {
            headers_in_place(lines, i + 1);
        }
    }
}

proof fn sections_in_place(lines: Seq<Seq<char>>, h: int)
    requires
        0 <= h <= lines.len(),
        h < lines.len() ==> heads(lines[h]),
    ensures
        section_members(lines, h) == sections_said(
            said(lines, Scheme::Sections),
            count(lines, h),
        ),
    decreases lines.len() - h,
{
    if h < lines.len() {
        let n = lines.len() as int;
        said_in_place(lines, n, h);
        header_from_bounds(lines, h + 1);
        let next = header_from(lines, h + 1);
        headers_in_place(lines, h + 1);
        members_in_span(lines, h + 1, next);
        members_in_span(lines, next, n);
        sections_in_place(lines, next);
    }
}

/// An INI document's value is what its lines say.
proof fn whole_is_said(d: IniDoc)
    ensures
        ini_whole(d) == value_said(said(d.lines, Scheme::Sections)),
{
    let h = header_from(d.lines, 0);
    header_from_bounds(d.lines, 0);
    headers_in_place(d.lines, 0);
    members_in_span(d.lines, 0, h);
    sections_in_place(d.lines, h);
}

/// A section header that is a single `[`.
pub open spec fn bare_header(t: Seq<char>) -> bool {
    heads(t) && close_at(t) >= body_end(t)
}

/// A line with its inline comment set or cleared says what it said, and has the comment
/// that was set.
#[verifier::rlimit(80)]
#[verifier::spinoff_prover]
pub proof fn inline_says_the_same(t: Seq<char>, text: Option<Seq<char>>)
    requires
        is_line(t),
        row_kind(t, Scheme::Sections) == RowKind::Entry || heads(t),
        text is Some ==> !bare_header(t),
    ensures
        says(with_inline(t, text), Scheme::Sections) == says(t, Scheme::Sections),
        text is Some ==> inline_text(with_inline(t, text), Scheme::Sections) == Some(
            "; "@ + one_line(text->0),
        ),
{
    let g = Scheme::Sections;
    reveal_strlit("; ");
    reveal_strlit("  ; ");
    reveal_strlit("\n");
    reveal_strlit("\r\n");
    reveal_strlit("");
    let u = with_inline(t, text);
    let c = own_end(t);
    let f = body_end(t);
    let a = text_at(t);
    white_from_bounds(t, 0, f);
    if bare_header(t) {
        assert(line_ending(t) =~= t.skip(f));
        assert(u =~= t);
    } else {
        let tail: Seq<char> = match text {
            Some(x) => "  ; "@ + one_line(x),
            None => Seq::empty(),
        };
        if heads(t) {
            header_bounds(t);
        } else {
            entry_bounds(t, g);
        }
        assert(0 <= a < c <= f);
        let e = body_end(u);
        let m = c + tail.len();
        assert(u =~= t.take(c) + tail + line_ending(t));
        assert forall|k: int| 0 <= k < c implies #[trigger] u[k] == t[k] by {}
        assert forall|k: int| c <= k < m implies #[trigger] u[k] == tail[k - c] by {}
        assert(tail.len() > 0 ==> u[m - 1] != '\r' && u[m - 1] != '\n') by {
            if let Some(x) = text {
                if x.len() > 0 {
                    assert(one_line(x).last() == unbroken(x.last()));
                }
            }
        }
        assert(u[m - 1] != '\n') by {
            if tail.len() == 0 {
                assert(u[c - 1] == t[c - 1]);
            }
        }
        assert(u.len() == m + line_ending(t).len());
        assert(forall|k: int| m <= k < u.len() ==> #[trigger] u[k] == line_ending(t)[k - m]);
        assert(e == m || (e == m - 1 && u[m - 1] == '\r'));
        assert(!white_space(t[a]));
        if heads(t) {
            let b = close_at(t);
            close_from_bounds(t, a + 1, f);
            assert(c == b + 1);
            assert(t[b] == ']');
            assert(e >= c);
            white_from_is(u, 0, e, a);
            close_from_is(u, a + 1, e, b);
            assert(header_name(u) =~= header_name(t));
            assert(row_kind(u, g) == RowKind::Header);
            if text is Some {
                assert(tail[0] == ' ' && tail[1] == ' ' && tail[2] == ';');
                assert(u[c] == tail[0] && u[c + 1] == tail[1] && u[c + 2] == tail[2]);
                white_from_is(u, c, e, c + 2);
                assert(u.subrange(c + 2, e) =~= "; "@ + one_line(text->0));
            }
        } else {
            let sep = sep_at(t, g);
            sep_from_bounds(t, g, a, f);
            let se = sep_end(t, g);
            assert(t[sep] == '=' || t[sep] == ':');
            assert(se == sep + 1 && se <= c);
            assert(e >= se);
            white_from_is(u, 0, e, a);
            sep_from_is(u, g, a, e, sep);
            let ke = white_back(t, a, sep);
            white_back_bounds(t, a, sep);
            white_back_is(u, a, sep, ke);
            assert(u.subrange(a, ke) =~= t.subrange(a, ke));
            let re = region_end(t, g);
            note_from_bounds(t, se, se, f);
            let rf = if tail.len() > 0 {
                c + 2
            } else {
                e
            };
            assert forall|k: int| se <= k < rf implies !(#[trigger] note_opens(u, se, k)) by {
                if k < c {
                    assert(!note_opens(t, se, k));
                } else {
                    assert(u[k] == tail[k - c]);
                }
            }
            if tail.len() > 0 {
                assert(tail[0] == ' ' && tail[1] == ' ' && tail[2] == ';');
                assert(u[c + 2] == tail[2] && u[c + 1] == tail[1]);
                assert(note_opens(u, se, c + 2));
            }
            note_from_is(u, se, se, e, rf);
            assert(region_end(u, g) == rf);
            let vs = value_start(t, g);
            white_from_bounds(t, se, re);
            white_back_bounds(t, vs, re);
            assert forall|k: int| c <= k < rf implies white_space(#[trigger] u[k]) by {
                assert(u[k] == tail[k - c]);
            }
            if vs < c {
                assert(!white_space(t[c - 1]));
                assert(!white_space(t[vs]));
                white_from_is(u, se, rf, vs);
                white_back_is(u, vs, rf, c);
            } else {
                assert forall|k: int| se <= k < rf implies white_space(#[trigger] u[k]) by {
                    if k < c {
                        assert(white_space(t[k]));
                    }
                }
                white_from_is(u, se, rf, rf);
                white_back_is(u, rf, rf, rf);
            }
            assert(entry_value(u, g) =~= entry_value(t, g));
            assert(row_kind(u, g) == RowKind::Entry);
            if text is Some {
                assert(u.subrange(c + 2, e) =~= "; "@ + one_line(text->0));
            }
        }
    }
}

/// Replacing a line by one that says the same changes nothing said.
proof fn same_saying(lines: Seq<Seq<char>>, at: int, u: Seq<char>)
    requires
        0 <= at < lines.len(),
        says(u, Scheme::Sections) == says(lines[at], Scheme::Sections),
    ensures
        said(lines.update(at, u), Scheme::Sections) == said(lines, Scheme::Sections),
{
    let g = Scheme::Sections;
    let (front, back) = (lines.take(at), lines.skip(at + 1));
    let (old_line, new_line) = (seq![lines[at]], seq![u]);
    assert(lines =~= front + old_line + back);
    assert(lines.update(at, u) =~= front + new_line + back);
    said_add(front, old_line, g);
    said_add(front + old_line, back, g);
    said_add(front, new_line, g);
    said_add(front + new_line, back, g);
    reveal_with_fuel(sayings, 2);
    assert(said(old_line, g) =~= said(new_line, g));
}

/// The line a comment path leads to is an entry or a header.
proof fn target_is_a_line(lines: Seq<Seq<char>>, path: Seq<St>)
    requires
        comment_line_of(lines, path) is Ok,
    ensures
        0 <= comment_line_of(lines, path)->Ok_0 < lines.len(),
        row_kind(lines[comment_line_of(lines, path)->Ok_0], Scheme::Sections) == RowKind::Entry
            || heads(lines[comment_line_of(lines, path)->Ok_0]),
{
    if path.len() == 1 {
        named_from_bounds(lines, path[0]->Field_0, 0);
    }
    if let Some((section, key)) = entry_address(path) {
        entry_line_bounds(lines, section, key);
    }
}

proof fn placed_keeps_the_value(d: IniDoc, at: int, kind: CommentKind, text: Option<Seq<char>>)
    requires
        ini_ok(d),
        0 <= at < d.lines.len(),
        row_kind(d.lines[at], Scheme::Sections) == RowKind::Entry || heads(d.lines[at]),
        kind == CommentKind::Inline && text is Some ==> !bare_header(d.lines[at]),
    ensures
        ini_whole(ini_placed(d, at, kind, text)) == ini_whole(d),
{
    let out = ini_placed(d, at, kind, text);
    if kind == CommentKind::Inline {
        inline_says_the_same(d.lines[at], text);
        same_saying(d.lines, at, with_inline(d.lines[at], text));
    } else {
        reveal_strlit(";");
        reveal_strlit("#");
        reveal_strlit("; ");
        assert(suits(ini_style(), Scheme::Sections));
        placing_says_the_same(
            d.lines,
            Scheme::Sections,
            at,
            kind == CommentKind::Head,
            ini_style(),
            text,
        );
    }
    whole_is_said(d);
    whole_is_said(out);
}

/// Writing or removing a comment leaves an INI document's value as it was, but for
/// an inline comment on a header that is a single `[`.
pub proof fn ini_comment_edits_keep_the_value(
    d: IniDoc,
    path: Seq<St>,
    kind: CommentKind,
    text: Seq<char>,
)
    requires
        ini_ok(d),
        kind == CommentKind::Inline && comment_line_of(d.lines, path) is Ok ==> !bare_header(
            d.lines[comment_line_of(d.lines, path)->Ok_0],
        ),
    ensures
        ini_noted(d, path, kind, text) is Ok ==> ini_whole(ini_noted(d, path, kind, text)->Ok_0.0)
            == ini_whole(d),
        ini_whole(ini_unnoted(d, path, kind)) == ini_whole(d),
{
    if let Ok(at) = comment_line_of(d.lines, path) {
        target_is_a_line(d.lines, path);
        placed_keeps_the_value(d, at, kind, Some(text));
        placed_keeps_the_value(d, at, kind, None);
    }
}

} // verus!
