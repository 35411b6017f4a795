//! Clearing a comment block that was just placed gives the text back.
use crate::line_comment::{
    block_ending, block_lines, comment_line, delim_width, last_target, marker_from, open_ended,
    placed, placed_lines, run_end, run_start, unterminated, Style,
};
use crate::lines::{flat, is_line, lines_are_lines, lines_of, lines_of_flat, lines_round_trip};
use crate::note_laws::{block_ending_is_one, framed_lines};
use crate::semantics::starts;
use crate::strs::{trimmed_start, white_space};
use crate::text::{blank, ending_len, ends_lf};
use crate::wrap::{budget_of, filled, is_word, width_of, words_are_words, words_of, wrapped};
use vstd::prelude::*;
use vstd::string::*;

verus! {

/// A text on one line, without white space at its end.
spec fn tight(s: Seq<char>) -> bool {
    (forall|k: int| 0 <= k < s.len() ==> #[trigger] s[k] != '\n' && s[k] != '\r') && (s.len() > 0
        ==> !white_space(s.last()))
}

proof fn fills_are_tight(ws: Seq<Seq<char>>, budget: int, n: nat)
    requires
        n <= ws.len(),
        forall|k: int| 0 <= k < ws.len() ==> is_word(#[trigger] ws[k]),
    ensures
        tight(filled(ws, budget, n).1),
        forall|k: int|
            0 <= k < filled(ws, budget, n).0.len() ==> tight(#[trigger] filled(ws, budget, n).0[k]),
    decreases n,
{
    if n > 0 {
        fills_are_tight(ws, budget, (n - 1) as nat);
        let w = ws[n - 1];
        assert(is_word(w));
        assert forall|k: int| 0 <= k < w.len() implies #[trigger] w[k] != '\n' && w[k] != '\r' by {
            assert(!white_space(w[k]));
        }
        assert(!white_space(w[w.len() - 1]));
        let cur = filled(ws, budget, (n - 1) as nat).1;
        assert(tight(w));
        assert(tight(cur.push(' ') + w)) by {
            let x = cur.push(' ') + w;
            assert forall|k: int| 0 <= k < x.len() implies #[trigger] x[k] != '\n' && x[k] != '\r' by {
                if k < cur.len() {
                    assert(x[k] == cur[k]);
                } else if k > cur.len() {
                    assert(x[k] == w[k - cur.len() - 1]);
                }
            }
        }
    }
}

/// Does the delimiter open a comment line by a marker, on one line?
pub open spec fn well_marked(st: Style) -> bool {
    &&& st.delim.len() > 0
    &&& !white_space(st.delim[0])
    &&& forall|k: int| 0 <= k < st.delim.len() ==> #[trigger] st.delim[k] != '\n' && st.delim[k] != '\r'
    &&& exists|m: int| 0 <= m < st.marks.len() && starts(st.delim, #[trigger] st.marks[m])
}

/// Is every character a space or a tab?
pub open spec fn blanks(s: Seq<char>) -> bool {
    forall|k: int| 0 <= k < s.len() ==> blank(#[trigger] s[k])
}

proof fn blanks_trimmed(a: Seq<char>, b: Seq<char>)
    requires
        blanks(a),
        b.len() > 0,
        !white_space(b[0]),
    ensures
        trimmed_start(a + b) == b,
    decreases a.len(),
{
    let s = a + b;
    if a.len() == 0 {
        assert(s =~= b);
    } else {
        assert(s[0] == a[0]);
        assert(blank(a[0]));
        assert(s.drop_first() =~= a.drop_first() + b);
        let r = a.drop_first();
        assert forall|k: int| 0 <= k < r.len() implies blank(#[trigger] r[k]) by {
            assert(r[k] == a[k + 1]);
        }
        blanks_trimmed(r, b);
    }
}

proof fn marker_found(t: Seq<char>, marks: Seq<Seq<char>>, i: int, m: int)
    requires
        0 <= i <= m < marks.len(),
        starts(t, marks[m]),
    ensures
        marker_from(t, marks, i) <= m,
    decreases m - i,
{
    if i < m && !starts(t, marks[i]) {
        marker_found(t, marks, i + 1, m);
    }
}

/// A block's line, terminated or not, is a comment line.
proof fn block_line_is_comment(indent: Seq<char>, st: Style, row: Seq<char>, tail: Seq<char>)
    requires
        well_marked(st),
        blanks(indent),
        tight(row),
        tail == "\n"@ || tail == "\r\n"@ || tail == Seq::<char>::empty(),
    ensures
        comment_line(unterminated(indent + st.delim + row + tail), st),
        unterminated(indent + st.delim + row + tail) == indent + st.delim + row,
        is_line(indent + st.delim + row + tail),
        tail.len() > 0 ==> (indent + st.delim + row + tail).last() == '\n',
        tail.len() == 0 ==> ending_len(indent + st.delim + row + tail) == 0,
{
    reveal_strlit("\n");
    reveal_strlit("\r\n");
    let body = indent + st.delim + row;
    let s = body + tail;
    assert forall|k: int| 0 <= k < body.len() implies #[trigger] body[k] != '\n' && body[k] != '\r' by {
        if k < indent.len() {
            assert(blank(indent[k]));
            assert(body[k] == indent[k]);
        } else if k < indent.len() + st.delim.len() {
            assert(body[k] == st.delim[k - indent.len()]);
        } else {
            assert(body[k] == row[k - indent.len() - st.delim.len()]);
        }
    }
    assert forall|j: int| 0 <= j < s.len() - 1 implies #[trigger] s[j] != '\n' by {
        if j < body.len() {
            assert(s[j] == body[j]);
        }
    }
    assert(body[body.len() - 1] != '\n');
    reveal_with_fuel(unterminated, 3);
    if tail.len() == 1 {
        assert(s.drop_last() =~= body);
    } else if tail.len() == 2 {
        assert(s.drop_last().drop_last() =~= body);
    } else {
        assert(s =~= body);
    }
    assert(unterminated(s) == body);
    let b = st.delim + row;
    assert(body =~= indent + b);
    blanks_trimmed(indent, b);
    let m = choose|m: int| 0 <= m < st.marks.len() && starts(st.delim, #[trigger] st.marks[m]);
    let k = st.marks[m];
    assert(b.take(k.len() as int) =~= st.delim.take(k.len() as int));
    marker_found(b, st.marks, 0, m);
}

proof fn run_reaches_up(lines: Seq<Seq<char>>, st: Style, from: int, i: int)
    requires
        0 <= from <= i <= lines.len(),
        forall|k: int| from <= k < i ==> comment_line(unterminated(#[trigger] lines[k]), st),
        from > 0 ==> !comment_line(unterminated(lines[from - 1]), st),
    ensures
        run_start(lines, st, i) == from,
    decreases i - from,
{
    if i > from {
        assert(comment_line(unterminated(lines[i - 1]), st));
        run_reaches_up(lines, st, from, i - 1);
    }
}

proof fn run_reaches_down(lines: Seq<Seq<char>>, st: Style, i: int, to: int)
    requires
        0 <= i <= to <= lines.len(),
        forall|k: int| i <= k < to ==> comment_line(unterminated(#[trigger] lines[k]), st),
        to < lines.len() ==> !comment_line(unterminated(lines[to]), st),
    ensures
        run_end(lines, st, i) == to,
    decreases to - i,
{
    if i < to {
        assert(comment_line(unterminated(lines[i]), st));
        run_reaches_down(lines, st, i + 1, to);
    }
}

/// The target of a block, once the block is placed.
pub open spec fn moved_target(before: Seq<char>, after: Seq<char>, target: int, head: bool) -> int {
    if head {
        target + lines_of(after).len() - lines_of(before).len()
    } else {
        target
    }
}

/// What a block's lines are.
proof fn block_facts(source: Seq<char>, indent: Seq<char>, st: Style, eol: Seq<char>, text: Seq<char>)
    requires
        well_marked(st),
        blanks(indent),
        eol == "\n"@ || eol == "\r\n"@,
    ensures
        ({
            let block = block_lines(source, indent, st, eol, Some(text));
            let open = open_ended(block, eol);
            let n = block.len() as int;
            &&& n > 0
            &&& forall|i: int|
                0 <= i < n ==> comment_line(unterminated(#[trigger] block[i]), st) && is_line(block[i])
                    && block[i].last() == '\n'
            &&& open.len() == n
            &&& forall|i: int| 0 <= i < n - 1 ==> #[trigger] open[i] == block[i]
            &&& comment_line(unterminated(open[n - 1]), st)
            &&& is_line(open[n - 1])
            &&& ending_len(open[n - 1]) == 0
        }),
{
    let block = block_lines(source, indent, st, eol, Some(text));
    let budget = budget_of(width_of(source), indent.len() as int, delim_width(st.delim));
    let rows = wrapped(text, budget);
    words_are_words(text, 0);
    fills_are_tight(words_of(text), budget, words_of(text).len());
    reveal_strlit("\n");
    reveal_strlit("\r\n");
    assert forall|i: int| 0 <= i < block.len() implies comment_line(unterminated(#[trigger] block[i]), st)
        && is_line(block[i]) && block[i].last() == '\n' by {
        assert(block[i] == indent + st.delim + rows[i] + eol);
        assert(tight(rows[i]));
        block_line_is_comment(indent, st, rows[i], eol);
    }
    let n = block.len() as int;
    let r = rows[n - 1];
    let bare = indent + st.delim + r;
    assert(tight(r));
    block_line_is_comment(indent, st, r, Seq::empty());
    assert(bare + Seq::<char>::empty() =~= bare);
    assert(block[n - 1].take(block[n - 1].len() - eol.len()) =~= bare);
}

#[verifier::rlimit(60)]
#[verifier::spinoff_prover]
proof fn head_undone(source: Seq<char>, target: int, indent: Seq<char>, st: Style, text: Seq<char>)
    requires
        well_marked(st),
        blanks(indent),
        0 <= target < lines_of(source).len(),
        target > 0 ==> !comment_line(unterminated(lines_of(source)[target - 1]), st),
    ensures
        ({
            let p = placed(source, target, true, indent, st, Some(text));
            placed(p, moved_target(source, p, target, true), true, indent, st, None) == source
        }),
{
    let head = true;
    let lines = lines_of(source);
    lines_are_lines(source);
    lines_round_trip(source);
    let line = lines[target];
    let eol = block_ending(source, line);
    block_ending_is_one(source, line);
    let block = block_lines(source, indent, st, eol, Some(text));
    block_facts(source, indent, st, eol, text);
    let out = placed_lines(source, target, head, indent, st, Some(text));
    let p = placed(source, target, head, indent, st, Some(text));
    assert(p == flat(out));
    run_reaches_up(lines, st, target, target);
    let (front, back) = (lines.take(target), lines.skip(target));
    assert(out == front + block + back);
    framed_lines(front, block, back);
    lines_of_flat(out);
    let at = target + block.len();
    assert(moved_target(source, p, target, true) == at);
    assert forall|k: int| target <= k < at implies comment_line(unterminated(#[trigger] out[k]), st) by {
        assert(out[k] == block[k - target]);
    }
    if target > 0 {
        assert(out[target - 1] == lines[target - 1]);
    }
    run_reaches_up(out, st, target, at);
    let back_again = placed_lines(p, at, head, indent, st, None);
    assert(back_again =~= lines);
}

#[verifier::rlimit(60)]
#[verifier::spinoff_prover]
proof fn last_foot_undone(source: Seq<char>, target: int, indent: Seq<char>, st: Style, text: Seq<char>)
    requires
        well_marked(st),
        blanks(indent),
        0 <= target < lines_of(source).len(),
        forall|k: int|
            0 <= k < source.len() && #[trigger] source[k] == '\r' ==> k + 1 < source.len() && source[k
                + 1] == '\n',
        target + 1 == lines_of(source).len(),
        ending_len(lines_of(source)[target]) == 0,
    ensures
        ({
            let p = placed(source, target, false, indent, st, Some(text));
            placed(p, moved_target(source, p, target, false), false, indent, st, None) == source
        }),
{
    let head = false;
    let lines = lines_of(source);
    lines_are_lines(source);
    lines_round_trip(source);
    let line = lines[target];
    let eol = block_ending(source, line);
    block_ending_is_one(source, line);
    let block = block_lines(source, indent, st, eol, Some(text));
    block_facts(source, indent, st, eol, text);
    let out = placed_lines(source, target, head, indent, st, Some(text));
    let p = placed(source, target, head, indent, st, Some(text));
    assert(p == flat(out));
    run_reaches_down(lines, st, target + 1, target + 1);
    reveal_strlit("\n");
    reveal_strlit("\r\n");
    let open = open_ended(block, eol);
    let last = last_target(line, block, eol);
    let front = lines.take(target);
    assert(!ends_lf(line));
    assert(last == line + eol);
    assert(lines.skip(target + 1) =~= Seq::<Seq<char>>::empty());
    assert(out =~= front.push(last) + open);
    let n = block.len() as int;
    let bare = open[n - 1];
    assert forall|i: int| 0 <= i < out.len() implies is_line(#[trigger] out[i]) && (i < out.len()
        - 1 ==> out[i].last() == '\n') by {
        if i < target {
            assert(out[i] == lines[i]);
        } else if i == target {
            assert(out[i] == last);
            assert forall|j: int| 0 <= j < last.len() - 1 implies #[trigger] last[j] != '\n' by {
                if j < line.len() {
                    assert(last[j] == line[j]);
                    if j == line.len() - 1 {
                        assert(line[j] == line.last());
                    }
                }
            }
        } else if i < target + n {
            assert(out[i] == open[i - target - 1]);
            assert(open[i - target - 1] == block[i - target - 1]);
        } else {
            assert(out[i] == open[n - 1]);
        }
    }
    lines_of_flat(out);
    assert forall|k: int| target + 1 <= k < out.len() implies comment_line(
        unterminated(#[trigger] out[k]),
        st,
    ) by {
        if k < target + n {
            assert(out[k] == open[k - target - 1]);
            assert(open[k - target - 1] == block[k - target - 1]);
        } else {
            assert(out[k] == open[n - 1]);
        }
    }
    run_reaches_down(out, st, target + 1, out.len() as int);
    assert(out[out.len() - 1] == bare);
    // The target's own terminator is the one that was added.
    last_line_end(source, lines, target);
    reveal_with_fuel(unterminated, 4);
    if eol.len() == 1 {
        assert(last.drop_last() =~= line);
    } else {
        assert(last.drop_last().drop_last() =~= line);
    }
    assert(unterminated(last) == line);
    let back_again = placed_lines(p, target, head, indent, st, None);
    assert(out[target] == last);
    assert(out.take(target) =~= front);
    assert(back_again =~= lines);
}

#[verifier::rlimit(60)]
#[verifier::spinoff_prover]
proof fn foot_undone(source: Seq<char>, target: int, indent: Seq<char>, st: Style, text: Seq<char>)
    requires
        well_marked(st),
        blanks(indent),
        0 <= target < lines_of(source).len(),
        target + 1 < lines_of(source).len() ==> !comment_line(
            unterminated(lines_of(source)[target + 1]),
            st,
        ),
        target + 1 < lines_of(source).len() || ending_len(lines_of(source)[target]) > 0,
    ensures
        ({
            let p = placed(source, target, false, indent, st, Some(text));
            placed(p, moved_target(source, p, target, false), false, indent, st, None) == source
        }),
{
    let head = false;
    let lines = lines_of(source);
    lines_are_lines(source);
    lines_round_trip(source);
    let line = lines[target];
    let eol = block_ending(source, line);
    block_ending_is_one(source, line);
    let block = block_lines(source, indent, st, eol, Some(text));
    block_facts(source, indent, st, eol, text);
    let out = placed_lines(source, target, head, indent, st, Some(text));
    let p = placed(source, target, head, indent, st, Some(text));
    assert(p == flat(out));
    run_reaches_down(lines, st, target + 1, target + 1);
    reveal_strlit("\n");
    reveal_strlit("\r\n");
    let (front, back) = (lines.take(target + 1), lines.skip(target + 1));
    assert(out == front + block + back);
    assert(front.last() == line);
    assert(line.last() == '\n') by {
        if target + 1 < lines.len() {
            assert(lines[target].last() == '\n');
        }
    }
    framed_lines(front, block, back);
    lines_of_flat(out);
    let e = target + 1 + block.len();
    assert forall|k: int| target + 1 <= k < e implies comment_line(
        unterminated(#[trigger] out[k]),
        st,
    ) by {
        assert(out[k] == block[k - target - 1]);
    }
    if e < out.len() {
        assert(out[e] == lines[target + 1]);
    }
    run_reaches_down(out, st, target + 1, e);
    assert(out[e - 1] == block[block.len() - 1]);
    let back_again = placed_lines(p, target, head, indent, st, None);
    assert(back_again =~= lines);
}

/// Clearing the comment block beside a line, right after placing one where there
/// was none, gives the text back.
pub proof fn clearing_undoes_placing(
    source: Seq<char>,
    target: int,
    head: bool,
    indent: Seq<char>,
    st: Style,
    text: Seq<char>,
)
    requires
        well_marked(st),
        blanks(indent),
        forall|k: int|
            0 <= k < source.len() && #[trigger] source[k] == '\r' ==> k + 1 < source.len() && source[k
                + 1] == '\n',
        0 <= target < lines_of(source).len(),
        head && target > 0 ==> !comment_line(unterminated(lines_of(source)[target - 1]), st),
        !head && target + 1 < lines_of(source).len() ==> !comment_line(
            unterminated(lines_of(source)[target + 1]),
            st,
        ),
    ensures
        ({
            let p = placed(source, target, head, indent, st, Some(text));
            placed(p, moved_target(source, p, target, head), head, indent, st, None) == source
        }),
{
    if head {
        head_undone(source, target, indent, st, text);
    } else if target + 1 == lines_of(source).len() && ending_len(lines_of(source)[target]) == 0 {
        last_foot_undone(source, target, indent, st, text);
    } else {
        foot_undone(source, target, indent, st, text);
    }
}

/// The last character of a text is that of its last line.
proof fn last_line_end(source: Seq<char>, lines: Seq<Seq<char>>, target: int)
    requires
        lines == lines_of(source),
        lines.len() == target + 1,
        target >= 0,
        is_line(lines[target]),
        ending_len(lines[target]) == 0,
        forall|k: int|
            0 <= k < source.len() && #[trigger] source[k] == '\r' ==> k + 1 < source.len() && source[k
                + 1] == '\n',
    ensures
        lines[target].last() != '\r',
        lines[target].last() != '\n',
{
    lines_round_trip(source);
    let line = lines[target];
    assert(flat(lines) == flat(lines.drop_last()) + lines.last());
    assert(source.last() == line.last());
    assert(source[source.len() - 1] == line.last());
}

} // verus!
