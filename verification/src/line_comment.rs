//! Own-line comments: how a format spells them, and placing a block of them
//! around a line of the source text.
use crate::builtins::begins;
use crate::lines::{concat, flat, lines_of, split_lines};
use crate::model::{group_comment_views, texts};
use crate::semantics::starts;
use crate::strs::{chars_of, slice_text, trim, trim_bounds, trimmed, trimmed_start};
use crate::text::{dominant, dominant_ending, ending_len, ending_of, ends_lf, line_ending, line_splits};
use crate::wrap::{budget_of, width_of, wrap_comment, wrap_width, wrapped};
use vstd::prelude::*;
use vstd::string::*;

verus! {

broadcast use group_comment_views;

/// How a format spells an own-line comment, for [`place_line_comment`] and the
/// extractors that read one back.
#[derive(Debug, Clone, Copy)]
pub struct LineComment {
    /// What opens a comment line after its indentation (`#`, `;`, `//`, ...).
    pub markers: &'static [&'static str],
    /// The prefix a new comment line is written with (`"# "`); its width is
    /// what wrapping budgets for.
    pub delim: &'static str,
}

/// The mathematical content of a [`LineComment`].
pub struct Style {
    pub marks: Seq<Seq<char>>,
    pub delim: Seq<char>,
}

impl View for LineComment {
    type V = Style;

    open spec fn view(&self) -> Style {
        Style {
            marks: Seq::new(self.markers@.len(), |i: int| self.markers@[i]@),
            delim: self.delim@,
        }
    }
}

/// Every marker has at least one character.
pub open spec fn style_ok(st: Style) -> bool {
    forall|i: int| 0 <= i < st.marks.len() ==> (#[trigger] st.marks[i]).len() > 0
}

/// The first marker at or after `i` that `t` starts with, or the number of
/// markers.
pub open spec fn marker_from(t: Seq<char>, marks: Seq<Seq<char>>, i: int) -> int
    decreases marks.len() - i,
{
    if i >= marks.len() {
        marks.len() as int
    } else if starts(t, marks[i]) {
        i
    } else {
        marker_from(t, marks, i + 1)
    }
}

/// Does the text open with a marker?
pub open spec fn opens_comment(t: Seq<char>, st: Style) -> bool {
    marker_from(t, st.marks, 0) < st.marks.len()
}

/// Is the line a comment line (a marker after any indentation)?
pub open spec fn comment_line(line: Seq<char>, st: Style) -> bool {
    opens_comment(trimmed_start(line), st)
}

/// The text without the markers it opens with.
pub open spec fn unmarked(t: Seq<char>, st: Style) -> Seq<char>
    decreases t.len(),
{
    let i = marker_from(t, st.marks, 0);
    if 0 <= i < st.marks.len() && 0 < st.marks[i].len() <= t.len() {
        unmarked(t.skip(st.marks[i].len() as int), st)
    } else {
        t
    }
}

/// A comment's text without its markers and the space around it.
pub open spec fn marker_stripped(t: Seq<char>, st: Style) -> Seq<char> {
    trimmed(unmarked(t, st))
}

/// A line break as a space, anything else as itself.
pub open spec fn unbroken(c: char) -> char {
    if c == '\n' || c == '\r' {
        ' '
    } else {
        c
    }
}

/// A text as one line.
pub open spec fn one_line(s: Seq<char>) -> Seq<char> {
    Seq::new(s.len(), |i: int| unbroken(s[i]))
}

/// One own-line comment.
pub open spec fn comment_row(st: Style, indent: Seq<char>, text: Seq<char>) -> Seq<char> {
    indent + st.delim + one_line(text) + seq!['\n']
}

/// Comment lines as an own-line block, the first `n` of them.
pub open spec fn comment_rows(st: Style, indent: Seq<char>, lines: Seq<Seq<char>>, n: nat) -> Seq<char>
    decreases n,
{
    if n == 0 {
        Seq::empty()
    } else {
        comment_rows(st, indent, lines, (n - 1) as nat) + comment_row(st, indent, lines[n - 1])
    }
}

/// A comment's text as one line: a line break inside it would end the comment
/// and spill the rest into the document, so each becomes a space.
pub fn sanitize_comment_line(line: &str) -> (r: String)
    ensures
        r@ == one_line(line@),
{
    let cs = chars_of(line);
    let mut out = String::new();
    let mut i: usize = 0;
    while i < cs.len()
        invariant
            i <= cs.len(),
            cs@ == line@,
            out@ == one_line(line@).take(i as int),
        decreases cs.len() - i,
    {
        if cs[i] == '\n' || cs[i] == '\r' {
            out.push(' ');
        } else {
            out.push(cs[i]);
        }
        assert(out@ =~= one_line(line@).take(i + 1));
        i = i + 1;
    }
    assert(one_line(line@).take(i as int) =~= one_line(line@));
    out
}

impl LineComment {
    fn marker_at(&self, t: &[char]) -> (r: usize)
        ensures
            r == marker_from(t@, self@.marks, 0),
            r <= self.markers.len(),
            r < self.markers.len() ==> starts(t@, self@.marks[r as int]),
    {
        let mut i: usize = 0;
        while i < self.markers.len()
            invariant
                i <= self.markers.len(),
                marker_from(t@, self@.marks, 0) == marker_from(t@, self@.marks, i as int),
            decreases self.markers.len() - i,
        {
            let m = chars_of(self.markers[i]);
            assert(self@.marks[i as int] == m@);
            if begins(t, &m) {
                return i;
            }
            i = i + 1;
        }
        i
    }

    /// Is `line` a comment line (a marker after any indentation)?
    pub fn is_comment_line(&self, line: &str) -> (r: bool)
        ensures
            r == comment_line(line@, self@),
    {
        let cs = chars_of(line);
        let (a, _) = trim_bounds(&cs);
        let t = slice_text(&cs, a, cs.len());
        assert(cs@.subrange(a as int, cs.len() as int) =~= cs@.skip(a as int));
        let ts = chars_of(&t);
        self.marker_at(&ts) < self.markers.len()
    }

    /// A comment's text without its markers (`## x` is `x`) and the space around
    /// it.
    pub fn strip_marker(&self, text: &str) -> (r: String)
        requires
            style_ok(self@),
        ensures
            r@ == marker_stripped(text@, self@),
    {
        let mut t = chars_of(text);
        loop
            invariant
                style_ok(self@),
                unmarked(t@, self@) == unmarked(text@, self@),
            ensures
                t@ == unmarked(text@, self@),
            decreases t.len(),
        {
            let i = self.marker_at(&t);
            if i >= self.markers.len() {
                break;
            }
            let m = chars_of(self.markers[i]);
            assert(self@.marks[i as int] == m@);
            let rest = slice_text(&t, m.len(), t.len());
            assert(t@.subrange(m.len() as int, t.len() as int) =~= t@.skip(m.len() as int));
            t = chars_of(&rest);
        }
        let (a, b) = trim_bounds(&t);
        slice_text(&t, a, b)
    }

    /// The text of `line` if it is a comment line, markers stripped.
    pub fn comment_text(&self, line: &str) -> (r: Option<String>)
        requires
            style_ok(self@),
        ensures
            r is Some <==> comment_line(trimmed(line@), self@),
            r is Some ==> r->0@ == marker_stripped(trimmed(line@), self@),
    {
        let t = trim(line);
        if self.is_comment_line(&t) {
            Some(self.strip_marker(&t))
        } else {
            None
        }
    }

    /// Write one own-line comment, `{indent}{delim}{text}\n`, with the text kept
    /// to one line.
    pub fn push_line(&self, out: &mut String, indent: &str, text: &str)
        ensures
            final(out)@ == old(out)@ + comment_row(self@, indent@, text@),
    {
        out.append(indent);
        out.append(self.delim);
        out.append(&sanitize_comment_line(text));
        out.push('\n');
        assert(out@ =~= old(out)@ + comment_row(self@, indent@, text@));
    }

    /// Render comment lines as an own-line block at `indent`.
    pub fn block(&self, lines: &[String], indent: &str) -> (r: String)
        ensures
            r@ == comment_rows(self@, indent@, texts(lines@), lines@.len()),
    {
        let mut out = String::new();
        let mut i: usize = 0;
        while i < lines.len()
            invariant
                i <= lines.len(),
                out@ == comment_rows(self@, indent@, texts(lines@), i as nat),
            decreases lines.len() - i,
        {
            self.push_line(&mut out, indent, &lines[i]);
            i = i + 1;
        }
        out
    }
}

/// A text without the line feeds and carriage returns at its end.
pub open spec fn unterminated(s: Seq<char>) -> Seq<char>
    decreases s.len(),
{
    if s.len() > 0 && (s.last() == '\n' || s.last() == '\r') {
        unterminated(s.drop_last())
    } else {
        s
    }
}

/// A text without the line feeds and carriage returns at its end.
pub fn trim_breaks(s: &str) -> (r: String)
    ensures
        r@ == unterminated(s@),
{
    let cs = chars_of(s);
    let mut n: usize = cs.len();
    assert(cs@.take(n as int) =~= s@);
    while n > 0 && (cs[n - 1] == '\n' || cs[n - 1] == '\r')
        invariant
            n <= cs.len(),
            unterminated(cs@.take(n as int)) == unterminated(s@),
        decreases n,
    {
        assert(cs@.take(n as int).drop_last() =~= cs@.take(n - 1));
        n = n - 1;
    }
    assert(cs@.subrange(0, n as int) =~= cs@.take(n as int));
    slice_text(&cs, 0, n)
}

/// The first line of the run of comment lines right above line `i`.
pub open spec fn run_start(lines: Seq<Seq<char>>, st: Style, i: int) -> int
    decreases i,
{
    if 0 < i && comment_line(unterminated(lines[i - 1]), st) {
        run_start(lines, st, i - 1)
    } else {
        i
    }
}

/// The line behind the run of comment lines that starts at line `i`.
pub open spec fn run_end(lines: Seq<Seq<char>>, st: Style, i: int) -> int
    decreases lines.len() - i,
{
    if i < lines.len() && comment_line(unterminated(lines[i]), st) {
        run_end(lines, st, i + 1)
    } else {
        i
    }
}

/// The ending a block's lines take: that of the target line, or the dominant
/// one when that line is unterminated.
pub open spec fn block_ending(source: Seq<char>, line: Seq<char>) -> Seq<char> {
    if ending_len(line) == 0 {
        dominant_ending(source)
    } else {
        line_ending(line)
    }
}

/// The bytes a delimiter takes.
pub open spec fn delim_width(delim: Seq<char>) -> int {
    (vstd::utf8::encode_utf8(delim).len() as usize) as int
}

/// The lines of a comment block; none without text.
pub open spec fn block_lines(
    source: Seq<char>,
    indent: Seq<char>,
    st: Style,
    eol: Seq<char>,
    text: Option<Seq<char>>,
) -> Seq<Seq<char>> {
    match text {
        None => Seq::empty(),
        Some(t) => {
            let rows = wrapped(
                t,
                budget_of(width_of(source), indent.len() as int, delim_width(st.delim)),
            );
            Seq::new(rows.len(), |i: int| indent + st.delim + rows[i] + eol)
        },
    }
}

/// A block's last line without its ending.
pub open spec fn open_ended(block: Seq<Seq<char>>, eol: Seq<char>) -> Seq<Seq<char>> {
    if block.len() == 0 {
        block
    } else {
        block.update(block.len() - 1, block.last().take(block.last().len() - eol.len()))
    }
}

/// The target line when the file's end is unterminated behind it: terminated in
/// front of a block, unterminated without one.
pub open spec fn last_target(line: Seq<char>, block: Seq<Seq<char>>, eol: Seq<char>) -> Seq<char> {
    if block.len() == 0 {
        unterminated(line)
    } else if ends_lf(line) {
        line
    } else {
        line + eol
    }
}

/// The lines with a comment block placed above (`head`) or below line `target`,
/// in place of the comment lines that stand there.
pub open spec fn placed_lines(
    source: Seq<char>,
    target: int,
    head: bool,
    indent: Seq<char>,
    st: Style,
    text: Option<Seq<char>>,
) -> Seq<Seq<char>> {
    let lines = lines_of(source);
    let eol = block_ending(source, lines[target]);
    let block = block_lines(source, indent, st, eol, text);
    if head {
        lines.take(run_start(lines, st, target)) + block + lines.skip(target)
    } else {
        let end = run_end(lines, st, target + 1);
        if end == lines.len() && ending_len(lines[end - 1]) == 0 {
            lines.take(target).push(last_target(lines[target], block, eol)) + open_ended(
                block,
                eol,
            ) + lines.skip(end)
        } else {
            lines.take(target + 1) + block + lines.skip(end)
        }
    }
}

/// The source with a comment block placed.
pub open spec fn placed(
    source: Seq<char>,
    target: int,
    head: bool,
    indent: Seq<char>,
    st: Style,
    text: Option<Seq<char>>,
) -> Seq<char> {
    if target >= lines_of(source).len() {
        source
    } else {
        flat(placed_lines(source, target, head, indent, st, text))
    }
}

proof fn run_start_bounds(lines: Seq<Seq<char>>, st: Style, i: int)
    requires
        0 <= i <= lines.len(),
    ensures
        0 <= run_start(lines, st, i) <= i,
    decreases i,
{
    if 0 < i && comment_line(unterminated(lines[i - 1]), st) {
        run_start_bounds(lines, st, i - 1);
    }
}

proof fn run_end_bounds(lines: Seq<Seq<char>>, st: Style, i: int)
    requires
        0 <= i <= lines.len(),
    ensures
        i <= run_end(lines, st, i) <= lines.len(),
    decreases lines.len() - i,
{
    if i < lines.len() && comment_line(unterminated(lines[i]), st) {
        run_end_bounds(lines, st, i + 1);
    }
}

fn push_range(out: &mut Vec<String>, lines: &Vec<String>, from: usize, to: usize)
    requires
        from <= to <= lines.len(),
    ensures
        texts(final(out)@) == texts(old(out)@) + texts(lines@).subrange(from as int, to as int),
{
    let ghost before = texts(out@);
    let ghost all = texts(lines@);
    let mut i: usize = from;
    assert(texts(out@) =~= before + all.subrange(from as int, from as int));
    while i < to
        invariant
            from <= i <= to <= lines.len(),
            all == texts(lines@),
            texts(out@) == before + all.subrange(from as int, i as int),
        decreases to - i,
    {
        out.push(lines[i].clone());
        assert(before + all.subrange(from as int, i + 1) =~= (before + all.subrange(
            from as int,
            i as int,
        )).push(all[i as int]));
        i = i + 1;
    }
}

fn make_block(source: &str, indent: &str, style: &LineComment, eol: &str, text: Option<&str>) -> (r: Vec<
    String,
>)
    ensures
        texts(r@) == block_lines(
            source@,
            indent@,
            style@,
            eol@,
            crate::strings::flags_view(text),
        ),
{
    let mut block: Vec<String> = Vec::new();
    match text {
        None => {
            assert(texts(block@) =~= Seq::<Seq<char>>::empty());
        },
        Some(t) => {
            let width = wrap_width(source);
            let rows = wrap_comment(t, width, indent.unicode_len(), style.delim.len());
            let ghost rs = texts(rows@);
            let ghost all = Seq::new(rs.len(), |i: int| indent@ + style.delim@ + rs[i] + eol@);
            assert(texts(block@) =~= all.take(0));
            let mut i: usize = 0;
            while i < rows.len()
                invariant
                    i <= rows.len(),
                    rs == texts(rows@),
                    all == Seq::new(rs.len(), |i: int| indent@ + style.delim@ + rs[i] + eol@),
                    texts(block@) == all.take(i as int),
                decreases rows.len() - i,
            {
                let mut row = indent.to_owned();
                row.append(style.delim);
                row.append(&rows[i]);
                row.append(eol);
                assert(row@ == all[i as int]);
                block.push(row);
                assert(all.take(i + 1) =~= all.take(i as int).push(all[i as int]));
                i = i + 1;
            }
            assert(all.take(i as int) =~= all);
        },
    }
    block
}

/// Place (or clear) an own-line comment block around a node's line, on the
/// source text, for the formats whose comments are whole lines. `target_line`
/// is the 0-based index of the node's own line; `is_head` puts the block above
/// (else below, for foot). Contiguous existing comment lines on that side (as
/// `style` recognizes them) are replaced; `text == None` deletes. The text wraps
/// to the document's width envelope at `indent`. Untouched lines are preserved
/// verbatim.
///
/// The block's lines end the way the target line does (the file's dominant
/// ending if the target is an unterminated last line). A foot block below an
/// unterminated last line first terminates that line, so the comment never
/// lands on the value's own line; the block's last line then stays unterminated,
/// keeping the file's missing final newline.
pub fn place_line_comment(
    source: &str,
    target_line: usize,
    is_head: bool,
    indent: &str,
    style: &LineComment,
    text: Option<&str>,
) -> (r: String)
    ensures
        r@ == placed(
            source@,
            target_line as int,
            is_head,
            indent@,
            style@,
            crate::strings::flags_view(text),
        ),
{
    let lines = split_lines(source);
    let ghost ls = lines_of(source@);
    assert(ls.len() == lines.len());
    if target_line >= lines.len() {
        return source.to_owned();
    }
    assert(ls[target_line as int] == lines@[target_line as int]@);
    proof {
        line_splits(ls[target_line as int]);
    }
    let own = ending_of(&lines[target_line]);
    let eol = if own.is_empty() {
        dominant(source)
    } else {
        own
    };
    let mut block = make_block(source, indent, style, eol, text);
    let ghost bl = texts(block@);
    assert(bl.len() == block.len());
    let mut out: Vec<String> = Vec::new();
    assert(texts(out@) =~= Seq::<Seq<char>>::empty());
    if is_head {
        let mut start: usize = target_line;
        while start > 0 && style.is_comment_line(&trim_breaks(&lines[start - 1]))
            invariant
                start <= target_line < lines.len(),
                ls == texts(lines@),
                run_start(ls, style@, target_line as int) == run_start(ls, style@, start as int),
            decreases start,
        {
            assert(ls[start - 1] == lines@[start - 1]@);
            start = start - 1;
        }
        assert(start > 0 ==> ls[start - 1] == lines@[start - 1]@);
        push_range(&mut out, &lines, 0, start);
        out.append(&mut block);
        assert(texts(out@) =~= ls.take(start as int) + bl);
        push_range(&mut out, &lines, target_line, lines.len());
        assert(texts(out@) =~= ls.take(start as int) + bl + ls.skip(target_line as int));
        return concat(&out);
    }
    let mut end: usize = target_line + 1;
    while end < lines.len() && style.is_comment_line(&trim_breaks(&lines[end]))
        invariant
            target_line < end <= lines.len(),
            ls == texts(lines@),
            run_end(ls, style@, target_line + 1) == run_end(ls, style@, end as int),
        decreases lines.len() - end,
    {
        assert(ls[end as int] == lines@[end as int]@);
        end = end + 1;
    }
    assert(end < lines.len() ==> ls[end as int] == lines@[end as int]@);
    assert(ls[end - 1] == lines@[end - 1]@);
    proof {
        line_splits(ls[end - 1]);
    }
    // Where the replaced run reached an unterminated end of file, the file had
    // no final newline, so the new last line keeps not having one.
    if end == lines.len() && ending_of(&lines[end - 1]).is_empty() {
        push_range(&mut out, &lines, 0, target_line);
        assert(texts(out@) =~= ls.take(target_line as int));
        let target = &lines[target_line];
        if block.len() == 0 {
            out.push(trim_breaks(target));
        } else {
            let mut t = target.clone();
            if own.is_empty() {
                t.append(eol);
            }
            out.push(t);
        }
        assert(texts(out@) == ls.take(target_line as int).push(
            last_target(ls[target_line as int], bl, eol@),
        ));
        let ghost kept = texts(out@);
        if block.len() > 0 {
            let n: usize = block.len() - 1;
            push_range(&mut out, &block, 0, n);
            let last = chars_of(&block[n]);
            let e = chars_of(eol);
            assert(bl[n as int] == last@);
            assert(last@.len() >= e@.len()) by {
                assert(bl == block_lines(
                    source@,
                    indent@,
                    style@,
                    eol@,
                    crate::strings::flags_view(text),
                ));
            }
            out.push(slice_text(&last, 0, last.len() - e.len()));
            assert(texts(out@) =~= kept + open_ended(bl, eol@));
        } else {
            assert(texts(out@) =~= kept + open_ended(bl, eol@));
        }
        assert(texts(out@) + ls.skip(end as int) =~= texts(out@));
        return concat(&out);
    }
    push_range(&mut out, &lines, 0, target_line + 1);
    out.append(&mut block);
    assert(texts(out@) =~= ls.take(target_line + 1) + bl);
    push_range(&mut out, &lines, end, lines.len());
    assert(texts(out@) =~= ls.take(target_line + 1) + bl + ls.skip(end as int));
    concat(&out)
}

/// The number of line feeds among bytes.
pub open spec fn newlines(bytes: Seq<u8>) -> nat
    decreases bytes.len(),
{
    if bytes.len() == 0 {
        0
    } else {
        newlines(bytes.drop_last()) + (if bytes.last() == 10 {
            1nat
        } else {
            0
        })
    }
}

/// The 0-based line index containing byte offset `at`.
pub fn line_index(source: &str, at: usize) -> (r: usize)
    ensures
        r == newlines(
            source.spec_bytes().take(
                if at < source.spec_bytes().len() {
                    at as int
                } else {
                    source.spec_bytes().len() as int
                },
            ),
        ),
{
    let bytes = source.as_bytes();
    let end: usize = if at < bytes.len() {
        at
    } else {
        bytes.len()
    };
    let mut n: usize = 0;
    let mut i: usize = 0;
    assert(bytes@.take(0) =~= Seq::<u8>::empty());
    while i < end
        invariant
            i <= end <= bytes.len(),
            bytes@ == source.spec_bytes(),
            n == newlines(bytes@.take(i as int)),
            n <= i,
        decreases end - i,
    {
        assert(bytes@.take(i + 1).drop_last() =~= bytes@.take(i as int));
        if bytes[i] == 10u8 {
            n = n + 1;
        }
        i = i + 1;
    }
    n
}

/// Placing a block leaves every line but the comment run beside the target (and
/// the target's own terminator) as it was.
pub proof fn placing_keeps_other_lines(
    source: Seq<char>,
    target: int,
    head: bool,
    indent: Seq<char>,
    st: Style,
    text: Option<Seq<char>>,
)
    requires
        0 <= target < lines_of(source).len(),
    ensures
        ({
            let lines = lines_of(source);
            let out = placed_lines(source, target, head, indent, st, text);
            let start = run_start(lines, st, target);
            let end = run_end(lines, st, target + 1);
            if head {
                0 <= start <= target && out.take(start) == lines.take(start) && out.skip(
                    out.len() - (lines.len() - target),
                ) == lines.skip(target)
            } else {
                target < end <= lines.len() && out.take(target) == lines.take(target) && out.skip(
                    out.len() - (lines.len() - end),
                ) == lines.skip(end)
            }
        }),
{
    let lines = lines_of(source);
    let out = placed_lines(source, target, head, indent, st, text);
    run_start_bounds(lines, st, target);
    run_end_bounds(lines, st, target + 1);
    let start = run_start(lines, st, target);
    let end = run_end(lines, st, target + 1);
    if head {
        assert(out.take(start) =~= lines.take(start));
        assert(out.skip(out.len() - (lines.len() - target)) =~= lines.skip(target));
    } else {
        assert(out.take(target) =~= lines.take(target));
        assert(out.skip(out.len() - (lines.len() - end)) =~= lines.skip(end));
    }
}

} // verus!
