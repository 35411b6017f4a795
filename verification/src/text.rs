//! Byte-level file conventions every format shares: line endings and the UTF-8
//! byte-order mark.
//!
//! An untouched line keeps its own line ending, a line an edit inserts takes
//! the file's dominant ending, and a leading byte-order mark survives any edit.
//! Formats build new text with `\n` and pass it through [`to_eol`] with the
//! ending [`dominant`] picked.
use crate::lines::{
    flat, flat_add, flat_push, is_line, lines_are_lines, lines_of, lines_of_flat, lines_round_trip, split_lines,
};
use crate::strs::{chars_of, push_all, same, slice_text, text_of};
use crate::value::texts;
use std::borrow::Cow;
use vstd::prelude::*;
use vstd::string::*;

verus! {

/// The UTF-8 byte-order mark, as a `char`.
pub const BOM: char = '\u{FEFF}';

/// A text with the byte-order mark in front.
pub open spec fn marked(bom: bool, body: Seq<char>) -> Seq<char> {
    if bom {
        seq![BOM] + body
    } else {
        body
    }
}

/// Split a leading byte-order mark off `src`: whether it had one, and the rest.
///
/// Parsers see the text after the mark (it is not part of any key); the
/// document remembers the flag and [`with_bom`] puts it back on serialize.
pub fn split_bom(src: &str) -> (r: (bool, &str))
    ensures
        r.0 == (src@.len() > 0 && src@[0] == BOM),
        src@ == marked(r.0, r.1@),
{
    let n = src.unicode_len();
    if n > 0 && src.get_char(0) == BOM {
        let rest = src.substring_char(1, n);
        assert(src@ =~= seq![BOM] + rest@);
        (true, rest)
    } else {
        (false, src)
    }
}

/// `body`, with the byte-order mark restored if the source had one.
pub fn with_bom(bom: bool, body: String) -> (r: String)
    ensures
        r@ == marked(bom, body@),
{
    if bom {
        let mut out = String::new();
        out.push(BOM);
        out.append(&body);
        assert(out@ =~= seq![BOM] + body@);
        out
    } else {
        body
    }
}

/// A text opens with the mark exactly if it was marked, and taking the mark off
/// gives the body back, for a body that has no mark of its own.
pub proof fn bom_round_trips(bom: bool, body: Seq<char>)
    requires
        bom || body.len() == 0 || body[0] != BOM,
    ensures
        (marked(bom, body).len() > 0 && marked(bom, body)[0] == BOM) == bom,
        marked(bom, body).skip(
            if bom {
                1
            } else {
                0
            },
        ) == body,
{
    assert(marked(bom, body).skip(
        if bom {
            1
        } else {
            0
        },
    ) =~= body);
}

/// Does the text end with a line feed that follows a carriage return?
pub open spec fn ends_crlf(s: Seq<char>) -> bool {
    s.len() >= 2 && s[s.len() - 1] == '\n' && s[s.len() - 2] == '\r'
}

/// Does the text end with a line feed?
pub open spec fn ends_lf(s: Seq<char>) -> bool {
    s.len() >= 1 && s[s.len() - 1] == '\n'
}

/// The number of CRLF line ends.
pub open spec fn crlf_count(s: Seq<char>) -> nat
    decreases s.len(),
{
    if s.len() == 0 {
        0
    } else {
        crlf_count(s.drop_last()) + (if ends_crlf(s) {
            1nat
        } else {
            0
        })
    }
}

/// The number of bare LF line ends.
pub open spec fn lf_count(s: Seq<char>) -> nat
    decreases s.len(),
{
    if s.len() == 0 {
        0
    } else {
        lf_count(s.drop_last()) + (if ends_lf(s) && !ends_crlf(s) {
            1nat
        } else {
            0
        })
    }
}

/// The line ending most lines use: CRLF when those outnumber the bare LF ones.
pub open spec fn dominant_ending(s: Seq<char>) -> Seq<char> {
    if crlf_count(s) > lf_count(s) {
        "\r\n"@
    } else {
        "\n"@
    }
}

/// (CRLF count, bare-LF count).
fn count_endings(cs: &[char]) -> (r: (usize, usize))
    ensures
        r.0 == crlf_count(cs@),
        r.1 == lf_count(cs@),
        r.0 + r.1 <= cs.len(),
{
    let mut crlf: usize = 0;
    let mut lf: usize = 0;
    let mut i: usize = 0;
    while i < cs.len()
        invariant
            i <= cs.len(),
            crlf == crlf_count(cs@.take(i as int)),
            lf == lf_count(cs@.take(i as int)),
            crlf + lf <= i,
        decreases cs.len() - i,
    {
        assert(cs@.take(i + 1).drop_last() =~= cs@.take(i as int));
        if cs[i] == '\n' {
            if i > 0 && cs[i - 1] == '\r' {
                crlf = crlf + 1;
            } else {
                lf = lf + 1;
            }
        }
        i = i + 1;
    }
    assert(cs@.take(i as int) =~= cs@);
    (crlf, lf)
}

/// The line ending most of `src`'s lines use: `"\r\n"` when CRLF lines outnumber
/// bare-LF ones, else `"\n"` (a file with no line breaks is LF).
pub fn dominant(src: &str) -> (r: &'static str)
    ensures
        r@ == dominant_ending(src@),
{
    let cs = chars_of(src);
    let (crlf, lf) = count_endings(&cs);
    if crlf > lf {
        "\r\n"
    } else {
        "\n"
    }
}

/// The terminator of a line: CRLF, LF or nothing.
pub open spec fn line_ending(line: Seq<char>) -> Seq<char> {
    if ends_crlf(line) {
        "\r\n"@
    } else if ends_lf(line) {
        "\n"@
    } else {
        ""@
    }
}

/// The length of a line's terminator.
pub open spec fn ending_len(line: Seq<char>) -> int {
    if ends_crlf(line) {
        2
    } else if ends_lf(line) {
        1
    } else {
        0
    }
}

/// A line without its terminator.
pub open spec fn line_content(line: Seq<char>) -> Seq<char> {
    line.take(line.len() - ending_len(line))
}

/// A line is its content and its terminator.
pub proof fn line_splits(line: Seq<char>)
    ensures
        line_content(line) + line_ending(line) == line,
        line_ending(line).len() == ending_len(line),
{
    reveal_strlit("\r\n");
    reveal_strlit("\n");
    reveal_strlit("");
    assert(line_content(line) + line_ending(line) =~= line);
}

/// The line ending that terminates `line` (`"\r\n"`, `"\n"`, or `""` at the end
/// of the file).
pub fn ending_of(line: &str) -> (r: &'static str)
    ensures
        r@ == line_ending(line@),
{
    let n = line.unicode_len();
    if n >= 1 && line.get_char(n - 1) == '\n' {
        if n >= 2 && line.get_char(n - 2) == '\r' {
            "\r\n"
        } else {
            "\n"
        }
    } else {
        ""
    }
}

/// Split `line` into its content and its terminator (see [`ending_of`]).
pub fn split_ending(line: &str) -> (r: (&str, &str))
    ensures
        r.0@ == line_content(line@),
        r.1@ == line_ending(line@),
        r.0@ + r.1@ == line@,
{
    let n = line.unicode_len();
    let mut k: usize = n;
    if n >= 1 && line.get_char(n - 1) == '\n' {
        k = n - 1;
        if n >= 2 && line.get_char(n - 2) == '\r' {
            k = n - 2;
        }
    }
    proof {
        line_splits(line@);
        assert(line@.skip(k as int) =~= line_ending(line@));
    }
    (line.substring_char(0, k), line.substring_char(k, n))
}

/// The byte offset of the start of the line containing byte `pos`.
pub fn line_start(src: &str, pos: usize) -> (r: usize)
    requires
        pos <= src.spec_bytes().len(),
    ensures
        r <= pos,
        r > 0 ==> src.spec_bytes()[r - 1] == 10,
        forall|j: int| r <= j < pos ==> #[trigger] src.spec_bytes()[j] != 10,
{
    let bytes = src.as_bytes();
    let mut i: usize = pos;
    while i > 0 && bytes[i - 1] != 10u8
        invariant
            i <= pos <= bytes.len(),
            bytes@ == src.spec_bytes(),
            forall|j: int| i <= j < pos ==> #[trigger] bytes@[j] != 10,
        decreases i,
    {
        i = i - 1;
    }
    i
}

/// A space or a tab.
pub open spec fn blank(c: char) -> bool {
    c == ' ' || c == '\t'
}

/// How many spaces and tabs follow one another from position `i` on.
pub open spec fn blanks_end(s: Seq<char>, i: int) -> int
    decreases s.len() - i,
{
    if i < s.len() && blank(s[i]) {
        blanks_end(s, i + 1)
    } else {
        i
    }
}

/// The first position at or after `i` that holds neither a space nor a tab.
pub fn skip_blanks(cs: &[char], i: usize) -> (r: usize)
    requires
        i <= cs.len(),
    ensures
        r == blanks_end(cs@, i as int),
        i <= r <= cs.len(),
        r < cs.len() ==> !blank(cs@[r as int]),
        forall|j: int| i <= j < r ==> blank(#[trigger] cs@[j]),
{
    let mut k: usize = i;
    while k < cs.len() && (cs[k] == ' ' || cs[k] == '\t')
        invariant
            i <= k <= cs.len(),
            blanks_end(cs@, i as int) == blanks_end(cs@, k as int),
            forall|j: int| i <= j < k ==> blank(#[trigger] cs@[j]),
        decreases cs.len() - k,
    {
        k = k + 1;
    }
    k
}

/// The run of spaces and tabs `s` starts with: a line's indentation, when `s`
/// starts at the line's first character.
pub fn leading_indent(s: &str) -> (r: &str)
    ensures
        r@ == s@.take(blanks_end(s@, 0)),
{
    let cs = chars_of(s);
    let k = skip_blanks(&cs, 0);
    s.substring_char(0, k)
}

/// Every line feed not preceded by a carriage return, respelled as `eol`.
pub open spec fn respelled(s: Seq<char>, eol: Seq<char>) -> Seq<char>
    decreases s.len(),
{
    if s.len() == 0 {
        s
    } else if ends_lf(s) && !ends_crlf(s) {
        respelled(s.drop_last(), eol) + eol
    } else {
        respelled(s.drop_last(), eol).push(s.last())
    }
}

/// Text without line feeds has nothing to respell, nor has text respelled to
/// bare line feeds.
pub proof fn respelled_same(s: Seq<char>, eol: Seq<char>)
    requires
        eol == seq!['\n'] || forall|i: int| 0 <= i < s.len() ==> #[trigger] s[i] != '\n',
    ensures
        respelled(s, eol) == s,
    decreases s.len(),
{
    if s.len() > 0 {
        assert forall|i: int| 0 <= i < s.drop_last().len() implies #[trigger] s.drop_last()[i]
            == s[i] by {}
        respelled_same(s.drop_last(), eol);
        assert(s.drop_last().push(s.last()) =~= s);
        assert(eol == seq!['\n'] ==> s.drop_last() + eol =~= s.drop_last().push('\n'));
    }
}

/// Respelling is idempotent, for either line ending.
pub proof fn respelled_idempotent(s: Seq<char>, eol: Seq<char>)
    requires
        eol == seq!['\n'] || eol == seq!['\r', '\n'],
    ensures
        respelled(respelled(s, eol), eol) == respelled(s, eol),
    decreases s.len(),
{
    if eol == seq!['\n'] {
        respelled_same(s, eol);
        respelled_same(s, eol);
    } else if s.len() > 0 {
        let head = respelled(s.drop_last(), eol);
        respelled_idempotent(s.drop_last(), eol);
        respelled_last(s.drop_last(), eol);
        let t = respelled(s, eol);
        if ends_lf(s) && !ends_crlf(s) {
            let cr = head.push('\r');
            assert(cr.drop_last() =~= head);
            assert(t.drop_last() =~= cr);
            assert(t =~= cr.push('\n'));
            assert(ends_crlf(t));
            assert(respelled(cr, eol) == respelled(head, eol).push('\r'));
            assert(respelled(t, eol) == respelled(cr, eol).push('\n'));
        } else {
            assert(t.drop_last() =~= head);
            if s.last() == '\n' {
                assert(s.drop_last().last() == '\r');
                assert(head.last() == '\r');
                assert(ends_crlf(t));
            }
            assert(t.last() == s.last());
            assert(respelled(t, eol) == respelled(head, eol).push(t.last()));
        }
    }
}

/// Respelling keeps the last character, and does not empty a text.
proof fn respelled_last(s: Seq<char>, eol: Seq<char>)
    requires
        eol == seq!['\r', '\n'],
    ensures
        s.len() > 0 ==> respelled(s, eol).len() > 0 && respelled(s, eol).last() == s.last(),
    decreases s.len(),
{
}

fn respell(cs: &[char], eol: &str) -> (r: Vec<char>)
    ensures
        r@ == respelled(cs@, eol@),
{
    let mut out: Vec<char> = Vec::new();
    let mut i: usize = 0;
    assert(cs@.take(0) =~= Seq::<char>::empty());
    while i < cs.len()
        invariant
            i <= cs.len(),
            out@ == respelled(cs@.take(i as int), eol@),
        decreases cs.len() - i,
    {
        assert(cs@.take(i + 1).drop_last() =~= cs@.take(i as int));
        if cs[i] == '\n' && (i == 0 || cs[i - 1] != '\r') {
            push_all(&mut out, eol);
        } else {
            out.push(cs[i]);
        }
        i = i + 1;
    }
    assert(cs@.take(i as int) =~= cs@);
    out
}

/// Respell every bare `\n` in generated text as `eol`. A `\n` already preceded
/// by `\r` is left alone, so the call is idempotent. Only for text an edit
/// generates; never run it over a file's own bytes.
pub fn to_eol<'a>(fragment: &'a str, eol: &str) -> (r: Cow<'a, str>)
    ensures
        r@ == respelled(fragment@, eol@),
{
    let cs = chars_of(fragment);
    let mut seen = false;
    let mut i: usize = 0;
    while i < cs.len() && !seen
        invariant
            i <= cs.len(),
            !seen ==> forall|j: int| 0 <= j < i ==> #[trigger] cs@[j] != '\n',
        decreases cs.len() - i,
    {
        if cs[i] == '\n' {
            seen = true;
        }
        i = i + 1;
    }
    if same(eol, "\n") || !seen {
        proof {
            reveal_strlit("\n");
            assert("\n"@ =~= seq!['\n']);
            respelled_same(fragment@, eol@);
        }
        return Cow::Borrowed(fragment);
    }
    let out = respell(&cs, eol);
    Cow::Owned(text_of(&out))
}

/// How far two texts agree from position `i` on.
pub open spec fn agree_from(a: Seq<char>, b: Seq<char>, i: int) -> int
    decreases a.len() - i,
{
    if i < a.len() && i < b.len() && a[i] == b[i] {
        agree_from(a, b, i + 1)
    } else {
        i
    }
}

/// The length of the longest common prefix.
pub open spec fn common_prefix(a: Seq<char>, b: Seq<char>) -> int {
    agree_from(a, b, 0)
}

/// How many characters agree at the ends, at most `cap`, from `k` on.
pub open spec fn agree_back(a: Seq<char>, b: Seq<char>, cap: int, k: int) -> int
    decreases cap - k,
{
    if k < cap && a[a.len() - 1 - k] == b[b.len() - 1 - k] {
        agree_back(a, b, cap, k + 1)
    } else {
        k
    }
}

/// The length of the longest common suffix of what lies behind the common
/// prefix in both.
pub open spec fn common_suffix(a: Seq<char>, b: Seq<char>) -> int {
    let n = if a.len() < b.len() {
        a.len()
    } else {
        b.len()
    };
    agree_back(a, b, n - common_prefix(a, b), 0)
}

/// `edited` with the text an insertion added (what lies between the common
/// prefix and suffix it shares with `original`) respelled; a line feed right
/// behind the kept prefix's carriage return is already a CRLF.
pub open spec fn inserted_respelled(original: Seq<char>, edited: Seq<char>, eol: Seq<char>) -> Seq<char> {
    let pre = common_prefix(original, edited);
    let end = edited.len() - common_suffix(original, edited);
    let mid = edited.subrange(pre, end);
    let fixed = if mid.len() > 0 && mid[0] == '\n' && pre > 0 && edited[pre - 1] == '\r' {
        seq!['\n'] + respelled(mid.drop_first(), eol)
    } else {
        respelled(mid, eol)
    };
    edited.take(pre) + fixed + edited.skip(end)
}

/// With bare line feeds there is nothing to respell.
proof fn inserted_same(original: Seq<char>, edited: Seq<char>)
    ensures
        inserted_respelled(original, edited, seq!['\n']) == edited,
{
    let pre = common_prefix(original, edited);
    let end = edited.len() - common_suffix(original, edited);
    agree_bounds(original, edited, 0);
    suffix_bounds(original, edited);
    let mid = edited.subrange(pre, end);
    respelled_same(mid, seq!['\n']);
    if mid.len() > 0 {
        respelled_same(mid.drop_first(), seq!['\n']);
        assert(mid[0] == '\n' ==> seq!['\n'] + mid.drop_first() =~= mid);
    }
    assert(edited.take(pre) + mid + edited.skip(end) =~= edited);
}

proof fn agree_bounds(a: Seq<char>, b: Seq<char>, i: int)
    requires
        0 <= i <= a.len(),
        i <= b.len(),
    ensures
        i <= agree_from(a, b, i) <= a.len(),
        agree_from(a, b, i) <= b.len(),
    decreases a.len() - i,
{
    if i < a.len() && i < b.len() && a[i] == b[i] {
        agree_bounds(a, b, i + 1);
    }
}

proof fn back_bounds(a: Seq<char>, b: Seq<char>, cap: int, k: int)
    requires
        0 <= k <= cap,
    ensures
        k <= agree_back(a, b, cap, k) <= cap,
    decreases cap - k,
{
    if k < cap && a[a.len() - 1 - k] == b[b.len() - 1 - k] {
        back_bounds(a, b, cap, k + 1);
    }
}

proof fn suffix_bounds(a: Seq<char>, b: Seq<char>)
    ensures
        0 <= common_prefix(a, b),
        0 <= common_suffix(a, b),
        common_prefix(a, b) + common_suffix(a, b) <= a.len(),
        common_prefix(a, b) + common_suffix(a, b) <= b.len(),
{
    agree_bounds(a, b, 0);
    let n = if a.len() < b.len() {
        a.len()
    } else {
        b.len()
    };
    back_bounds(a, b, n - common_prefix(a, b), 0);
}

/// `edited` with [`to_eol`] applied only to the text an insertion added: the
/// span between the longest common prefix and suffix it shares with `original`.
/// For a splice that keeps the original bytes on both sides of new text (an
/// element appended before a closing bracket), so the new lines match the file
/// while every original byte, bare `\n`s included, stays as it was.
pub fn eol_inserted(original: &str, edited: &str, eol: &str) -> (r: String)
    ensures
        r@ == inserted_respelled(original@, edited@, eol@),
{
    if same(eol, "\n") {
        proof {
            reveal_strlit("\n");
            assert("\n"@ =~= seq!['\n']);
            inserted_same(original@, edited@);
        }
        return edited.to_owned();
    }
    let o = chars_of(original);
    let e = chars_of(edited);
    let mut pre: usize = 0;
    while pre < o.len() && pre < e.len() && o[pre] == e[pre]
        invariant
            pre <= o.len(),
            pre <= e.len(),
            agree_from(o@, e@, 0) == agree_from(o@, e@, pre as int),
        decreases o.len() - pre,
    {
        pre = pre + 1;
    }
    let n: usize = if o.len() < e.len() {
        o.len()
    } else {
        e.len()
    };
    let cap: usize = n - pre;
    let mut suf: usize = 0;
    while suf < cap && o[o.len() - 1 - suf] == e[e.len() - 1 - suf]
        invariant
            suf <= cap,
            cap <= o.len(),
            cap <= e.len(),
            agree_back(o@, e@, cap as int, 0) == agree_back(o@, e@, cap as int, suf as int),
        decreases cap - suf,
    {
        suf = suf + 1;
    }
    let end: usize = e.len() - suf;
    let mut out: Vec<char> = Vec::new();
    push_all(&mut out, &slice_text(&e, 0, pre));
    let mut from: usize = pre;
    if pre < end && e[pre] == '\n' && pre > 0 && e[pre - 1] == '\r' {
        out.push('\n');
        from = pre + 1;
    }
    let mid = slice_text(&e, from, end);
    let ms = chars_of(&mid);
    let mut fixed = respell(&ms, eol);
    let ghost head = out@;
    let ghost fx = fixed@;
    out.append(&mut fixed);
    push_all(&mut out, &slice_text(&e, end, e.len()));
    proof {
        let m = edited@.subrange(pre as int, end as int);
        assert(from > pre ==> m.drop_first() =~= edited@.subrange(from as int, end as int));
        assert(out@ =~= inserted_respelled(original@, edited@, eol@));
    }
    text_of(&out)
}

/// A line without its ending.
pub open spec fn body_of(line: Seq<char>) -> Seq<char> {
    let l = if ends_lf(line) {
        line.drop_last()
    } else {
        line
    };
    if l.len() > 0 && l.last() == '\r' {
        l.drop_last()
    } else {
        l
    }
}

/// The lines without their endings.
pub open spec fn bodies(lines: Seq<Seq<char>>) -> Seq<Seq<char>> {
    Seq::new(lines.len(), |i: int| body_of(lines[i]))
}

/// How far two lists agree from position `i` on.
pub open spec fn same_from(a: Seq<Seq<char>>, b: Seq<Seq<char>>, i: int) -> int
    decreases a.len() - i,
{
    if i < a.len() && i < b.len() && a[i] == b[i] {
        same_from(a, b, i + 1)
    } else {
        i
    }
}

/// How many entries agree at the ends, at most `cap`, from `k` on.
pub open spec fn same_back(a: Seq<Seq<char>>, b: Seq<Seq<char>>, cap: int, k: int) -> int
    decreases cap - k,
{
    if k < cap && a[a.len() - 1 - k] == b[b.len() - 1 - k] {
        same_back(a, b, cap, k + 1)
    } else {
        k
    }
}

/// The length of a longest common subsequence of `a[i..ea]` and `b[j..eb]`.
pub open spec fn lcs(a: Seq<Seq<char>>, b: Seq<Seq<char>>, i: int, j: int, ea: int, eb: int) -> nat
    decreases (ea - i) + (eb - j),
{
    if i >= ea || j >= eb {
        0
    } else if a[i] == b[j] {
        lcs(a, b, i + 1, j + 1, ea, eb) + 1
    } else {
        let x = lcs(a, b, i + 1, j, ea, eb);
        let y = lcs(a, b, i, j + 1, ea, eb);
        if x >= y {
            x
        } else {
            y
        }
    }
}

/// The entry of `a[i..ea]` that entry `t` of `b[j..eb]` matches in a longest
/// common subsequence.
pub open spec fn lcs_match(
    a: Seq<Seq<char>>,
    b: Seq<Seq<char>>,
    i: int,
    j: int,
    ea: int,
    eb: int,
    t: int,
) -> Option<int>
    decreases (ea - i) + (eb - j),
{
    if i >= ea || j >= eb {
        None
    } else if a[i] == b[j] {
        if t == j {
            Some(i)
        } else {
            lcs_match(a, b, i + 1, j + 1, ea, eb, t)
        }
    } else if lcs(a, b, i + 1, j, ea, eb) >= lcs(a, b, i, j + 1, ea, eb) {
        lcs_match(a, b, i + 1, j, ea, eb, t)
    } else {
        lcs_match(a, b, i, j + 1, ea, eb, t)
    }
}

/// The common prefix of two lists.
pub open spec fn list_prefix(a: Seq<Seq<char>>, b: Seq<Seq<char>>) -> int {
    same_from(a, b, 0)
}

/// The common suffix of what lies behind the common prefix.
pub open spec fn list_suffix(a: Seq<Seq<char>>, b: Seq<Seq<char>>) -> int {
    let n = if a.len() < b.len() {
        a.len()
    } else {
        b.len()
    };
    same_back(a, b, n - list_prefix(a, b), 0)
}

/// The largest product of middle lengths that is aligned.
pub const MAX_CELLS: usize = 4_000_000;

/// The entry of `a` that entry `t` of `b` matches, if any: common prefix and
/// suffix first, then a longest common subsequence of what's left. A middle too
/// large for that is left unmatched.
pub open spec fn aligned(a: Seq<Seq<char>>, b: Seq<Seq<char>>, t: int) -> Option<int> {
    let pre = list_prefix(a, b);
    let suf = list_suffix(a, b);
    let ea = a.len() - suf;
    let eb = b.len() - suf;
    if t < pre {
        Some(t)
    } else if t >= eb {
        Some(ea + (t - eb))
    } else if (ea - pre) * (eb - pre) > MAX_CELLS {
        None
    } else {
        lcs_match(a, b, pre, pre, ea, eb, t)
    }
}

proof fn same_bounds(a: Seq<Seq<char>>, b: Seq<Seq<char>>, i: int)
    requires
        0 <= i <= a.len(),
        i <= b.len(),
    ensures
        i <= same_from(a, b, i) <= a.len(),
        same_from(a, b, i) <= b.len(),
        forall|k: int| i <= k < same_from(a, b, i) ==> #[trigger] a[k] == b[k],
    decreases a.len() - i,
{
    if i < a.len() && i < b.len() && a[i] == b[i] {
        same_bounds(a, b, i + 1);
    }
}

proof fn same_back_bounds(a: Seq<Seq<char>>, b: Seq<Seq<char>>, cap: int, k: int)
    requires
        0 <= k <= cap,
    ensures
        k <= same_back(a, b, cap, k) <= cap,
        forall|x: int|
            k <= x < same_back(a, b, cap, k) ==> #[trigger] a[a.len() - 1 - x] == b[b.len() - 1
                - x],
    decreases cap - k,
{
    if k < cap && a[a.len() - 1 - k] == b[b.len() - 1 - k] {
        same_back_bounds(a, b, cap, k + 1);
    }
}

/// A matched entry lies in range and holds the same text.
proof fn lcs_match_sound(
    a: Seq<Seq<char>>,
    b: Seq<Seq<char>>,
    i: int,
    j: int,
    ea: int,
    eb: int,
    t: int,
)
    ensures
        match lcs_match(a, b, i, j, ea, eb, t) {
            Some(x) => i <= x < ea && j <= t < eb && a[x] == b[t],
            None => true,
        },
    decreases (ea - i) + (eb - j),
{
    if i >= ea || j >= eb {
    } else if a[i] == b[j] {
        if t != j {
            lcs_match_sound(a, b, i + 1, j + 1, ea, eb, t);
        }
    } else if lcs(a, b, i + 1, j, ea, eb) >= lcs(a, b, i, j + 1, ea, eb) {
        lcs_match_sound(a, b, i + 1, j, ea, eb, t);
    } else {
        lcs_match_sound(a, b, i, j + 1, ea, eb, t);
    }
}

/// A line is only ever matched with a line of the same text.
pub proof fn aligned_lines_agree(a: Seq<Seq<char>>, b: Seq<Seq<char>>, t: int)
    requires
        0 <= t < b.len(),
    ensures
        match aligned(a, b, t) {
            Some(x) => 0 <= x < a.len() && a[x] == b[t],
            None => true,
        },
{
    let pre = list_prefix(a, b);
    let suf = list_suffix(a, b);
    same_bounds(a, b, 0);
    let n = if a.len() < b.len() {
        a.len()
    } else {
        b.len()
    };
    same_back_bounds(a, b, n - pre, 0);
    let ea = a.len() - suf;
    let eb = b.len() - suf;
    if t < pre {
    } else if t >= eb {
        let x = b.len() - 1 - t;
        assert(a[a.len() - 1 - x] == b[b.len() - 1 - x]);
    } else {
        lcs_match_sound(a, b, pre, pre, ea, eb, t);
    }
}

/// Later lines are matched with later lines.
pub proof fn alignment_keeps_order(a: Seq<Seq<char>>, b: Seq<Seq<char>>, t: int, u: int)
    requires
        0 <= t < u < b.len(),
        aligned(a, b, t) is Some,
        aligned(a, b, u) is Some,
    ensures
        aligned(a, b, t)->0 < aligned(a, b, u)->0,
{
    let pre = list_prefix(a, b);
    let suf = list_suffix(a, b);
    same_bounds(a, b, 0);
    let n = if a.len() < b.len() {
        a.len()
    } else {
        b.len()
    };
    same_back_bounds(a, b, n - pre, 0);
    let ea = a.len() - suf;
    let eb = b.len() - suf;
    lcs_match_sound(a, b, pre, pre, ea, eb, t);
    lcs_match_sound(a, b, pre, pre, ea, eb, u);
    if t >= pre && u < eb {
        lcs_match_rising(a, b, pre, pre, ea, eb, t, u);
    }
}

proof fn lcs_match_rising(
    a: Seq<Seq<char>>,
    b: Seq<Seq<char>>,
    i: int,
    j: int,
    ea: int,
    eb: int,
    t: int,
    u: int,
)
    requires
        t < u,
        lcs_match(a, b, i, j, ea, eb, t) is Some,
        lcs_match(a, b, i, j, ea, eb, u) is Some,
    ensures
        lcs_match(a, b, i, j, ea, eb, t)->0 < lcs_match(a, b, i, j, ea, eb, u)->0,
    decreases (ea - i) + (eb - j),
{
    if i >= ea || j >= eb {
    } else if a[i] == b[j] {
        lcs_match_sound(a, b, i + 1, j + 1, ea, eb, u);
        lcs_match_sound(a, b, i + 1, j + 1, ea, eb, t);
        if t != j && u != j {
            lcs_match_rising(a, b, i + 1, j + 1, ea, eb, t, u);
        }
    } else if lcs(a, b, i + 1, j, ea, eb) >= lcs(a, b, i, j + 1, ea, eb) {
        lcs_match_rising(a, b, i + 1, j, ea, eb, t, u);
    } else {
        lcs_match_rising(a, b, i, j + 1, ea, eb, t, u);
    }
}

/// A line without its ending.
fn body(line: &str) -> (r: String)
    ensures
        r@ == body_of(line@),
{
    let cs = chars_of(line);
    let mut n: usize = cs.len();
    if n > 0 && cs[n - 1] == '\n' {
        n = n - 1;
    }
    assert(cs@.take(n as int) =~= (if ends_lf(line@) {
        line@.drop_last()
    } else {
        line@
    }));
    let ghost l = cs@.take(n as int);
    if n > 0 && cs[n - 1] == '\r' {
        n = n - 1;
    }
    assert(cs@.subrange(0, n as int) =~= body_of(line@));
    slice_text(&cs, 0, n)
}

fn bodies_of(lines: &Vec<String>) -> (r: Vec<String>)
    ensures
        texts(r@) == bodies(texts(lines@)),
{
    let mut out: Vec<String> = Vec::new();
    let ghost all = bodies(texts(lines@));
    assert(texts(out@) =~= all.take(0));
    let mut i: usize = 0;
    while i < lines.len()
        invariant
            i <= lines.len(),
            all == bodies(texts(lines@)),
            texts(out@) == all.take(i as int),
        decreases lines.len() - i,
    {
        let ghost before = texts(out@);
        out.push(body(&lines[i]));
        assert(texts(out@) =~= before.push(all[i as int]));
        assert(all.take(i + 1) =~= before.push(all[i as int]));
        i = i + 1;
    }
    assert(all.take(i as int) =~= all);
    out
}

/// The table of longest-common-subsequence lengths: row `r`, column `c` holds
/// that of `a[ea - r..ea]` and `b[eb - c..eb]`.
spec fn lcs_row(
    row: Seq<usize>,
    a: Seq<Seq<char>>,
    b: Seq<Seq<char>>,
    r: int,
    lo: int,
    ea: int,
    eb: int,
) -> bool {
    forall|c: int|
        0 <= c < row.len() && c <= eb - lo ==> #[trigger] row[c] == lcs(a, b, ea - r, eb - c, ea, eb)
}

proof fn lcs_small(a: Seq<Seq<char>>, b: Seq<Seq<char>>, i: int, j: int, ea: int, eb: int)
    requires
        i <= ea,
    ensures
        lcs(a, b, i, j, ea, eb) <= ea - i,
    decreases (ea - i) + (eb - j),
{
    if i >= ea || j >= eb {
    } else if a[i] == b[j] {
        lcs_small(a, b, i + 1, j + 1, ea, eb);
    } else {
        lcs_small(a, b, i + 1, j, ea, eb);
        lcs_small(a, b, i, j + 1, ea, eb);
    }
}

fn lcs_table(a: &Vec<String>, b: &Vec<String>, lo: usize, ea: usize, eb: usize) -> (r: Vec<Vec<usize>>)
    requires
        lo <= ea <= a.len(),
        lo <= eb <= b.len(),
        ea - lo <= MAX_CELLS,
        eb - lo <= MAX_CELLS,
    ensures
        r.len() == ea - lo + 1,
        forall|k: int|
            0 <= k < r.len() ==> (#[trigger] r@[k]).len() == eb - lo + 1 && lcs_row(
                r@[k]@,
                texts(a@),
                texts(b@),
                k,
                lo as int,
                ea as int,
                eb as int,
            ),
{
    let ghost ta = texts(a@);
    let ghost tb = texts(b@);
    let mut table: Vec<Vec<usize>> = Vec::new();
    let mut first: Vec<usize> = Vec::new();
    let mut c: usize = 0;
    while c <= eb - lo
        invariant
            lo <= eb,
            eb - lo <= MAX_CELLS,
            c <= eb - lo + 1,
            first.len() == c,
            lcs_row(first@, ta, tb, 0, lo as int, ea as int, eb as int),
        decreases eb - lo + 1 - c,
    {
        first.push(0);
        c = c + 1;
    }
    table.push(first);
    let mut k: usize = 1;
    while k <= ea - lo
        invariant
            lo <= ea <= a.len(),
            lo <= eb <= b.len(),
            ea - lo <= MAX_CELLS,
            eb - lo <= MAX_CELLS,
            1 <= k <= ea - lo + 1,
            ta == texts(a@),
            tb == texts(b@),
            table.len() == k,
            forall|x: int|
                0 <= x < k ==> (#[trigger] table@[x]).len() == eb - lo + 1 && lcs_row(
                    table@[x]@,
                    ta,
                    tb,
                    x,
                    lo as int,
                    ea as int,
                    eb as int,
                ),
        decreases ea - lo + 1 - k,
    {
        let mut row: Vec<usize> = Vec::new();
        row.push(0);
        let mut c: usize = 1;
        let prev = &table[k - 1];
        while c <= eb - lo
            invariant
                lo <= ea <= a.len(),
                lo <= eb <= b.len(),
                eb - lo <= MAX_CELLS,
                1 <= k <= ea - lo,
                1 <= c <= eb - lo + 1,
                ta == texts(a@),
                tb == texts(b@),
                row.len() == c,
                prev.len() == eb - lo + 1,
                lcs_row(prev@, ta, tb, k - 1, lo as int, ea as int, eb as int),
                lcs_row(row@, ta, tb, k as int, lo as int, ea as int, eb as int),
            decreases eb - lo + 1 - c,
        {
            let i: usize = ea - k;
            let j: usize = eb - c;
            assert(ta[i as int] == a@[i as int]@);
            assert(tb[j as int] == b@[j as int]@);
            proof {
                lcs_small(ta, tb, i + 1, j + 1, ea as int, eb as int);
            }
            let n: usize = if same(&a[i], &b[j]) {
                assert(prev@[c - 1] == lcs(ta, tb, ea - (k - 1), eb - (c - 1), ea as int, eb as int));
                prev[c - 1] + 1
            } else {
                assert(prev@[c as int] == lcs(ta, tb, ea - (k - 1), eb - c, ea as int, eb as int));
                assert(row@[c - 1] == lcs(ta, tb, ea - k, eb - (c - 1), ea as int, eb as int));
                if prev[c] >= row[c - 1] {
                    prev[c]
                } else {
                    row[c - 1]
                }
            };
            let ghost held = row@;
            row.push(n);
            assert forall|x: int| 0 <= x < row.len() && x <= eb - lo implies #[trigger] row@[x] == lcs(
                ta,
                tb,
                ea - k,
                eb - x,
                ea as int,
                eb as int,
            ) by {
                if x < c {
                    assert(row@[x] == held[x]);
                }
            }
            c = c + 1;
        }
        let ghost before = table@;
        table.push(row);
        assert forall|x: int| 0 <= x < k + 1 implies (#[trigger] table@[x]).len() == eb - lo + 1
            && lcs_row(table@[x]@, ta, tb, x, lo as int, ea as int, eb as int) by {
            if x < k {
                assert(table@[x] == before[x]);
            }
        }
        k = k + 1;
    }
    table
}

/// For each entry of `b`, the index of the entry of `a` it matches, if any:
/// common prefix and suffix first, then a longest common subsequence of what's
/// left. A middle too large for the quadratic table falls back to unmatched,
/// which only a huge edit to a mixed-ending file can reach.
pub fn align(a: &Vec<String>, b: &Vec<String>) -> (r: Vec<Option<usize>>)
    ensures
        r.len() == b.len(),
        forall|t: int|
            0 <= t < b.len() ==> match aligned(texts(a@), texts(b@), t) {
                Some(x) => #[trigger] r@[t] == Some(x as usize) && 0 <= x < a.len(),
                None => r@[t] is None,
            },
{
    let ghost ta = texts(a@);
    let ghost tb = texts(b@);
    let mut m: Vec<Option<usize>> = Vec::new();
    let mut pre: usize = 0;
    while pre < a.len() && pre < b.len() && same(&a[pre], &b[pre])
        invariant
            pre <= a.len(),
            pre <= b.len(),
            ta == texts(a@),
            tb == texts(b@),
            m.len() == pre,
            forall|t: int| 0 <= t < pre ==> #[trigger] m@[t] == Some(t as usize),
            same_from(ta, tb, 0) == same_from(ta, tb, pre as int),
        decreases a.len() - pre,
    {
        assert(ta[pre as int] == a@[pre as int]@);
        assert(tb[pre as int] == b@[pre as int]@);
        m.push(Some(pre));
        pre = pre + 1;
    }
    assert(pre == list_prefix(ta, tb)) by {
        if pre < a.len() && pre < b.len() {
            assert(ta[pre as int] == a@[pre as int]@);
            assert(tb[pre as int] == b@[pre as int]@);
        }
    }
    let n: usize = if a.len() < b.len() {
        a.len()
    } else {
        b.len()
    };
    let cap: usize = n - pre;
    let mut suf: usize = 0;
    while suf < cap && same(&a[a.len() - 1 - suf], &b[b.len() - 1 - suf])
        invariant
            suf <= cap,
            cap <= a.len(),
            cap <= b.len(),
            ta == texts(a@),
            tb == texts(b@),
            same_back(ta, tb, cap as int, 0) == same_back(ta, tb, cap as int, suf as int),
        decreases cap - suf,
    {
        assert(ta[ta.len() - 1 - suf] == a@[a.len() - 1 - suf]@);
        assert(tb[tb.len() - 1 - suf] == b@[b.len() - 1 - suf]@);
        suf = suf + 1;
    }
    assert(suf == list_suffix(ta, tb)) by {
        if suf < cap {
            assert(ta[ta.len() - 1 - suf] == a@[a.len() - 1 - suf]@);
            assert(tb[tb.len() - 1 - suf] == b@[b.len() - 1 - suf]@);
        }
    }
    let ea: usize = a.len() - suf;
    let eb: usize = b.len() - suf;
    let na: u128 = (ea - pre) as u128;
    let nb: u128 = (eb - pre) as u128;
    proof {
        assert(na * nb <= u64::MAX * u64::MAX) by (nonlinear_arith)
            requires
                0 <= na <= u64::MAX,
                0 <= nb <= u64::MAX,
        ;
        assert(na > 0 && nb > 0 ==> na <= na * nb && nb <= na * nb) by (nonlinear_arith);
    }
    let cells: u128 = na * nb;
    if na > 0 && nb > 0 && cells <= MAX_CELLS as u128 {
        let table = lcs_table(a, b, pre, ea, eb);
        let mut i: usize = pre;
        let mut j: usize = pre;
        while i < ea && j < eb
            invariant
                pre <= i <= ea <= a.len(),
                pre <= j <= eb <= b.len(),
                ta == texts(a@),
                tb == texts(b@),
                m.len() == j,
                forall|t: int| 0 <= t < pre ==> #[trigger] m@[t] == Some(t as usize),
                forall|t: int|
                    pre <= t < j ==> match lcs_match(
                        ta,
                        tb,
                        pre as int,
                        pre as int,
                        ea as int,
                        eb as int,
                        t,
                    ) {
                        Some(x) => #[trigger] m@[t] == Some(x as usize),
                        None => m@[t] is None,
                    },
                forall|t: int|
                    j <= t ==> #[trigger] lcs_match(
                        ta,
                        tb,
                        pre as int,
                        pre as int,
                        ea as int,
                        eb as int,
                        t,
                    ) == lcs_match(ta, tb, i as int, j as int, ea as int, eb as int, t),
                table.len() == ea - pre + 1,
                forall|k: int|
                    0 <= k < table.len() ==> (#[trigger] table@[k]).len() == eb - pre + 1
                        && lcs_row(table@[k]@, ta, tb, k, pre as int, ea as int, eb as int),
            decreases (ea - i) + (eb - j),
        {
            assert(ta[i as int] == a@[i as int]@);
            assert(tb[j as int] == b@[j as int]@);
            let ghost goal = lcs_match(
                ta,
                tb,
                pre as int,
                pre as int,
                ea as int,
                eb as int,
                j as int,
            );
            assert(goal == lcs_match(ta, tb, i as int, j as int, ea as int, eb as int, j as int));
            if same(&a[i], &b[j]) {
                m.push(Some(i));
                i = i + 1;
                j = j + 1;
            } else {
                assert(table@[ea - i - 1]@[eb - j] == lcs(
                    ta,
                    tb,
                    ea - (ea - i - 1),
                    eb - (eb - j),
                    ea as int,
                    eb as int,
                ));
                assert(table@[ea - i]@[eb - j - 1] == lcs(
                    ta,
                    tb,
                    ea - (ea - i),
                    eb - (eb - j - 1),
                    ea as int,
                    eb as int,
                ));
                if table[ea - i - 1][eb - j] >= table[ea - i][eb - j - 1] {
                    i = i + 1;
                } else {
                    proof {
                        lcs_match_sound(
                            ta,
                            tb,
                            i as int,
                            j + 1,
                            ea as int,
                            eb as int,
                            j as int,
                        );
                    }
                    m.push(None);
                    j = j + 1;
                }
            }
        }
        while j < eb
            invariant
                pre <= j <= eb <= b.len(),
                pre <= i <= ea,
                i == ea || j == eb,
                m.len() == j,
                forall|t: int| 0 <= t < pre ==> #[trigger] m@[t] == Some(t as usize),
                forall|t: int|
                    pre <= t < j ==> match lcs_match(
                        ta,
                        tb,
                        pre as int,
                        pre as int,
                        ea as int,
                        eb as int,
                        t,
                    ) {
                        Some(x) => #[trigger] m@[t] == Some(x as usize),
                        None => m@[t] is None,
                    },
                forall|t: int|
                    j <= t ==> #[trigger] lcs_match(
                        ta,
                        tb,
                        pre as int,
                        pre as int,
                        ea as int,
                        eb as int,
                        t,
                    ) is None,
            decreases eb - j,
        {
            assert(lcs_match(
                ta,
                tb,
                pre as int,
                pre as int,
                ea as int,
                eb as int,
                j as int,
            ) is None);
            m.push(None);
            j = j + 1;
        }
    } else {
        let mut j: usize = pre;
        while j < eb
            invariant
                pre <= j <= eb <= b.len(),
                m.len() == j,
                forall|t: int| 0 <= t < pre ==> #[trigger] m@[t] == Some(t as usize),
                forall|t: int| pre <= t < j ==> #[trigger] m@[t] is None,
            decreases eb - j,
        {
            m.push(None);
            j = j + 1;
        }
    }
    let ghost mid = m@;
    let mut j: usize = eb;
    while j < b.len()
        invariant
            eb <= j <= b.len(),
            ea + (b.len() - eb) == a.len(),
            mid.len() == eb,
            m.len() == j,
            forall|t: int| 0 <= t < eb ==> #[trigger] m@[t] == mid[t],
            forall|t: int| eb <= t < j ==> #[trigger] m@[t] == Some((ea + (t - eb)) as usize),
        decreases b.len() - j,
    {
        m.push(Some(ea + (j - eb)));
        j = j + 1;
    }
    assert forall|t: int| 0 <= t < b.len() implies match aligned(ta, tb, t) {
        Some(x) => #[trigger] m@[t] == Some(x as usize) && 0 <= x < a.len(),
        None => m@[t] is None,
    } by {
        aligned_lines_agree(ta, tb, t);
        if t < eb {
            assert(m@[t] == mid[t]);
        }
    }
    m
}

/// The ending a line of the output gets: that of the original line it matches,
/// or the dominant one.
pub open spec fn restored_ending(orig: Seq<Seq<char>>, out: Seq<Seq<char>>, eol: Seq<char>, t: int) -> Seq<char> {
    match aligned(bodies(orig), bodies(out), t) {
        Some(x) => if ending_len(orig[x]) > 0 {
            line_ending(orig[x])
        } else {
            eol
        },
        None => eol,
    }
}

/// A line of the output with its ending restored.
pub open spec fn restored_line(orig: Seq<Seq<char>>, out: Seq<Seq<char>>, eol: Seq<char>, t: int) -> Seq<char> {
    if !ends_lf(out[t]) || ends_crlf(out[t]) {
        out[t]
    } else {
        body_of(out[t]) + restored_ending(orig, out, eol, t)
    }
}

/// The output with the original's line endings re-applied.
pub open spec fn restored(original: Seq<char>, output: Seq<char>) -> Seq<char> {
    let eol = dominant_ending(original);
    if crlf_count(original) == 0 {
        output
    } else if lf_count(original) == 0 {
        respelled(output, eol)
    } else {
        let orig = lines_of(original);
        let out = lines_of(output);
        flat(Seq::new(out.len(), |t: int| restored_line(orig, out, eol, t)))
    }
}

/// Re-apply `original`'s line endings to `output`, a re-serialization of it that
/// came back with LF endings only (a library that normalizes, such as
/// `toml_edit`, which drops every `\r` it writes).
///
/// A line whose text survived from the original gets that line's own ending
/// back; a line the edit introduced gets the original's [`dominant`] one. A
/// uniform file (every line CRLF, or none) needs no matching: each bare `\n`
/// becomes the one ending. A mixed file aligns lines by a longest-common-
/// subsequence match over the region between the common prefix and suffix.
/// `output`'s own `\r\n`s are never doubled.
pub fn restore_endings(original: &str, output: &str) -> (r: String)
    ensures
        r@ == restored(original@, output@),
{
    let ocs = chars_of(original);
    let (crlf, lf) = count_endings(&ocs);
    if crlf == 0 {
        return output.to_owned();
    }
    let eol = dominant(original);
    if lf == 0 {
        let cs = chars_of(output);
        let out = respell(&cs, eol);
        return text_of(&out);
    }
    let orig = split_lines(original);
    let out = split_lines(output);
    let ob = bodies_of(&orig);
    let nb = bodies_of(&out);
    let matched = align(&ob, &nb);
    let ghost lo = lines_of(original@);
    let ghost ln = lines_of(output@);
    let ghost all = Seq::new(ln.len(), |t: int| restored_line(lo, ln, eol@, t));
    assert(nb.len() == texts(nb@).len());
    assert(ob.len() == texts(ob@).len());
    let mut s = String::new();
    assert(all.take(0) =~= Seq::<Seq<char>>::empty());
    let mut i: usize = 0;
    while i < out.len()
        invariant
            i <= out.len(),
            lo == texts(orig@),
            ln == texts(out@),
            texts(ob@) == bodies(lo),
            texts(nb@) == bodies(ln),
            ob.len() == orig.len(),
            matched.len() == nb.len(),
            nb.len() == out.len(),
            forall|t: int|
                0 <= t < nb.len() ==> match aligned(texts(ob@), texts(nb@), t) {
                    Some(x) => #[trigger] matched@[t] == Some(x as usize) && 0 <= x < ob.len(),
                    None => matched@[t] is None,
                },
            all == Seq::new(ln.len(), |t: int| restored_line(lo, ln, eol@, t)),
            s@ == flat(all.take(i as int)),
        decreases out.len() - i,
    {
        let line = &out[i];
        assert(ln[i as int] == line@);
        assert(all.take(i + 1).drop_last() =~= all.take(i as int));
        assert(all.take(i + 1).last() == all[i as int]);
        let lcs = chars_of(line);
        let n: usize = lcs.len();
        if n == 0 || lcs[n - 1] != '\n' || (n >= 2 && lcs[n - 2] == '\r') {
            s.append(line);
        } else {
            let ghost before = s@;
            s.append(&body(line));
            let ghost _found = matched@[i as int];
            match matched[i] {
                Some(j) => {
                    assert(lo[j as int] == orig@[j as int]@);
                    let e = ending_of(&orig[j]);
                    proof {
                        line_splits(lo[j as int]);
                    }
                    if e.is_empty() {
                        s.append(eol);
                    } else {
                        s.append(e);
                    }
                },
                None => {
                    s.append(eol);
                },
            }
            assert(s@ =~= before + restored_line(lo, ln, eol@, i as int));
        }
        i = i + 1;
    }
    assert(all.take(i as int) =~= all);
    s
}

/// A line with its CRLF turned into a bare line feed.
pub open spec fn lf_line(line: Seq<char>) -> Seq<char> {
    if ends_crlf(line) {
        line_content(line).push('\n')
    } else {
        line
    }
}

/// The lines, with every CRLF turned into a bare line feed.
pub open spec fn lf_lines(lines: Seq<Seq<char>>) -> Seq<Seq<char>> {
    Seq::new(lines.len(), |i: int| lf_line(lines[i]))
}

/// A text has no CRLF when it counts none.
proof fn no_crlf(s: Seq<char>, i: int)
    requires
        crlf_count(s) == 0,
        0 < i < s.len(),
        s[i] == '\n',
    ensures
        s[i - 1] != '\r',
    decreases s.len(),
{
    if i < s.len() - 1 {
        no_crlf(s.drop_last(), i);
    }
}

/// A text has no bare line feed when it counts none.
proof fn no_bare_lf(s: Seq<char>, i: int)
    requires
        lf_count(s) == 0,
        0 <= i < s.len(),
        s[i] == '\n',
    ensures
        i > 0 && s[i - 1] == '\r',
    decreases s.len(),
{
    if i < s.len() - 1 {
        no_bare_lf(s.drop_last(), i);
    }
}

/// Respelling one part after another, unless a CRLF straddles them.
proof fn respelled_add(a: Seq<char>, b: Seq<char>, eol: Seq<char>)
    requires
        !(a.len() > 0 && b.len() > 0 && a.last() == '\r' && b[0] == '\n'),
    ensures
        respelled(a + b, eol) == respelled(a, eol) + respelled(b, eol),
    decreases b.len(),
{
    if b.len() == 0 {
        assert(a + b =~= a);
        assert(respelled(a, eol) + respelled(b, eol) =~= respelled(a, eol));
    } else {
        respelled_add(a, b.drop_last(), eol);
        let s = a + b;
        assert(s.drop_last() =~= a + b.drop_last());
        assert(s.last() == b.last());
        assert(ends_crlf(s) == ends_crlf(b));
        let head = respelled(a, eol);
        let tail = respelled(b.drop_last(), eol);
        assert(head + tail + eol =~= head + (tail + eol));
        assert((head + tail).push(b.last()) =~= head + tail.push(b.last()));
    }
}

/// A line with CRLF comes back from its bare line feed.
proof fn respelled_line(line: Seq<char>)
    requires
        crate::lines::is_line(line),
        ends_crlf(line),
        line_content(line).len() > 0 ==> line_content(line).last() != '\r',
    ensures
        respelled(lf_line(line), seq!['\r', '\n']) == line,
{
    let c = line_content(line);
    let eol = seq!['\r', '\n'];
    assert forall|i: int| 0 <= i < c.len() implies #[trigger] c[i] != '\n' by {
        assert(c[i] == line[i]);
    }
    respelled_same(c, eol);
    assert(c.push('\n').drop_last() =~= c);
    assert(c + eol =~= line);
}

/// Re-applying a file's endings to its own lines, however they were normalized
/// to bare line feeds, gives the file back. (A line that ends in two carriage
/// returns and a line feed cannot be told from a CRLF line once normalized.)
pub proof fn restoring_is_identity(original: Seq<char>)
    requires
        forall|i: int|
            0 <= i < lines_of(original).len() && ends_crlf(#[trigger] lines_of(original)[i])
                && line_content(lines_of(original)[i]).len() > 0 ==> line_content(
                lines_of(original)[i],
            ).last() != '\r',
    ensures
        restored(original, flat(lf_lines(lines_of(original)))) == original,
{
    let orig = lines_of(original);
    let lf = lf_lines(orig);
    let output = flat(lf);
    lines_round_trip(original);
    lines_are_lines(original);
    assert forall|i: int| 0 <= i < lf.len() implies is_line(#[trigger] lf[i]) by {
        assert(is_line(orig[i]));
        if ends_crlf(orig[i]) {
            let c = line_content(orig[i]);
            assert forall|j: int| 0 <= j < lf[i].len() - 1 implies #[trigger] lf[i][j] != '\n' by {
                assert(lf[i][j] == orig[i][j]);
            }
        }
    }
    assert forall|i: int| 0 <= i < lf.len() - 1 implies (#[trigger] lf[i]).last() == '\n' by {
        assert(orig[i].last() == '\n');
    }
    lines_of_flat(lf);
    if crlf_count(original) == 0 {
        assert forall|i: int| 0 <= i < orig.len() implies lf[i] == #[trigger] orig[i] by {
            if ends_crlf(orig[i]) {
                line_position(original, i);
                let at = flat(orig.take(i)).len() + orig[i].len() - 1;
                no_crlf(original, at);
            }
        }
        assert(lf =~= orig);
    } else if lf_count(original) == 0 {
        reveal_strlit("\r\n");
        assert("\r\n"@ =~= seq!['\r', '\n']);
        respelled_lines(original, orig.len() as int);
        assert(orig.take(orig.len() as int) =~= orig);
        assert(lf.take(orig.len() as int) =~= lf);
    } else {
        let eol = dominant_ending(original);
        assert forall|i: int| 0 <= i < orig.len() implies #[trigger] bodies(orig)[i] == bodies(lf)[i]
            && body_of(lf[i]) == (if ends_lf(orig[i]) {
            line_content(orig[i])
        } else {
            body_of(orig[i])
        }) by {
            let l = orig[i];
            if ends_crlf(l) {
                let c = line_content(l);
                assert(l.drop_last().drop_last() =~= c);
                assert(c.push('\n').drop_last() =~= c);
            } else if ends_lf(l) {
                assert(l.drop_last() =~= line_content(l));
            }
        }
        assert(bodies(orig) =~= bodies(lf));
        same_all(bodies(orig), 0);
        let all = Seq::new(lf.len(), |t: int| restored_line(orig, lf, eol, t));
        assert forall|t: int| 0 <= t < orig.len() implies #[trigger] all[t] == orig[t] by {
            assert(aligned(bodies(orig), bodies(lf), t) == Some(t));
            line_splits(orig[t]);
            assert(bodies(orig)[t] == bodies(lf)[t]);
            if ends_crlf(lf[t]) {
                assert(ends_lf(orig[t]));
                if ends_crlf(orig[t]) {
                    let c = line_content(orig[t]);
                    assert(lf[t][lf[t].len() - 2] == c.last());
                }
            }
        }
        assert(all =~= orig);
    }
}

proof fn same_all(a: Seq<Seq<char>>, i: int)
    requires
        0 <= i <= a.len(),
    ensures
        same_from(a, a, i) == a.len(),
    decreases a.len() - i,
{
    if i < a.len() {
        same_all(a, i + 1);
    }
}

/// Where line `i` stands in the text.
proof fn line_position(s: Seq<char>, i: int)
    requires
        0 <= i < lines_of(s).len(),
    ensures
        flat(lines_of(s).take(i)).len() + lines_of(s)[i].len() <= s.len(),
        forall|j: int|
            0 <= j < lines_of(s)[i].len() ==> #[trigger] lines_of(s)[i][j] == s[flat(
                lines_of(s).take(i),
            ).len() + j],
{
    let ls = lines_of(s);
    lines_round_trip(s);
    assert(ls.take(i + 1) =~= ls.take(i).push(ls[i]));
    flat_push(ls.take(i), ls[i]);
    assert(ls.take(i + 1) + ls.skip(i + 1) =~= ls);
    flat_add(ls.take(i + 1), ls.skip(i + 1));
}

proof fn respelled_lines(s: Seq<char>, n: int)
    requires
        0 <= n <= lines_of(s).len(),
        lf_count(s) == 0,
        forall|i: int|
            0 <= i < lines_of(s).len() && ends_crlf(#[trigger] lines_of(s)[i]) && line_content(
                lines_of(s)[i],
            ).len() > 0 ==> line_content(lines_of(s)[i]).last() != '\r',
    ensures
        respelled(flat(lf_lines(lines_of(s)).take(n)), seq!['\r', '\n']) == flat(
            lines_of(s).take(n),
        ),
    decreases n,
{
    let eol = seq!['\r', '\n'];
    let ls = lines_of(s);
    let lf = lf_lines(ls);
    if n > 0 {
        respelled_lines(s, n - 1);
        let l = ls[n - 1];
        assert(lf.take(n).drop_last() =~= lf.take(n - 1));
        assert(ls.take(n).drop_last() =~= ls.take(n - 1));
        lines_are_lines(s);
        assert(is_line(l));
        let head = flat(lf.take(n - 1));
        if n - 1 > 0 {
            assert(lf.take(n - 1).last() == lf[n - 2]);
            assert(ls[n - 2].last() == '\n');
            assert(head.last() == '\n');
        } else {
            assert(head =~= Seq::<char>::empty());
        }
        respelled_add(head, lf[n - 1], eol);
        line_position(s, n - 1);
        if ends_lf(l) {
            let at = flat(ls.take(n - 1)).len() + l.len() - 1;
            no_bare_lf(s, at);
            assert(l[l.len() - 1] == s[at]);
            if l.len() >= 2 {
                assert(l[l.len() - 2] == s[at - 1]);
                respelled_line(l);
            } else {
                assert(n - 1 > 0);
                assert(flat(ls.take(n - 1)).last() == ls[n - 2].last());
                line_before(s, n - 1);
            }
        } else {
            assert forall|j: int| 0 <= j < l.len() implies #[trigger] l[j] != '\n' by {}
            respelled_same(l, eol);
        }
    } else {
        assert(flat(lf.take(0)) =~= Seq::<char>::empty());
        assert(flat(ls.take(0)) =~= Seq::<char>::empty());
    }
}

/// The character before a line is a line feed.
proof fn line_before(s: Seq<char>, i: int)
    requires
        0 < i < lines_of(s).len(),
    ensures
        flat(lines_of(s).take(i)).len() > 0,
        s[flat(lines_of(s).take(i)).len() - 1] == '\n',
{
    let ls = lines_of(s);
    lines_are_lines(s);
    line_position(s, i - 1);
    assert(ls.take(i) =~= ls.take(i - 1).push(ls[i - 1]));
    flat_push(ls.take(i - 1), ls[i - 1]);
    assert(ls[i - 1].last() == '\n');
}

} // verus!
