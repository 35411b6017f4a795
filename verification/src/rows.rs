//! Line scanner for the line-oriented formats: `.env` / `.properties`,
//! `envspaced` and INI.
//!
//! A document is its lines, terminators included, and every line is read on its
//! own: a blank, a comment, a `[section]` header, a `key = value` entry, or none
//! of these. The scanner gives the positions of a line's parts, so an edit
//! replaces a slice of one line and every other character stays as it was.
//!
//! [`Scheme`] picks how a key ends and what opens a comment; the rest is shared.
use crate::lines::is_line;
use crate::line_comment::{marker_stripped, style_ok, LineComment, Style};
use crate::model::{
    cmt_members, group_comment_views, group_value_views, opt_text, texts, Cmt, CmtNode, Commented, CommentedNode, Comments,
    Notes, Val, Value,
};
use crate::strs::{chars_of, is_white, same, slice_text, white_space};
use crate::comment::Flat;
use crate::error::{EditError, Er};
use crate::text::{dominant_ending, ending_len};
use vstd::prelude::*;

verus! {

broadcast use {group_value_views, group_comment_views};

/// How the lines of a format are spelled.
#[derive(Debug, Clone, Copy, PartialEq, Eq, Structural)]
pub enum Scheme {
    /// `.env` / `.properties`: the first `=` or `:` ends the key; `#` and `!`
    /// open a comment line.
    Punctuated,
    /// `envspaced`: the first run of spaces or tabs ends the key.
    Spaced,
    /// INI: as `Punctuated`, with `;` and `#` comments, inline comments, and
    /// `[section]` headers.
    Sections,
}

/// What a line is.
#[derive(Debug, Clone, Copy, PartialEq, Eq, Structural)]
pub enum RowKind {
    Blank,
    Note,
    Header,
    Entry,
    Bad,
}

/// Where a line's terminator starts.
pub open spec fn body_end(t: Seq<char>) -> int {
    t.len() - ending_len(t)
}

/// The first position from `i` on, before `end`, that is no white space.
pub open spec fn white_from(t: Seq<char>, i: int, end: int) -> int
    decreases end - i,
{
    if i < end && white_space(t[i]) {
        white_from(t, i + 1, end)
    } else {
        i
    }
}

/// Where the white space in front of `e` starts, not before `lo`.
pub open spec fn white_back(t: Seq<char>, lo: int, e: int) -> int
    decreases e - lo,
{
    if lo < e && white_space(t[e - 1]) {
        white_back(t, lo, e - 1)
    } else {
        e
    }
}

/// Where a line's text starts, behind its indentation.
pub open spec fn text_at(t: Seq<char>) -> int {
    white_from(t, 0, body_end(t))
}

/// Does the character open a comment?
pub open spec fn marks(g: Scheme, c: char) -> bool {
    c == '#' || (if g == Scheme::Sections {
        c == ';'
    } else {
        c == '!'
    })
}

/// Does the character end a key?
pub open spec fn separates(g: Scheme, c: char) -> bool {
    if g == Scheme::Spaced {
        c == ' ' || c == '\t'
    } else {
        c == '=' || c == ':'
    }
}

/// The first separator from `i` on, or `end`.
pub open spec fn sep_from(t: Seq<char>, g: Scheme, i: int, end: int) -> int
    decreases end - i,
{
    if i < end && !separates(g, t[i]) {
        sep_from(t, g, i + 1, end)
    } else {
        i
    }
}

/// Where the run of spaces and tabs at `i` ends.
pub open spec fn run_from(t: Seq<char>, i: int, end: int) -> int
    decreases end - i,
{
    if i < end && (t[i] == ' ' || t[i] == '\t') {
        run_from(t, i + 1, end)
    } else {
        i
    }
}

/// Where an entry's separator starts.
pub open spec fn sep_at(t: Seq<char>, g: Scheme) -> int {
    sep_from(t, g, text_at(t), body_end(t))
}

/// Where an entry's separator ends: one character, or for spaced lines the
/// whole run.
pub open spec fn sep_end(t: Seq<char>, g: Scheme) -> int {
    if g == Scheme::Spaced {
        run_from(t, sep_at(t, g), body_end(t))
    } else {
        sep_at(t, g) + 1
    }
}

/// ASCII white space.
pub open spec fn ascii_white(c: char) -> bool {
    c == ' ' || c == '\t' || c == '\n' || c == '\u{c}' || c == '\r'
}

/// Does an inline comment start at `i` of the value region that starts at `lo`?
/// It does at a `;` or `#` that opens the region or follows white space.
pub open spec fn note_opens(t: Seq<char>, lo: int, i: int) -> bool {
    (t[i] == ';' || t[i] == '#') && (i == lo || ascii_white(t[i - 1]))
}

/// The first inline comment from `i` on, or `end`.
pub open spec fn note_from(t: Seq<char>, lo: int, i: int, end: int) -> int
    decreases end - i,
{
    if i < end && !note_opens(t, lo, i) {
        note_from(t, lo, i + 1, end)
    } else {
        i
    }
}

/// Where an entry's value region ends: at its inline comment, if the format has
/// them, or at the end of the line's body.
pub open spec fn region_end(t: Seq<char>, g: Scheme) -> int {
    if g == Scheme::Sections {
        note_from(t, sep_end(t, g), sep_end(t, g), body_end(t))
    } else {
        body_end(t)
    }
}

/// Where an entry's value starts.
pub open spec fn value_start(t: Seq<char>, g: Scheme) -> int {
    white_from(t, sep_end(t, g), region_end(t, g))
}

/// Where an entry's value ends.
pub open spec fn value_end(t: Seq<char>, g: Scheme) -> int {
    white_back(t, value_start(t, g), region_end(t, g))
}

/// What a line is.
pub open spec fn row_kind(t: Seq<char>, g: Scheme) -> RowKind {
    let a = text_at(t);
    if a >= body_end(t) {
        RowKind::Blank
    } else if marks(g, t[a]) {
        RowKind::Note
    } else if g == Scheme::Sections && t[a] == '[' {
        if close_from(t, a + 1, body_end(t)) < body_end(t) || a + 1 == body_end(t) {
            RowKind::Header
        } else {
            RowKind::Bad
        }
    } else if sep_at(t, g) < body_end(t) {
        RowKind::Entry
    } else {
        RowKind::Bad
    }
}

/// The first `]` from `i` on, or `end`.
pub open spec fn close_from(t: Seq<char>, i: int, end: int) -> int
    decreases end - i,
{
    if i < end && t[i] != ']' {
        close_from(t, i + 1, end)
    } else {
        i
    }
}

/// Where a header's `]` stands.
pub open spec fn close_at(t: Seq<char>) -> int {
    close_from(t, text_at(t) + 1, body_end(t))
}

/// The end of a header's own text, behind its `]`.
pub open spec fn header_end(t: Seq<char>) -> int {
    if close_at(t) < body_end(t) {
        close_at(t) + 1
    } else {
        body_end(t)
    }
}

/// The name of the section a header opens.
pub open spec fn header_name(t: Seq<char>) -> Seq<char> {
    t.subrange(text_at(t) + 1, close_at(t))
}

/// Where what follows a header starts, behind its white space.
pub open spec fn trailing_at(t: Seq<char>) -> int {
    white_from(t, header_end(t), body_end(t))
}

/// An entry's key.
pub open spec fn entry_key(t: Seq<char>, g: Scheme) -> Seq<char> {
    t.subrange(text_at(t), white_back(t, text_at(t), sep_at(t, g)))
}

/// An entry's value.
pub open spec fn entry_value(t: Seq<char>, g: Scheme) -> Seq<char> {
    t.subrange(value_start(t, g), value_end(t, g))
}

/// A comment line's text, markers included.
pub open spec fn note_text(t: Seq<char>) -> Seq<char> {
    t.subrange(text_at(t), body_end(t))
}

/// The inline comment of an entry or header, marker included, if there is one.
pub open spec fn inline_text(t: Seq<char>, g: Scheme) -> Option<Seq<char>> {
    if row_kind(t, g) == RowKind::Entry {
        if region_end(t, g) < body_end(t) {
            Some(t.subrange(region_end(t, g), body_end(t)))
        } else {
            None
        }
    } else if row_kind(t, g) == RowKind::Header {
        if trailing_at(t) < body_end(t) {
            Some(t.subrange(trailing_at(t), body_end(t)))
        } else {
            None
        }
    } else {
        None
    }
}

pub proof fn white_from_bounds(t: Seq<char>, i: int, end: int)
    requires
        0 <= i <= end <= t.len(),
    ensures
        i <= white_from(t, i, end) <= end,
        forall|k: int| i <= k < white_from(t, i, end) ==> white_space(#[trigger] t[k]),
        white_from(t, i, end) < end ==> !white_space(t[white_from(t, i, end)]),
    decreases end - i,
{
    if i < end && white_space(t[i]) {
        white_from_bounds(t, i + 1, end);
    }
}

pub proof fn white_back_bounds(t: Seq<char>, lo: int, e: int)
    requires
        0 <= lo <= e <= t.len(),
    ensures
        lo <= white_back(t, lo, e) <= e,
        forall|k: int| white_back(t, lo, e) <= k < e ==> white_space(#[trigger] t[k]),
        white_back(t, lo, e) > lo ==> !white_space(t[white_back(t, lo, e) - 1]),
    decreases e - lo,
{
    if lo < e && white_space(t[e - 1]) {
        white_back_bounds(t, lo, e - 1);
    }
}

pub proof fn sep_from_bounds(t: Seq<char>, g: Scheme, i: int, end: int)
    requires
        0 <= i <= end <= t.len(),
    ensures
        i <= sep_from(t, g, i, end) <= end,
        forall|k: int| i <= k < sep_from(t, g, i, end) ==> !separates(g, #[trigger] t[k]),
        sep_from(t, g, i, end) < end ==> separates(g, t[sep_from(t, g, i, end)]),
    decreases end - i,
{
    if i < end && !separates(g, t[i]) {
        sep_from_bounds(t, g, i + 1, end);
    }
}

pub proof fn run_from_bounds(t: Seq<char>, i: int, end: int)
    requires
        0 <= i <= end <= t.len(),
    ensures
        i <= run_from(t, i, end) <= end,
        forall|k: int|
            i <= k < run_from(t, i, end) ==> (#[trigger] t[k]) == ' ' || t[k] == '\t',
        run_from(t, i, end) < end ==> t[run_from(t, i, end)] != ' ' && t[run_from(t, i, end)]
            != '\t',
    decreases end - i,
{
    if i < end && (t[i] == ' ' || t[i] == '\t') {
        run_from_bounds(t, i + 1, end);
    }
}

pub proof fn note_from_bounds(t: Seq<char>, lo: int, i: int, end: int)
    requires
        0 <= lo <= i <= end <= t.len(),
    ensures
        i <= note_from(t, lo, i, end) <= end,
        forall|k: int| i <= k < note_from(t, lo, i, end) ==> !(#[trigger] note_opens(t, lo, k)),
        note_from(t, lo, i, end) < end ==> note_opens(t, lo, note_from(t, lo, i, end)),
    decreases end - i,
{
    if i < end && !note_opens(t, lo, i) {
        note_from_bounds(t, lo, i + 1, end);
    }
}

pub proof fn close_from_bounds(t: Seq<char>, i: int, end: int)
    requires
        0 <= i <= end <= t.len(),
    ensures
        i <= close_from(t, i, end) <= end,
        forall|k: int| i <= k < close_from(t, i, end) ==> (#[trigger] t[k]) != ']',
        close_from(t, i, end) < end ==> t[close_from(t, i, end)] == ']',
    decreases end - i,
{
    if i < end && t[i] != ']' {
        close_from_bounds(t, i + 1, end);
    }
}

/// The parts of an entry line stand in order.
pub proof fn entry_bounds(t: Seq<char>, g: Scheme)
    requires
        row_kind(t, g) == RowKind::Entry,
    ensures
        0 <= text_at(t) <= white_back(t, text_at(t), sep_at(t, g)) <= sep_at(t, g) < sep_end(t, g)
            <= value_start(t, g) <= value_end(t, g) <= region_end(t, g) <= body_end(t) <= t.len(),
{
    white_from_bounds(t, 0, body_end(t));
    sep_from_bounds(t, g, text_at(t), body_end(t));
    white_back_bounds(t, text_at(t), sep_at(t, g));
    run_from_bounds(t, sep_at(t, g), body_end(t));
    if g == Scheme::Sections {
        note_from_bounds(t, sep_end(t, g), sep_end(t, g), body_end(t));
    }
    white_from_bounds(t, sep_end(t, g), region_end(t, g));
    white_back_bounds(t, value_start(t, g), region_end(t, g));
}

/// The parts of a header line stand in order.
pub proof fn header_bounds(t: Seq<char>)
    requires
        row_kind(t, Scheme::Sections) == RowKind::Header,
    ensures
        0 <= text_at(t) < text_at(t) + 1 <= close_at(t) <= header_end(t) <= trailing_at(t)
            <= body_end(t) <= t.len(),
{
    white_from_bounds(t, 0, body_end(t));
    close_from_bounds(t, text_at(t) + 1, body_end(t));
    white_from_bounds(t, header_end(t), body_end(t));
}

/// The positions of an entry line's parts.
#[derive(Debug, Clone, Copy)]
pub struct Slots {
    pub key: usize,
    pub key_end: usize,
    pub sep: usize,
    pub sep_end: usize,
    pub value: usize,
    pub value_end: usize,
    pub region_end: usize,
    pub body_end: usize,
}

/// The first position from `from` on, before `end`, that is no white space.
pub fn skip_white(cs: &[char], from: usize, end: usize) -> (r: usize)
    requires
        from <= end <= cs.len(),
    ensures
        r == white_from(cs@, from as int, end as int),
        from <= r <= end,
{
    let mut i: usize = from;
    while i < end && is_white(cs[i])
        invariant
            from <= i <= end <= cs.len(),
            white_from(cs@, from as int, end as int) == white_from(cs@, i as int, end as int),
        decreases end - i,
    {
        i = i + 1;
    }
    i
}

/// Where the white space in front of `end` starts, not before `lo`.
pub fn trim_white(cs: &[char], lo: usize, end: usize) -> (r: usize)
    requires
        lo <= end <= cs.len(),
    ensures
        r == white_back(cs@, lo as int, end as int),
        lo <= r <= end,
{
    let mut e: usize = end;
    while lo < e && is_white(cs[e - 1])
        invariant
            lo <= e <= end <= cs.len(),
            white_back(cs@, lo as int, end as int) == white_back(cs@, lo as int, e as int),
        decreases e - lo,
    {
        e = e - 1;
    }
    e
}

/// Where the terminator of a line starts.
pub fn end_of_body(cs: &[char]) -> (r: usize)
    ensures
        r == body_end(cs@),
        r <= cs.len(),
{
    let n: usize = cs.len();
    if n >= 1 && cs[n - 1] == '\n' {
        if n >= 2 && cs[n - 2] == '\r' {
            n - 2
        } else {
            n - 1
        }
    } else {
        n
    }
}

fn opens_note(g: Scheme, c: char) -> (r: bool)
    ensures
        r == marks(g, c),
{
    c == '#' || (if g == Scheme::Sections {
        c == ';'
    } else {
        c == '!'
    })
}

fn ends_key(g: Scheme, c: char) -> (r: bool)
    ensures
        r == separates(g, c),
{
    if g == Scheme::Spaced {
        c == ' ' || c == '\t'
    } else {
        c == '=' || c == ':'
    }
}

pub fn find_close(cs: &[char], from: usize, end: usize) -> (r: usize)
    requires
        from <= end <= cs.len(),
    ensures
        r == close_from(cs@, from as int, end as int),
        from <= r <= end,
{
    let mut i: usize = from;
    while i < end && cs[i] != ']'
        invariant
            from <= i <= end <= cs.len(),
            close_from(cs@, from as int, end as int) == close_from(cs@, i as int, end as int),
        decreases end - i,
    {
        i = i + 1;
    }
    i
}

fn find_separator(cs: &[char], g: Scheme, from: usize, end: usize) -> (r: usize)
    requires
        from <= end <= cs.len(),
    ensures
        r == sep_from(cs@, g, from as int, end as int),
        from <= r <= end,
{
    let mut i: usize = from;
    while i < end && !ends_key(g, cs[i])
        invariant
            from <= i <= end <= cs.len(),
            sep_from(cs@, g, from as int, end as int) == sep_from(cs@, g, i as int, end as int),
        decreases end - i,
    {
        i = i + 1;
    }
    i
}

fn skip_run(cs: &[char], from: usize, end: usize) -> (r: usize)
    requires
        from <= end <= cs.len(),
    ensures
        r == run_from(cs@, from as int, end as int),
        from <= r <= end,
{
    let mut i: usize = from;
    while i < end && (cs[i] == ' ' || cs[i] == '\t')
        invariant
            from <= i <= end <= cs.len(),
            run_from(cs@, from as int, end as int) == run_from(cs@, i as int, end as int),
        decreases end - i,
    {
        i = i + 1;
    }
    i
}

/// The index of an inline comment (`;`/`#` preceded by white space or at the
/// start of the value region), or `end`.
fn find_inline_comment(cs: &[char], from: usize, end: usize) -> (r: usize)
    requires
        from <= end <= cs.len(),
    ensures
        r == note_from(cs@, from as int, from as int, end as int),
        from <= r <= end,
{
    let mut i: usize = from;
    while i < end && !((cs[i] == ';' || cs[i] == '#') && (i == from || cs[i - 1] == ' ' || cs[i - 1]
        == '\t' || cs[i - 1] == '\n' || cs[i - 1] == '\u{c}' || cs[i - 1] == '\r'))
        invariant
            from <= i <= end <= cs.len(),
            note_from(cs@, from as int, from as int, end as int) == note_from(
                cs@,
                from as int,
                i as int,
                end as int,
            ),
        decreases end - i,
    {
        i = i + 1;
    }
    i
}

/// What a line is.
pub fn classify(cs: &[char], g: Scheme) -> (r: RowKind)
    ensures
        r == row_kind(cs@, g),
{
    let end: usize = end_of_body(cs);
    let a: usize = skip_white(cs, 0, end);
    if a >= end {
        RowKind::Blank
    } else if opens_note(g, cs[a]) {
        RowKind::Note
    } else if g == Scheme::Sections && cs[a] == '[' {
        if find_close(cs, a + 1, end) < end || a + 1 == end {
            RowKind::Header
        } else {
            RowKind::Bad
        }
    } else if find_separator(cs, g, a, end) < end {
        RowKind::Entry
    } else {
        RowKind::Bad
    }
}

/// The parts of an entry line.
pub fn entry_slots(cs: &[char], g: Scheme) -> (r: Slots)
    requires
        row_kind(cs@, g) == RowKind::Entry,
    ensures
        r.key == text_at(cs@),
        r.key_end == white_back(cs@, text_at(cs@), sep_at(cs@, g)),
        r.sep == sep_at(cs@, g),
        r.sep_end == sep_end(cs@, g),
        r.value == value_start(cs@, g),
        r.value_end == value_end(cs@, g),
        r.region_end == region_end(cs@, g),
        r.body_end == body_end(cs@),
        r.key <= r.key_end <= r.sep < r.sep_end <= r.value <= r.value_end <= r.region_end <= r.body_end <= cs.len(),
{
    proof {
        entry_bounds(cs@, g);
    }
    let end: usize = end_of_body(cs);
    let a: usize = skip_white(cs, 0, end);
    let sep: usize = find_separator(cs, g, a, end);
    let sep_end: usize = if g == Scheme::Spaced {
        skip_run(cs, sep, end)
    } else {
        sep + 1
    };
    let region_end: usize = if g == Scheme::Sections {
        find_inline_comment(cs, sep_end, end)
    } else {
        end
    };
    let value: usize = skip_white(cs, sep_end, region_end);
    Slots {
        key: a,
        key_end: trim_white(cs, a, sep),
        sep,
        sep_end,
        value,
        value_end: trim_white(cs, value, region_end),
        region_end,
        body_end: end,
    }
}

/// The key of an entry line.
pub fn key_of(cs: &[char], g: Scheme) -> (r: String)
    requires
        row_kind(cs@, g) == RowKind::Entry,
    ensures
        r@ == entry_key(cs@, g),
{
    let s = entry_slots(cs, g);
    slice_text(cs, s.key, s.key_end)
}

/// The value of an entry line.
pub fn value_of(cs: &[char], g: Scheme) -> (r: String)
    requires
        row_kind(cs@, g) == RowKind::Entry,
    ensures
        r@ == entry_value(cs@, g),
{
    let s = entry_slots(cs, g);
    slice_text(cs, s.value, s.value_end)
}

/// The text of a comment line, markers included.
pub fn note_of(cs: &[char]) -> (r: String)
    ensures
        r@ == note_text(cs@),
{
    let end: usize = end_of_body(cs);
    let a: usize = skip_white(cs, 0, end);
    slice_text(cs, a, end)
}

/// The name of the section a header opens.
pub fn name_of(cs: &[char]) -> (r: String)
    requires
        row_kind(cs@, Scheme::Sections) == RowKind::Header,
    ensures
        r@ == header_name(cs@),
{
    let end: usize = end_of_body(cs);
    let a: usize = skip_white(cs, 0, end);
    let close: usize = find_close(cs, a + 1, end);
    slice_text(cs, a + 1, close)
}

/// The end of a header's own text, behind its `]`.
pub fn end_of_header(cs: &[char]) -> (r: usize)
    requires
        row_kind(cs@, Scheme::Sections) == RowKind::Header,
    ensures
        r == header_end(cs@),
        r <= cs.len(),
{
    let end: usize = end_of_body(cs);
    let a: usize = skip_white(cs, 0, end);
    let close: usize = find_close(cs, a + 1, end);
    if close < end {
        close + 1
    } else {
        end
    }
}

/// The inline comment of an entry or header, marker included, if there is one.
pub fn inline_of(cs: &[char], g: Scheme) -> (r: Option<String>)
    ensures
        match inline_text(cs@, g) {
            Some(t) => r is Some && r->0@ == t,
            None => r is None,
        },
{
    let end: usize = end_of_body(cs);
    match classify(cs, g) {
        RowKind::Entry => {
            let s = entry_slots(cs, g);
            if s.region_end < end {
                Some(slice_text(cs, s.region_end, end))
            } else {
                None
            }
        },
        RowKind::Header => {
            proof {
                header_bounds(cs@);
            }
            let h: usize = end_of_header(cs);
            let a: usize = skip_white(cs, h, end);
            if a < end {
                Some(slice_text(cs, a, end))
            } else {
                None
            }
        },
        _ => None,
    }
}

/// Is the line the entry with this key?
pub open spec fn holds_key(t: Seq<char>, g: Scheme, key: Seq<char>) -> bool {
    row_kind(t, g) == RowKind::Entry && entry_key(t, g) == key
}

/// The first entry with `key` from line `i` on, before line `to`; `to` when
/// there is none.
pub open spec fn entry_from(lines: Seq<Seq<char>>, g: Scheme, key: Seq<char>, i: int, to: int) -> int
    decreases to - i,
{
    if i < to && !holds_key(lines[i], g, key) {
        entry_from(lines, g, key, i + 1, to)
    } else {
        i
    }
}

pub proof fn entry_from_bounds(lines: Seq<Seq<char>>, g: Scheme, key: Seq<char>, i: int, to: int)
    requires
        0 <= i <= to <= lines.len(),
    ensures
        i <= entry_from(lines, g, key, i, to) <= to,
        forall|k: int|
            i <= k < entry_from(lines, g, key, i, to) ==> !holds_key(#[trigger] lines[k], g, key),
        entry_from(lines, g, key, i, to) < to ==> holds_key(
            lines[entry_from(lines, g, key, i, to)],
            g,
            key,
        ),
    decreases to - i,
{
    if i < to && !holds_key(lines[i], g, key) {
        entry_from_bounds(lines, g, key, i + 1, to);
    }
}

/// The first entry with `key` in a range of lines; `to` when there is none.
pub fn find_entry(lines: &Vec<String>, g: Scheme, key: &str, from: usize, to: usize) -> (r: usize)
    requires
        from <= to <= lines.len(),
    ensures
        r == entry_from(texts(lines@), g, key@, from as int, to as int),
        from <= r <= to,
{
    let ghost ls = texts(lines@);
    let mut i: usize = from;
    while i < to
        invariant
            from <= i <= to <= lines.len(),
            ls == texts(lines@),
            entry_from(ls, g, key@, from as int, to as int) == entry_from(
                ls,
                g,
                key@,
                i as int,
                to as int,
            ),
        decreases to - i,
    {
        assert(ls[i as int] == lines@[i as int]@);
        let cs = chars_of(&lines[i]);
        if classify(&cs, g) == RowKind::Entry && same(&key_of(&cs, g), key) {
            return i;
        }
        i = i + 1;
    }
    i
}

/// The members that the entries of lines `from` to `to` give.
pub open spec fn entry_members(lines: Seq<Seq<char>>, g: Scheme, from: int, to: int) -> Seq<
    (Seq<char>, Val),
>
    decreases to - from,
{
    if from >= to {
        Seq::empty()
    } else {
        let rest = entry_members(lines, g, from, to - 1);
        let t = lines[to - 1];
        if row_kind(t, g) == RowKind::Entry {
            rest.push((entry_key(t, g), Val::Str(entry_value(t, g))))
        } else {
            rest
        }
    }
}

/// The members that the entries of lines `from` to `to` give.
pub fn members_of(lines: &Vec<String>, g: Scheme, from: usize, to: usize) -> (r: Vec<
    (String, Value),
>)
    requires
        from <= to <= lines.len(),
    ensures
        crate::model::members(r@) == entry_members(texts(lines@), g, from as int, to as int),
{
    let ghost ls = texts(lines@);
    let mut out: Vec<(String, Value)> = Vec::new();
    let mut i: usize = from;
    assert(crate::model::members(out@) =~= Seq::<(Seq<char>, Val)>::empty());
    while i < to
        invariant
            from <= i <= to <= lines.len(),
            ls == texts(lines@),
            crate::model::members(out@) == entry_members(ls, g, from as int, i as int),
        decreases to - i,
    {
        assert(ls[i as int] == lines@[i as int]@);
        let cs = chars_of(&lines[i]);
        if classify(&cs, g) == RowKind::Entry {
            let ghost held = crate::model::members(out@);
            let key = key_of(&cs, g);
            let value = Value::Str(value_of(&cs, g));
            let ghost more = (key@, value@);
            out.push((key, value));
            assert(crate::model::members(out@) =~= held.push(more));
        }
        i = i + 1;
    }
    out
}

/// What a line adds to the commented members of its section and the comments
/// waiting for the next entry.
pub open spec fn walked_line(
    st: Style,
    t: Seq<char>,
    g: Scheme,
    out: Seq<(Seq<char>, Cmt)>,
    pending: Seq<Seq<char>>,
) -> (Seq<(Seq<char>, Cmt)>, Seq<Seq<char>>) {
    match row_kind(t, g) {
        RowKind::Entry => (
            out.push(
                (
                    entry_key(t, g),
                    Cmt {
                        notes: Notes {
                            head: pending,
                            inline: stripped_inline(st, t, g),
                            foot: Seq::empty(),
                        },
                        node: CmtNode::Scalar(Val::Str(entry_value(t, g))),
                    },
                ),
            ),
            Seq::empty(),
        ),
        RowKind::Note => (out, pending.push(marker_stripped(note_text(t), st))),
        _ => (out, pending),
    }
}

/// The inline comment of a line, without its markers.
pub open spec fn stripped_inline(st: Style, t: Seq<char>, g: Scheme) -> Option<Seq<char>> {
    match inline_text(t, g) {
        Some(n) => Some(marker_stripped(n, st)),
        None => None,
    }
}

/// The commented members that lines `from` to `to` add, and the comments left
/// waiting: an own-line comment belongs to the next entry.
pub open spec fn walked(
    st: Style,
    lines: Seq<Seq<char>>,
    g: Scheme,
    from: int,
    to: int,
    out: Seq<(Seq<char>, Cmt)>,
    pending: Seq<Seq<char>>,
) -> (Seq<(Seq<char>, Cmt)>, Seq<Seq<char>>)
    decreases to - from,
{
    if from >= to {
        (out, pending)
    } else {
        let (o, p) = walked(st, lines, g, from, to - 1, out, pending);
        walked_line(st, lines[to - 1], g, o, p)
    }
}

/// The inline comment of a line, without its markers.
pub fn strip_inline(style: &LineComment, cs: &[char], g: Scheme) -> (r: Option<String>)
    requires
        style_ok(style@),
    ensures
        opt_text(r) == stripped_inline(style@, cs@, g),
{
    match inline_of(cs, g) {
        Some(n) => Some(style.strip_marker(&n)),
        None => None,
    }
}

/// Collect the entries of a range of lines, attaching the own-line comments in
/// front of each as its head and the comment behind it as its inline.
pub fn walk(
    style: &LineComment,
    lines: &Vec<String>,
    g: Scheme,
    from: usize,
    to: usize,
    out: &mut Vec<(String, Commented)>,
    pending: &mut Vec<String>,
)
    requires
        style_ok(style@),
        from <= to <= lines.len(),
    ensures
        (cmt_members(final(out)@), texts(final(pending)@)) == walked(
            style@,
            texts(lines@),
            g,
            from as int,
            to as int,
            cmt_members(old(out)@),
            texts(old(pending)@),
        ),
{
    let ghost ls = texts(lines@);
    let ghost o = cmt_members(out@);
    let ghost p = texts(pending@);
    let mut i: usize = from;
    while i < to
        invariant
            style_ok(style@),
            from <= i <= to <= lines.len(),
            ls == texts(lines@),
            (cmt_members(out@), texts(pending@)) == walked(
                style@,
                ls,
                g,
                from as int,
                i as int,
                o,
                p,
            ),
        decreases to - i,
    {
        assert(ls[i as int] == lines@[i as int]@);
        let cs = chars_of(&lines[i]);
        match classify(&cs, g) {
            RowKind::Entry => {
                let ghost held = cmt_members(out@);
                let ghost waiting = texts(pending@);
                let head = take_texts(pending);
                let foot: Vec<String> = Vec::new();
                assert(texts(foot@) =~= Seq::<Seq<char>>::empty());
                let key = key_of(&cs, g);
                let entry = Commented {
                    comments: Comments { head, inline: strip_inline(style, &cs, g), foot },
                    node: CommentedNode::Scalar(Value::Str(value_of(&cs, g))),
                };
                let ghost more = (key@, entry@);
                out.push((key, entry));
                assert(cmt_members(out@) =~= held.push(more));
            },
            RowKind::Note => {
                let ghost waiting = texts(pending@);
                let text = style.strip_marker(&note_of(&cs));
                let ghost more = text@;
                pending.push(text);
                assert(texts(pending@) =~= waiting.push(more));
            },
            _ => {},
        }
        i = i + 1;
    }
}

/// Take the texts out of a list, leaving it empty.
pub fn take_texts(v: &mut Vec<String>) -> (r: Vec<String>)
    ensures
        texts(r@) == texts(old(v)@),
        texts(final(v)@) == Seq::<Seq<char>>::empty(),
{
    let mut r: Vec<String> = Vec::new();
    r.append(v);
    assert(texts(r@) =~= texts(old(v)@));
    assert(texts(v@) =~= Seq::<Seq<char>>::empty());
    r
}

/// The blank that keeps an inline comment apart from a value that was empty.
pub open spec fn value_gap(t: Seq<char>, g: Scheme, text: Seq<char>) -> Seq<char> {
    if text.len() > 0 && note_glued(t, g) {
        " "@
    } else {
        Seq::empty()
    }
}

/// The line with its value replaced.
pub open spec fn with_value(t: Seq<char>, g: Scheme, text: Seq<char>) -> Seq<char> {
    t.take(value_start(t, g)) + text + value_gap(t, g, text) + t.skip(value_end(t, g))
}

/// The line with its value replaced. An inline comment directly behind an empty
/// value is kept apart from the new one by a blank.
pub fn replace_value(line: &str, g: Scheme, text: &str) -> (r: String)
    requires
        row_kind(line@, g) == RowKind::Entry,
    ensures
        r@ == with_value(line@, g, text@),
{
    let cs = chars_of(line);
    let s = entry_slots(&cs, g);
    assert(cs@.subrange(0, s.value as int) =~= line@.take(s.value as int));
    assert(cs@.subrange(s.value_end as int, cs.len() as int) =~= line@.skip(s.value_end as int));
    let mut out = slice_text(&cs, 0, s.value);
    out.append(text);
    if text.unicode_len() > 0 && s.region_end < s.body_end && s.value == s.value_end {
        out.append(" ");
    }
    out.append(&slice_text(&cs, s.value_end, cs.len()));
    assert(out@ =~= with_value(line@, g, text@));
    out
}

/// Whether any line is neither a blank, a comment, a header nor an entry.
pub open spec fn malformed(lines: Seq<Seq<char>>, g: Scheme) -> bool {
    exists|i: int| 0 <= i < lines.len() && row_kind(#[trigger] lines[i], g) == RowKind::Bad
}

/// Whether any line is neither a blank, a comment, a header nor an entry.
pub fn has_bad_line(lines: &Vec<String>, g: Scheme) -> (r: bool)
    ensures
        r == malformed(texts(lines@), g),
{
    let ghost ls = texts(lines@);
    let mut i: usize = 0;
    while i < lines.len()
        invariant
            i <= lines.len(),
            ls == texts(lines@),
            forall|k: int| 0 <= k < i ==> row_kind(#[trigger] ls[k], g) != RowKind::Bad,
        decreases lines.len() - i,
    {
        assert(ls[i as int] == lines@[i as int]@);
        let cs = chars_of(&lines[i]);
        if classify(&cs, g) == RowKind::Bad {
            return true;
        }
        i = i + 1;
    }
    false
}

/// The position that white space from `i` on ends at.
pub proof fn white_from_is(t: Seq<char>, i: int, end: int, r: int)
    requires
        0 <= i <= r <= end <= t.len(),
        forall|k: int| i <= k < r ==> white_space(#[trigger] t[k]),
        r < end ==> !white_space(t[r]),
    ensures
        white_from(t, i, end) == r,
    decreases end - i,
{
    if i < r {
        white_from_is(t, i + 1, end, r);
    }
}

/// The position that white space in front of `e` starts at.
pub proof fn white_back_is(t: Seq<char>, lo: int, e: int, r: int)
    requires
        0 <= lo <= r <= e <= t.len(),
        forall|k: int| r <= k < e ==> white_space(#[trigger] t[k]),
        r > lo ==> !white_space(t[r - 1]),
    ensures
        white_back(t, lo, e) == r,
    decreases e - lo,
{
    if r < e {
        white_back_is(t, lo, e - 1, r);
    }
}

/// The position of the first separator.
pub proof fn sep_from_is(t: Seq<char>, g: Scheme, i: int, end: int, r: int)
    requires
        0 <= i <= r <= end <= t.len(),
        forall|k: int| i <= k < r ==> !separates(g, #[trigger] t[k]),
        r < end ==> separates(g, t[r]),
    ensures
        sep_from(t, g, i, end) == r,
    decreases end - i,
{
    if i < r {
        sep_from_is(t, g, i + 1, end, r);
    }
}

/// The position that a run of spaces and tabs ends at.
pub proof fn run_from_is(t: Seq<char>, i: int, end: int, r: int)
    requires
        0 <= i <= r <= end <= t.len(),
        forall|k: int| i <= k < r ==> (#[trigger] t[k]) == ' ' || t[k] == '\t',
        r < end ==> t[r] != ' ' && t[r] != '\t',
    ensures
        run_from(t, i, end) == r,
    decreases end - i,
{
    if i < r {
        run_from_is(t, i + 1, end, r);
    }
}

/// The position of the first inline comment.
pub proof fn note_from_is(t: Seq<char>, lo: int, i: int, end: int, r: int)
    requires
        0 <= lo <= i <= r <= end <= t.len(),
        forall|k: int| i <= k < r ==> !(#[trigger] note_opens(t, lo, k)),
        r < end ==> note_opens(t, lo, r),
    ensures
        note_from(t, lo, i, end) == r,
    decreases end - i,
{
    if i < r {
        note_from_is(t, lo, i + 1, end, r);
    }
}

/// A text with a line break.
pub open spec fn breaks(s: Seq<char>) -> bool {
    exists|i: int| 0 <= i < s.len() && ((#[trigger] s[i]) == '\n' || s[i] == '\r')
}

/// A text with white space at an end.
pub open spec fn padded(s: Seq<char>) -> bool {
    s.len() > 0 && (white_space(s[0]) || white_space(s.last()))
}

/// A text in which an inline comment would start.
pub open spec fn opens_inline(s: Seq<char>) -> bool {
    s.len() > 0 && (s[0] == ';' || s[0] == '#') || exists|i: int|
        0 < i < s.len() && ((#[trigger] s[i]) == ';' || s[i] == '#') && ascii_white(s[i - 1])
}

/// A value the scheme's lines can hold.
pub open spec fn plain_value(g: Scheme, text: Seq<char>) -> bool {
    !breaks(text) && !padded(text) && (g == Scheme::Sections ==> !opens_inline(text))
}

/// Is an inline comment glued to the entry's value slot? It is where the value
/// is empty and a comment follows.
pub open spec fn note_glued(t: Seq<char>, g: Scheme) -> bool {
    region_end(t, g) < body_end(t) && value_start(t, g) == value_end(t, g)
}

/// A line with its value replaced is an entry with the same key, and reads back
/// with the new value.
#[verifier::rlimit(100)]
#[verifier::spinoff_prover]
pub proof fn replaced_value_reads_back(t: Seq<char>, g: Scheme, text: Seq<char>)
    requires
        is_line(t),
        row_kind(t, g) == RowKind::Entry,
        plain_value(g, text),
    ensures
        row_kind(with_value(t, g, text), g) == RowKind::Entry,
        entry_key(with_value(t, g, text), g) == entry_key(t, g),
        entry_value(with_value(t, g, text), g) == text,
{
    entry_bounds(t, g);
    let u = with_value(t, g, text);
    let a = text_at(t);
    let ke = white_back(t, a, sep_at(t, g));
    let sep = sep_at(t, g);
    let se = sep_end(t, g);
    let vs = value_start(t, g);
    let ve = value_end(t, g);
    let re = region_end(t, g);
    let e = body_end(t);
    let gap = value_gap(t, g, text);
    reveal_strlit(" ");
    let d = text.len() + gap.len() - (ve - vs);
    white_from_bounds(t, 0, e);
    sep_from_bounds(t, g, a, e);
    white_back_bounds(t, a, sep);
    run_from_bounds(t, sep, e);
    if g == Scheme::Sections {
        note_from_bounds(t, se, se, e);
    }
    white_from_bounds(t, se, re);
    white_back_bounds(t, vs, re);
    assert(forall|k: int| 0 <= k < vs ==> u[k] == t[k]);
    assert(forall|k: int| vs <= k < vs + text.len() ==> u[k] == text[k - vs]);
    assert(forall|k: int| vs + text.len() + gap.len() <= k < u.len() ==> u[k] == t[k - d]);
    assert(gap.len() > 0 ==> gap.len() == 1 && u[vs + text.len()] == ' ');
    assert(forall|k: int| vs + text.len() <= k < re + d ==> white_space(u[k]));
    // Where the terminator starts.
    let f = body_end(u);
    assert(ending_len(t) == t.len() - e);
    assert(f == e + d || (text.len() == 0 && ve == e && f == e + d - 1 && u[f] == '\r'));
    assert(se <= f);
    // The key.
    white_from_is(u, 0, f, a);
    assert(text_at(u) == a);
    sep_from_is(u, g, a, f, sep);
    assert(sep_at(u, g) == sep);
    white_back_is(u, a, sep, ke);
    assert(u.subrange(a, ke) =~= t.subrange(a, ke));
    // The inline comment keeps the character in front of it.
    assert(re < e && vs < ve ==> ve < re) by {
        if re < e && vs < ve && ve == re {
            assert(note_opens(t, se, re));
            assert(!white_space(t[re - 1]));
        }
    }
    if text.len() == 0 {
        if vs == ve {
            assert(u =~= t);
        } else {
            let r = if re < e {
                re + d
            } else {
                f
            };
            assert(forall|k: int| se <= k < r ==> white_space(u[k]));
            if g == Scheme::Spaced {
                run_from_bounds(u, sep, f);
            }
            if g == Scheme::Sections {
                if re < e {
                    assert(note_opens(t, se, re));
                    assert(u[re + d - 1] == t[re - 1]);
                    assert(note_opens(u, se, re + d));
                }
                note_from_is(u, se, se, f, r);
            }
            assert(region_end(u, g) == r);
            let st = sep_end(u, g);
            assert(forall|k: int| st <= k < r ==> white_space(u[k]));
            white_from_is(u, st, r, r);
            white_back_is(u, r, r, r);
        }
        assert(entry_value(u, g) =~= text);
    } else {
        assert(f == e + d);
        assert(u[vs] == text[0]);
        assert(u[vs + text.len() - 1] == text.last());
        if g == Scheme::Spaced {
            run_from_is(u, sep, f, se);
        }
        if g == Scheme::Sections {
            if re < e {
                assert(note_opens(t, se, re));
                if gap.len() == 0 {
                    assert(u[re + d - 1] == t[re - 1]);
                } else {
                    assert(u[re + d - 1] == ' ');
                }
                assert(u[re + d] == t[re]);
                assert(note_opens(u, se, re + d));
            }
            assert forall|k: int| se <= k < re + d implies !(#[trigger] note_opens(u, se, k)) by {
                if vs <= k < vs + text.len() {
                    assert(u[k] == text[k - vs]);
                    if k > vs {
                        assert(u[k - 1] == text[k - vs - 1]);
                    }
                } else {
                    assert(white_space(u[k]));
                }
            }
            note_from_is(u, se, se, f, re + d);
        }
        assert(region_end(u, g) == re + d);
        white_from_is(u, se, re + d, vs);
        white_back_is(u, vs, re + d, vs + text.len());
        assert(entry_value(u, g) =~= text);
    }
}

/// The separator a new entry is written with.
pub open spec fn new_separator(g: Scheme) -> Seq<char> {
    match g {
        Scheme::Punctuated => "="@,
        Scheme::Spaced => " "@,
        Scheme::Sections => " = "@,
    }
}

/// The line a new entry is written as.
pub open spec fn new_entry(g: Scheme, key: Seq<char>, text: Seq<char>, eol: Seq<char>) -> Seq<char> {
    key + new_separator(g) + text + eol
}

/// The line a new entry is written as.
pub fn spell_entry(g: Scheme, key: &str, text: &str, eol: &str) -> (r: String)
    ensures
        r@ == new_entry(g, key@, text@, eol@),
{
    let mut out = key.to_owned();
    match g {
        Scheme::Punctuated => {
            out.append("=");
        },
        Scheme::Spaced => {
            out.append(" ");
        },
        Scheme::Sections => {
            out.append(" = ");
        },
    }
    out.append(text);
    out.append(eol);
    out
}

/// Does a character of the text end a key?
pub open spec fn has_separator(g: Scheme, s: Seq<char>) -> bool {
    exists|i: int| 0 <= i < s.len() && separates(g, #[trigger] s[i])
}

/// A key that reads back as itself.
pub open spec fn plain_key(g: Scheme, key: Seq<char>) -> bool {
    &&& !breaks(key)
    &&& !padded(key)
    &&& !(key.len() > 0 && marks(g, key[0]))
    &&& !(g == Scheme::Sections && key.len() > 0 && key[0] == '[')
    &&& !has_separator(g, key)
    &&& g == Scheme::Spaced ==> key.len() > 0
}

/// A new entry's line is an entry, with the key and the value it was written
/// with.
#[verifier::rlimit(60)]
#[verifier::spinoff_prover]
pub proof fn new_entry_reads_back(g: Scheme, key: Seq<char>, text: Seq<char>, eol: Seq<char>)
    requires
        plain_key(g, key),
        plain_value(g, text),
        eol == "\n"@ || eol == "\r\n"@,
    ensures
        is_line(new_entry(g, key, text, eol)),
        new_entry(g, key, text, eol).last() == '\n',
        row_kind(new_entry(g, key, text, eol), g) == RowKind::Entry,
        entry_key(new_entry(g, key, text, eol), g) == key,
        entry_value(new_entry(g, key, text, eol), g) == text,
        value_end(new_entry(g, key, text, eol), g) == key.len() + new_separator(g).len() + text.len(),
{
    reveal_strlit("=");
    reveal_strlit(" ");
    reveal_strlit(" = ");
    reveal_strlit("\n");
    reveal_strlit("\r\n");
    let t = new_entry(g, key, text, eol);
    let n = key.len() as int;
    let w = new_separator(g).len() as int;
    assert(forall|k: int| 0 <= k < n ==> t[k] == key[k]);
    assert(forall|k: int| n <= k < n + w ==> t[k] == new_separator(g)[k - n]);
    assert(forall|k: int| n + w <= k < n + w + text.len() ==> t[k] == text[k - n - w]);
    assert(forall|k: int|
        n + w + text.len() <= k < t.len() ==> t[k] == eol[k - n - w - text.len()]);
    assert(t.last() == '\n');
    let f = n + w + text.len();
    assert(t[f - 1] != '\r');
    assert(body_end(t) == f);
    let a = if n == 0 && g == Scheme::Sections {
        1int
    } else {
        0
    };
    white_from_is(t, 0, f, a);
    let sep = if g == Scheme::Sections {
        n + 1
    } else {
        n
    };
    sep_from_is(t, g, a, f, sep);
    white_back_is(t, a, sep, if n == 0 {
        a
    } else {
        n
    });
    assert(entry_key(t, g) =~= key);
    let se = sep + 1;
    if g == Scheme::Spaced {
        run_from_is(t, sep, f, se);
    }
    if g == Scheme::Sections {
        assert forall|k: int| se <= k < f implies !(#[trigger] note_opens(t, se, k)) by {
            if k >= n + w {
                assert(t[k] == text[k - n - w]);
                if k > n + w {
                    assert(t[k - 1] == text[k - n - w - 1]);
                }
            }
        }
        note_from_is(t, se, se, f, f);
    }
    assert(region_end(t, g) == f);
    let vs = n + w;
    if text.len() > 0 {
        assert(t[vs] == text[0]);
        assert(t[f - 1] == text.last());
    }
    white_from_is(t, se, f, vs);
    white_back_is(t, vs, f, f);
    assert(entry_value(t, g) =~= text);
}

/// A line with its value replaced by a text without line breaks is still a line.
pub proof fn replaced_value_is_line(t: Seq<char>, g: Scheme, text: Seq<char>)
    requires
        is_line(t),
        row_kind(t, g) == RowKind::Entry,
        !breaks(text),
    ensures
        is_line(with_value(t, g, text)),
        t.last() == '\n' ==> with_value(t, g, text).last() == '\n',
        with_value(t, g, text)[0] == t[0],
{
    entry_bounds(t, g);
    let u = with_value(t, g, text);
    let vs = value_start(t, g);
    let ve = value_end(t, g);
    let gap = value_gap(t, g, text);
    reveal_strlit(" ");
    let d = text.len() + gap.len() - (ve - vs);
    assert(forall|k: int| 0 <= k < vs ==> u[k] == t[k]);
    assert(forall|k: int| vs <= k < vs + text.len() ==> u[k] == text[k - vs]);
    assert(gap.len() > 0 ==> gap.len() == 1 && u[vs + text.len()] == ' ');
    assert(forall|k: int| vs + text.len() + gap.len() <= k < u.len() ==> u[k] == t[k - d]);
}

pub proof fn close_from_is(t: Seq<char>, i: int, end: int, r: int)
    requires
        0 <= i <= r <= end <= t.len(),
        forall|k: int| i <= k < r ==> (#[trigger] t[k]) != ']',
        r < end ==> t[r] == ']',
    ensures
        close_from(t, i, end) == r,
    decreases end - i,
{
    if i < r {
        close_from_is(t, i + 1, end, r);
    }
}

/// Terminating a last line changes nothing in how it reads.
#[verifier::rlimit(60)]
#[verifier::spinoff_prover]
pub proof fn terminated_line_reads_alike(t: Seq<char>, g: Scheme, eol: Seq<char>)
    requires
        is_line(t),
        t.last() != '\n',
        eol == "\n"@ || eol == "\r\n"@,
        row_kind(t, g) != RowKind::Bad,
    ensures
        is_line(t + eol),
        (t + eol).last() == '\n',
        row_kind(t + eol, g) == row_kind(t, g),
        row_kind(t, g) == RowKind::Entry ==> entry_key(t + eol, g) == entry_key(t, g)
            && entry_value(t + eol, g) == entry_value(t, g),
        row_kind(t, g) == RowKind::Header ==> header_name(t + eol) == header_name(t),
{
    reveal_strlit("\n");
    reveal_strlit("\r\n");
    let u = t + eol;
    let e = body_end(t);
    let f = body_end(u);
    assert(e == t.len());
    assert(forall|k: int| 0 <= k < e ==> u[k] == t[k]);
    assert(f == e || (f == e - 1 && t[e - 1] == '\r'));
    let a = text_at(t);
    white_from_bounds(t, 0, e);
    if a < e {
        white_from_is(u, 0, f, a);
        if row_kind(t, g) == RowKind::Entry {
            entry_bounds(t, g);
            let sep = sep_at(t, g);
            sep_from_bounds(t, g, a, e);
            sep_from_is(u, g, a, f, sep);
            let ke = white_back(t, a, sep);
            white_back_bounds(t, a, sep);
            white_back_is(u, a, sep, ke);
            assert(u.subrange(a, ke) =~= t.subrange(a, ke));
            let se = sep_end(t, g);
            run_from_bounds(t, sep, e);
            if g == Scheme::Spaced {
                run_from_is(u, sep, f, se);
            }
            let re = region_end(t, g);
            let rf = if re < e {
                re
            } else {
                f
            };
            if g == Scheme::Sections {
                note_from_bounds(t, se, se, e);
                assert forall|k: int| se <= k < rf implies !(#[trigger] note_opens(u, se, k)) by {
                    assert(!note_opens(t, se, k));
                }
                if rf < f {
                    assert(note_opens(t, se, re));
                    assert(note_opens(u, se, rf));
                }
                note_from_is(u, se, se, f, rf);
            }
            let vs = value_start(t, g);
            let ve = value_end(t, g);
            white_from_bounds(t, se, re);
            white_back_bounds(t, vs, re);
            if vs < re {
                assert(!white_space(t[vs]));
                white_from_is(u, se, rf, vs);
                assert(ve > vs);
                white_back_is(u, vs, rf, ve);
            } else {
                white_from_is(u, se, rf, rf);
                white_back_is(u, rf, rf, rf);
            }
            assert(entry_value(u, g) =~= entry_value(t, g));
        } else if row_kind(t, g) == RowKind::Header {
            let c = close_at(t);
            close_from_bounds(t, a + 1, e);
            close_from_is(u, a + 1, f, c);
            assert(header_name(u) =~= header_name(t));
        }
    } else {
        white_from_is(u, 0, f, f);
    }
}

/// Does the text hold a line break?
pub fn has_break(s: &str) -> (r: bool)
    ensures
        r == breaks(s@),
{
    let cs = chars_of(s);
    let mut i: usize = 0;
    while i < cs.len()
        invariant
            i <= cs.len(),
            cs@ == s@,
            forall|k: int| 0 <= k < i ==> (#[trigger] s@[k]) != '\n' && s@[k] != '\r',
        decreases cs.len() - i,
    {
        assert(s@[i as int] == cs@[i as int]);
        if cs[i] == '\n' || cs[i] == '\r' {
            return true;
        }
        i = i + 1;
    }
    false
}

/// Does the text start or end with white space?
pub fn is_padded(s: &str) -> (r: bool)
    ensures
        r == padded(s@),
{
    let cs = chars_of(s);
    let n: usize = cs.len();
    n > 0 && (is_white(cs[0]) || is_white(cs[n - 1]))
}

/// Does a character of the text end a key?
pub fn any_separator(g: Scheme, s: &str) -> (r: bool)
    requires
        g != Scheme::Spaced,
    ensures
        r == has_separator(g, s@),
{
    let cs = chars_of(s);
    let mut i: usize = 0;
    while i < cs.len()
        invariant
            i <= cs.len(),
            cs@ == s@,
            g != Scheme::Spaced,
            forall|k: int| 0 <= k < i ==> !separates(g, #[trigger] s@[k]),
        decreases cs.len() - i,
    {
        assert(s@[i as int] == cs@[i as int]);
        if cs[i] == '=' || cs[i] == ':' {
            return true;
        }
        i = i + 1;
    }
    false
}

/// The lines with the last one terminated.
pub open spec fn terminated(lines: Seq<Seq<char>>, eol: Seq<char>) -> Seq<Seq<char>> {
    if lines.len() > 0 && lines.last().len() > 0 && lines.last().last() != '\n' {
        lines.update(lines.len() - 1, lines.last() + eol)
    } else {
        lines
    }
}

/// Terminate the last line, if it is not.
pub fn terminate(lines: &mut Vec<String>, eol: &str)
    ensures
        texts(final(lines)@) == terminated(texts(old(lines)@), eol@),
{
    let n: usize = lines.len();
    if n == 0 {
        return;
    }
    let ghost held = texts(lines@);
    assert(held.last() == lines@[n - 1]@);
    let w: usize = lines[n - 1].as_str().unicode_len();
    if w > 0 && lines[n - 1].as_str().get_char(w - 1) != '\n' {
        let mut last = lines[n - 1].clone();
        last.append(eol);
        let ghost now = last@;
        lines.set(n - 1, last);
        assert(texts(lines@) =~= held.update(n - 1, now));
    }
}

/// Was anything flattened to a dotted key?
pub open spec fn any_dotted(es: Seq<Flat>) -> bool {
    exists|i: int| 0 <= i < es.len() && (#[trigger] es[i]).key.contains('.')
}

/// A text, or nothing.
pub open spec fn text_if(b: bool, t: Seq<char>) -> Seq<Seq<char>> {
    if b {
        seq![t]
    } else {
        Seq::empty()
    }
}

/// The view of an emission.
pub open spec fn emission(r: Result<(String, Vec<String>), EditError>) -> Result<
    (Seq<char>, Seq<Seq<char>>),
    Er,
> {
    match r {
        Ok((t, w)) => Ok((t@, texts(w@))),
        Err(e) => Err(e@),
    }
}

/// Does the text hold a dot?
pub fn has_dot(s: &str) -> (r: bool)
    ensures
        r == s@.contains('.'),
{
    let cs = chars_of(s);
    let mut i: usize = 0;
    while i < cs.len()
        invariant
            i <= cs.len(),
            cs@ == s@,
            forall|k: int| 0 <= k < i ==> (#[trigger] s@[k]) != '.',
        decreases cs.len() - i,
    {
        assert(s@[i as int] == cs@[i as int]);
        if cs[i] == '.' {
            return true;
        }
        i = i + 1;
    }
    false
}

pub proof fn entry_from_is(lines: Seq<Seq<char>>, g: Scheme, key: Seq<char>, i: int, to: int, r: int)
    requires
        0 <= i <= r <= to <= lines.len(),
        forall|k: int| i <= k < r ==> !holds_key(#[trigger] lines[k], g, key),
        r < to ==> holds_key(lines[r], g, key),
    ensures
        entry_from(lines, g, key, i, to) == r,
    decreases to - i,
{
    if i < r {
        entry_from_is(lines, g, key, i + 1, to, r);
    }
}

/// A file's dominant ending is one of the two.
pub proof fn dominant_is_an_ending(s: Seq<char>)
    ensures
        dominant_ending(s) == "\n"@ || dominant_ending(s) == "\r\n"@,
{
}

} // verus!
