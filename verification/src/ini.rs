//! INI documents.
//!
//! Line-oriented and lossless: `[section]` headers, `key = value` /
//! `key : value` entries, `;`/`#` comments, and blank lines all round-trip
//! exactly. Paths are `.section.key` (or `.key` for the section-less preamble);
//! values are strings. Edits touch only the targeted value or line.
use crate::comment::{flatten_node, flattened, flats, with_foot, Flat, FlatEntry};
use crate::convert::{scalar_string, scalar_text};
use crate::document::Document;
use crate::error::{fail, EditError, Er};
use crate::eval::eval_path;
use crate::feature::Feature;
use crate::float::FloatFacts;
use crate::ini_syntax::{ini_green, ini_tree, ini_tree_is_lossless};
use crate::line_comment::{
    comment_rows, one_line, place_line_comment, placed, sanitize_comment_line, style_ok, LineComment, Style,
};
use crate::lines::{
    are_lines, concat, flat, flat_starts, lines_are_lines, lines_of, lines_of_flat, lines_round_trip, split_lines,
};
use crate::model::{
    cmt_members, cmts, group_comment_views, group_expr_views, group_value_views, members, no_notes, steps_of, texts, Cmt,
    CmtNode, CommentKind, Commented, CommentedNode, Comments, Expr, Notes, St, Step, Val, Value,
};
use crate::mutate::{
    apply_mutation, attempt, done, has_iterate, iterates, mutated, opt_value, Mutable, MutationKind, Outcome,
};
use crate::rows::{
    any_dotted, any_separator, ascii_white, body_end, breaks, classify, dominant_is_an_ending,
    emission, end_of_header, entry_from, entry_from_bounds, entry_from_is, entry_key,
    entry_members, entry_slots, entry_value, find_entry, has_bad_line, has_break, has_dot,
    has_separator, header_end, header_name, holds_key, is_padded, malformed, members_of, name_of,
    new_entry, new_entry_reads_back, opens_inline, padded, plain_key, plain_value,
    replace_value, replaced_value_is_line, replaced_value_reads_back, row_kind, spell_entry,
    strip_inline, stripped_inline, take_texts, terminate, terminated, terminated_line_reads_alike,
    text_if, value_end, value_of, walk, walked, with_value, RowKind, Scheme,
};
use crate::semantics::path_outs;
use crate::strs::{chars_of, debug_quoted, quoted_text, same, slice_text};
use crate::syntax::{fits, green, green_holds, green_text};
use crate::text::{blanks_end, dominant, dominant_ending, leading_indent, line_ending, marked, split_bom, with_bom};
use vstd::prelude::*;

verus! {

broadcast use {group_value_views, group_expr_views, group_comment_views};

/// The comment kinds this format supports.
pub fn comment_kinds() -> (r: Vec<CommentKind>)
    ensures
        r@ == seq![CommentKind::Head, CommentKind::Inline, CommentKind::Foot],
{
    vec![CommentKind::Head, CommentKind::Inline, CommentKind::Foot]
}

/// A parse failure.
#[derive(Debug)]
pub struct ParseError {
    pub msg: String,
}

impl ParseError {
    /// The message.
    pub fn to_string(&self) -> (r: String)
        ensures
            r@ == self.msg@,
    {
        self.msg.clone()
    }
}

/// A parsed INI document.
pub struct Ini {
    lines: Vec<String>,
    /// The source opened with a UTF-8 byte-order mark: kept out of the lines
    /// (it would read as part of the first key) and restored by `to_source`.
    bom: bool,
}

/// The mathematical content of an [`Ini`].
pub struct IniDoc {
    pub lines: Seq<Seq<char>>,
    pub bom: bool,
}

/// How comments are spelled.
pub open spec fn ini_style() -> Style {
    Style { marks: seq![";"@, "#"@], delim: "; "@ }
}

fn style() -> (r: LineComment)
    ensures
        r@ == ini_style(),
        style_ok(r@),
{
    proof {
        reveal_strlit(";");
        reveal_strlit("#");
    }
    let r = LineComment { markers: &[";", "#"], delim: "; " };
    assert(r@.marks =~= ini_style().marks);
    r
}

/// The text of a document.
pub open spec fn ini_source(d: IniDoc) -> Seq<char> {
    marked(d.bom, flat(d.lines))
}

/// Is the line a section header?
pub open spec fn heads(t: Seq<char>) -> bool {
    row_kind(t, Scheme::Sections) == RowKind::Header
}

/// The first header from line `i` on, or the number of lines.
pub open spec fn header_from(lines: Seq<Seq<char>>, i: int) -> int
    decreases lines.len() - i,
{
    if i < lines.len() && !heads(lines[i]) {
        header_from(lines, i + 1)
    } else {
        i
    }
}

/// Is the line the header of the section `name`?
pub open spec fn heads_named(t: Seq<char>, name: Seq<char>) -> bool {
    heads(t) && header_name(t) == name
}

/// The first header of the section `name` from line `i` on, or the number of
/// lines.
pub open spec fn named_from(lines: Seq<Seq<char>>, name: Seq<char>, i: int) -> int
    decreases lines.len() - i,
{
    if i < lines.len() && !heads_named(lines[i], name) {
        named_from(lines, name, i + 1)
    } else {
        i
    }
}

pub proof fn header_from_bounds(lines: Seq<Seq<char>>, i: int)
    requires
        0 <= i <= lines.len(),
    ensures
        i <= header_from(lines, i) <= lines.len(),
        forall|k: int| i <= k < header_from(lines, i) ==> !heads(#[trigger] lines[k]),
        header_from(lines, i) < lines.len() ==> heads(lines[header_from(lines, i)]),
    decreases lines.len() - i,
{
    if i < lines.len() && !heads(lines[i]) {
        header_from_bounds(lines, i + 1);
    }
}

pub proof fn named_from_bounds(lines: Seq<Seq<char>>, name: Seq<char>, i: int)
    requires
        0 <= i <= lines.len(),
    ensures
        i <= named_from(lines, name, i) <= lines.len(),
        forall|k: int|
            i <= k < named_from(lines, name, i) ==> !heads_named(#[trigger] lines[k], name),
        named_from(lines, name, i) < lines.len() ==> heads_named(
            lines[named_from(lines, name, i)],
            name,
        ),
    decreases lines.len() - i,
{
    if i < lines.len() && !heads_named(lines[i], name) {
        named_from_bounds(lines, name, i + 1);
    }
}

fn next_header(lines: &Vec<String>, from: usize) -> (r: usize)
    requires
        from <= lines.len(),
    ensures
        r == header_from(texts(lines@), from as int),
        from <= r <= lines.len(),
{
    let ghost ls = texts(lines@);
    let mut i: usize = from;
    while i < lines.len()
        invariant
            from <= i <= lines.len(),
            ls == texts(lines@),
            header_from(ls, from as int) == header_from(ls, i as int),
        decreases lines.len() - i,
    {
        assert(ls[i as int] == lines@[i as int]@);
        let cs = chars_of(&lines[i]);
        if classify(&cs, Scheme::Sections) == RowKind::Header {
            return i;
        }
        i = i + 1;
    }
    i
}

/// The header line of a named section, or the number of lines.
fn named_header(lines: &Vec<String>, name: &str) -> (r: usize)
    ensures
        r == named_from(texts(lines@), name@, 0),
        r <= lines.len(),
{
    let ghost ls = texts(lines@);
    let mut i: usize = 0;
    while i < lines.len()
        invariant
            i <= lines.len(),
            ls == texts(lines@),
            named_from(ls, name@, 0) == named_from(ls, name@, i as int),
        decreases lines.len() - i,
    {
        assert(ls[i as int] == lines@[i as int]@);
        let cs = chars_of(&lines[i]);
        if classify(&cs, Scheme::Sections) == RowKind::Header && same(&name_of(&cs), name) {
            return i;
        }
        i = i + 1;
    }
    i
}

/// An entry's address: the section it stands in (none for the preamble) and its
/// key.
pub open spec fn entry_address(path: Seq<St>) -> Option<(Option<Seq<char>>, Seq<char>)> {
    if path.len() == 1 && path[0] is Field {
        Some((None, path[0]->Field_0))
    } else if path.len() == 2 && path[0] is Field && path[1] is Field {
        Some((Some(path[0]->Field_0), path[1]->Field_0))
    } else {
        None
    }
}

/// The lines of a section's body: from the first to behind the last. A section
/// that is not there has none.
pub open spec fn body_lines(lines: Seq<Seq<char>>, section: Option<Seq<char>>) -> Option<(int, int)> {
    match section {
        None => Some((0, header_from(lines, 0))),
        Some(name) => {
            let h = named_from(lines, name, 0);
            if h < lines.len() {
                Some((h + 1, header_from(lines, h + 1)))
            } else {
                None
            }
        },
    }
}

/// The line of the entry at an address.
pub open spec fn entry_line(lines: Seq<Seq<char>>, section: Option<Seq<char>>, key: Seq<char>) -> Option<int> {
    match body_lines(lines, section) {
        None => None,
        Some((from, to)) => {
            let at = entry_from(lines, Scheme::Sections, key, from, to);
            if at < to {
                Some(at)
            } else {
                None
            }
        },
    }
}

/// The line of the entry at a path.
pub open spec fn path_line(lines: Seq<Seq<char>>, path: Seq<St>) -> Option<int> {
    match entry_address(path) {
        None => None,
        Some((section, key)) => entry_line(lines, section, key),
    }
}

/// The view of an address.
spec fn address_view(a: Option<(Option<&String>, &String)>) -> Option<
    (Option<Seq<char>>, Seq<char>),
> {
    match a {
        None => None,
        Some((None, k)) => Some((None, k@)),
        Some((Some(s), k)) => Some((Some(s@), k@)),
    }
}

fn address(path: &Vec<Step>) -> (r: Option<(Option<&String>, &String)>)
    ensures
        address_view(r) == entry_address(steps_of(path@)),
{
    if path.len() == 1 {
        assert(steps_of(path@)[0] == path@[0]@);
        if let Step::Field(k) = &path[0] {
            return Some((None, k));
        }
    } else if path.len() == 2 {
        assert(steps_of(path@)[0] == path@[0]@);
        assert(steps_of(path@)[1] == path@[1]@);
        if let Step::Field(s) = &path[0] {
            if let Step::Field(k) = &path[1] {
                return Some((Some(s), k));
            }
        }
    }
    None
}

/// Resolve `.key` (preamble) or `.section.key` to its line.
fn resolve_entry(lines: &Vec<String>, path: &Vec<Step>) -> (r: Option<usize>)
    ensures
        match path_line(texts(lines@), steps_of(path@)) {
            Some(i) => r == Some(i as usize) && 0 <= i < lines.len() && row_kind(
                lines@[i]@,
                Scheme::Sections,
            ) == RowKind::Entry,
            None => r is None,
        },
{
    let ghost ls = texts(lines@);
    match address(path) {
        None => None,
        Some((section, key)) => {
            let (from, to) = match section {
                None => (0, next_header(lines, 0)),
                Some(name) => {
                    let h: usize = named_header(lines, name);
                    if h >= lines.len() {
                        return None;
                    }
                    (h + 1, next_header(lines, h + 1))
                },
            };
            proof {
                entry_from_bounds(ls, Scheme::Sections, key@, from as int, to as int);
            }
            let at: usize = find_entry(lines, Scheme::Sections, key, from, to);
            if at < to {
                assert(ls[at as int] == lines@[at as int]@);
                Some(at)
            } else {
                None
            }
        },
    }
}

/// Why INI cannot hold a value, if it cannot.
pub open spec fn value_fault(text: Seq<char>) -> Option<Seq<char>> {
    if breaks(text) {
        Some("a line break would split the line"@)
    } else if padded(text) {
        Some("leading or trailing whitespace reads back trimmed"@)
    } else if opens_inline(text) {
        Some("a `;` or `#` at the start or after whitespace starts an inline comment"@)
    } else {
        None
    }
}

/// Why INI cannot hold a key, if it cannot.
pub open spec fn key_fault(key: Seq<char>) -> Option<Seq<char>> {
    if breaks(key) {
        Some("a line break would split the line"@)
    } else if padded(key) {
        Some("leading or trailing whitespace reads back trimmed"@)
    } else if key.len() > 0 && (key[0] == ';' || key[0] == '#') {
        Some("a line starting with `;` or `#` is a comment"@)
    } else if key.len() > 0 && key[0] == '[' {
        Some("a line starting with `[` is a section header"@)
    } else if has_separator(Scheme::Sections, key) {
        Some("`=` or `:` would end the key early"@)
    } else {
        None
    }
}

/// Why INI cannot hold a section name, if it cannot.
pub open spec fn section_fault(name: Seq<char>) -> Option<Seq<char>> {
    if breaks(name) {
        Some("a line break would split the header"@)
    } else if name.contains(']') {
        Some("`]` would close the header early"@)
    } else {
        None
    }
}

/// The refusal of a text INI cannot hold.
pub open spec fn refusal(what: Seq<char>, text: Seq<char>, why: Option<Seq<char>>) -> Result<(), Er> {
    match why {
        None => Ok(()),
        Some(w) => Err(
            fail(
                "INI can't hold the "@ + what + " "@ + quoted_text(text) + ": "@ + w
                    + ", and INI has no quoting"@,
            ),
        ),
    }
}

fn refuse(what: &str, text: &str, why: &str) -> (r: EditError)
    ensures
        refusal(what@, text@, Some(why@)) == Err::<(), Er>(r@),
{
    let mut m = "INI can't hold the ".to_owned();
    m.append(what);
    m.append(" ");
    m.append(&debug_quoted(text));
    m.append(": ");
    m.append(why);
    m.append(", and INI has no quoting");
    EditError::of(m)
}

fn starts_inline(s: &str) -> (r: bool)
    ensures
        r == opens_inline(s@),
{
    let cs = chars_of(s);
    if cs.len() > 0 && (cs[0] == ';' || cs[0] == '#') {
        return true;
    }
    let mut i: usize = 1;
    while i < cs.len()
        invariant
            1 <= i,
            cs.len() > 0 ==> i <= cs.len(),
            cs@ == s@,
            forall|k: int|
                0 < k < i && k < s@.len() ==> !(((#[trigger] s@[k]) == ';' || s@[k] == '#')
                    && ascii_white(s@[k - 1])),
        decreases cs.len() - i,
    {
        assert(s@[i as int] == cs@[i as int]);
        if (cs[i] == ';' || cs[i] == '#') && (cs[i - 1] == ' ' || cs[i - 1] == '\t' || cs[i - 1]
            == '\n' || cs[i - 1] == '\u{c}' || cs[i - 1] == '\r') {
            return true;
        }
        i = i + 1;
    }
    false
}

/// Refuse a value INI cannot hold: the scanner would read the line back
/// differently. INI has no quoting (quotes are part of the value), so there is
/// nothing to escape with.
fn check_value(text: &str) -> (r: Result<(), EditError>)
    ensures
        done(r) == refusal("value"@, text@, value_fault(text@)),
{
    if has_break(text) {
        Err(refuse("value", text, "a line break would split the line"))
    } else if is_padded(text) {
        Err(refuse("value", text, "leading or trailing whitespace reads back trimmed"))
    } else if starts_inline(text) {
        Err(
            refuse(
                "value",
                text,
                "a `;` or `#` at the start or after whitespace starts an inline comment",
            ),
        )
    } else {
        Ok(())
    }
}

/// Refuse a new key INI cannot hold; an existing one is already known to read
/// back as itself.
fn check_key(key: &str) -> (r: Result<(), EditError>)
    ensures
        done(r) == refusal("key"@, key@, key_fault(key@)),
{
    let cs = chars_of(key);
    if has_break(key) {
        Err(refuse("key", key, "a line break would split the line"))
    } else if is_padded(key) {
        Err(refuse("key", key, "leading or trailing whitespace reads back trimmed"))
    } else if cs.len() > 0 && (cs[0] == ';' || cs[0] == '#') {
        Err(refuse("key", key, "a line starting with `;` or `#` is a comment"))
    } else if cs.len() > 0 && cs[0] == '[' {
        Err(refuse("key", key, "a line starting with `[` is a section header"))
    } else if any_separator(Scheme::Sections, key) {
        Err(refuse("key", key, "`=` or `:` would end the key early"))
    } else {
        Ok(())
    }
}

/// Refuse a new section name INI cannot hold.
fn check_section(name: &str) -> (r: Result<(), EditError>)
    ensures
        done(r) == refusal("section name"@, name@, section_fault(name@)),
{
    if has_break(name) {
        return Err(refuse("section name", name, "a line break would split the header"));
    }
    let cs = chars_of(name);
    let mut i: usize = 0;
    while i < cs.len()
        invariant
            i <= cs.len(),
            cs@ == name@,
            !breaks(name@),
            forall|k: int| 0 <= k < i ==> (#[trigger] name@[k]) != ']',
        decreases cs.len() - i,
    {
        assert(name@[i as int] == cs@[i as int]);
        if cs[i] == ']' {
            return Err(refuse("section name", name, "`]` would close the header early"));
        }
        i = i + 1;
    }
    Ok(())
}

/// The first line behind the content of the lines `lo` to `hi`: trailing blank
/// lines stay behind a new entry.
pub open spec fn content_end(lines: Seq<Seq<char>>, lo: int, hi: int) -> int
    decreases hi - lo,
{
    if lo < hi && row_kind(lines[hi - 1], Scheme::Sections) == RowKind::Blank {
        content_end(lines, lo, hi - 1)
    } else {
        hi
    }
}

fn end_of_content(lines: &Vec<String>, lo: usize, hi: usize) -> (r: usize)
    requires
        lo <= hi <= lines.len(),
    ensures
        r == content_end(texts(lines@), lo as int, hi as int),
        lo <= r <= hi,
{
    let ghost ls = texts(lines@);
    let mut e: usize = hi;
    while lo < e
        invariant
            lo <= e <= hi <= lines.len(),
            ls == texts(lines@),
            content_end(ls, lo as int, hi as int) == content_end(ls, lo as int, e as int),
        decreases e - lo,
    {
        assert(ls[e - 1] == lines@[e - 1]@);
        let cs = chars_of(&lines[e - 1]);
        if classify(&cs, Scheme::Sections) != RowKind::Blank {
            return e;
        }
        e = e - 1;
    }
    e
}

/// The header line of a new section.
pub open spec fn new_header(name: Seq<char>, eol: Seq<char>) -> Seq<char> {
    "["@ + name + "]"@ + eol
}

/// The lines with a new entry: behind the last line of content in its section,
/// which is created at the end of the file if it is not there.
pub open spec fn inserted_lines(
    lines: Seq<Seq<char>>,
    section: Option<Seq<char>>,
    key: Seq<char>,
    text: Seq<char>,
) -> Seq<Seq<char>> {
    let eol = dominant_ending(flat(lines));
    let entry = new_entry(Scheme::Sections, key, text, eol);
    match body_lines(lines, section) {
        Some((from, to)) => {
            let at = content_end(lines, from, to);
            terminated(lines.take(at), eol).push(entry) + lines.skip(at)
        },
        None => terminated(lines, eol) + (if lines.len() > 0 {
            seq![eol]
        } else {
            Seq::empty()
        }) + seq![
            new_header(
                match section {
                    Some(s) => s,
                    None => Seq::empty(),
                },
                eol,
            ),
            entry,
        ],
    }
}

/// The document with an entry set to a text: only its value changes if it is
/// there, else a line is inserted.
pub open spec fn ini_set(d: IniDoc, path: Seq<St>, v: Val) -> Result<IniDoc, Er> {
    match scalar_text(v, "INI"@) {
        Err(e) => Err(e),
        Ok(text) => match refusal("value"@, text, value_fault(text)) {
            Err(e) => Err(e),
            Ok(_) => match path_line(d.lines, path) {
                Some(at) => Ok(
                    IniDoc {
                        lines: d.lines.update(
                            at,
                            with_value(d.lines[at], Scheme::Sections, text),
                        ),
                        ..d
                    },
                ),
                None => match entry_address(path) {
                    None => Err(fail("INI paths are `.key` or `.section.key`"@)),
                    Some((section, key)) => match refusal("key"@, key, key_fault(key)) {
                        Err(e) => Err(e),
                        Ok(_) => match (match section {
                            Some(s) => refusal("section name"@, s, section_fault(s)),
                            None => Ok(()),
                        }) {
                            Err(e) => Err(e),
                            Ok(_) => Ok(
                                IniDoc {
                                    lines: inserted_lines(d.lines, section, key, text),
                                    ..d
                                },
                            ),
                        },
                    },
                },
            },
        },
    }
}

/// The value of the entry at a path.
pub open spec fn ini_value(d: IniDoc, path: Seq<St>) -> Option<Val> {
    match path_line(d.lines, path) {
        Some(at) => Some(Val::Str(entry_value(d.lines[at], Scheme::Sections))),
        None => None,
    }
}

/// The document without the line of the entry at a path.
pub open spec fn ini_delete(d: IniDoc, path: Seq<St>) -> IniDoc {
    match path_line(d.lines, path) {
        Some(at) => IniDoc { lines: d.lines.remove(at), ..d },
        None => d,
    }
}

/// The members the sections from the header at line `h` on give.
pub open spec fn section_members(lines: Seq<Seq<char>>, h: int) -> Seq<(Seq<char>, Val)>
    decreases lines.len() - h,
{
    if h >= lines.len() {
        Seq::empty()
    } else {
        let next = header_from(lines, h + 1);
        let one = (
            header_name(lines[h]),
            Val::Object(entry_members(lines, Scheme::Sections, h + 1, next)),
        );
        if h < next <= lines.len() {
            seq![one] + section_members(lines, next)
        } else {
            seq![one]
        }
    }
}

/// The value of a document: an object of the preamble's entries and of one
/// object for each section.
pub open spec fn ini_whole(d: IniDoc) -> Val {
    let h = header_from(d.lines, 0);
    Val::Object(
        entry_members(d.lines, Scheme::Sections, 0, h) + section_members(d.lines, h),
    )
}

/// INI's answer to `[]` in an update path: the type error when the iterate would
/// land on a value, or a clear hint.
pub open spec fn no_iterate(d: IniDoc, path: Seq<St>) -> Er {
    match path_outs(path, ini_whole(d)) {
        Err(e) => e,
        Ok(_) => fail(
            "`[]` in an assignment is not supported for INI: it is flat key-value, with nothing to iterate but scalars"@,
        ),
    }
}

impl Ini {
    /// The content of the document.
    pub closed spec fn content(&self) -> IniDoc {
        IniDoc { lines: texts(self.lines@), bom: self.bom }
    }

    /// The syntax tree of the document, without its byte-order mark.
    pub fn syntax(&self) -> (r: rowan::GreenNode)
        requires
            fits(flat(self.content().lines)),
        ensures
            green_holds(r) == ini_green(self.content().lines),
            green_text(green_holds(r)) == flat(self.content().lines),
    {
        proof {
            ini_tree_is_lossless(texts(self.lines@));
        }
        green(&ini_tree(&self.lines))
    }

    /// Insert a `key = value` entry at the right place: after the last line of
    /// content (entries, comments) in the named section, creating the section at
    /// the end of the file if absent, or in the preamble.
    fn insert_entry(&mut self, section: Option<&String>, key: &str, text: &str)
        ensures
            final(self).content().lines == inserted_lines(
                old(self).content().lines,
                match section {
                    Some(s) => Some(s@),
                    None => None,
                },
                key@,
                text@,
            ),
            final(self).content().bom == old(self).content().bom,
    {
        let ghost ls = texts(self.lines@);
        let src = concat(&self.lines);
        // New lines end the way most of the file's lines do.
        let eol = dominant(&src);
        let ghost sec: Option<Seq<char>> = match section {
            Some(s) => Some(s@),
            None => None,
        };
        let entry = spell_entry(Scheme::Sections, key, text, eol);
        let ghost row = entry@;
        let n: usize = self.lines.len();
        proof {
            header_from_bounds(ls, 0);
        }
        let found: Option<(usize, usize)> = match section {
            None => Some((0, next_header(&self.lines, 0))),
            Some(name) => {
                let h: usize = named_header(&self.lines, name);
                if h < n {
                    Some((h + 1, next_header(&self.lines, h + 1)))
                } else {
                    None
                }
            },
        };
        match found {
            Some((from, to)) => {
                let at: usize = end_of_content(&self.lines, from, to);
                let mut tail = self.lines.split_off(at);
                assert(texts(self.lines@) =~= ls.take(at as int));
                assert(texts(tail@) =~= ls.skip(at as int));
                terminate(&mut self.lines, eol);
                let ghost held = texts(self.lines@);
                let ghost rest = texts(tail@);
                self.lines.push(entry);
                assert(texts(self.lines@) =~= held.push(row));
                let ghost front = texts(self.lines@);
                self.lines.append(&mut tail);
                assert(texts(self.lines@) =~= front + rest);
                assert(body_lines(ls, sec) == Some((from as int, to as int)));
                assert(texts(self.lines@) == inserted_lines(ls, sec, key@, text@));
            },
            None => {
                terminate(&mut self.lines, eol);
                let ghost held = texts(self.lines@);
                if n > 0 {
                    self.lines.push(eol.to_owned());
                }
                let mut header = "[".to_owned();
                if let Some(s) = section {
                    header.append(s);
                }
                header.append("]");
                header.append(eol);
                let ghost head = header@;
                self.lines.push(header);
                self.lines.push(entry);
                assert(texts(self.lines@) =~= held + (if n > 0 {
                    seq![eol@]
                } else {
                    Seq::empty()
                }) + seq![head, row]);
            },
        }
    }

    /// Set the entry at `path` to a scalar, format-preserving. If the entry
    /// exists, only its value text changes. Otherwise a `key = value` line is
    /// inserted into the named section (creating the section if absent) or the
    /// preamble. A key, section name, or value INI can't read back as itself (a
    /// line break, surrounding whitespace, an inline-comment `;`/`#`, a key that
    /// would read as a header or comment) errors: INI has no quoting to fall back
    /// on.
    pub fn set(&mut self, path: &Vec<Step>, value: &Value) -> (r: Result<(), EditError>)
        ensures
            (final(self).content(), done(r)) == attempt(
                old(self).content(),
                ini_set(old(self).content(), steps_of(path@), value@),
            ),
    {
        let text = match scalar_string(value, "INI") {
            Err(e) => {
                return Err(e);
            },
            Ok(t) => t,
        };
        check_value(&text)?;
        if let Some(at) = resolve_entry(&self.lines, path) {
            let ghost ls = texts(self.lines@);
            assert(ls[at as int] == self.lines@[at as int]@);
            let line = replace_value(&self.lines[at], Scheme::Sections, &text);
            let ghost now = line@;
            self.lines.set(at, line);
            assert(texts(self.lines@) =~= ls.update(at as int, now));
            return Ok(());
        }
        match address(path) {
            None => Err(EditError::new("INI paths are `.key` or `.section.key`")),
            Some((section, key)) => {
                check_key(key)?;
                if let Some(s) = section {
                    check_section(s)?;
                }
                self.insert_entry(section, key, &text);
                Ok(())
            },
        }
    }

    /// The string value of the entry at `path`, or `None`.
    pub fn value_at(&self, path: &Vec<Step>) -> (r: Option<Value>)
        ensures
            opt_value(r) == ini_value(self.content(), steps_of(path@)),
    {
        match resolve_entry(&self.lines, path) {
            None => None,
            Some(at) => {
                let ghost ls = texts(self.lines@);
                assert(ls[at as int] == self.lines@[at as int]@);
                let cs = chars_of(&self.lines[at]);
                Some(Value::Str(value_of(&cs, Scheme::Sections)))
            },
        }
    }

    /// Delete the entry at `path`, removing its whole line (a missing entry is a
    /// no-op).
    pub fn delete(&mut self, path: &Vec<Step>) -> (r: Result<(), EditError>)
        ensures
            final(self).content() == ini_delete(old(self).content(), steps_of(path@)),
            r is Ok,
    {
        if let Some(at) = resolve_entry(&self.lines, path) {
            let ghost ls = texts(self.lines@);
            let _ = self.lines.remove(at);
            assert(texts(self.lines@) =~= ls.remove(at as int));
        }
        Ok(())
    }

    fn project(&self) -> (r: Value)
        ensures
            r@ == ini_whole(self.content()),
    {
        let ghost ls = texts(self.lines@);
        proof {
            header_from_bounds(ls, 0);
        }
        let mut h: usize = next_header(&self.lines, 0);
        let mut top = members_of(&self.lines, Scheme::Sections, 0, h);
        let ghost all = members(top@) + section_members(ls, h as int);
        while h < self.lines.len()
            invariant
                h <= self.lines.len(),
                h < self.lines.len() ==> heads(ls[h as int]),
                ls == texts(self.lines@),
                members(top@) + section_members(ls, h as int) == all,
            decreases self.lines.len() - h,
        {
            assert(ls[h as int] == self.lines@[h as int]@);
            let ghost held = members(top@);
            proof {
                header_from_bounds(ls, h + 1);
            }
            let next: usize = next_header(&self.lines, h + 1);
            let cs = chars_of(&self.lines[h]);
            let name = name_of(&cs);
            let value = Value::Object(members_of(&self.lines, Scheme::Sections, h + 1, next));
            let ghost one = (name@, value@);
            top.push((name, value));
            assert(members(top@) =~= held.push(one));
            assert(members(top@) + section_members(ls, next as int) =~= held + section_members(
                ls,
                h as int,
            ));
            h = next;
        }
        assert(members(top@) + section_members(ls, h as int) =~= members(top@));
        Value::Object(top)
    }
}

/// The failure of a source with a line that is none of INI's.
pub open spec fn ini_malformed() -> Seq<char> {
    "invalid INI: a line is neither a comment, section, nor key=value"@
}

/// The document a source denotes, given its mark and body.
pub open spec fn ini_read(bom: bool, body: Seq<char>) -> Result<IniDoc, Seq<char>> {
    if malformed(lines_of(body), Scheme::Sections) {
        Err(ini_malformed())
    } else {
        Ok(IniDoc { lines: lines_of(body), bom })
    }
}

/// The document a source denotes.
pub open spec fn ini_parsed(src: Seq<char>) -> Result<IniDoc, Seq<char>> {
    if src.len() > 0 && src[0] == '\u{feff}' {
        ini_read(true, src.drop_first())
    } else {
        ini_read(false, src)
    }
}

/// The view of a parse.
pub open spec fn ini_view(r: Result<Ini, ParseError>) -> Result<IniDoc, Seq<char>> {
    match r {
        Ok(d) => Ok(d.content()),
        Err(e) => Err(e.msg@),
    }
}

/// Parse INI source into an [`Ini`] document.
pub fn parse(src: &str) -> (r: Result<Ini, ParseError>)
    ensures
        ini_view(r) == ini_parsed(src@),
{
    let (bom, body) = split_bom(src);
    proof {
        if bom {
            assert(src@.drop_first() =~= body@);
        }
    }
    let lines = split_lines(body);
    if has_bad_line(&lines, Scheme::Sections) {
        return Err(
            ParseError {
                msg: "invalid INI: a line is neither a comment, section, nor key=value".to_owned(),
            },
        );
    }
    Ok(Ini { lines, bom })
}

/// Apply a mutation expression, format-preserving.
pub fn apply(doc: &mut Ini, expr: &Expr, facts: &FloatFacts) -> (r: Result<(), EditError>)
    ensures
        (final(doc).content(), done(r)) == mutated::<Ini>(old(doc).content(), expr@, facts@),
{
    apply_mutation(doc, expr, facts)
}

impl Mutable for Ini {
    type Doc = IniDoc;

    open spec fn doc(&self) -> IniDoc {
        self.content()
    }

    /// INI is flat: there is nothing to fan `[]` out over but scalars.
    open spec fn fanning() -> bool {
        false
    }

    open spec fn whole_of(d: IniDoc) -> Val {
        ini_whole(d)
    }

    open spec fn value_in(d: IniDoc, path: Seq<St>) -> Option<Val> {
        ini_value(d, path)
    }

    open spec fn set_in(d: IniDoc, path: Seq<St>, value: Val) -> Result<IniDoc, Er> {
        ini_set(d, path, value)
    }

    open spec fn delete_in(d: IniDoc, path: Seq<St>) -> Outcome<IniDoc> {
        (ini_delete(d, path), Ok(()))
    }

    open spec fn append_in(d: IniDoc, path: Seq<St>, items: Seq<Val>) -> Option<Result<IniDoc, Er>> {
        None
    }

    open spec fn miss_in(d: IniDoc, path: Seq<St>) -> Result<(), Er> {
        Err(fail("path not found"@))
    }

    open spec fn check_in(d: IniDoc, path: Seq<St>, kind: MutationKind) -> Result<(), Er> {
        if (kind == MutationKind::Update || kind == MutationKind::Add) && iterates(path) {
            Err(no_iterate(d, path))
        } else {
            Ok(())
        }
    }

    fn fans_out() -> (r: bool) {
        false
    }

    fn whole(&self) -> (r: Value) {
        self.project()
    }

    fn value_at(&self, path: &Vec<Step>) -> (r: Option<Value>) {
        Ini::value_at(self, path)
    }

    fn set(&mut self, path: &Vec<Step>, value: &Value) -> (r: Result<(), EditError>) {
        Ini::set(self, path, value)
    }

    fn delete(&mut self, path: &Vec<Step>) -> (r: Result<(), EditError>) {
        Ini::delete(self, path)
    }

    fn append(&mut self, path: &Vec<Step>, items: &Vec<Value>) -> (r: Option<
        Result<(), EditError>,
    >) {
        None
    }

    fn miss(&self, path: &Vec<Step>) -> (r: Result<(), EditError>) {
        Err(EditError::new("path not found"))
    }

    /// `[]` is the array family, which this flat format lacks; the update forms
    /// resolve through `value_at` and would otherwise misreport it as "path not
    /// found".
    fn check_path(&self, path: &Vec<Step>, kind: MutationKind) -> (r: Result<(), EditError>) {
        if (kind == MutationKind::Update || kind == MutationKind::Add) && has_iterate(path) {
            match eval_path(path, &self.project()) {
                Err(e) => Err(EditError::from_eval(e)),
                Ok(_) => Err(
                    EditError::new(
                        "`[]` in an assignment is not supported for INI: it is flat key-value, with nothing to iterate but scalars",
                    ),
                ),
            }
        } else {
            Ok(())
        }
    }
}

/// The line a comment path addresses: a section's header, else an entry.
pub open spec fn comment_line_of(lines: Seq<Seq<char>>, path: Seq<St>) -> Result<int, Er> {
    if path.len() == 0 {
        Err(fail("document-level (`.#`) comment editing for INI is a follow-up"@))
    } else if path.len() == 1 && path[0] is Field {
        let h = named_from(lines, path[0]->Field_0, 0);
        if h < lines.len() {
            Ok(h)
        } else {
            match path_line(lines, path) {
                Some(at) => Ok(at),
                None => Err(fail("no key or section `"@ + path[0]->Field_0 + "`"@)),
            }
        }
    } else if path.len() == 2 && path[0] is Field && path[1] is Field {
        match path_line(lines, path) {
            Some(at) => Ok(at),
            None => Err(fail("no such entry"@)),
        }
    } else {
        Err(fail("INI comment paths are `.key`, `.section`, or `.section.key`"@))
    }
}

/// Resolve a comment target to its line.
fn resolve_target(lines: &Vec<String>, path: &Vec<Step>) -> (r: Result<usize, EditError>)
    ensures
        match r {
            Ok(at) => comment_line_of(texts(lines@), steps_of(path@)) == Ok::<int, Er>(at as int)
                && at < lines.len() && (row_kind(lines@[at as int]@, Scheme::Sections)
                == RowKind::Entry || heads(lines@[at as int]@)),
            Err(e) => comment_line_of(texts(lines@), steps_of(path@)) == Err::<int, Er>(e@),
        },
{
    let ghost ls = texts(lines@);
    if path.len() == 0 {
        return Err(
            EditError::new("document-level (`.#`) comment editing for INI is a follow-up"),
        );
    }
    assert(steps_of(path@)[0] == path@[0]@);
    if path.len() == 1 {
        if let Step::Field(name) = &path[0] {
            proof {
                named_from_bounds(ls, name@, 0);
            }
            let h: usize = named_header(lines, name);
            if h < lines.len() {
                assert(ls[h as int] == lines@[h as int]@);
                return Ok(h);
            }
            return match resolve_entry(lines, path) {
                Some(at) => Ok(at),
                None => {
                    let mut m = "no key or section `".to_owned();
                    m.append(name);
                    m.append("`");
                    Err(EditError::of(m))
                },
            };
        }
    } else if path.len() == 2 {
        assert(steps_of(path@)[1] == path@[1]@);
        if let Step::Field(_) = &path[0] {
            if let Step::Field(_) = &path[1] {
                return match resolve_entry(lines, path) {
                    Some(at) => Ok(at),
                    None => Err(EditError::new("no such entry")),
                };
            }
        }
    }
    Err(EditError::new("INI comment paths are `.key`, `.section`, or `.section.key`"))
}

/// Where the own text of an entry or header ends.
pub open spec fn own_end(t: Seq<char>) -> int {
    if heads(t) {
        header_end(t)
    } else {
        value_end(t, Scheme::Sections)
    }
}

/// The line with its inline comment set or cleared.
pub open spec fn with_inline(t: Seq<char>, text: Option<Seq<char>>) -> Seq<char> {
    t.take(own_end(t)) + (match text {
        Some(x) => "  ; "@ + one_line(x),
        None => Seq::empty(),
    }) + line_ending(t)
}

/// Rewrite (or clear) an entry/header line's inline comment: keep everything up
/// to the value/`]`, then set `  ; text` (or nothing) before the line's
/// terminator.
fn rewrite_inline(line: &str, set: Option<&str>) -> (r: String)
    requires
        row_kind(line@, Scheme::Sections) == RowKind::Entry || heads(line@),
    ensures
        r@ == with_inline(line@, crate::strings::flags_view(set)),
{
    let cs = chars_of(line);
    let end: usize = match classify(&cs, Scheme::Sections) {
        RowKind::Header => end_of_header(&cs),
        _ => entry_slots(&cs, Scheme::Sections).value_end,
    };
    assert(cs@.subrange(0, end as int) =~= line@.take(end as int));
    let mut out = slice_text(&cs, 0, end);
    if let Some(text) = set {
        out.append("  ; ");
        out.append(&sanitize_comment_line(text));
    }
    out.append(crate::text::ending_of(line));
    assert(out@ =~= with_inline(line@, crate::strings::flags_view(set)));
    out
}

/// The document with the comment of `kind` at line `at` written or removed.
pub open spec fn ini_placed(d: IniDoc, at: int, kind: CommentKind, text: Option<Seq<char>>) -> IniDoc {
    let line = d.lines[at];
    match kind {
        CommentKind::Inline => IniDoc { lines: d.lines.update(at, with_inline(line, text)), ..d },
        _ => IniDoc {
            lines: lines_of(
                placed(
                    flat(d.lines),
                    at,
                    kind == CommentKind::Head,
                    line.take(blanks_end(line, 0)),
                    ini_style(),
                    text,
                ),
            ),
            ..d
        },
    }
}

/// The document with a comment written.
pub open spec fn ini_noted(d: IniDoc, path: Seq<St>, kind: CommentKind, text: Seq<char>) -> Result<
    (IniDoc, Seq<Seq<char>>),
    Er,
> {
    match comment_line_of(d.lines, path) {
        Err(e) => Err(e),
        Ok(at) => Ok((ini_placed(d, at, kind, Some(text)), Seq::empty())),
    }
}

/// The document with a comment removed; a target that is not there has none.
pub open spec fn ini_unnoted(d: IniDoc, path: Seq<St>, kind: CommentKind) -> IniDoc {
    match comment_line_of(d.lines, path) {
        Err(_) => d,
        Ok(at) => ini_placed(d, at, kind, None),
    }
}

/// The commented sections from the header at line `h` on, and the comments left
/// waiting.
pub open spec fn walked_sections(
    lines: Seq<Seq<char>>,
    h: int,
    top: Seq<(Seq<char>, Cmt)>,
    pending: Seq<Seq<char>>,
) -> (Seq<(Seq<char>, Cmt)>, Seq<Seq<char>>)
    decreases lines.len() - h,
{
    if h >= lines.len() {
        (top, pending)
    } else {
        let next = header_from(lines, h + 1);
        let (entries, rest) = walked(
            ini_style(),
            lines,
            Scheme::Sections,
            h + 1,
            next,
            Seq::empty(),
            Seq::empty(),
        );
        let section = Cmt {
            notes: Notes {
                head: pending,
                inline: stripped_inline(ini_style(), lines[h], Scheme::Sections),
                foot: Seq::empty(),
            },
            node: CmtNode::Object(entries),
        };
        let now = top.push((header_name(lines[h]), section));
        if h < next <= lines.len() {
            walked_sections(lines, next, now, rest)
        } else {
            (now, rest)
        }
    }
}

/// The document with its comments.
pub open spec fn ini_commented(d: IniDoc) -> Cmt {
    let h = header_from(d.lines, 0);
    let (top, waiting) = walked(
        ini_style(),
        d.lines,
        Scheme::Sections,
        0,
        h,
        Seq::empty(),
        Seq::empty(),
    );
    let (all, pending) = walked_sections(d.lines, h, top, waiting);
    let root = Cmt { notes: no_notes(), node: CmtNode::Object(all) };
    if pending.len() > 0 {
        with_foot(root, pending)
    } else {
        root
    }
}

/// Whether a line holds a comment, of its own or inline.
pub open spec fn line_annotated(t: Seq<char>) -> bool {
    row_kind(t, Scheme::Sections) == RowKind::Note || crate::rows::inline_text(t, Scheme::Sections)
        is Some
}

/// Whether the document has comments.
pub open spec fn ini_annotated(d: IniDoc) -> bool {
    exists|i: int| 0 <= i < d.lines.len() && line_annotated(#[trigger] d.lines[i])
}

impl Ini {
    /// The document with its comments. Own-line comments attach to the next
    /// entry (or the next section's header); comments trailing the document
    /// attach as the last entry's foot.
    pub fn to_commented(&self) -> (r: Option<Commented>)
        ensures
            r is Some,
            r->0@ == ini_commented(self.content()),
    {
        let style = style();
        let ghost ls = texts(self.lines@);
        let mut top: Vec<(String, Commented)> = Vec::new();
        let mut pending: Vec<String> = Vec::new();
        assert(cmt_members(top@) =~= Seq::<(Seq<char>, Cmt)>::empty());
        assert(texts(pending@) =~= Seq::<Seq<char>>::empty());
        proof {
            header_from_bounds(ls, 0);
        }
        let mut h: usize = next_header(&self.lines, 0);
        walk(&style, &self.lines, Scheme::Sections, 0, h, &mut top, &mut pending);
        let ghost all = walked_sections(ls, h as int, cmt_members(top@), texts(pending@));
        while h < self.lines.len()
            invariant
                h <= self.lines.len(),
                h < self.lines.len() ==> heads(ls[h as int]),
                ls == texts(self.lines@),
                style@ == ini_style(),
                style_ok(style@),
                walked_sections(ls, h as int, cmt_members(top@), texts(pending@)) == all,
            decreases self.lines.len() - h,
        {
            assert(ls[h as int] == self.lines@[h as int]@);
            proof {
                header_from_bounds(ls, h + 1);
            }
            let next: usize = next_header(&self.lines, h + 1);
            let cs = chars_of(&self.lines[h]);
            let head = take_texts(&mut pending);
            let inline = strip_inline(&style, &cs, Scheme::Sections);
            let foot: Vec<String> = Vec::new();
            assert(texts(foot@) =~= Seq::<Seq<char>>::empty());
            let mut entries: Vec<(String, Commented)> = Vec::new();
            assert(cmt_members(entries@) =~= Seq::<(Seq<char>, Cmt)>::empty());
            walk(&style, &self.lines, Scheme::Sections, h + 1, next, &mut entries, &mut pending);
            let name = name_of(&cs);
            let section = Commented {
                comments: Comments { head, inline, foot },
                node: CommentedNode::Object(entries),
            };
            let ghost held = cmt_members(top@);
            let ghost one = (name@, section@);
            top.push((name, section));
            assert(cmt_members(top@) =~= held.push(one));
            h = next;
        }
        let mut root = Commented { comments: Comments::none(), node: CommentedNode::Object(top) };
        if pending.len() > 0 {
            root.attach_trailing_foot(pending);
        }
        Some(root)
    }

    /// Whether the document has comments.
    pub fn has_comments(&self) -> (r: bool)
        ensures
            r == ini_annotated(self.content()),
    {
        let ghost ls = texts(self.lines@);
        let mut i: usize = 0;
        while i < self.lines.len()
            invariant
                i <= self.lines.len(),
                ls == texts(self.lines@),
                forall|k: int| 0 <= k < i ==> !line_annotated(#[trigger] ls[k]),
            decreases self.lines.len() - i,
        {
            assert(ls[i as int] == self.lines@[i as int]@);
            let cs = chars_of(&self.lines[i]);
            if classify(&cs, Scheme::Sections) == RowKind::Note {
                assert(line_annotated(self.content().lines[i as int]));
                return true;
            }
            if crate::rows::inline_of(&cs, Scheme::Sections).is_some() {
                assert(line_annotated(self.content().lines[i as int]));
                return true;
            }
            i = i + 1;
        }
        false
    }

    fn place(&mut self, at: usize, kind: CommentKind, text: Option<&str>)
        requires
            at < old(self).content().lines.len(),
            ({
                let t = old(self).content().lines[at as int];
                row_kind(t, Scheme::Sections) == RowKind::Entry || heads(t)
            }),
        ensures
            final(self).content() == ini_placed(
                old(self).content(),
                at as int,
                kind,
                crate::strings::flags_view(text),
            ),
    {
        let ghost ls = texts(self.lines@);
        assert(ls[at as int] == self.lines@[at as int]@);
        if kind == CommentKind::Inline {
            let line = rewrite_inline(&self.lines[at], text);
            let ghost now = line@;
            self.lines.set(at, line);
            assert(texts(self.lines@) =~= ls.update(at as int, now));
        } else {
            let source = concat(&self.lines);
            let indent = leading_indent(&self.lines[at]);
            let out = place_line_comment(
                &source,
                at,
                kind == CommentKind::Head,
                indent,
                &style(),
                text,
            );
            self.lines = split_lines(&out);
        }
    }
}

impl Document for Ini {
    open spec fn source_of(d: IniDoc) -> Seq<char> {
        ini_source(d)
    }

    open spec fn commented_of(d: IniDoc) -> Seq<Cmt> {
        seq![ini_commented(d)]
    }

    open spec fn note_in(d: IniDoc, at: int, path: Seq<St>, kind: CommentKind, text: Seq<char>) -> Result<
        (IniDoc, Seq<Seq<char>>),
        Er,
    > {
        ini_noted(d, path, kind, text)
    }

    open spec fn unnote_in(d: IniDoc, path: Seq<St>, kind: CommentKind) -> Result<IniDoc, Er> {
        Ok(ini_unnoted(d, path, kind))
    }

    /// Comments and a single level of named sections.
    open spec fn features_of() -> Seq<Feature> {
        seq![Feature::Comments, Feature::Sections]
    }

    fn to_source(&self) -> (r: String) {
        with_bom(self.bom, concat(&self.lines))
    }

    fn features(&self) -> (r: Vec<Feature>) {
        vec![Feature::Comments, Feature::Sections]
    }

    fn to_commented_all(&self) -> (r: Vec<Commented>) {
        let mut out: Vec<Commented> = Vec::new();
        if let Some(c) = self.to_commented() {
            out.push(c);
        }
        assert(cmts(out@) =~= seq![ini_commented(self.content())]);
        out
    }

    fn set_comment_in_doc(&mut self, at: usize, path: &Vec<Step>, kind: CommentKind, text: &str) -> (r: Result<
        Vec<String>,
        EditError,
    >) {
        let line: usize = resolve_target(&self.lines, path)?;
        assert(texts(self.lines@)[line as int] == self.lines@[line as int]@);
        self.place(line, kind, Some(text));
        let none: Vec<String> = Vec::new();
        assert(texts(none@) =~= Seq::<Seq<char>>::empty());
        Ok(none)
    }

    fn delete_comment(&mut self, path: &Vec<Step>, kind: CommentKind) -> (r: Result<
        (),
        EditError,
    >) {
        if let Ok(line) = resolve_target(&self.lines, path) {
            assert(texts(self.lines@)[line as int] == self.lines@[line as int]@);
            self.place(line, kind, None);
        }
        Ok(())
    }
}

/// An inline comment, as it is written behind a value.
pub open spec fn inline_suffix(n: Option<Seq<char>>) -> Seq<char> {
    match n {
        Some(t) => "  ; "@ + one_line(t),
        None => Seq::empty(),
    }
}

/// One flattened line, with its comments.
pub open spec fn flat_row(e: Flat) -> Seq<char> {
    comment_rows(ini_style(), ""@, e.notes.head, e.notes.head.len()) + (e.key + " = "@ + e.value)
        + inline_suffix(e.notes.inline) + "\n"@ + comment_rows(
        ini_style(),
        ""@,
        e.notes.foot,
        e.notes.foot.len(),
    )
}

/// The first `n` flattened lines.
pub open spec fn flat_rows(es: Seq<Flat>, n: nat) -> Seq<char>
    decreases n,
{
    if n == 0 {
        Seq::empty()
    } else {
        flat_rows(es, (n - 1) as nat) + flat_row(es[n - 1])
    }
}

/// The flattened lines of the first `n` members; without those that are
/// sections, if `scalars` is set.
pub open spec fn member_flats(m: Seq<(Seq<char>, Cmt)>, scalars: bool, n: nat) -> Seq<Flat>
    decreases n,
{
    if n == 0 {
        Seq::empty()
    } else {
        let before = member_flats(m, scalars, (n - 1) as nat);
        let (name, c) = m[n - 1];
        if scalars && c.node is Object {
            before
        } else {
            before + flattened(name, c)
        }
    }
}

/// The members of a node; a node that is no object has none.
pub open spec fn node_members(c: Cmt) -> Seq<(Seq<char>, Cmt)> {
    match c.node {
        CmtNode::Object(m) => m,
        _ => Seq::empty(),
    }
}

/// The lines of a section's body.
pub open spec fn section_flats(c: Cmt) -> Seq<Flat> {
    member_flats(node_members(c), false, node_members(c).len())
}

/// A section: a blank line in front if anything precedes it, its comments, its
/// header and its lines.
pub open spec fn section_text(name: Seq<char>, c: Cmt, first: bool) -> Seq<char> {
    (if first {
        Seq::empty()
    } else {
        "\n"@
    }) + comment_rows(ini_style(), ""@, c.notes.head, c.notes.head.len()) + ("["@ + name + "]"@)
        + inline_suffix(c.notes.inline) + "\n"@ + flat_rows(
        section_flats(c),
        section_flats(c).len(),
    ) + comment_rows(ini_style(), ""@, c.notes.foot, c.notes.foot.len())
}

/// The text so far, with the sections among the first `n` members.
pub open spec fn with_sections(out: Seq<char>, m: Seq<(Seq<char>, Cmt)>, n: nat) -> Seq<char>
    decreases n,
{
    if n == 0 {
        out
    } else {
        let before = with_sections(out, m, (n - 1) as nat);
        let (name, c) = m[n - 1];
        if c.node is Object {
            before + section_text(name, c, before.len() == 0)
        } else {
            before
        }
    }
}

/// Was anything in the sections among the first `n` members flattened?
pub open spec fn sections_dotted(m: Seq<(Seq<char>, Cmt)>, n: nat) -> bool
    decreases n,
{
    n > 0 && (sections_dotted(m, (n - 1) as nat) || (m[n - 1].1.node is Object && any_dotted(
        section_flats(m[n - 1].1),
    )))
}

/// The comments that trail a document: its inline comment has no line of its
/// own, so it goes with the foot.
pub open spec fn trailing_notes(n: Notes) -> Seq<Seq<char>> {
    crate::comment::opt_line(n.inline) + n.foot
}

/// The text a commented value is written as, and the warnings that go with it.
pub open spec fn ini_emitted(c: Cmt) -> Result<(Seq<char>, Seq<Seq<char>>), Er> {
    match c.node {
        CmtNode::Object(m) => {
            let pre = member_flats(m, true, m.len());
            let head = comment_rows(ini_style(), ""@, c.notes.head, c.notes.head.len());
            let tail = trailing_notes(c.notes);
            Ok(
                (
                    with_sections(head + flat_rows(pre, pre.len()), m, m.len()) + comment_rows(
                        ini_style(),
                        ""@,
                        tail,
                        tail.len(),
                    ),
                    text_if(
                        any_dotted(pre) || sections_dotted(m, m.len()),
                        "nested/array values were flattened to dotted keys"@,
                    ),
                ),
            )
        },
        _ => Err(fail("INI output requires a top-level object"@)),
    }
}

fn push_inline(out: &mut String, inline: &Option<String>)
    ensures
        final(out)@ == old(out)@ + inline_suffix(crate::model::opt_text(*inline)),
{
    if let Some(t) = inline {
        out.append("  ; ");
        out.append(&sanitize_comment_line(t));
    }
    assert(out@ =~= old(out)@ + inline_suffix(crate::model::opt_text(*inline)));
}

fn push_flat_entry(out: &mut String, e: &FlatEntry)
    ensures
        final(out)@ == old(out)@ + flat_row(e@),
{
    let style = style();
    out.append(&style.block(&e.comments.head, ""));
    out.append(&e.key);
    out.append(" = ");
    out.append(&e.value);
    push_inline(out, &e.comments.inline);
    out.append("\n");
    out.append(&style.block(&e.comments.foot, ""));
    assert(out@ =~= old(out)@ + flat_row(e@));
}

/// Write flattened lines, and tell whether any has a dotted key.
fn push_flats(out: &mut String, es: &Vec<FlatEntry>) -> (r: bool)
    ensures
        final(out)@ == old(out)@ + flat_rows(flats(es@), es@.len()),
        r == any_dotted(flats(es@)),
{
    let ghost all = flats(es@);
    let ghost start = out@;
    let mut dotted = false;
    let mut i: usize = 0;
    assert(out@ =~= start + flat_rows(all, 0));
    while i < es.len()
        invariant
            i <= es.len(),
            all == flats(es@),
            out@ == start + flat_rows(all, i as nat),
            dotted == exists|k: int| 0 <= k < i && (#[trigger] all[k]).key.contains('.'),
        decreases es.len() - i,
    {
        assert(all[i as int] == es@[i as int]@);
        push_flat_entry(out, &es[i]);
        assert(out@ =~= start + flat_rows(all, (i + 1) as nat));
        if has_dot(&es[i].key) {
            dotted = true;
        }
        i = i + 1;
    }
    dotted
}

fn collect_flats(entries: &Vec<(String, Commented)>, scalars: bool) -> (r: Vec<FlatEntry>)
    ensures
        flats(r@) == member_flats(cmt_members(entries@), scalars, entries@.len()),
{
    let ghost m = cmt_members(entries@);
    let mut out: Vec<FlatEntry> = Vec::new();
    assert(flats(out@) =~= Seq::<Flat>::empty());
    let mut i: usize = 0;
    while i < entries.len()
        invariant
            i <= entries.len(),
            m == cmt_members(entries@),
            flats(out@) == member_flats(m, scalars, i as nat),
        decreases entries.len() - i,
    {
        let (name, c) = &entries[i];
        assert(m[i as int] == (name@, c@));
        let section = matches!(c.node, CommentedNode::Object(_));
        if !(scalars && section) {
            let ghost held = flats(out@);
            let mut more = flatten_node(name, c);
            let ghost add = flats(more@);
            out.append(&mut more);
            assert(flats(out@) =~= held + add);
        }
        i = i + 1;
    }
    out
}

fn push_section(out: &mut String, name: &str, c: &Commented, body: &Vec<(String, Commented)>) -> (r: bool)
    requires
        c@.node == CmtNode::Object(cmt_members(body@)),
    ensures
        final(out)@ == old(out)@ + section_text(name@, c@, old(out)@.len() == 0),
        r == any_dotted(section_flats(c@)),
{
    let style = style();
    let ghost start = out@;
    if out.as_str().unicode_len() > 0 {
        out.append("\n");
    }
    out.append(&style.block(&c.comments.head, ""));
    out.append("[");
    out.append(name);
    out.append("]");
    push_inline(out, &c.comments.inline);
    out.append("\n");
    let es = collect_flats(body, false);
    let dotted = push_flats(out, &es);
    out.append(&style.block(&c.comments.foot, ""));
    assert(out@ =~= start + section_text(name@, c@, start.len() == 0));
    dotted
}

/// Emit a commented value as INI: top-level scalars become preamble entries,
/// top-level objects become `[section]`s (deeper nesting flattened to dotted
/// keys), arrays flatten to indexed dotted keys. Comments place natively
/// (head/foot as `; ` lines, inline after the value), so nothing warns beyond
/// the flatten warning.
pub fn emit_commented(c: &Commented) -> (r: Result<(String, Vec<String>), EditError>)
    ensures
        emission(r) == ini_emitted(c@),
{
    let entries = match &c.node {
        CommentedNode::Object(m) => m,
        _ => {
            return Err(EditError::new("INI output requires a top-level object"));
        },
    };
    let ghost m = cmt_members(entries@);
    assert(c@.node == CmtNode::Object(m));
    let style = style();
    let mut out = style.block(&c.comments.head, "");
    // Preamble: top-level scalars and arrays, in order.
    let pre = collect_flats(entries, true);
    let mut dotted = push_flats(&mut out, &pre);
    let ghost base = out@;
    let ghost first = dotted;
    // Sections: top-level objects, in order.
    let mut i: usize = 0;
    while i < entries.len()
        invariant
            i <= entries.len(),
            m == cmt_members(entries@),
            out@ == with_sections(base, m, i as nat),
            dotted == (first || sections_dotted(m, i as nat)),
        decreases entries.len() - i,
    {
        let (name, v) = &entries[i];
        assert(m[i as int] == (name@, v@));
        if let CommentedNode::Object(body) = &v.node {
            assert(v@.node == CmtNode::Object(cmt_members(body@)));
            if push_section(&mut out, name, v, body) {
                dotted = true;
            }
        }
        i = i + 1;
    }
    let mut tail: Vec<String> = Vec::new();
    if let Some(t) = &c.comments.inline {
        tail.push(t.clone());
    }
    crate::comment::extend_texts(&mut tail, &c.comments.foot);
    assert(texts(tail@) =~= trailing_notes(c@.notes));
    out.append(&style.block(&tail, ""));
    let mut warnings: Vec<String> = Vec::new();
    if dotted {
        warnings.push("nested/array values were flattened to dotted keys".to_owned());
    }
    assert(texts(warnings@) =~= text_if(
        dotted,
        "nested/array values were flattened to dotted keys"@,
    ));
    Ok((out, warnings))
}

/// Emit a value as INI: top-level scalars become preamble entries, top-level
/// objects become `[section]`s (deeper nesting flattened to dotted keys), and
/// arrays flatten to indexed dotted keys. Returns the text and any warnings.
/// (The comment-free case of [`emit_commented`].)
pub fn emit(value: &Value) -> (r: Result<(String, Vec<String>), EditError>)
    ensures
        emission(r) == ini_emitted(crate::comment::bare(value@)),
{
    emit_commented(&Commented::from_value(value))
}

/// A document as parsing and editing make them: its lines are lines, and none is
/// malformed.
pub open spec fn ini_ok(d: IniDoc) -> bool {
    are_lines(d.lines) && !malformed(d.lines, Scheme::Sections)
}

/// Parsing loses nothing: a parsed document's text is its source, character for
/// character.
pub proof fn ini_round_trips(src: Seq<char>)
    requires
        ini_parsed(src) is Ok,
    ensures
        ini_source(ini_parsed(src)->Ok_0) == src,
        ini_ok(ini_parsed(src)->Ok_0),
{
    let body = if src.len() > 0 && src[0] == '\u{feff}' {
        src.drop_first()
    } else {
        src
    };
    lines_round_trip(body);
    lines_are_lines(body);
    assert(ini_source(ini_parsed(src)->Ok_0) =~= src);
}

/// The text of a document parses back as that document. A first line that starts
/// with the byte-order mark character would be read as a mark.
pub proof fn ini_text_parses_back(d: IniDoc)
    requires
        ini_ok(d),
        d.bom || d.lines.len() == 0 || d.lines[0][0] != '\u{feff}',
    ensures
        ini_parsed(ini_source(d)) == Ok::<IniDoc, Seq<char>>(d),
{
    lines_of_flat(d.lines);
    let src = ini_source(d);
    if d.bom {
        assert(src.drop_first() =~= flat(d.lines));
    } else if d.lines.len() > 0 {
        flat_starts(d.lines);
        assert(src == flat(d.lines));
    } else {
        assert(flat(d.lines) =~= Seq::<char>::empty());
    }
}

/// Do two lines read alike?
spec fn alike(a: Seq<char>, b: Seq<char>) -> bool {
    &&& row_kind(a, Scheme::Sections) == row_kind(b, Scheme::Sections)
    &&& row_kind(a, Scheme::Sections) == RowKind::Entry ==> entry_key(a, Scheme::Sections)
        == entry_key(b, Scheme::Sections) && entry_value(a, Scheme::Sections) == entry_value(
        b,
        Scheme::Sections,
    )
    &&& heads(a) ==> header_name(a) == header_name(b)
}

pub proof fn header_from_is(lines: Seq<Seq<char>>, i: int, r: int)
    requires
        0 <= i <= r <= lines.len(),
        forall|k: int| i <= k < r ==> !heads(#[trigger] lines[k]),
        r < lines.len() ==> heads(lines[r]),
    ensures
        header_from(lines, i) == r,
    decreases lines.len() - i,
{
    if i < r {
        header_from_is(lines, i + 1, r);
    }
}

proof fn named_from_is(lines: Seq<Seq<char>>, name: Seq<char>, i: int, r: int)
    requires
        0 <= i <= r <= lines.len(),
        forall|k: int| i <= k < r ==> !heads_named(#[trigger] lines[k], name),
        r < lines.len() ==> heads_named(lines[r], name),
    ensures
        named_from(lines, name, i) == r,
    decreases lines.len() - i,
{
    if i < r {
        named_from_is(lines, name, i + 1, r);
    }
}

/// Where line `i` moves when a line is put in at `p`.
spec fn moved(i: int, p: int) -> int {
    if i < p {
        i
    } else {
        i + 1
    }
}

/// `big` is `small` with one line, no header, put in at `p`.
spec fn widened(small: Seq<Seq<char>>, big: Seq<Seq<char>>, p: int) -> bool {
    &&& 0 <= p <= small.len()
    &&& big.len() == small.len() + 1
    &&& forall|i: int| 0 <= i < small.len() ==> alike(big[moved(i, p)], #[trigger] small[i])
    &&& !heads(big[p])
}

proof fn widened_headers(small: Seq<Seq<char>>, big: Seq<Seq<char>>, p: int, i: int)
    requires
        widened(small, big, p),
        0 <= i <= small.len(),
    ensures
        i <= p ==> header_from(big, i) == moved(header_from(small, i), p),
        i >= p ==> header_from(big, i + 1) == moved(header_from(small, i), p),
{
    header_from_bounds(small, i);
    let r = header_from(small, i);
    let q = moved(r, p);
    let from = if i <= p {
        i
    } else {
        i + 1
    };
    assert forall|k: int| from <= k < q implies !heads(#[trigger] big[k]) by {
        if k < p {
            assert(alike(big[moved(k, p)], small[k]));
        } else if k > p {
            assert(alike(big[moved(k - 1, p)], small[k - 1]));
        }
    }
    if r < small.len() {
        assert(alike(big[moved(r, p)], small[r]));
    }
    if i <= p {
        header_from_is(big, i, q);
    }
    if i >= p {
        header_from_is(big, i + 1, q);
    }
}

proof fn widened_named(small: Seq<Seq<char>>, big: Seq<Seq<char>>, p: int, name: Seq<char>)
    requires
        widened(small, big, p),
    ensures
        named_from(big, name, 0) == moved(named_from(small, name, 0), p),
{
    named_from_bounds(small, name, 0);
    let r = named_from(small, name, 0);
    let q = moved(r, p);
    assert forall|k: int| 0 <= k < q implies !heads_named(#[trigger] big[k], name) by {
        if k < p {
            assert(alike(big[moved(k, p)], small[k]));
        } else if k > p {
            assert(alike(big[moved(k - 1, p)], small[k - 1]));
        }
    }
    if r < small.len() {
        assert(alike(big[moved(r, p)], small[r]));
    }
    named_from_is(big, name, 0, q);
}

/// Does the body of the section reach over line `p`?
pub open spec fn covers(lines: Seq<Seq<char>>, section: Option<Seq<char>>, p: int) -> bool {
    match body_lines(lines, section) {
        Some((from, to)) => from <= p < to,
        None => false,
    }
}

/// The other entries move along when a line is put in.
proof fn widened_entries(
    small: Seq<Seq<char>>,
    big: Seq<Seq<char>>,
    p: int,
    section: Option<Seq<char>>,
    key: Seq<char>,
)
    requires
        widened(small, big, p),
        !holds_key(big[p], Scheme::Sections, key) || !covers(big, section, p),
    ensures
        match entry_line(small, section, key) {
            Some(i) => entry_line(big, section, key) == Some(moved(i, p)) && 0 <= i < small.len(),
            None => entry_line(big, section, key) is None,
        },
{
    match section {
        None => {
            widened_headers(small, big, p, 0);
            header_from_bounds(small, 0);
        },
        Some(name) => {
            widened_named(small, big, p, name);
            named_from_bounds(small, name, 0);
            let h = named_from(small, name, 0);
            if h < small.len() {
                widened_headers(small, big, p, h + 1);
                header_from_bounds(small, h + 1);
            }
        },
    }
    match body_lines(small, section) {
        None => {},
        Some((from, to)) => {
            let g = Scheme::Sections;
            let (f, t) = body_lines(big, section)->0;
            assert(t == moved(to, p));
            assert(f == from || (f == from + 1 && from > p));
            entry_from_bounds(small, g, key, from, to);
            let r = entry_from(small, g, key, from, to);
            let q = moved(r, p);
            assert forall|k: int| f <= k < q implies !holds_key(#[trigger] big[k], g, key) by {
                if k < p {
                    assert(alike(big[moved(k, p)], small[k]));
                } else if k > p {
                    assert(alike(big[moved(k - 1, p)], small[k - 1]));
                }
            }
            if r < to {
                assert(alike(big[moved(r, p)], small[r]));
            }
            entry_from_is(big, g, key, f, t, q);
        },
    }
}

/// Two addresses of one entry are the same section.
proof fn one_section(lines: Seq<Seq<char>>, a: Option<Seq<char>>, b: Option<Seq<char>>, p: int)
    requires
        covers(lines, a, p),
        covers(lines, b, p),
    ensures
        a == b,
{
    header_from_bounds(lines, 0);
    if let Some(x) = a {
        named_from_bounds(lines, x, 0);
        header_from_bounds(lines, named_from(lines, x, 0) + 1);
    }
    if let Some(y) = b {
        named_from_bounds(lines, y, 0);
        header_from_bounds(lines, named_from(lines, y, 0) + 1);
    }
}

/// An entry's line lies in its section's body and holds its key.
pub proof fn entry_line_bounds(lines: Seq<Seq<char>>, section: Option<Seq<char>>, key: Seq<char>)
    ensures
        match entry_line(lines, section, key) {
            Some(i) => 0 <= i < lines.len() && covers(lines, section, i) && holds_key(
                lines[i],
                Scheme::Sections,
                key,
            ),
            None => true,
        },
{
    header_from_bounds(lines, 0);
    if let Some(x) = section {
        named_from_bounds(lines, x, 0);
        if named_from(lines, x, 0) < lines.len() {
            header_from_bounds(lines, named_from(lines, x, 0) + 1);
        }
    }
    match body_lines(lines, section) {
        Some((from, to)) => {
            entry_from_bounds(lines, Scheme::Sections, key, from, to);
        },
        None => {},
    }
}

/// Deleting removes one line at most: every other entry keeps its value, and a
/// missing entry changes nothing.
pub proof fn ini_delete_keeps_others(d: IniDoc, path: Seq<St>, other: Seq<St>)
    requires
        ini_ok(d),
        entry_address(other) != entry_address(path),
    ensures
        ini_value(ini_delete(d, path), other) == ini_value(d, other),
        ini_value(d, path) is None ==> ini_delete(d, path) == d,
        ini_value(d, path) is Some ==> ini_delete(d, path).lines.len() == d.lines.len() - 1,
        ini_ok(ini_delete(d, path)),
{
    let now = ini_delete(d, path);
    match path_line(d.lines, path) {
        None => {},
        Some(p) => {
            let (section, key) = entry_address(path)->0;
            entry_line_bounds(d.lines, section, key);
            let small = now.lines;
            let big = d.lines;
            assert forall|i: int| 0 <= i < small.len() implies alike(
                big[moved(i, p)],
                #[trigger] small[i],
            ) by {
                assert(small[i] == big[moved(i, p)]);
            }
            assert(widened(small, big, p));
            assert forall|i: int| 0 <= i < small.len() implies row_kind(
                #[trigger] small[i],
                Scheme::Sections,
            ) != RowKind::Bad by {
                assert(small[i] == big[moved(i, p)]);
            }
            match entry_address(other) {
                None => {},
                Some((s2, k2)) => {
                    if holds_key(big[p], Scheme::Sections, k2) && covers(big, s2, p) {
                        one_section(big, section, s2, p);
                    }
                    widened_entries(small, big, p, s2, k2);
                },
            }
        },
    }
}

/// A new section's header reads as the header of that section.
pub proof fn new_header_reads_back(name: Seq<char>, eol: Seq<char>)
    requires
        section_fault(name) is None,
        eol == "\n"@ || eol == "\r\n"@,
    ensures
        heads_named(new_header(name, eol), name),
        crate::lines::is_line(new_header(name, eol)),
        new_header(name, eol).last() == '\n',
        header_end(new_header(name, eol)) == name.len() + 2,
        crate::rows::close_at(new_header(name, eol)) < body_end(new_header(name, eol)),
{
    reveal_strlit("\n");
    reveal_strlit("\r\n");
    reveal_strlit("[");
    reveal_strlit("]");
    let t = new_header(name, eol);
    let n = name.len() as int;
    assert(t[0] == '[');
    assert(forall|k: int| 1 <= k < 1 + n ==> t[k] == name[k - 1]);
    assert(t[1 + n] == ']');
    assert(forall|k: int| 2 + n <= k < t.len() ==> t[k] == eol[k - 2 - n]);
    assert(body_end(t) == 2 + n);
    assert(crate::rows::text_at(t) == 0);
    assert(forall|k: int| 0 <= k < name.len() ==> #[trigger] name[k] != ']') by {
        assert forall|k: int| 0 <= k < name.len() implies #[trigger] name[k] != ']' by {
            if name[k] == ']' {
                assert(name.contains(']'));
            }
        }
    }
    crate::rows::close_from_is(t, 1, body_end(t), 1 + n);
    assert(header_name(t) =~= name);
}

proof fn terminated_alike(lines: Seq<Seq<char>>, eol: Seq<char>)
    requires
        are_lines(lines),
        !malformed(lines, Scheme::Sections),
        eol == "\n"@ || eol == "\r\n"@,
    ensures
        terminated(lines, eol).len() == lines.len(),
        are_lines(terminated(lines, eol)),
        forall|i: int|
            0 <= i < lines.len() ==> alike(terminated(lines, eol)[i], #[trigger] lines[i])
                && terminated(lines, eol)[i].last() == '\n',
{
    if lines.len() > 0 && lines.last().last() != '\n' {
        assert(row_kind(lines.last(), Scheme::Sections) != RowKind::Bad);
        terminated_line_reads_alike(lines.last(), Scheme::Sections, eol);
    }
}

/// A blank line reads as one.
proof fn blank_line(eol: Seq<char>)
    requires
        eol == "\n"@ || eol == "\r\n"@,
    ensures
        row_kind(eol, Scheme::Sections) == RowKind::Blank,
        crate::lines::is_line(eol),
        eol.last() == '\n',
{
    reveal_strlit("\n");
    reveal_strlit("\r\n");
    assert(body_end(eol) == 0);
}

/// What is written reads back: after an edit that is not refused, the entry has
/// exactly the text it was set to, every other entry keeps its value, and the
/// document is one that its own text parses back as.
pub proof fn ini_set_reads_back(d: IniDoc, path: Seq<St>, v: Val, other: Seq<St>)
    requires
        ini_ok(d),
        ini_set(d, path, v) is Ok,
        entry_address(other) != entry_address(path),
    ensures
        ({
            let now = ini_set(d, path, v)->Ok_0;
            let text = scalar_text(v, "INI"@)->Ok_0;
            &&& ini_value(now, path) == Some(Val::Str(text))
            &&& ini_value(now, other) == ini_value(d, other)
            &&& ini_ok(now)
            &&& now.bom == d.bom
        }),
{
    let g = Scheme::Sections;
    let now = ini_set(d, path, v)->Ok_0;
    let text = scalar_text(v, "INI"@)->Ok_0;
    assert(value_fault(text) is None);
    assert(plain_value(g, text));
    let (section, key) = entry_address(path)->0;
    match path_line(d.lines, path) {
        Some(at) => {
            set_existing(d, section, key, text, at);
            entry_line_bounds(d.lines, section, key);
            assert(now.lines == revalued(d, at, text));
            if let Some((s2, k2)) = entry_address(other) {
                set_existing_keeps(d, section, key, text, at, s2, k2);
            }
        },
        None => {
            assert(key_fault(key) is None);
            assert(plain_key(g, key));
            match body_lines(d.lines, section) {
                Some((from, to)) => {
                    inserted_in_section(d, section, key, text);
                    assert(now.lines == inserted_lines(d.lines, section, key, text));
                    if let Some((s2, k2)) = entry_address(other) {
                        inserted_keeps(d, section, key, text, s2, k2);
                    }
                },
                None => {
                    section_created(d, section->0, key, text);
                    assert(now.lines == inserted_lines(d.lines, section, key, text));
                    if let Some((s2, k2)) = entry_address(other) {
                        section_created_keeps(d, section->0, key, text, s2, k2);
                    }
                },
            }
        },
    }
}

/// The document with the value of the entry at line `at` replaced.
spec fn revalued(d: IniDoc, at: int, text: Seq<char>) -> Seq<Seq<char>> {
    d.lines.update(at, with_value(d.lines[at], Scheme::Sections, text))
}

proof fn same_shape(a: Seq<Seq<char>>, b: Seq<Seq<char>>, section: Option<Seq<char>>, key: Seq<char>)
    requires
        a.len() == b.len(),
        forall|i: int|
            0 <= i < a.len() ==> row_kind(#[trigger] a[i], Scheme::Sections) == row_kind(
                b[i],
                Scheme::Sections,
            ) && (row_kind(a[i], Scheme::Sections) == RowKind::Entry ==> entry_key(
                a[i],
                Scheme::Sections,
            ) == entry_key(b[i], Scheme::Sections)) && (heads(a[i]) ==> header_name(a[i])
                == header_name(b[i])),
    ensures
        entry_line(a, section, key) == entry_line(b, section, key),
        body_lines(a, section) == body_lines(b, section),
{
    header_from_bounds(b, 0);
    header_from_is(a, 0, header_from(b, 0));
    if let Some(name) = section {
        named_from_bounds(b, name, 0);
        named_from_is(a, name, 0, named_from(b, name, 0));
        let h = named_from(b, name, 0);
        if h < b.len() {
            header_from_bounds(b, h + 1);
            header_from_is(a, h + 1, header_from(b, h + 1));
        }
    }
    match body_lines(b, section) {
        Some((from, to)) => {
            entry_from_bounds(b, Scheme::Sections, key, from, to);
            entry_from_is(
                a,
                Scheme::Sections,
                key,
                from,
                to,
                entry_from(b, Scheme::Sections, key, from, to),
            );
        },
        None => {},
    }
}

proof fn set_existing(d: IniDoc, section: Option<Seq<char>>, key: Seq<char>, text: Seq<char>, at: int)
    requires
        ini_ok(d),
        plain_value(Scheme::Sections, text),
        entry_line(d.lines, section, key) == Some(at),
    ensures
        entry_line(revalued(d, at, text), section, key) == Some(at),
        entry_value(revalued(d, at, text)[at], Scheme::Sections) == text,
        are_lines(revalued(d, at, text)),
        !malformed(revalued(d, at, text), Scheme::Sections),
{
    let now = revalued(d, at, text);
    entry_line_bounds(d.lines, section, key);
    replaced_value_reads_back(d.lines[at], Scheme::Sections, text);
    replaced_value_is_line(d.lines[at], Scheme::Sections, text);
    same_shape(now, d.lines, section, key);
    assert forall|i: int| 0 <= i < now.len() implies row_kind(#[trigger] now[i], Scheme::Sections)
        != RowKind::Bad by {
        assert(row_kind(d.lines[i], Scheme::Sections) != RowKind::Bad);
    }
}

proof fn set_existing_keeps(
    d: IniDoc,
    section: Option<Seq<char>>,
    key: Seq<char>,
    text: Seq<char>,
    at: int,
    s2: Option<Seq<char>>,
    k2: Seq<char>,
)
    requires
        ini_ok(d),
        plain_value(Scheme::Sections, text),
        entry_line(d.lines, section, key) == Some(at),
        (s2, k2) != (section, key),
    ensures
        entry_line(revalued(d, at, text), s2, k2) == entry_line(d.lines, s2, k2),
        match entry_line(d.lines, s2, k2) {
            Some(i) => 0 <= i < d.lines.len() && i != at,
            None => true,
        },
{
    let now = revalued(d, at, text);
    entry_line_bounds(d.lines, section, key);
    entry_line_bounds(d.lines, s2, k2);
    replaced_value_reads_back(d.lines[at], Scheme::Sections, text);
    same_shape(now, d.lines, s2, k2);
    if entry_line(d.lines, s2, k2) == Some(at) {
        one_section(d.lines, section, s2, at);
    }
}

proof fn content_end_bounds(lines: Seq<Seq<char>>, lo: int, hi: int)
    requires
        lo <= hi,
    ensures
        lo <= content_end(lines, lo, hi) <= hi,
    decreases hi - lo,
{
    if lo < hi && row_kind(lines[hi - 1], Scheme::Sections) == RowKind::Blank {
        content_end_bounds(lines, lo, hi - 1);
    }
}

proof fn body_bounds(lines: Seq<Seq<char>>, section: Option<Seq<char>>)
    ensures
        match body_lines(lines, section) {
            Some((from, to)) => 0 <= from <= to <= lines.len(),
            None => true,
        },
{
    header_from_bounds(lines, 0);
    if let Some(x) = section {
        named_from_bounds(lines, x, 0);
        if named_from(lines, x, 0) < lines.len() {
            header_from_bounds(lines, named_from(lines, x, 0) + 1);
        }
    }
}

/// The shape of an insertion into a section that is there.
proof fn inserted_shape(d: IniDoc, section: Option<Seq<char>>, key: Seq<char>, text: Seq<char>)
    requires
        ini_ok(d),
        plain_key(Scheme::Sections, key),
        plain_value(Scheme::Sections, text),
        body_lines(d.lines, section) is Some,
    ensures
        ({
            let (from, to) = body_lines(d.lines, section)->0;
            let p = content_end(d.lines, from, to);
            let now = inserted_lines(d.lines, section, key, text);
            &&& from <= p <= to <= d.lines.len()
            &&& widened(d.lines, now, p)
            &&& holds_key(now[p], Scheme::Sections, key)
            &&& entry_value(now[p], Scheme::Sections) == text
            &&& are_lines(now)
            &&& !malformed(now, Scheme::Sections)
        }),
{
    let (from, to) = body_lines(d.lines, section)->0;
    body_bounds(d.lines, section);
    content_end_bounds(d.lines, from, to);
    let p = content_end(d.lines, from, to);
    let eol = dominant_ending(flat(d.lines));
    dominant_is_an_ending(flat(d.lines));
    let front = d.lines.take(p);
    assert(are_lines(front)) by {
        assert forall|i: int| 0 <= i < front.len() - 1 implies (#[trigger] front[i]).last()
            == '\n' by {
            assert(d.lines[i].last() == '\n');
        }
    }
    assert(!malformed(front, Scheme::Sections)) by {
        assert forall|i: int| 0 <= i < front.len() implies row_kind(
            #[trigger] front[i],
            Scheme::Sections,
        ) != RowKind::Bad by {
            assert(row_kind(d.lines[i], Scheme::Sections) != RowKind::Bad);
        }
    }
    terminated_alike(front, eol);
    new_entry_reads_back(Scheme::Sections, key, text, eol);
    let now = inserted_lines(d.lines, section, key, text);
    let t = terminated(front, eol);
    assert(forall|i: int| 0 <= i < p ==> now[i] == t[i]);
    assert(now[p] == new_entry(Scheme::Sections, key, text, eol));
    assert(forall|i: int| p < i < now.len() ==> now[i] == d.lines[i - 1]);
    assert forall|i: int| 0 <= i < d.lines.len() implies alike(
        now[moved(i, p)],
        #[trigger] d.lines[i],
    ) by {
        if i < p {
            assert(front[i] == d.lines[i]);
            assert(alike(t[i], front[i]));
        }
    }
    assert forall|i: int| 0 <= i < now.len() implies row_kind(#[trigger] now[i], Scheme::Sections)
        != RowKind::Bad by {
        if i < p {
            assert(alike(now[moved(i, p)], d.lines[i]));
            assert(row_kind(d.lines[i], Scheme::Sections) != RowKind::Bad);
        } else if i > p {
            assert(row_kind(d.lines[i - 1], Scheme::Sections) != RowKind::Bad);
        }
    }
    assert forall|i: int| 0 <= i < now.len() - 1 implies (#[trigger] now[i]).last() == '\n' by {
        if i < p {
            assert(front[i] == d.lines[i]);
            assert(t[i].last() == '\n');
        } else if i > p {
            assert(d.lines[i - 1].last() == '\n');
        }
    }
}

proof fn inserted_in_section(d: IniDoc, section: Option<Seq<char>>, key: Seq<char>, text: Seq<char>)
    requires
        ini_ok(d),
        plain_key(Scheme::Sections, key),
        plain_value(Scheme::Sections, text),
        body_lines(d.lines, section) is Some,
        entry_line(d.lines, section, key) is None,
    ensures
        ({
            let now = inserted_lines(d.lines, section, key, text);
            &&& match entry_line(now, section, key) {
                Some(p) => entry_value(now[p], Scheme::Sections) == text,
                None => false,
            }
            &&& are_lines(now)
            &&& !malformed(now, Scheme::Sections)
        }),
{
    let g = Scheme::Sections;
    inserted_shape(d, section, key, text);
    let (from, to) = body_lines(d.lines, section)->0;
    let p = content_end(d.lines, from, to);
    let now = inserted_lines(d.lines, section, key, text);
    widened_headers(d.lines, now, p, 0);
    body_bounds(d.lines, section);
    if let Some(name) = section {
        widened_named(d.lines, now, p, name);
        named_from_bounds(d.lines, name, 0);
        widened_headers(d.lines, now, p, from);
    }
    assert(body_lines(now, section) == Some((from, to + 1)));
    entry_from_bounds(d.lines, g, key, from, to);
    assert forall|k: int| from <= k < p implies !holds_key(#[trigger] now[k], g, key) by {
        assert(alike(now[moved(k, p)], d.lines[k]));
    }
    entry_from_is(now, g, key, from, to + 1, p);
}

proof fn inserted_keeps(
    d: IniDoc,
    section: Option<Seq<char>>,
    key: Seq<char>,
    text: Seq<char>,
    s2: Option<Seq<char>>,
    k2: Seq<char>,
)
    requires
        ini_ok(d),
        plain_key(Scheme::Sections, key),
        plain_value(Scheme::Sections, text),
        body_lines(d.lines, section) is Some,
        entry_line(d.lines, section, key) is None,
        (s2, k2) != (section, key),
    ensures
        ({
            let now = inserted_lines(d.lines, section, key, text);
            match entry_line(d.lines, s2, k2) {
                Some(i) => match entry_line(now, s2, k2) {
                    Some(j) => entry_value(now[j], Scheme::Sections) == entry_value(
                        d.lines[i],
                        Scheme::Sections,
                    ),
                    None => false,
                },
                None => entry_line(now, s2, k2) is None,
            }
        }),
{
    let g = Scheme::Sections;
    inserted_shape(d, section, key, text);
    let (from, to) = body_lines(d.lines, section)->0;
    let p = content_end(d.lines, from, to);
    let now = inserted_lines(d.lines, section, key, text);
    widened_headers(d.lines, now, p, 0);
    body_bounds(d.lines, section);
    if let Some(name) = section {
        widened_named(d.lines, now, p, name);
        named_from_bounds(d.lines, name, 0);
        widened_headers(d.lines, now, p, from);
    }
    assert(covers(now, section, p));
    if holds_key(now[p], g, k2) && covers(now, s2, p) {
        one_section(now, section, s2, p);
    }
    widened_entries(d.lines, now, p, s2, k2);
    entry_line_bounds(d.lines, s2, k2);
    match entry_line(d.lines, s2, k2) {
        Some(i) => {
            assert(alike(now[moved(i, p)], d.lines[i]));
        },
        None => {},
    }
}

/// The shape of a file with a new section at its end.
proof fn created_shape(d: IniDoc, name: Seq<char>, key: Seq<char>, text: Seq<char>) -> (h: int)
    requires
        ini_ok(d),
        plain_key(Scheme::Sections, key),
        plain_value(Scheme::Sections, text),
        section_fault(name) is None,
        body_lines(d.lines, Some(name)) is None,
    ensures
        ({
            let n = d.lines.len() as int;
            let now = inserted_lines(d.lines, Some(name), key, text);
            &&& n <= h <= n + 1
            &&& now.len() == h + 2
            &&& forall|i: int| 0 <= i < n ==> alike(now[i], #[trigger] d.lines[i])
            &&& forall|i: int|
                n <= i < h ==> row_kind(#[trigger] now[i], Scheme::Sections) == RowKind::Blank
            &&& heads_named(now[h], name)
            &&& holds_key(now[h + 1], Scheme::Sections, key)
            &&& entry_value(now[h + 1], Scheme::Sections) == text
            &&& are_lines(now)
            &&& !malformed(now, Scheme::Sections)
        }),
{
    let n = d.lines.len() as int;
    let eol = dominant_ending(flat(d.lines));
    dominant_is_an_ending(flat(d.lines));
    terminated_alike(d.lines, eol);
    new_entry_reads_back(Scheme::Sections, key, text, eol);
    new_header_reads_back(name, eol);
    blank_line(eol);
    let t = terminated(d.lines, eol);
    let now = inserted_lines(d.lines, Some(name), key, text);
    let h = if n > 0 {
        n + 1
    } else {
        n
    };
    assert(forall|i: int| 0 <= i < n ==> now[i] == t[i]);
    assert(n > 0 ==> now[n] == eol);
    assert(now[h] == new_header(name, eol));
    assert(now[h + 1] == new_entry(Scheme::Sections, key, text, eol));
    assert forall|i: int| 0 <= i < now.len() implies row_kind(#[trigger] now[i], Scheme::Sections)
        != RowKind::Bad by {
        if i < n {
            assert(alike(t[i], d.lines[i]));
            assert(row_kind(d.lines[i], Scheme::Sections) != RowKind::Bad);
        }
    }
    assert forall|i: int| 0 <= i < now.len() - 1 implies (#[trigger] now[i]).last() == '\n' by {
        if i < n {
            assert(alike(t[i], d.lines[i]));
        }
    }
    assert forall|i: int| 0 <= i < now.len() implies crate::lines::is_line(#[trigger] now[i]) by {
        if i < n {
            assert(crate::lines::is_line(t[i]));
        }
    }
    h
}

proof fn section_created(d: IniDoc, name: Seq<char>, key: Seq<char>, text: Seq<char>)
    requires
        ini_ok(d),
        plain_key(Scheme::Sections, key),
        plain_value(Scheme::Sections, text),
        section_fault(name) is None,
        body_lines(d.lines, Some(name)) is None,
    ensures
        ({
            let now = inserted_lines(d.lines, Some(name), key, text);
            &&& match entry_line(now, Some(name), key) {
                Some(p) => entry_value(now[p], Scheme::Sections) == text,
                None => false,
            }
            &&& are_lines(now)
            &&& !malformed(now, Scheme::Sections)
        }),
{
    let h = created_shape(d, name, key, text);
    let now = inserted_lines(d.lines, Some(name), key, text);
    named_from_bounds(d.lines, name, 0);
    assert forall|k: int| 0 <= k < h implies !heads_named(#[trigger] now[k], name) by {
        if k < d.lines.len() {
            assert(alike(now[k], d.lines[k]));
        }
    }
    named_from_is(now, name, 0, h);
    header_from_is(now, h + 1, h + 2);
    entry_from_is(now, Scheme::Sections, key, h + 1, h + 2, h + 1);
}

proof fn section_created_keeps(
    d: IniDoc,
    name: Seq<char>,
    key: Seq<char>,
    text: Seq<char>,
    s2: Option<Seq<char>>,
    k2: Seq<char>,
)
    requires
        ini_ok(d),
        plain_key(Scheme::Sections, key),
        plain_value(Scheme::Sections, text),
        section_fault(name) is None,
        body_lines(d.lines, Some(name)) is None,
        (s2, k2) != (Some(name), key),
    ensures
        ({
            let now = inserted_lines(d.lines, Some(name), key, text);
            match entry_line(d.lines, s2, k2) {
                Some(i) => entry_line(now, s2, k2) == Some(i) && entry_value(
                    now[i],
                    Scheme::Sections,
                ) == entry_value(d.lines[i], Scheme::Sections),
                None => entry_line(now, s2, k2) is None,
            }
        }),
{
    let g = Scheme::Sections;
    let h = created_shape(d, name, key, text);
    let n = d.lines.len() as int;
    let now = inserted_lines(d.lines, Some(name), key, text);
    if s2 == Some(name) {
        named_from_bounds(d.lines, name, 0);
        assert forall|k: int| 0 <= k < h implies !heads_named(#[trigger] now[k], name) by {
            if k < n {
                assert(alike(now[k], d.lines[k]));
            }
        }
        named_from_is(now, name, 0, h);
        header_from_is(now, h + 1, h + 2);
        entry_from_is(now, g, k2, h + 1, h + 2, h + 2);
    } else {
        let from = match s2 {
            None => 0,
            Some(x) => {
                named_from_bounds(d.lines, x, 0);
                let a = named_from(d.lines, x, 0);
                assert forall|k: int| 0 <= k < a implies !heads_named(#[trigger] now[k], x) by {
                    if k < n {
                        assert(alike(now[k], d.lines[k]));
                    }
                }
                if a < n {
                    assert(alike(now[a], d.lines[a]));
                    named_from_is(now, x, 0, a);
                } else {
                    assert forall|k: int| 0 <= k < h + 2 implies !heads_named(
                        #[trigger] now[k],
                        x,
                    ) by {
                        if k < n {
                            assert(alike(now[k], d.lines[k]));
                        }
                    }
                    named_from_is(now, x, 0, h + 2);
                }
                a + 1
            },
        };
        if from <= n {
            header_from_bounds(d.lines, from);
            let to = header_from(d.lines, from);
            let t = if to < n {
                to
            } else {
                h
            };
            assert forall|k: int| from <= k < t implies !heads(#[trigger] now[k]) by {
                if k < n {
                    assert(alike(now[k], d.lines[k]));
                }
            }
            if to < n {
                assert(alike(now[to], d.lines[to]));
            }
            header_from_is(now, from, t);
            entry_from_bounds(d.lines, g, k2, from, to);
            let r = entry_from(d.lines, g, k2, from, to);
            assert forall|k: int| from <= k < r implies !holds_key(#[trigger] now[k], g, k2) by {
                assert(alike(now[k], d.lines[k]));
            }
            if r < to {
                assert(alike(now[r], d.lines[r]));
                entry_from_is(now, g, k2, from, t, r);
            } else {
                assert forall|k: int| from <= k < t implies !holds_key(
                    #[trigger] now[k],
                    g,
                    k2,
                ) by {
                    if k < n {
                        assert(alike(now[k], d.lines[k]));
                    }
                }
                entry_from_is(now, g, k2, from, t, t);
            }
        }
    }
}

} // verus!
