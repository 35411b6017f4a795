//! `.env` / `.properties` / `envspaced` documents.
//!
//! Flat, string-valued, honest line-level editing only: no grammar, no
//! interpolation, no quoting semantics, no inline comments. `key=value` /
//! `key:value` entries, `#`/`!` comments, and blanks round-trip exactly. Paths
//! are a single `.key`; edits change only the targeted value or line.
use crate::comment::{flatten_commented, flattened, flats, with_foot, Flat};
use crate::convert::{scalar_string, scalar_text};
use crate::document::Document;
use crate::env_syntax::{env_green, env_tree, env_tree_is_lossless};
use crate::error::{fail, EditError, Er};
use crate::feature::Feature;
use crate::float::FloatFacts;
use crate::line_comment::{
    comment_row, comment_rows, place_line_comment, placed, style_ok, LineComment, Style,
};
use crate::lines::{are_lines, concat, flat, flat_starts, lines_are_lines, lines_of, lines_of_flat, lines_round_trip, split_lines};
use crate::model::{
    cmt_members, cmts, group_comment_views, group_expr_views, group_value_views, steps_of, texts,
    Cmt, CmtNode, CommentKind, Commented, CommentedNode, Comments, Expr, St, Step, Val, Value,
};
use crate::mutate::{apply_mutation, attempt, done, mutated, opt_value, Mutable, MutationKind, Outcome};
use crate::rows::{
    any_dotted, any_separator, breaks, dominant_is_an_ending, emission, entry_from, entry_from_bounds, entry_from_is,
    entry_key, entry_members, entry_value, find_entry, has_bad_line, has_break, has_dot, has_separator, holds_key,
    is_padded, malformed, members_of, new_entry, new_entry_reads_back, padded, plain_key, plain_value, replace_value,
    replaced_value_is_line, replaced_value_reads_back, row_kind, spell_entry, terminate, terminated,
    terminated_line_reads_alike, text_if, value_of, walk, walked, with_value, RowKind, Scheme,
};
use crate::strs::{chars_of, debug_quoted, is_white, quoted_text, white_space};
use crate::syntax::{fits, green, green_holds, green_text};
use crate::text::{blanks_end, dominant, dominant_ending, leading_indent, marked, split_bom, with_bom};
use vstd::prelude::*;

verus! {

broadcast use {group_value_views, group_expr_views, group_comment_views};

/// Which separator spelling a document uses.
///
/// Not auto-detected: a `key value` line is indistinguishable from a malformed
/// `.env` line, and guessing wrong would silently edit the wrong bytes. The
/// caller states it.
#[derive(Debug, Clone, Copy, PartialEq, Eq, Structural)]
pub enum Dialect {
    /// `.env` / `.properties`: the first `=` or `:` ends the key.
    Punctuated,
    /// `envspaced`: the first run of spaces or tabs ends the key
    /// (`sshd_config`, `ssh_config`, `zoo.cfg`-adjacent daemon configs).
    ///
    /// Deliberately *not* an ssh_config parser: `Match` / `Host` blocks scope
    /// the keys beneath them, and this model is flat, so a file using them is
    /// out of scope rather than half-supported.
    Spaced,
}

impl Default for Dialect {
    fn default() -> (r: Dialect)
        ensures
            r == Dialect::Punctuated,
    {
        Dialect::Punctuated
    }
}

/// The line scheme of a dialect.
pub open spec fn scheme(d: Dialect) -> Scheme {
    match d {
        Dialect::Punctuated => Scheme::Punctuated,
        Dialect::Spaced => Scheme::Spaced,
    }
}

fn scheme_of(d: Dialect) -> (r: Scheme)
    ensures
        r == scheme(d),
{
    match d {
        Dialect::Punctuated => Scheme::Punctuated,
        Dialect::Spaced => Scheme::Spaced,
    }
}

/// The comment kinds this format supports. No inline: a `#` inside a value is
/// data, not a comment.
pub fn comment_kinds() -> (r: Vec<CommentKind>)
    ensures
        r@ == seq![CommentKind::Head, CommentKind::Foot],
{
    vec![CommentKind::Head, CommentKind::Foot]
}

/// A parse failure.
#[derive(Debug)]
pub struct ParseError {
    pub msg: String,
}

impl ParseError {
    /// The message.
    pub fn to_string(&self) -> (r: String)
        ensures
            r@ == self.msg@,
    {
        self.msg.clone()
    }
}

/// A parsed `.env` / `.properties` document.
pub struct Env {
    lines: Vec<String>,
    /// Remembered so an appended key is spelled the way the file spells its
    /// existing ones; a `key=value` line inside an envspaced file would not
    /// parse back as the same document.
    dialect: Dialect,
    /// The source opened with a UTF-8 byte-order mark: kept out of the lines
    /// (it would read as part of the first key) and restored by `to_source`.
    bom: bool,
}

/// The mathematical content of an [`Env`].
pub struct EnvDoc {
    pub lines: Seq<Seq<char>>,
    pub dialect: Dialect,
    pub bom: bool,
}

/// How comments are spelled.
pub open spec fn env_style() -> Style {
    Style { marks: seq!["#"@, "!"@], delim: "# "@ }
}

fn style() -> (r: LineComment)
    ensures
        r@ == env_style(),
        style_ok(r@),
{
    proof {
        reveal_strlit("#");
        reveal_strlit("!");
    }
    let r = LineComment { markers: &["#", "!"], delim: "# " };
    assert(r@.marks =~= env_style().marks);
    r
}

/// The text of a document.
pub open spec fn env_source(d: EnvDoc) -> Seq<char> {
    marked(d.bom, flat(d.lines))
}

/// The name of a dialect in messages.
pub open spec fn format_text(d: Dialect) -> Seq<char> {
    match d {
        Dialect::Punctuated => ".env"@,
        Dialect::Spaced => "envspaced"@,
    }
}

fn format_name(d: Dialect) -> (r: &'static str)
    ensures
        r@ == format_text(d),
{
    match d {
        Dialect::Punctuated => ".env",
        Dialect::Spaced => "envspaced",
    }
}

/// The refusal of a value the line format cannot hold, if it cannot.
pub open spec fn value_refusal(text: Seq<char>, d: Dialect) -> Option<Er> {
    let fmt = format_text(d);
    if breaks(text) {
        Some(
            fail(
                fmt
                    + " can't hold a value with a line break: the rest would read back as another line, and "@
                    + fmt + " has no quoting"@,
            ),
        )
    } else if padded(text) {
        Some(
            fail(
                fmt
                    + " can't hold a value with leading or trailing whitespace: it reads back trimmed, and "@
                    + fmt + " has no quoting ("@ + quoted_text(text) + ")"@,
            ),
        )
    } else {
        None
    }
}

/// Refuse a value this line format cannot hold: the scanner would read the line
/// back differently. There is no quoting to reach for, so the honest answer is
/// an error.
fn check_value(text: &str, d: Dialect) -> (r: Result<(), EditError>)
    ensures
        match value_refusal(text@, d) {
            Some(e) => done(r) == Err::<(), Er>(e),
            None => r is Ok,
        },
        r is Ok ==> plain_value(scheme(d), text@),
{
    let fmt = format_name(d);
    if has_break(text) {
        let mut m = fmt.to_owned();
        m.append(
            " can't hold a value with a line break: the rest would read back as another line, and ",
        );
        m.append(fmt);
        m.append(" has no quoting");
        return Err(EditError::of(m));
    }
    if is_padded(text) {
        let mut m = fmt.to_owned();
        m.append(
            " can't hold a value with leading or trailing whitespace: it reads back trimmed, and ",
        );
        m.append(fmt);
        m.append(" has no quoting (");
        m.append(&debug_quoted(text));
        m.append(")");
        return Err(EditError::of(m));
    }
    Ok(())
}

/// A text with white space in it.
pub open spec fn spacious(s: Seq<char>) -> bool {
    exists|i: int| 0 <= i < s.len() && white_space(#[trigger] s[i])
}

/// Why the format cannot hold a key, if it cannot.
pub open spec fn key_fault(key: Seq<char>, d: Dialect) -> Option<Seq<char>> {
    if breaks(key) {
        Some("a line break would split the line"@)
    } else if padded(key) {
        Some("leading or trailing whitespace reads back trimmed"@)
    } else if key.len() > 0 && (key[0] == '#' || key[0] == '!') {
        Some("a line starting with `#` or `!` is a comment"@)
    } else {
        match d {
            Dialect::Punctuated => if has_separator(Scheme::Punctuated, key) {
                Some("`=` or `:` would end the key early"@)
            } else {
                None
            },
            Dialect::Spaced => if key.len() == 0 {
                Some("the value would read back as the key"@)
            } else if spacious(key) {
                Some("whitespace would end the key early"@)
            } else {
                None
            },
        }
    }
}

fn any_white(s: &str) -> (r: bool)
    ensures
        r == spacious(s@),
{
    let cs = chars_of(s);
    let mut i: usize = 0;
    while i < cs.len()
        invariant
            i <= cs.len(),
            cs@ == s@,
            forall|k: int| 0 <= k < i ==> !white_space(#[trigger] s@[k]),
        decreases cs.len() - i,
    {
        assert(s@[i as int] == cs@[i as int]);
        if is_white(cs[i]) {
            return true;
        }
        i = i + 1;
    }
    false
}

/// The refusal of a key the format cannot hold, if it cannot.
pub open spec fn key_refusal(key: Seq<char>, d: Dialect) -> Option<Er> {
    match key_fault(key, d) {
        None => None,
        Some(why) => Some(
            fail(
                format_text(d) + " can't hold the key "@ + quoted_text(key) + ": "@ + why + ", and "@
                    + format_text(d) + " has no quoting"@,
            ),
        ),
    }
}

fn key_trouble(key: &str, d: Dialect) -> (r: Option<&'static str>)
    ensures
        match key_fault(key@, d) {
            Some(why) => r is Some && r->0@ == why,
            None => r is None && plain_key(scheme(d), key@),
        },
{
    let cs = chars_of(key);
    if has_break(key) {
        Some("a line break would split the line")
    } else if is_padded(key) {
        Some("leading or trailing whitespace reads back trimmed")
    } else if cs.len() > 0 && (cs[0] == '#' || cs[0] == '!') {
        Some("a line starting with `#` or `!` is a comment")
    } else {
        match d {
            Dialect::Punctuated => {
                if any_separator(Scheme::Punctuated, key) {
                    Some("`=` or `:` would end the key early")
                } else {
                    None
                }
            },
            Dialect::Spaced => {
                if cs.len() == 0 {
                    Some("the value would read back as the key")
                } else if any_white(key) {
                    Some("whitespace would end the key early")
                } else {
                    None
                }
            },
        }
    }
}

/// Refuse a new key this line format cannot hold (an existing key is already
/// known to read back as itself).
fn check_key(key: &str, d: Dialect) -> (r: Result<(), EditError>)
    ensures
        match key_refusal(key@, d) {
            Some(e) => done(r) == Err::<(), Er>(e),
            None => r is Ok,
        },
        r is Ok ==> plain_key(scheme(d), key@),
{
    match key_trouble(key, d) {
        None => Ok(()),
        Some(why) => {
            let mut m = format_name(d).to_owned();
            m.append(" can't hold the key ");
            m.append(&debug_quoted(key));
            m.append(": ");
            m.append(why);
            m.append(", and ");
            m.append(format_name(d));
            m.append(" has no quoting");
            Err(EditError::of(m))
        },
    }
}

/// The document with a key set to a text: the value of the first entry with that
/// key replaced, or a line appended that is spelled the way the file's lines are.
pub open spec fn env_set(d: EnvDoc, key: Seq<char>, v: Val) -> Result<EnvDoc, Er> {
    match scalar_text(v, format_text(d.dialect)) {
        Err(e) => Err(e),
        Ok(text) => match value_refusal(text, d.dialect) {
            Some(e) => Err(e),
            None => {
                let g = scheme(d.dialect);
                let at = entry_from(d.lines, g, key, 0, d.lines.len() as int);
                if at < d.lines.len() {
                    Ok(
                        EnvDoc {
                            lines: d.lines.update(at, with_value(d.lines[at], g, text)),
                            ..d
                        },
                    )
                } else {
                    match key_refusal(key, d.dialect) {
                        Some(e) => Err(e),
                        None => {
                            let eol = dominant_ending(flat(d.lines));
                            Ok(
                                EnvDoc {
                                    lines: terminated(d.lines, eol).push(
                                        new_entry(g, key, text, eol),
                                    ),
                                    ..d
                                },
                            )
                        },
                    }
                }
            },
        },
    }
}

/// The value of a key.
pub open spec fn env_value(d: EnvDoc, key: Seq<char>) -> Option<Val> {
    let at = entry_from(d.lines, scheme(d.dialect), key, 0, d.lines.len() as int);
    if at < d.lines.len() {
        Some(Val::Str(entry_value(d.lines[at], scheme(d.dialect))))
    } else {
        None
    }
}

/// The document without a key's line.
pub open spec fn env_delete(d: EnvDoc, key: Seq<char>) -> EnvDoc {
    let at = entry_from(d.lines, scheme(d.dialect), key, 0, d.lines.len() as int);
    if at < d.lines.len() {
        EnvDoc { lines: d.lines.remove(at), ..d }
    } else {
        d
    }
}

/// The value of a document: a flat object of strings.
pub open spec fn env_whole(d: EnvDoc) -> Val {
    Val::Object(entry_members(d.lines, scheme(d.dialect), 0, d.lines.len() as int))
}

/// A flat file's path must be exactly one field, `.key`.
pub open spec fn single_key(path: Seq<St>) -> Result<Seq<char>, Er> {
    if path.len() == 0 {
        Err(fail("expected a key, got `.`"@))
    } else if path.len() == 1 && path[0] is Field {
        Ok(path[0]->Field_0)
    } else {
        Err(fail("this format is flat: paths are a single `.key`"@))
    }
}

fn one_key(path: &Vec<Step>) -> (r: Result<&String, EditError>)
    ensures
        match r {
            Ok(k) => single_key(steps_of(path@)) == Ok::<Seq<char>, Er>(k@),
            Err(e) => single_key(steps_of(path@)) == Err::<Seq<char>, Er>(e@),
        },
{
    if path.len() == 0 {
        return Err(EditError::new("expected a key, got `.`"));
    }
    assert(steps_of(path@)[0] == path@[0]@);
    if path.len() == 1 {
        if let Step::Field(k) = &path[0] {
            return Ok(k);
        }
    }
    Err(EditError::new("this format is flat: paths are a single `.key`"))
}

impl Env {
    /// The content of the document.
    pub closed spec fn content(&self) -> EnvDoc {
        EnvDoc { lines: texts(self.lines@), dialect: self.dialect, bom: self.bom }
    }

    /// The syntax tree of the document, without its byte-order mark.
    pub fn syntax(&self) -> (r: rowan::GreenNode)
        requires
            fits(flat(self.content().lines)),
        ensures
            green_holds(r) == env_green(self.content().lines, scheme(self.content().dialect)),
            green_text(green_holds(r)) == flat(self.content().lines),
    {
        proof {
            env_tree_is_lossless(texts(self.lines@), scheme(self.dialect));
        }
        green(&env_tree(&self.lines, scheme_of(self.dialect)))
    }

    /// Set the entry `key` to a scalar, format-preserving. If `key` doesn't
    /// exist, a new `key=value` line is appended. A key or value the line
    /// format can't read back as itself (a line break, surrounding whitespace, a
    /// key that would read as a comment or end early) errors: there is no quoting
    /// to fall back on.
    pub fn set(&mut self, key: &str, value: &Value) -> (r: Result<(), EditError>)
        ensures
            (final(self).content(), done(r)) == attempt(
                old(self).content(),
                env_set(old(self).content(), key@, value@),
            ),
    {
        let text = match scalar_string(value, format_name(self.dialect)) {
            Err(e) => {
                return Err(e);
            },
            Ok(t) => t,
        };
        check_value(&text, self.dialect)?;
        let g = scheme_of(self.dialect);
        let n: usize = self.lines.len();
        let at: usize = find_entry(&self.lines, g, key, 0, n);
        let ghost ls = texts(self.lines@);
        if at < n {
            proof {
                entry_from_bounds(ls, g, key@, 0, n as int);
                assert(ls[at as int] == self.lines@[at as int]@);
            }
            let line = replace_value(&self.lines[at], g, &text);
            let ghost now = line@;
            self.lines.set(at, line);
            assert(texts(self.lines@) =~= ls.update(at as int, now));
        } else {
            check_key(key, self.dialect)?;
            // The new line ends the way most of the file's lines do, and is
            // spelled the way the rest of the file is, or the document stops
            // parsing as itself.
            let src = concat(&self.lines);
            let eol = dominant(&src);
            terminate(&mut self.lines, eol);
            let ghost held = texts(self.lines@);
            let line = spell_entry(g, key, &text, eol);
            let ghost now = line@;
            self.lines.push(line);
            assert(texts(self.lines@) =~= held.push(now));
        }
        Ok(())
    }

    /// The string value of `key`, or `None`.
    pub fn value_at(&self, key: &str) -> (r: Option<Value>)
        ensures
            opt_value(r) == env_value(self.content(), key@),
    {
        let g = scheme_of(self.dialect);
        let n: usize = self.lines.len();
        let at: usize = find_entry(&self.lines, g, key, 0, n);
        let ghost ls = texts(self.lines@);
        if at < n {
            proof {
                entry_from_bounds(ls, g, key@, 0, n as int);
                assert(ls[at as int] == self.lines@[at as int]@);
            }
            let cs = chars_of(&self.lines[at]);
            Some(Value::Str(value_of(&cs, g)))
        } else {
            None
        }
    }

    /// Delete `key`, removing its whole line (a missing key is a no-op).
    pub fn delete(&mut self, key: &str) -> (r: Result<(), EditError>)
        ensures
            final(self).content() == env_delete(old(self).content(), key@),
            r is Ok,
    {
        let g = scheme_of(self.dialect);
        let n: usize = self.lines.len();
        let at: usize = find_entry(&self.lines, g, key, 0, n);
        let ghost ls = texts(self.lines@);
        if at < n {
            let _ = self.lines.remove(at);
            assert(texts(self.lines@) =~= ls.remove(at as int));
        }
        Ok(())
    }

    /// The document with its comments: own-line comments attach to the next
    /// entry (head), trailing ones to the last entry (foot). There are no inline
    /// comments in this format; the `#` in `K=a#b` is part of the value.
    pub fn to_commented(&self) -> (r: Option<Commented>)
        ensures
            r is Some,
            r->0@ == env_commented(self.content()),
    {
        let style = style();
        let g = scheme_of(self.dialect);
        let mut entries: Vec<(String, Commented)> = Vec::new();
        let mut pending: Vec<String> = Vec::new();
        assert(cmt_members(entries@) =~= Seq::<(Seq<char>, Cmt)>::empty());
        assert(texts(pending@) =~= Seq::<Seq<char>>::empty());
        walk(&style, &self.lines, g, 0, self.lines.len(), &mut entries, &mut pending);
        let mut root = Commented { comments: Comments::none(), node: CommentedNode::Object(entries) };
        if pending.len() > 0 {
            root.attach_trailing_foot(pending);
        }
        Some(root)
    }

    /// Whether the document has comments.
    pub fn has_comments(&self) -> (r: bool)
        ensures
            r == env_annotated(self.content()),
    {
        let g = scheme_of(self.dialect);
        let ghost ls = texts(self.lines@);
        let mut i: usize = 0;
        while i < self.lines.len()
            invariant
                i <= self.lines.len(),
                ls == texts(self.lines@),
                g == scheme(self.dialect),
                forall|k: int| 0 <= k < i ==> row_kind(#[trigger] ls[k], g) != RowKind::Note,
            decreases self.lines.len() - i,
        {
            assert(ls[i as int] == self.lines@[i as int]@);
            let cs = chars_of(&self.lines[i]);
            if crate::rows::classify(&cs, g) == RowKind::Note {
                return true;
            }
            i = i + 1;
        }
        false
    }
}

/// Whether the document has comments.
pub open spec fn env_annotated(d: EnvDoc) -> bool {
    exists|i: int|
        0 <= i < d.lines.len() && row_kind(#[trigger] d.lines[i], scheme(d.dialect))
            == RowKind::Note
}

/// The document with its comments.
pub open spec fn env_commented(d: EnvDoc) -> Cmt {
    let (entries, pending) = walked(
        env_style(),
        d.lines,
        scheme(d.dialect),
        0,
        d.lines.len() as int,
        Seq::empty(),
        Seq::empty(),
    );
    let root = Cmt { notes: crate::model::no_notes(), node: CmtNode::Object(entries) };
    if pending.len() > 0 {
        with_foot(root, pending)
    } else {
        root
    }
}

/// The failure of a source with a line that is neither a comment nor an entry.
pub open spec fn env_malformed() -> Seq<char> {
    "invalid: a line is neither a comment nor key=value"@
}

/// The document a source denotes in a dialect, given its mark and body.
pub open spec fn env_read(bom: bool, body: Seq<char>, dialect: Dialect) -> Result<EnvDoc, Seq<char>> {
    if malformed(lines_of(body), scheme(dialect)) {
        Err(env_malformed())
    } else {
        Ok(EnvDoc { lines: lines_of(body), dialect, bom })
    }
}

/// The document a source denotes in a dialect.
pub open spec fn env_parsed(src: Seq<char>, dialect: Dialect) -> Result<EnvDoc, Seq<char>> {
    if src.len() > 0 && src[0] == '\u{feff}' {
        env_read(true, src.drop_first(), dialect)
    } else {
        env_read(false, src, dialect)
    }
}

/// The view of a parse.
pub open spec fn env_view(r: Result<Env, ParseError>) -> Result<EnvDoc, Seq<char>> {
    match r {
        Ok(d) => Ok(d.content()),
        Err(e) => Err(e.msg@),
    }
}

/// Parse `.env` / `.properties` source into an [`Env`] document.
pub fn parse(src: &str) -> (r: Result<Env, ParseError>)
    ensures
        env_view(r) == env_parsed(src@, Dialect::Punctuated),
{
    parse_with(src, Dialect::Punctuated)
}

/// Parse space-separated `key value` source (`sshd_config`-shaped) into an
/// [`Env`] document.
///
/// Same flat, string-valued model as `.env`; only the separator differs. Not an
/// `ssh_config` parser: `Match` / `Host` blocks scope the keys beneath them and
/// this model is flat, so a file using them is out of scope rather than
/// half-supported.
pub fn parse_spaced(src: &str) -> (r: Result<Env, ParseError>)
    ensures
        env_view(r) == env_parsed(src@, Dialect::Spaced),
{
    parse_with(src, Dialect::Spaced)
}

/// Parse with an explicit [`Dialect`].
pub fn parse_with(src: &str, dialect: Dialect) -> (r: Result<Env, ParseError>)
    ensures
        env_view(r) == env_parsed(src@, dialect),
{
    let (bom, body) = split_bom(src);
    proof {
        if bom {
            assert(src@.drop_first() =~= body@);
        }
    }
    let lines = split_lines(body);
    if has_bad_line(&lines, scheme_of(dialect)) {
        return Err(
            ParseError { msg: "invalid: a line is neither a comment nor key=value".to_owned() },
        );
    }
    Ok(Env { lines, dialect, bom })
}

/// Apply a mutation expression, format-preserving.
pub fn apply(doc: &mut Env, expr: &Expr, facts: &FloatFacts) -> (r: Result<(), EditError>)
    ensures
        (final(doc).content(), done(r)) == mutated::<Env>(old(doc).content(), expr@, facts@),
{
    apply_mutation(doc, expr, facts)
}

impl Mutable for Env {
    type Doc = EnvDoc;

    open spec fn doc(&self) -> EnvDoc {
        self.content()
    }

    /// The format is flat: there is nothing to fan `[]` out over.
    open spec fn fanning() -> bool {
        false
    }

    open spec fn whole_of(d: EnvDoc) -> Val {
        env_whole(d)
    }

    open spec fn value_in(d: EnvDoc, path: Seq<St>) -> Option<Val> {
        match single_key(path) {
            Ok(k) => env_value(d, k),
            Err(_) => None,
        }
    }

    open spec fn set_in(d: EnvDoc, path: Seq<St>, value: Val) -> Result<EnvDoc, Er> {
        match single_key(path) {
            Ok(k) => env_set(d, k, value),
            Err(e) => Err(e),
        }
    }

    open spec fn delete_in(d: EnvDoc, path: Seq<St>) -> Outcome<EnvDoc> {
        match single_key(path) {
            Ok(k) => (env_delete(d, k), Ok(())),
            Err(e) => (d, Err(e)),
        }
    }

    open spec fn append_in(d: EnvDoc, path: Seq<St>, items: Seq<Val>) -> Option<Result<EnvDoc, Er>> {
        None
    }

    open spec fn miss_in(d: EnvDoc, path: Seq<St>) -> Result<(), Er> {
        Err(fail("key not found"@))
    }

    open spec fn check_in(d: EnvDoc, path: Seq<St>, kind: MutationKind) -> Result<(), Er> {
        match single_key(path) {
            Ok(_) => Ok(()),
            Err(e) => Err(e),
        }
    }

    fn fans_out() -> (r: bool) {
        false
    }

    fn whole(&self) -> (r: Value) {
        Value::Object(members_of(&self.lines, scheme_of(self.dialect), 0, self.lines.len()))
    }

    fn value_at(&self, path: &Vec<Step>) -> (r: Option<Value>) {
        match one_key(path) {
            Ok(k) => Env::value_at(self, k),
            Err(_) => None,
        }
    }

    fn set(&mut self, path: &Vec<Step>, value: &Value) -> (r: Result<(), EditError>) {
        match one_key(path) {
            Ok(k) => Env::set(self, k, value),
            Err(e) => Err(e),
        }
    }

    fn delete(&mut self, path: &Vec<Step>) -> (r: Result<(), EditError>) {
        match one_key(path) {
            Ok(k) => Env::delete(self, k),
            Err(e) => Err(e),
        }
    }

    fn append(&mut self, path: &Vec<Step>, items: &Vec<Value>) -> (r: Option<
        Result<(), EditError>,
    >) {
        None
    }

    fn miss(&self, path: &Vec<Step>) -> (r: Result<(), EditError>) {
        Err(EditError::new("key not found"))
    }

    fn check_path(&self, path: &Vec<Step>, kind: MutationKind) -> (r: Result<(), EditError>) {
        match one_key(path) {
            Ok(_) => Ok(()),
            Err(e) => Err(e),
        }
    }
}

/// A comment's path must be exactly one field, `.key`.
pub open spec fn comment_key(path: Seq<St>) -> Result<Seq<char>, Er> {
    if path.len() == 0 {
        Err(fail("document-level (`.#`) comment editing for .env is a follow-up"@))
    } else if path.len() == 1 && path[0] is Field {
        Ok(path[0]->Field_0)
    } else {
        Err(fail("this format is flat: comment paths are a single `.key`"@))
    }
}

fn one_comment_key(path: &Vec<Step>) -> (r: Result<&String, EditError>)
    ensures
        match r {
            Ok(k) => comment_key(steps_of(path@)) == Ok::<Seq<char>, Er>(k@),
            Err(e) => comment_key(steps_of(path@)) == Err::<Seq<char>, Er>(e@),
        },
{
    if path.len() == 0 {
        return Err(EditError::new("document-level (`.#`) comment editing for .env is a follow-up"));
    }
    assert(steps_of(path@)[0] == path@[0]@);
    if path.len() == 1 {
        if let Step::Field(k) = &path[0] {
            return Ok(k);
        }
    }
    Err(EditError::new("this format is flat: comment paths are a single `.key`"))
}

/// The document with the comment block above or below line `at` written or
/// removed.
pub open spec fn env_placed(d: EnvDoc, at: int, head: bool, text: Option<Seq<char>>) -> EnvDoc {
    let line = d.lines[at];
    EnvDoc {
        lines: lines_of(
            placed(
                flat(d.lines),
                at,
                head,
                line.take(blanks_end(line, 0)),
                env_style(),
                text,
            ),
        ),
        ..d
    }
}

/// The document with a comment written.
pub open spec fn env_noted(d: EnvDoc, path: Seq<St>, kind: CommentKind, text: Seq<char>) -> Result<
    (EnvDoc, Seq<Seq<char>>),
    Er,
> {
    match comment_key(path) {
        Err(e) => Err(e),
        Ok(key) => if kind == CommentKind::Inline {
            Err(
                fail(
                    ".env has no inline comments: a `#` after a value is part of the value; use head or foot"@,
                ),
            )
        } else {
            let at = entry_from(d.lines, scheme(d.dialect), key, 0, d.lines.len() as int);
            if at < d.lines.len() {
                Ok((env_placed(d, at, kind == CommentKind::Head, Some(text)), Seq::empty()))
            } else {
                Err(fail("no key `"@ + key + "`"@))
            }
        },
    }
}

/// The document with a comment removed; an inline comment or one of a missing
/// key is not there to remove.
pub open spec fn env_unnoted(d: EnvDoc, path: Seq<St>, kind: CommentKind) -> Result<EnvDoc, Er> {
    match comment_key(path) {
        Err(e) => Err(e),
        Ok(key) => {
            let at = entry_from(d.lines, scheme(d.dialect), key, 0, d.lines.len() as int);
            if kind != CommentKind::Inline && at < d.lines.len() {
                Ok(env_placed(d, at, kind == CommentKind::Head, None))
            } else {
                Ok(d)
            }
        },
    }
}

impl Env {
    fn place(&mut self, at: usize, head: bool, text: Option<&str>)
        requires
            at < old(self).content().lines.len(),
        ensures
            final(self).content() == env_placed(
                old(self).content(),
                at as int,
                head,
                crate::strings::flags_view(text),
            ),
    {
        let ghost ls = texts(self.lines@);
        assert(ls[at as int] == self.lines@[at as int]@);
        let source = concat(&self.lines);
        let indent = leading_indent(&self.lines[at]);
        let out = place_line_comment(&source, at, head, indent, &style(), text);
        self.lines = split_lines(&out);
    }
}

impl Document for Env {
    open spec fn source_of(d: EnvDoc) -> Seq<char> {
        env_source(d)
    }

    open spec fn commented_of(d: EnvDoc) -> Seq<Cmt> {
        seq![env_commented(d)]
    }

    open spec fn note_in(d: EnvDoc, at: int, path: Seq<St>, kind: CommentKind, text: Seq<char>) -> Result<
        (EnvDoc, Seq<Seq<char>>),
        Er,
    > {
        env_noted(d, path, kind, text)
    }

    open spec fn unnote_in(d: EnvDoc, path: Seq<St>, kind: CommentKind) -> Result<EnvDoc, Er> {
        env_unnoted(d, path, kind)
    }

    /// Comments only. Flat and string-valued: no nesting, arrays, typed scalars,
    /// or sections.
    open spec fn features_of() -> Seq<Feature> {
        seq![Feature::Comments]
    }

    fn to_source(&self) -> (r: String) {
        with_bom(self.bom, concat(&self.lines))
    }

    fn features(&self) -> (r: Vec<Feature>) {
        vec![Feature::Comments]
    }

    fn to_commented_all(&self) -> (r: Vec<Commented>) {
        let mut out: Vec<Commented> = Vec::new();
        if let Some(c) = self.to_commented() {
            out.push(c);
        }
        assert(cmts(out@) =~= seq![env_commented(self.content())]);
        out
    }

    fn set_comment_in_doc(&mut self, at: usize, path: &Vec<Step>, kind: CommentKind, text: &str) -> (r: Result<
        Vec<String>,
        EditError,
    >) {
        let key = one_comment_key(path)?;
        if kind == CommentKind::Inline {
            return Err(
                EditError::new(
                    ".env has no inline comments: a `#` after a value is part of the value; use head or foot",
                ),
            );
        }
        let g = scheme_of(self.dialect);
        let n: usize = self.lines.len();
        let line: usize = find_entry(&self.lines, g, key, 0, n);
        if line < n {
            self.place(line, kind == CommentKind::Head, Some(text));
            let none: Vec<String> = Vec::new();
            assert(texts(none@) =~= Seq::<Seq<char>>::empty());
            Ok(none)
        } else {
            let mut m = "no key `".to_owned();
            m.append(key);
            m.append("`");
            Err(EditError::of(m))
        }
    }

    fn delete_comment(&mut self, path: &Vec<Step>, kind: CommentKind) -> (r: Result<
        (),
        EditError,
    >) {
        let key = one_comment_key(path)?;
        let g = scheme_of(self.dialect);
        let n: usize = self.lines.len();
        let line: usize = find_entry(&self.lines, g, key, 0, n);
        if kind != CommentKind::Inline && line < n {
            self.place(line, kind == CommentKind::Head, None);
        }
        Ok(())
    }
}

/// What one flattened line is written as, with its comments: head and foot as
/// comment lines, an inline comment moved to a line of its own.
pub open spec fn emitted_entry(e: Flat, d: Dialect) -> Result<Seq<char>, Er> {
    match key_refusal(e.key, d) {
        Some(x) => Err(x),
        None => match value_refusal(e.value, d) {
            Some(x) => Err(x),
            None => Ok(
                comment_rows(env_style(), ""@, e.notes.head, e.notes.head.len()) + (
                match e.notes.inline {
                    Some(t) => comment_row(env_style(), ""@, t),
                    None => Seq::empty(),
                }) + new_entry(scheme(d), e.key, e.value, "\n"@) + comment_rows(
                    env_style(),
                    ""@,
                    e.notes.foot,
                    e.notes.foot.len(),
                ),
            ),
        },
    }
}

/// What the first `n` flattened lines are written as.
pub open spec fn emitted(es: Seq<Flat>, d: Dialect, n: nat) -> Result<Seq<char>, Er>
    decreases n,
{
    if n == 0 {
        Ok(Seq::empty())
    } else {
        match emitted(es, d, (n - 1) as nat) {
            Err(x) => Err(x),
            Ok(out) => match emitted_entry(es[n - 1], d) {
                Err(x) => Err(x),
                Ok(more) => Ok(out + more),
            },
        }
    }
}

/// Is there an inline comment among the lines?
pub open spec fn any_inline(es: Seq<Flat>) -> bool {
    exists|i: int| 0 <= i < es.len() && (#[trigger] es[i]).notes.inline is Some
}

/// The text a commented value is written as, and the warnings that go with it.
pub open spec fn env_emitted(c: Cmt, d: Dialect) -> Result<(Seq<char>, Seq<Seq<char>>), Er> {
    if !(c.node is Object) {
        Err(fail("env output requires a top-level object"@))
    } else {
        let es = flattened(""@, c);
        match emitted(es, d, es.len()) {
            Err(x) => Err(x),
            Ok(out) => Ok(
                (
                    out,
                    text_if(
                        any_dotted(es),
                        "nested/array values were flattened to dotted keys"@,
                    ) + text_if(
                        any_inline(es),
                        "inline comments moved to their own line (env has none)"@,
                    ),
                ),
            ),
        }
    }
}

proof fn emission_stops(es: Seq<Flat>, d: Dialect, i: nat, n: nat)
    requires
        i <= n,
        emitted(es, d, i) is Err,
    ensures
        emitted(es, d, n) == emitted(es, d, i),
    decreases n - i,
{
    if i < n {
        emission_stops(es, d, i, (n - 1) as nat);
    }
}

/// Emit a commented value as a flat `.env`: every leaf becomes a `key=value`
/// line (nesting flattened to dotted keys), head/foot comments as `# ` lines. An
/// inline comment can't exist here, so it moves to a line of its own above the
/// entry, with a warning, since that is a remap, not a placement.
pub fn emit_commented(c: &Commented) -> (r: Result<(String, Vec<String>), EditError>)
    ensures
        emission(r) == env_emitted(c@, Dialect::Punctuated),
{
    emit_commented_with(c, Dialect::Punctuated)
}

/// [`emit_commented`] in a dialect. A key or value the file could not read back
/// as itself is refused.
pub fn emit_commented_with(c: &Commented, dialect: Dialect) -> (r: Result<
    (String, Vec<String>),
    EditError,
>)
    ensures
        emission(r) == env_emitted(c@, dialect),
{
    match &c.node {
        CommentedNode::Object(_) => {},
        _ => {
            return Err(EditError::new("env output requires a top-level object"));
        },
    }
    let flat_entries = flatten_commented(c);
    let ghost es = flats(flat_entries@);
    let style = style();
    let g = scheme_of(dialect);
    let mut dotted = false;
    let mut remapped = false;
    let mut out = String::new();
    let mut i: usize = 0;
    while i < flat_entries.len()
        invariant
            i <= flat_entries.len(),
            es == flats(flat_entries@),
            style@ == env_style(),
            g == scheme(dialect),
            emitted(es, dialect, i as nat) == Ok::<Seq<char>, Er>(out@),
            dotted == exists|k: int| 0 <= k < i && (#[trigger] es[k]).key.contains('.'),
            remapped == exists|k: int| 0 <= k < i && (#[trigger] es[k]).notes.inline is Some,
            c@.node is Object,
            es == flattened(""@, c@),
        decreases flat_entries.len() - i,
    {
        let e = &flat_entries[i];
        assert(es[i as int] == e@);
        let ghost held = out@;
        if let Err(x) = check_key(&e.key, dialect) {
            proof {
                assert(emitted(es, dialect, (i + 1) as nat) is Err);
                emission_stops(es, dialect, (i + 1) as nat, es.len());
            }
            return Err(x);
        }
        if let Err(x) = check_value(&e.value, dialect) {
            proof {
                assert(emitted(es, dialect, (i + 1) as nat) is Err);
                emission_stops(es, dialect, (i + 1) as nat, es.len());
            }
            return Err(x);
        }
        if has_dot(&e.key) {
            dotted = true;
        }
        out.append(&style.block(&e.comments.head, ""));
        if let Some(t) = &e.comments.inline {
            remapped = true;
            style.push_line(&mut out, "", t);
        }
        out.append(&spell_entry(g, &e.key, &e.value, "\n"));
        out.append(&style.block(&e.comments.foot, ""));
        proof {
            let more = emitted_entry(es[i as int], dialect)->Ok_0;
            assert(out@ =~= held + more);
        }
        i = i + 1;
    }
    let mut warnings: Vec<String> = Vec::new();
    if dotted {
        warnings.push("nested/array values were flattened to dotted keys".to_owned());
    }
    if remapped {
        warnings.push("inline comments moved to their own line (env has none)".to_owned());
    }
    assert(texts(warnings@) =~= text_if(
        any_dotted(es),
        "nested/array values were flattened to dotted keys"@,
    ) + text_if(any_inline(es), "inline comments moved to their own line (env has none)"@));
    Ok((out, warnings))
}

/// Emit a value as a flat `.env`: every leaf becomes a `key=value` line, with
/// nested objects/arrays flattened to dotted keys. Returns the text and warnings.
/// (The comment-free case of [`emit_commented`].)
pub fn emit(value: &Value) -> (r: Result<(String, Vec<String>), EditError>)
    ensures
        emission(r) == env_emitted(crate::comment::bare(value@), Dialect::Punctuated),
{
    emit_commented(&Commented::from_value(value))
}

/// A document as parsing and editing make them: its lines are lines, and each of
/// them is a blank, a comment or an entry.
pub open spec fn env_ok(d: EnvDoc) -> bool {
    are_lines(d.lines) && !malformed(d.lines, scheme(d.dialect))
}

/// Parsing loses nothing: a parsed document's text is its source, character for
/// character.
pub proof fn env_round_trips(src: Seq<char>, dialect: Dialect)
    requires
        env_parsed(src, dialect) is Ok,
    ensures
        env_source(env_parsed(src, dialect)->Ok_0) == src,
        env_ok(env_parsed(src, dialect)->Ok_0),
{
    let body = if src.len() > 0 && src[0] == '\u{feff}' {
        src.drop_first()
    } else {
        src
    };
    lines_round_trip(body);
    lines_are_lines(body);
    assert(env_source(env_parsed(src, dialect)->Ok_0) =~= src);
}

/// The text of a document parses back as that document. A first line that starts
/// with the byte-order mark character would be read as a mark.
pub proof fn env_text_parses_back(d: EnvDoc)
    requires
        env_ok(d),
        d.bom || d.lines.len() == 0 || d.lines[0][0] != '\u{feff}',
    ensures
        env_parsed(env_source(d), d.dialect) == Ok::<EnvDoc, Seq<char>>(d),
{
    lines_of_flat(d.lines);
    let src = env_source(d);
    if d.bom {
        assert(src.drop_first() =~= flat(d.lines));
    } else if d.lines.len() > 0 {
        flat_starts(d.lines);
        assert(src == flat(d.lines));
    } else {
        assert(flat(d.lines) =~= Seq::<char>::empty());
    }
}

proof fn terminated_lines(d: EnvDoc, eol: Seq<char>)
    requires
        env_ok(d),
        eol == "\n"@ || eol == "\r\n"@,
    ensures
        ({
            let ls = terminated(d.lines, eol);
            let g = scheme(d.dialect);
            &&& ls.len() == d.lines.len()
            &&& are_lines(ls)
            &&& forall|i: int| 0 <= i < ls.len() ==> (#[trigger] ls[i]).last() == '\n'
            &&& forall|i: int|
                0 <= i < ls.len() ==> row_kind(#[trigger] ls[i], g) == row_kind(d.lines[i], g)
                    && (row_kind(ls[i], g) == RowKind::Entry ==> entry_key(ls[i], g) == entry_key(
                    d.lines[i],
                    g,
                ) && entry_value(ls[i], g) == entry_value(d.lines[i], g))
            &&& ls.len() > 0 ==> ls[0][0] == d.lines[0][0]
        }),
{
    let g = scheme(d.dialect);
    if d.lines.len() > 0 && d.lines.last().last() != '\n' {
        assert(row_kind(d.lines.last(), g) != RowKind::Bad);
        terminated_line_reads_alike(d.lines.last(), g, eol);
    }
}

/// What is written reads back: after an edit that is not refused, the key has
/// exactly the text it was set to, every other key keeps its value, and the
/// document is one that its own text parses back as.
pub proof fn env_set_reads_back(d: EnvDoc, key: Seq<char>, v: Val, other: Seq<char>)
    requires
        env_ok(d),
        env_set(d, key, v) is Ok,
        other != key,
    ensures
        ({
            let now = env_set(d, key, v)->Ok_0;
            let text = scalar_text(v, format_text(d.dialect))->Ok_0;
            &&& env_value(now, key) == Some(Val::Str(text))
            &&& env_value(now, other) == env_value(d, other)
            &&& env_ok(now)
            &&& now.bom == d.bom && now.dialect == d.dialect
        }),
{
    let g = scheme(d.dialect);
    let n = d.lines.len() as int;
    let now = env_set(d, key, v)->Ok_0;
    let text = scalar_text(v, format_text(d.dialect))->Ok_0;
    assert(plain_value(g, text));
    let at = entry_from(d.lines, g, key, 0, n);
    entry_from_bounds(d.lines, g, key, 0, n);
    let was = entry_from(d.lines, g, other, 0, n);
    entry_from_bounds(d.lines, g, other, 0, n);
    if at < n {
        replaced_value_reads_back(d.lines[at], g, text);
        replaced_value_is_line(d.lines[at], g, text);
        entry_from_is(now.lines, g, key, 0, n, at);
        entry_from_is(now.lines, g, other, 0, n, was);
        assert(env_ok(now)) by {
            assert forall|i: int| 0 <= i < n implies row_kind(#[trigger] now.lines[i], g)
                != RowKind::Bad by {
                assert(row_kind(d.lines[i], g) != RowKind::Bad);
            }
        }
    } else {
        let eol = dominant_ending(flat(d.lines));
        dominant_is_an_ending(flat(d.lines));
        let ls = terminated(d.lines, eol);
        terminated_lines(d, eol);
        assert(plain_key(g, key)) by {
            assert(key_fault(key, d.dialect) is None);
            if d.dialect == Dialect::Spaced {
                assert(forall|i: int| 0 <= i < key.len() ==> !white_space(#[trigger] key[i]));
            }
        }
        new_entry_reads_back(g, key, text, eol);
        assert(forall|i: int| 0 <= i < n ==> now.lines[i] == ls[i]);
        assert forall|i: int| 0 <= i < n implies holds_key(#[trigger] now.lines[i], g, key)
            == holds_key(d.lines[i], g, key) && holds_key(now.lines[i], g, other) == holds_key(
            d.lines[i],
            g,
            other,
        ) by {
            assert(now.lines[i] == ls[i]);
        }
        entry_from_is(now.lines, g, key, 0, n + 1, n);
        if was < n {
            entry_from_is(now.lines, g, other, 0, n + 1, was);
        } else {
            entry_from_is(now.lines, g, other, 0, n + 1, n + 1);
        }
        assert(env_ok(now)) by {
            assert forall|i: int| 0 <= i < n + 1 implies row_kind(#[trigger] now.lines[i], g)
                != RowKind::Bad by {
                if i < n {
                    assert(now.lines[i] == ls[i]);
                    assert(row_kind(d.lines[i], g) != RowKind::Bad);
                }
            }
        }
    }
}

/// Deleting removes one line at most: every other line stays as it was, every
/// other key keeps its value, and a missing key changes nothing.
pub proof fn env_delete_keeps_others(d: EnvDoc, key: Seq<char>, other: Seq<char>)
    requires
        env_ok(d),
        other != key,
    ensures
        env_value(env_delete(d, key), other) == env_value(d, other),
        env_value(d, key) is None ==> env_delete(d, key) == d,
        env_value(d, key) is Some ==> env_delete(d, key).lines.len() == d.lines.len() - 1,
        env_ok(env_delete(d, key)),
{
    let g = scheme(d.dialect);
    let n = d.lines.len() as int;
    let now = env_delete(d, key);
    let at = entry_from(d.lines, g, key, 0, n);
    entry_from_bounds(d.lines, g, key, 0, n);
    let was = entry_from(d.lines, g, other, 0, n);
    entry_from_bounds(d.lines, g, other, 0, n);
    if at < n {
        assert(was != at);
        assert(forall|i: int| 0 <= i < at ==> now.lines[i] == d.lines[i]);
        assert(forall|i: int| at <= i < n - 1 ==> now.lines[i] == d.lines[i + 1]);
        let r = if was < at {
            was
        } else {
            was - 1
        };
        entry_from_is(now.lines, g, other, 0, n - 1, r);
        assert forall|i: int| 0 <= i < n - 1 implies row_kind(#[trigger] now.lines[i], g)
            != RowKind::Bad by {
            assert(now.lines[i] == d.lines[i] || now.lines[i] == d.lines[i + 1]);
        }
    }
}

} // verus!
