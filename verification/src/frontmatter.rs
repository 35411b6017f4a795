//! The frontmatter lens: **losslessly edit the metadata block at the top of a
//! document, body untouched.**
//!
//! Frontmatter is structured config embedded in prose: a YAML/TOML/JSON block
//! fenced off at the very start of a document. The lens splits the file into three
//! parts,
//!
//! ```text
//!   prefix   the opening fence line (opaque)
//!   block    the metadata, a document of its own format
//!   suffix   the closing fence plus the entire document body (opaque)
//! ```
//!
//! and wraps the parsed block in a [`Document`] whose text is the three parts again.
//!
//! ## Supported containers
//!
//! - **YAML** - `---` fence, closed by `---` or `...` (Pandoc).
//! - **TOML** - `+++` fence (Hugo, Zola).
//! - **Tagged** - `---yaml` / `---toml` / `---json` opening fence, closed by `---`.
//! - **JSON (bare brace)** - a `{ ... }` object at the start (Hugo); the closing
//!   brace is found by string-aware matching.
//! - **Commented (PEP 723)** - a `# /// name` ... `# ///` block in a host-language
//!   file, optionally after a shebang. The block is TOML once each line's `# `
//!   prefix is stripped; the prefix is re-applied on serialize, and the lines an
//!   edit does not reach keep the spelling they have.
use crate::document::Document;
use crate::error::{fail, opt_need, EditError, Er};
use crate::feature::Feature;
use crate::float::{Facts, FloatFacts, FloatNeed};
use crate::jsonc::{jsonc_parsed, Jsonc, JsoncDoc};
use crate::jsonc_comments::{jsonc_annotated, node_texts, nodes_along};
use crate::lines::{
    flat, flat_add, flat_one, flat_push, is_line, line_end, line_end_bounds, lines_are_lines,
    lines_of, lines_of_flat, lines_round_trip, split_lines,
};
use crate::model::{steps_of, texts, Cmt, CommentKind, Commented, Ex, St, Step, Val, Value};
use crate::mutate::{
    changed_each, mutated, mutated_in_turn, plain_mutated, Change, Mutable, MutationKind, Outcome,
};
use crate::strs::{
    chars_of, is_white, same, slice_text, trim, trim_bounds, trimmed, trimmed_end, trimmed_start,
    white_space,
};
use crate::text::{line_content, line_ending, line_splits, split_ending};
use crate::toml::{toml_parsed, Toml, TomlDoc};
use vstd::prelude::*;

verus! {

/// The capabilities of the lens as such: every container it opens sits within
/// them. Those of a document are its block's.
pub fn features() -> (r: Vec<Feature>)
    ensures
        r@ == seq![Feature::Comments, Feature::Nesting, Feature::Arrays, Feature::TypedScalars],
{
    vec![Feature::Comments, Feature::Nesting, Feature::Arrays, Feature::TypedScalars]
}

/// A parse failure: no frontmatter block, an unterminated fence, an unknown
/// language tag, or a failure parsing the block itself; or the floating-point
/// result whose absence stopped the parse.
#[derive(Debug)]
pub struct ParseError {
    pub msg: String,
    pub need: Option<FloatNeed>,
}

impl ParseError {
    fn of(msg: String) -> (r: ParseError)
        ensures
            r.msg@ == msg@,
            r.need is None,
    {
        ParseError { msg, need: None }
    }

    /// The message.
    pub fn to_string(&self) -> (r: String)
        ensures
            r@ == self.msg@,
    {
        self.msg.clone()
    }
}

/// The view of a parse failure.
pub open spec fn parse_failure(e: ParseError) -> Er {
    Er { msg: e.msg@, need: opt_need(e.need) }
}

/// The inner serialization of a frontmatter block.
#[derive(Debug, Clone, Copy, PartialEq, Eq, Structural)]
pub enum Inner {
    Yaml,
    Toml,
    Json,
}

/// The name of a block's format.
pub open spec fn inner_name(i: Inner) -> Seq<char> {
    match i {
        Inner::Yaml => "yaml"@,
        Inner::Toml => "toml"@,
        Inner::Json => "json"@,
    }
}

impl Inner {
    /// The name of the block's format.
    pub fn name(self) -> (r: &'static str)
        ensures
            r@ == inner_name(self),
    {
        match self {
            Inner::Yaml => "yaml",
            Inner::Toml => "toml",
            Inner::Json => "json",
        }
    }
}

/// A frontmatter block and the opaque text around it.
pub struct Block {
    pub prefix: String,
    /// The block's text; of a commented block, without its line prefixes.
    pub block: String,
    pub suffix: String,
    pub lang: Inner,
    /// Whether the block stands in comments of a host language.
    pub commented: bool,
    /// The block as it stands in the document, line prefixes and all.
    pub source: String,
}

/// The mathematical content of a [`Block`].
pub struct Bk {
    pub prefix: Seq<char>,
    pub block: Seq<char>,
    pub suffix: Seq<char>,
    pub lang: Inner,
    pub commented: bool,
    pub source: Seq<char>,
}

impl View for Block {
    type V = Bk;

    open spec fn view(&self) -> Bk {
        Bk {
            prefix: self.prefix@,
            block: self.block@,
            suffix: self.suffix@,
            lang: self.lang,
            commented: self.commented,
            source: self.source@,
        }
    }
}

/// The position behind the `}` that matches the `{` where `depth` is zero,
/// honoring JSON strings and escapes.
pub open spec fn brace_end(s: Seq<char>, i: int, depth: nat, quoted: bool, escaped: bool) -> Option<int>
    decreases s.len() - i,
{
    if i < 0 || i >= s.len() {
        None
    } else if quoted {
        if escaped {
            brace_end(s, i + 1, depth, true, false)
        } else if s[i] == '\\' {
            brace_end(s, i + 1, depth, true, true)
        } else {
            brace_end(s, i + 1, depth, s[i] != '"', false)
        }
    } else if s[i] == '"' {
        brace_end(s, i + 1, depth, true, false)
    } else if s[i] == '{' {
        brace_end(s, i + 1, depth + 1, false, false)
    } else if s[i] == '}' {
        if depth <= 1 {
            Some(i + 1)
        } else {
            brace_end(s, i + 1, (depth - 1) as nat, false, false)
        }
    } else {
        brace_end(s, i + 1, depth, false, false)
    }
}

/// What closes a fenced block.
#[derive(Debug, Clone, Copy, PartialEq, Eq, Structural)]
pub enum Closer {
    /// `---`
    Dashes,
    /// `---` or `...`
    DashesOrDots,
    /// `+++`
    Pluses,
}

/// Is the line, without its trailing white space, a closing fence?
pub open spec fn closes(c: Closer, line: Seq<char>) -> bool {
    match c {
        Closer::Dashes => line == "---"@,
        Closer::DashesOrDots => line == "---"@ || line == "..."@,
        Closer::Pluses => line == "+++"@,
    }
}

/// The refusal of a document without a block.
pub open spec fn no_block() -> Er {
    fail("no frontmatter block at the start of the document"@)
}

/// What an opening fence announces: what closes the block and its format.
pub open spec fn fence_of(opener: Seq<char>) -> Result<(Closer, Inner), Er> {
    if opener == "---"@ {
        Ok((Closer::DashesOrDots, Inner::Yaml))
    } else if opener == "+++"@ {
        Ok((Closer::Pluses, Inner::Toml))
    } else if opener.len() >= 3 && opener.take(3) == "---"@ {
        let tag = trimmed(opener.skip(3));
        if tag == "yaml"@ || tag == "yml"@ {
            Ok((Closer::DashesOrDots, Inner::Yaml))
        } else if tag == "toml"@ {
            Ok((Closer::Dashes, Inner::Toml))
        } else if tag == "json"@ || tag == "json5"@ || tag == "jsonc"@ {
            Ok((Closer::Dashes, Inner::Json))
        } else {
            Err(
                fail(
                    "unsupported frontmatter language tag `"@ + tag
                        + "` (expected yaml, toml, or json)"@,
                ),
            )
        }
    } else {
        Err(no_block())
    }
}

/// Where the closing fence is, from the line at `i` on.
pub open spec fn close_from(s: Seq<char>, c: Closer, i: int) -> Option<int>
    decreases s.len() - i,
    when i >= 0
    via close_decreases
{
    if i >= s.len() {
        None
    } else if closes(c, trimmed_end(s.subrange(i, line_end(s, i)))) {
        Some(i)
    } else {
        close_from(s, c, line_end(s, i))
    }
}

#[via_fn]
proof fn close_decreases(s: Seq<char>, c: Closer, i: int) {
    line_end_bounds(s, i);
}

/// Where the text starts after its leading white space.
pub open spec fn text_start(s: Seq<char>) -> int {
    s.len() - trimmed_start(s).len()
}

/// The fenced or bare block at the start of a document.
pub open spec fn fenced(s: Seq<char>) -> Result<Bk, Er> {
    let start = text_start(s);
    let first = line_end(s, 0);
    if 0 <= start < s.len() && s[start] == '{' {
        match brace_end(s, start, 0, false, false) {
            None => Err(fail("unterminated JSON frontmatter (no matching `}`)"@)),
            Some(e) => Ok(
                Bk {
                    prefix: s.take(start),
                    block: s.subrange(start, e),
                    suffix: s.skip(e),
                    lang: Inner::Json,
                    commented: false,
                    source: s.subrange(start, e),
                },
            ),
        }
    } else if s.len() == 0 || s[first - 1] != '\n' {
        Err(no_block())
    } else {
        let opener = trimmed_end(s.take(first));
        match fence_of(opener) {
            Err(e) => Err(e),
            Ok((c, lang)) => match close_from(s, c, first) {
                None => Err(
                    fail(
                        "unterminated frontmatter (opened with `"@ + opener
                            + "`, no closing fence)"@,
                    ),
                ),
                Some(at) => Ok(
                    Bk {
                        prefix: s.take(first),
                        block: s.subrange(first, at),
                        suffix: s.skip(at),
                        lang,
                        commented: false,
                        source: s.subrange(first, at),
                    },
                ),
            },
        }
    }
}

/// The text behind a line's comment prefix: a bare `#` is a blank line, and so is a
/// `#` with a space and nothing behind it.
pub open spec fn payload(content: Seq<char>) -> Option<Seq<char>> {
    if content == "#"@ {
        Some(Seq::empty())
    } else if content.len() >= 2 && content[0] == '#' && content[1] == ' ' {
        Some(content.skip(2))
    } else {
        None
    }
}

/// Is the line's content the end of a commented block?
pub open spec fn ends_block(content: Seq<char>) -> bool {
    trimmed_end(content) == "# ///"@
}

/// The rest of a commented block, from the line at `i` on: where it ends, and its
/// text without line prefixes behind `so_far`.
pub open spec fn uncommented(s: Seq<char>, name: Seq<char>, i: int, so_far: Seq<char>) -> Result<
    (int, Seq<char>),
    Er,
>
    decreases s.len() - i,
    when i >= 0
    via uncommented_decreases
{
    if i >= s.len() {
        Err(
            fail(
                "unterminated commented frontmatter (opened with `# /// "@ + name
                    + "`, no `# ///` close)"@,
            ),
        )
    } else {
        let line = s.subrange(i, line_end(s, i));
        let content = line_content(line);
        if ends_block(content) {
            Ok((i, so_far))
        } else {
            match payload(content) {
                None => Err(
                    fail(
                        "malformed commented frontmatter: line is not `# ...` or `#`: `"@ + content
                            + "`"@,
                    ),
                ),
                Some(p) => uncommented(s, name, line_end(s, i), so_far + p + line_ending(line)),
            }
        }
    }
}

#[via_fn]
proof fn uncommented_decreases(s: Seq<char>, name: Seq<char>, i: int, so_far: Seq<char>) {
    line_end_bounds(s, i);
}

/// Where the line behind a shebang starts.
pub open spec fn behind_shebang(s: Seq<char>) -> int {
    if s.len() >= 2 && s[0] == '#' && s[1] == '!' {
        line_end(s, 0)
    } else {
        0
    }
}

/// The name a commented block's opener gives, if the line is one. `# ///` with no
/// name is a closer, not an opener.
pub open spec fn opener_name(line: Seq<char>) -> Option<Seq<char>> {
    let t = trimmed_end(line);
    if t.len() >= 5 && t.take(5) == "# ///"@ && trimmed(t.skip(5)).len() > 0 {
        Some(trimmed(t.skip(5)))
    } else {
        None
    }
}

/// The commented block at the start of a document, optionally after a shebang;
/// none where there is no opener.
pub open spec fn commented_block(s: Seq<char>) -> Option<Result<Bk, Er>> {
    let start = behind_shebang(s);
    let end = line_end(s, start);
    match opener_name(s.subrange(start, end)) {
        None => None,
        Some(name) => Some(
            match uncommented(s, name, end, Seq::empty()) {
                Err(e) => Err(e),
                Ok((at, block)) => Ok(
                    Bk {
                        prefix: s.take(end),
                        block,
                        suffix: s.skip(at),
                        lang: Inner::Toml,
                        commented: true,
                        source: s.subrange(end, at),
                    },
                ),
            },
        ),
    }
}

/// The frontmatter block of a document.
pub open spec fn located(s: Seq<char>) -> Result<Bk, Er> {
    match commented_block(s) {
        Some(r) => r,
        None => fenced(s),
    }
}

/// A line with the comment prefix: an empty one is a bare `#`.
pub open spec fn prefixed(line: Seq<char>) -> Seq<char> {
    let content = line_content(line);
    (if content.len() == 0 {
        "#"@
    } else {
        "# "@ + content
    }) + line_ending(line)
}

/// Is the line what stands behind the prefix of a line of the document?
pub open spec fn shows(shown: Seq<char>, line: Seq<char>) -> bool {
    payload(line_content(shown)) == Some(line_content(line))
}

/// How many lines at the head, from the `i`th on, are still those of the document.
pub open spec fn head_kept(was: Seq<Seq<char>>, now: Seq<Seq<char>>, i: int) -> int
    decreases now.len() - i,
{
    if 0 <= i < was.len() && i < now.len() && shows(was[i], now[i]) {
        head_kept(was, now, i + 1)
    } else {
        i
    }
}

/// How many lines at the tail, beside the `k` last and the `head` first ones, are
/// still those of the document.
pub open spec fn tail_kept(was: Seq<Seq<char>>, now: Seq<Seq<char>>, head: int, k: int) -> int
    decreases now.len() - k,
{
    if 0 <= k < was.len() - head && k < now.len() - head && 0 <= head && shows(
        was[was.len() - 1 - k],
        now[now.len() - 1 - k],
    ) {
        tail_kept(was, now, head, k + 1)
    } else {
        k
    }
}

/// A line with its prefix: as the document has it where the line is one of those
/// before the first or behind the last change, with the canonical prefix otherwise.
pub open spec fn respelled(was: Seq<Seq<char>>, now: Seq<Seq<char>>, i: int) -> Seq<char> {
    let head = head_kept(was, now, 0);
    let tail = tail_kept(was, now, head, 0);
    if i < head {
        line_content(was[i]) + line_ending(now[i])
    } else if i >= now.len() - tail {
        line_content(was[i - now.len() + was.len()]) + line_ending(now[i])
    } else {
        prefixed(now[i])
    }
}

/// A block with the comment prefix on each line, where the block stood in the
/// document as `source`.
pub open spec fn recommented(source: Seq<char>, s: Seq<char>) -> Seq<char> {
    let was = lines_of(source);
    let now = lines_of(s);
    flat(Seq::new(now.len(), |i: int| respelled(was, now, i)))
}

/// The view of a location.
pub open spec fn block_view(r: Result<Block, ParseError>) -> Result<Bk, Er> {
    match r {
        Ok(b) => Ok(b@),
        Err(e) => Err(parse_failure(e)),
    }
}

fn end_of_line(cs: &[char], i: usize) -> (r: usize)
    requires
        i <= cs.len(),
    ensures
        r == line_end(cs@, i as int),
        i <= r <= cs.len(),
        i < cs.len() ==> i < r,
{
    proof {
        line_end_bounds(cs@, i as int);
    }
    let mut k: usize = i;
    while k < cs.len() && cs[k] != '\n'
        invariant
            i <= k <= cs.len(),
            line_end(cs@, i as int) == line_end(cs@, k as int),
        decreases cs.len() - k,
    {
        k = k + 1;
    }
    if k < cs.len() {
        k + 1
    } else {
        k
    }
}

fn trim_tail(s: &str) -> (r: String)
    ensures
        r@ == trimmed_end(s@),
{
    let cs = chars_of(s);
    let mut e: usize = cs.len();
    assert(s@.take(e as int) =~= s@);
    while e > 0 && is_white(cs[e - 1])
        invariant
            e <= cs.len(),
            cs@ == s@,
            trimmed_end(s@) == trimmed_end(s@.take(e as int)),
        decreases e,
    {
        assert(s@.take(e as int).drop_last() =~= s@.take(e - 1));
        assert(s@.take(e as int).last() == s@[e - 1]);
        e = e - 1;
    }
    let r = slice_text(&cs, 0, e);
    assert(r@ =~= s@.take(e as int));
    assert(e > 0 ==> r@.last() == s@[e - 1]);
    r
}

/// The position behind the `}` matching the `{` at `start`.
fn match_braces(cs: &[char], start: usize) -> (r: Option<usize>)
    requires
        start <= cs.len(),
    ensures
        match r {
            Some(e) => brace_end(cs@, start as int, 0, false, false) == Some(e as int) && start < e
                <= cs.len(),
            None => brace_end(cs@, start as int, 0, false, false) is None,
        },
{
    let mut depth: usize = 0;
    let mut quoted = false;
    let mut escaped = false;
    let mut i: usize = start;
    while i < cs.len()
        invariant
            start <= i <= cs.len(),
            depth <= i,
            !quoted ==> !escaped,
            brace_end(cs@, start as int, 0, false, false) == brace_end(
                cs@,
                i as int,
                depth as nat,
                quoted,
                escaped,
            ),
        decreases cs.len() - i,
    {
        let c = cs[i];
        if quoted {
            if escaped {
                escaped = false;
            } else if c == '\\' {
                escaped = true;
            } else if c == '"' {
                quoted = false;
            }
        } else if c == '"' {
            quoted = true;
        } else if c == '{' {
            depth = depth + 1;
        } else if c == '}' {
            if depth <= 1 {
                return Some(i + 1);
            }
            depth = depth - 1;
        }
        i = i + 1;
    }
    None
}

fn is_closer(c: Closer, line: &str) -> (r: bool)
    ensures
        r == closes(c, line@),
{
    match c {
        Closer::Dashes => same(line, "---"),
        Closer::DashesOrDots => same(line, "---") || same(line, "..."),
        Closer::Pluses => same(line, "+++"),
    }
}

/// The view of an opening fence.
spec fn fence_view(r: Result<(Closer, Inner), ParseError>) -> Result<(Closer, Inner), Er> {
    match r {
        Ok(x) => Ok(x),
        Err(e) => Err(parse_failure(e)),
    }
}

fn read_fence(opener: &str) -> (r: Result<(Closer, Inner), ParseError>)
    ensures
        fence_view(r) == fence_of(opener@),
{
    if same(opener, "---") {
        return Ok((Closer::DashesOrDots, Inner::Yaml));
    }
    if same(opener, "+++") {
        return Ok((Closer::Pluses, Inner::Toml));
    }
    let cs = chars_of(opener);
    if cs.len() >= 3 {
        let head = slice_text(&cs, 0, 3);
        assert(head@ =~= opener@.take(3));
        if same(&head, "---") {
            let rest = slice_text(&cs, 3, cs.len());
            assert(rest@ =~= opener@.skip(3));
            let tag = trim(&rest);
            if same(&tag, "yaml") || same(&tag, "yml") {
                return Ok((Closer::DashesOrDots, Inner::Yaml));
            }
            if same(&tag, "toml") {
                return Ok((Closer::Dashes, Inner::Toml));
            }
            if same(&tag, "json") || same(&tag, "json5") || same(&tag, "jsonc") {
                return Ok((Closer::Dashes, Inner::Json));
            }
            let mut msg = "unsupported frontmatter language tag `".to_owned();
            msg.append(&tag);
            msg.append("` (expected yaml, toml, or json)");
            return Err(ParseError::of(msg));
        }
    }
    Err(ParseError::of("no frontmatter block at the start of the document".to_owned()))
}

proof fn trimmed_start_len(s: Seq<char>)
    ensures
        trimmed_start(s).len() <= s.len(),
    decreases s.len(),
{
    if s.len() > 0 && white_space(s[0]) {
        trimmed_start_len(s.drop_first());
    }
}

/// Locate the fenced or bare block at the very start of `src`.
fn split(src: &str) -> (r: Result<Block, ParseError>)
    ensures
        block_view(r) == fenced(src@),
{
    let cs = chars_of(src);
    let (start, _) = trim_bounds(&cs);
    proof {
        trimmed_start_len(src@);
    }
    assert(start == text_start(src@));
    if start < cs.len() && cs[start] == '{' {
        return match match_braces(&cs, start) {
            None => Err(
                ParseError::of("unterminated JSON frontmatter (no matching `}`)".to_owned()),
            ),
            Some(e) => {
                let prefix = slice_text(&cs, 0, start);
                let suffix = slice_text(&cs, e, cs.len());
                assert(prefix@ =~= src@.take(start as int));
                assert(suffix@ =~= src@.skip(e as int));
                Ok(
                    Block {
                        prefix,
                        block: slice_text(&cs, start, e),
                        suffix,
                        lang: Inner::Json,
                        commented: false,
                        source: slice_text(&cs, start, e),
                    },
                )
            },
        };
    }
    let first: usize = end_of_line(&cs, 0);
    if cs.len() == 0 || cs[first - 1] != '\n' {
        return Err(
            ParseError::of("no frontmatter block at the start of the document".to_owned()),
        );
    }
    let head = slice_text(&cs, 0, first);
    assert(head@ =~= src@.take(first as int));
    let opener = trim_tail(&head);
    let (closer, lang) = read_fence(&opener)?;
    let mut i: usize = first;
    while i < cs.len()
        invariant
            first <= i <= cs.len(),
            cs@ == src@,
            head@ == src@.take(first as int),
            0 < first,
            first == line_end(src@, 0),
            src@[first - 1] == '\n',
            !(0 <= text_start(src@) < src@.len() && src@[text_start(src@)] == '{'),
            opener@ == trimmed_end(src@.take(first as int)),
            fence_of(opener@) == Ok::<(Closer, Inner), Er>((closer, lang)),
            close_from(src@, closer, first as int) == close_from(src@, closer, i as int),
        decreases cs.len() - i,
    {
        let e: usize = end_of_line(&cs, i);
        let line = slice_text(&cs, i, e);
        if is_closer(closer, &trim_tail(&line)) {
            let suffix = slice_text(&cs, i, cs.len());
            assert(suffix@ =~= src@.skip(i as int));
            return Ok(
                Block {
                    prefix: head,
                    block: slice_text(&cs, first, i),
                    suffix,
                    lang,
                    commented: false,
                    source: slice_text(&cs, first, i),
                },
            );
        }
        i = e;
    }
    let mut msg = "unterminated frontmatter (opened with `".to_owned();
    msg.append(&opener);
    msg.append("`, no closing fence)");
    Err(ParseError::of(msg))
}

fn read_opener(line: &str) -> (r: Option<String>)
    ensures
        crate::model::opt_text(r) == opener_name(line@),
{
    let t = trim_tail(line);
    let cs = chars_of(&t);
    if cs.len() >= 5 {
        let head = slice_text(&cs, 0, 5);
        assert(head@ =~= t@.take(5));
        if same(&head, "# ///") {
            let rest = slice_text(&cs, 5, cs.len());
            assert(rest@ =~= t@.skip(5));
            let name = trim(&rest);
            if name.as_str().unicode_len() > 0 {
                return Some(name);
            }
        }
    }
    None
}

fn read_payload(content: &str) -> (r: Option<String>)
    ensures
        crate::model::opt_text(r) == payload(content@),
{
    if same(content, "#") {
        let none = String::new();
        assert(none@ =~= Seq::<char>::empty());
        return Some(none);
    }
    let cs = chars_of(content);
    if cs.len() >= 2 && cs[0] == '#' && cs[1] == ' ' {
        let rest = slice_text(&cs, 2, cs.len());
        assert(rest@ =~= content@.skip(2));
        return Some(rest);
    }
    None
}

/// Detect a commented host-language block (PEP 723: `# /// name` ... `# ///`),
/// optionally after a shebang. `None` when there is no such opener, an error when
/// an opener is found but the block is malformed or unterminated. Only the
/// canonical line prefix is taken: `# `, or a bare `#` for an empty line.
fn detect_commented(src: &str) -> (r: Option<Result<Block, ParseError>>)
    ensures
        match r {
            None => commented_block(src@) is None,
            Some(b) => commented_block(src@) == Some(block_view(b)),
        },
{
    let cs = chars_of(src);
    let start: usize = if cs.len() >= 2 && cs[0] == '#' && cs[1] == '!' {
        end_of_line(&cs, 0)
    } else {
        0
    };
    let end: usize = end_of_line(&cs, start);
    let name = match read_opener(&slice_text(&cs, start, end)) {
        None => {
            return None;
        },
        Some(name) => name,
    };
    let mut block = String::new();
    let mut i: usize = end;
    assert(block@ =~= Seq::<char>::empty());
    while i < cs.len()
        invariant
            end <= i <= cs.len(),
            cs@ == src@,
            start == behind_shebang(src@),
            end == line_end(src@, start as int),
            opener_name(src@.subrange(start as int, end as int)) == Some(name@),
            uncommented(src@, name@, end as int, Seq::empty()) == uncommented(
                src@,
                name@,
                i as int,
                block@,
            ),
        decreases cs.len() - i,
    {
        let e: usize = end_of_line(&cs, i);
        let line = slice_text(&cs, i, e);
        let (content, term) = split_ending(&line);
        if same(&trim_tail(content), "# ///") {
            let prefix = slice_text(&cs, 0, end);
            let suffix = slice_text(&cs, i, cs.len());
            assert(prefix@ =~= src@.take(end as int));
            assert(suffix@ =~= src@.skip(i as int));
            return Some(
                Ok(
                    Block {
                        prefix,
                        block,
                        suffix,
                        lang: Inner::Toml,
                        commented: true,
                        source: slice_text(&cs, end, i),
                    },
                ),
            );
        }
        match read_payload(content) {
            None => {
                let mut msg =
                    "malformed commented frontmatter: line is not `# ...` or `#`: `".to_owned();
                msg.append(content);
                msg.append("`");
                return Some(Err(ParseError::of(msg)));
            },
            Some(p) => {
                block.append(&p);
                block.append(term);
            },
        }
        i = e;
    }
    let mut msg = "unterminated commented frontmatter (opened with `# /// ".to_owned();
    msg.append(&name);
    msg.append("`, no `# ///` close)");
    Some(Err(ParseError::of(msg)))
}

/// Locate the frontmatter block of a document, and keep the rest opaque.
pub fn locate(src: &str) -> (r: Result<Block, ParseError>)
    ensures
        block_view(r) == located(src@),
{
    match detect_commented(src) {
        Some(r) => r,
        None => split(src),
    }
}

fn is_shown(shown: &str, line: &str) -> (r: bool)
    ensures
        r == shows(shown@, line@),
{
    let (content, _) = split_ending(shown);
    let (want, _) = split_ending(line);
    match read_payload(content) {
        Some(p) => same(&p, want),
        None => false,
    }
}

/// Re-apply the comment prefix to each line of a block that stood in the document
/// as `source`: a non-empty line becomes `# <line>`, an empty line becomes a bare
/// `#`. The lines before the first and behind the last change keep the prefix they
/// have there. The inverse of taking the prefixes off, so an unedited block
/// round-trips byte for byte (see [`commented_block_round_trips`]).
pub fn recomment(source: &str, s: &str) -> (r: String)
    ensures
        r@ == recommented(source@, s@),
{
    let old_lines = split_lines(source);
    let ls = split_lines(s);
    let ghost was = texts(old_lines@);
    let ghost now = texts(ls@);
    let mut head: usize = 0;
    while head < old_lines.len() && head < ls.len() && is_shown(&old_lines[head], &ls[head])
        invariant
            head <= old_lines.len(),
            head <= ls.len(),
            was == texts(old_lines@),
            now == texts(ls@),
            head_kept(was, now, 0) == head_kept(was, now, head as int),
        decreases ls.len() - head,
    {
        head = head + 1;
    }
    let mut tail: usize = 0;
    while tail < old_lines.len() - head && tail < ls.len() - head && is_shown(
        &old_lines[old_lines.len() - 1 - tail],
        &ls[ls.len() - 1 - tail],
    )
        invariant
            head + tail <= old_lines.len(),
            head + tail <= ls.len(),
            was == texts(old_lines@),
            now == texts(ls@),
            tail_kept(was, now, head as int, 0) == tail_kept(was, now, head as int, tail as int),
        decreases ls.len() - tail,
    {
        tail = tail + 1;
    }
    let ghost want = Seq::new(now.len(), |i: int| respelled(was, now, i));
    let mut out = String::new();
    let mut i: usize = 0;
    assert(out@ =~= flat(want.take(0)));
    while i < ls.len()
        invariant
            i <= ls.len(),
            was == texts(old_lines@),
            now == texts(ls@),
            head == head_kept(was, now, 0),
            tail == tail_kept(was, now, head as int, 0),
            head + tail <= old_lines.len(),
            head + tail <= ls.len(),
            want == Seq::new(now.len(), |i: int| respelled(was, now, i)),
            out@ == flat(want.take(i as int)),
        decreases ls.len() - i,
    {
        assert(now[i as int] == ls@[i as int]@);
        let (content, term) = split_ending(&ls[i]);
        let ghost before = out@;
        if i < head {
            assert(was[i as int] == old_lines@[i as int]@);
            let (shown, _) = split_ending(&old_lines[i]);
            out.append(shown);
        } else if i >= ls.len() - tail {
            let at: usize = old_lines.len() - (ls.len() - i);
            assert(was[at as int] == old_lines@[at as int]@);
            let (shown, _) = split_ending(&old_lines[at]);
            out.append(shown);
        } else if content.unicode_len() == 0 {
            out.append("#");
        } else {
            out.append("# ");
            out.append(content);
        }
        out.append(term);
        proof {
            assert(out@ =~= before + respelled(was, now, i as int));
            assert(want.take(i + 1) =~= want.take(i as int).push(want[i as int]));
            flat_push(want.take(i as int), want[i as int]);
        }
        i = i + 1;
    }
    assert(want.take(i as int) =~= want);
    out
}

/// A document viewed through its frontmatter block.
pub struct Frontmatter<D> {
    pub prefix: String,
    pub inner: D,
    pub suffix: String,
    /// The block's own format: what a query renders in, since "frontmatter" is a
    /// lens, not an emittable format.
    pub lang: Inner,
    /// A commented host-language block: the inner document has the block with its
    /// line prefixes stripped, and the text re-applies them.
    pub commented: bool,
    /// The block as it stood in the document, line prefixes and all.
    pub source: String,
}

/// The mathematical content of a [`Frontmatter`] over a document's content.
pub struct FrontDoc<X> {
    pub prefix: Seq<char>,
    pub inner: X,
    pub suffix: Seq<char>,
    pub lang: Inner,
    pub commented: bool,
    pub source: Seq<char>,
}

/// The lens with another inner document.
pub open spec fn refit<X>(d: FrontDoc<X>, inner: X) -> FrontDoc<X> {
    FrontDoc { inner, ..d }
}

/// The lens over what an edit of the inner document leads to.
pub open spec fn refit_result<X>(d: FrontDoc<X>, r: Result<X, Er>) -> Result<FrontDoc<X>, Er> {
    match r {
        Ok(x) => Ok(refit(d, x)),
        Err(e) => Err(e),
    }
}

/// The text of a lens over an inner document's text: the block stands between the
/// opaque parts.
pub open spec fn spliced<X>(d: FrontDoc<X>, block: Seq<char>) -> Seq<char> {
    d.prefix + (if d.commented {
        recommented(d.source, block)
    } else {
        block
    }) + d.suffix
}

impl<D: Document> Frontmatter<D> {
    /// The content of the lens.
    pub open spec fn content(&self) -> FrontDoc<D::Doc> {
        FrontDoc {
            prefix: self.prefix@,
            inner: self.inner.doc(),
            suffix: self.suffix@,
            lang: self.lang,
            commented: self.commented,
            source: self.source@,
        }
    }

    /// A located block with its text parsed into `inner`.
    pub fn new(block: Block, inner: D) -> (r: Frontmatter<D>)
        ensures
            r.content() == (FrontDoc::<D::Doc> {
                prefix: block@.prefix,
                inner: inner.doc(),
                suffix: block@.suffix,
                lang: block@.lang,
                commented: block@.commented,
                source: block@.source,
            }),
    {
        Frontmatter {
            prefix: block.prefix,
            inner,
            suffix: block.suffix,
            lang: block.lang,
            commented: block.commented,
            source: block.source,
        }
    }

    /// The name of the block's own format.
    pub fn inner_format(&self) -> (r: Option<&'static str>)
        ensures
            r is Some,
            (r->0)@ == inner_name(self.content().lang),
    {
        Some(self.lang.name())
    }
}

impl Frontmatter<Toml> {
    /// Whether the block holds comments.
    pub fn has_comments(&self) -> (r: bool)
        ensures
            r == self.content().inner.had_comments,
    {
        self.inner.has_comments()
    }
}

impl Frontmatter<Jsonc> {
    /// Whether the block holds comments.
    pub fn has_comments(&self) -> (r: bool)
        ensures
            r == jsonc_annotated(self.content().inner),
    {
        self.inner.has_comments()
    }

    /// The block's text at `path`.
    pub fn source_slice(&self, path: &Vec<Step>) -> (r: Vec<String>)
        ensures
            texts(r@) == node_texts(
                nodes_along(seq![self.content().inner.value], steps_of(path@)),
            ),
    {
        self.inner.source_slice(path)
    }
}

impl<D: Document> Mutable for Frontmatter<D> {
    type Doc = FrontDoc<D::Doc>;

    open spec fn doc(&self) -> FrontDoc<D::Doc> {
        self.content()
    }

    open spec fn fanning() -> bool {
        D::fanning()
    }

    open spec fn whole_of(d: FrontDoc<D::Doc>) -> Val {
        D::whole_of(d.inner)
    }

    open spec fn value_in(d: FrontDoc<D::Doc>, path: Seq<St>) -> Option<Val> {
        D::value_in(d.inner, path)
    }

    open spec fn set_in(d: FrontDoc<D::Doc>, path: Seq<St>, value: Val) -> Result<
        FrontDoc<D::Doc>,
        Er,
    > {
        refit_result(d, D::set_in(d.inner, path, value))
    }

    open spec fn delete_in(d: FrontDoc<D::Doc>, path: Seq<St>) -> Outcome<FrontDoc<D::Doc>> {
        let o = D::delete_in(d.inner, path);
        (refit(d, o.0), o.1)
    }

    open spec fn append_in(d: FrontDoc<D::Doc>, path: Seq<St>, items: Seq<Val>) -> Option<
        Result<FrontDoc<D::Doc>, Er>,
    > {
        match D::append_in(d.inner, path, items) {
            None => None,
            Some(r) => Some(refit_result(d, r)),
        }
    }

    open spec fn miss_in(d: FrontDoc<D::Doc>, path: Seq<St>) -> Result<(), Er> {
        D::miss_in(d.inner, path)
    }

    open spec fn check_in(d: FrontDoc<D::Doc>, path: Seq<St>, kind: MutationKind) -> Result<
        (),
        Er,
    > {
        D::check_in(d.inner, path, kind)
    }

    fn fans_out() -> (r: bool) {
        D::fans_out()
    }

    fn whole(&self) -> (r: Value) {
        self.inner.whole()
    }

    fn value_at(&self, path: &Vec<Step>) -> (r: Option<Value>) {
        self.inner.value_at(path)
    }

    fn set(&mut self, path: &Vec<Step>, value: &Value) -> (r: Result<(), EditError>) {
        self.inner.set(path, value)
    }

    fn delete(&mut self, path: &Vec<Step>) -> (r: Result<(), EditError>) {
        self.inner.delete(path)
    }

    fn append(&mut self, path: &Vec<Step>, items: &Vec<Value>) -> (r: Option<
        Result<(), EditError>,
    >) {
        self.inner.append(path, items)
    }

    fn miss(&self, path: &Vec<Step>) -> (r: Result<(), EditError>) {
        self.inner.miss(path)
    }

    fn check_path(&self, path: &Vec<Step>, kind: MutationKind) -> (r: Result<(), EditError>) {
        self.inner.check_path(path, kind)
    }
}

impl<D: Document> Document for Frontmatter<D> {
    open spec fn source_of(d: FrontDoc<D::Doc>) -> Seq<char> {
        spliced(d, D::source_of(d.inner))
    }

    open spec fn commented_of(d: FrontDoc<D::Doc>) -> Seq<Cmt> {
        D::commented_of(d.inner)
    }

    open spec fn note_in(
        d: FrontDoc<D::Doc>,
        at: int,
        path: Seq<St>,
        kind: CommentKind,
        text: Seq<char>,
    ) -> Result<(FrontDoc<D::Doc>, Seq<Seq<char>>), Er> {
        match D::note_in(d.inner, at, path, kind, text) {
            Ok((x, w)) => Ok((refit(d, x), w)),
            Err(e) => Err(e),
        }
    }

    open spec fn unnote_in(d: FrontDoc<D::Doc>, path: Seq<St>, kind: CommentKind) -> Result<
        FrontDoc<D::Doc>,
        Er,
    > {
        refit_result(d, D::unnote_in(d.inner, path, kind))
    }

    open spec fn features_of() -> Seq<Feature> {
        D::features_of()
    }

    fn to_source(&self) -> (r: String) {
        let body = self.inner.to_source();
        let mut out = self.prefix.clone();
        if self.commented {
            out.append(&recomment(&self.source, &body));
        } else {
            out.append(&body);
        }
        out.append(&self.suffix);
        out
    }

    fn features(&self) -> (r: Vec<Feature>) {
        self.inner.features()
    }

    fn to_commented_all(&self) -> (r: Vec<Commented>) {
        self.inner.to_commented_all()
    }

    fn set_comment_in_doc(&mut self, at: usize, path: &Vec<Step>, kind: CommentKind, text: &str) -> (r: Result<
        Vec<String>,
        EditError,
    >) {
        self.inner.set_comment_in_doc(at, path, kind, text)
    }

    fn delete_comment(&mut self, path: &Vec<Step>, kind: CommentKind) -> (r: Result<
        (),
        EditError,
    >) {
        self.inner.delete_comment(path, kind)
    }
}

/// What parsing a document leads to: the lens over its block, or for a block in a
/// format this library has no document type for, the block as it stands.
pub enum Front {
    Toml(Frontmatter<Toml>),
    Json(Frontmatter<Jsonc>),
    Yaml(Block),
}

/// The mathematical content of a [`Front`].
pub enum Fv {
    Toml(FrontDoc<TomlDoc>),
    Json(FrontDoc<JsoncDoc>),
    Yaml(Bk),
}

/// The lens over a located block.
pub open spec fn over<X>(b: Bk, inner: X) -> FrontDoc<X> {
    FrontDoc {
        prefix: b.prefix,
        inner,
        suffix: b.suffix,
        lang: b.lang,
        commented: b.commented,
        source: b.source,
    }
}

/// What parsing a document leads to.
pub open spec fn front_parsed(src: Seq<char>, fx: Facts) -> Result<Fv, Er> {
    match located(src) {
        Err(e) => Err(e),
        Ok(b) => match b.lang {
            Inner::Yaml => Ok(Fv::Yaml(b)),
            Inner::Toml => match toml_parsed(b.block) {
                Ok(d) => Ok(Fv::Toml(over(b, d))),
                Err(m) => Err(fail(m)),
            },
            Inner::Json => match jsonc_parsed(b.block, fx) {
                Ok(d) => Ok(Fv::Json(over(b, d))),
                Err(e) => Err(Er { msg: e.msg, need: e.need }),
            },
        },
    }
}

/// The view of a parse.
pub open spec fn front_view(r: Result<Front, ParseError>) -> Result<Fv, Er> {
    match r {
        Ok(Front::Toml(f)) => Ok(Fv::Toml(f.content())),
        Ok(Front::Json(f)) => Ok(Fv::Json(f.content())),
        Ok(Front::Yaml(b)) => Ok(Fv::Yaml(b@)),
        Err(e) => Err(parse_failure(e)),
    }
}

/// Parse `src` as a frontmatter-bearing document: split off the block, parse it
/// with the matching engine, keep the rest opaque. A YAML block is handed back
/// unparsed, for [`Frontmatter::new`] with a document of the caller's.
pub fn parse(src: &str, facts: &FloatFacts) -> (r: Result<Front, ParseError>)
    ensures
        front_view(r) == front_parsed(src@, facts@),
{
    let b = locate(src)?;
    match b.lang {
        Inner::Yaml => Ok(Front::Yaml(b)),
        Inner::Toml => match crate::toml::parse(&b.block) {
            Err(e) => Err(ParseError { msg: e.msg, need: None }),
            Ok(d) => Ok(Front::Toml(Frontmatter::new(b, d))),
        },
        Inner::Json => match crate::jsonc::parse(&b.block, facts) {
            Err(e) => Err(ParseError { msg: e.msg, need: e.need }),
            Ok(d) => Ok(Front::Json(Frontmatter::new(b, d))),
        },
    }
}

proof fn brace_end_bounds(s: Seq<char>, i: int, depth: nat, quoted: bool, escaped: bool)
    ensures
        match brace_end(s, i, depth, quoted, escaped) {
            Some(e) => i < e <= s.len(),
            None => true,
        },
    decreases s.len() - i,
{
    if 0 <= i < s.len() {
        if quoted {
            brace_end_bounds(s, i + 1, depth, true, false);
            brace_end_bounds(s, i + 1, depth, true, true);
            brace_end_bounds(s, i + 1, depth, s[i] != '"', false);
        } else {
            brace_end_bounds(s, i + 1, depth, true, false);
            brace_end_bounds(s, i + 1, depth + 1, false, false);
            brace_end_bounds(s, i + 1, depth, false, false);
            if depth > 1 {
                brace_end_bounds(s, i + 1, (depth - 1) as nat, false, false);
            }
        }
    }
}

proof fn close_from_bounds(s: Seq<char>, c: Closer, i: int)
    requires
        0 <= i,
    ensures
        match close_from(s, c, i) {
            Some(e) => i <= e < s.len(),
            None => true,
        },
    decreases s.len() - i,
{
    if i < s.len() {
        line_end_bounds(s, i);
        close_from_bounds(s, c, line_end(s, i));
    }
}

/// The parts of a fenced or bare block are the document: an unedited block between
/// its opaque parts gives the document back.
pub proof fn fenced_parts_are_the_document(src: Seq<char>)
    requires
        located(src) is Ok,
        !located(src)->Ok_0.commented,
    ensures
        located(src)->Ok_0.prefix + located(src)->Ok_0.block + located(src)->Ok_0.suffix == src,
{
    let b = located(src)->Ok_0;
    let start = text_start(src);
    trimmed_start_len(src);
    line_end_bounds(src, 0);
    if 0 <= start < src.len() && src[start] == '{' {
        brace_end_bounds(src, start, 0, false, false);
    } else {
        let first = line_end(src, 0);
        let opener = trimmed_end(src.take(first));
        close_from_bounds(src, fence_of(opener)->Ok_0.0, first);
    }
    assert(b.prefix + b.block + b.suffix =~= src);
}

/// The lines of a commented block, from the one at `i` on.
pub open spec fn block_lines(s: Seq<char>, i: int) -> Seq<Seq<char>>
    decreases s.len() - i,
    when i >= 0
    via block_lines_decreases
{
    if i >= s.len() {
        Seq::empty()
    } else {
        let line = s.subrange(i, line_end(s, i));
        if ends_block(line_content(line)) {
            Seq::empty()
        } else {
            seq![line] + block_lines(s, line_end(s, i))
        }
    }
}

#[via_fn]
proof fn block_lines_decreases(s: Seq<char>, i: int) {
    line_end_bounds(s, i);
}

spec fn stripped(line: Seq<char>) -> Seq<char> {
    payload(line_content(line))->0 + line_ending(line)
}

proof fn prefix_restored(line: Seq<char>)
    requires
        is_line(line),
        line.last() == '\n',
        payload(line_content(line)) is Some,
    ensures
        shows(line, stripped(line)),
        line_ending(stripped(line)) == line_ending(line),
        is_line(stripped(line)),
        stripped(line).last() == '\n',
{
    let c = line_content(line);
    let t = line_ending(line);
    let p = payload(c)->0;
    let x = stripped(line);
    line_splits(line);
    reveal_strlit("#");
    reveal_strlit("# ");
    reveal_strlit("\r\n");
    reveal_strlit("\n");
    reveal_strlit("");
    assert(x == p + t);
    if p.len() == 0 {
        assert(x =~= t);
        assert(line_content(x) =~= p);
        assert(line_ending(x) =~= t);
    } else {
        assert(p =~= c.skip(2));
        assert(p.last() == c.last());
        assert(line_content(x) =~= p);
        assert(line_ending(x) =~= t);
    }
    assert forall|j: int| 0 <= j < x.len() - 1 implies #[trigger] x[j] != '\n' by {
        if j < p.len() {
            assert(p[j] == c[j + 2]);
            assert(line[j + 2] == c[j + 2]);
        } else {
            assert(t.len() == 2);
        }
    }
}

proof fn uncommented_is(s: Seq<char>, name: Seq<char>, i: int, so_far: Seq<char>)
    requires
        0 <= i,
        uncommented(s, name, i, so_far) is Ok,
    ensures
        ({
            let (at, b) = uncommented(s, name, i, so_far)->Ok_0;
            let ls = block_lines(s, i);
            &&& i <= at < s.len()
            &&& s.subrange(i, at) == flat(ls)
            &&& b == so_far + flat(Seq::new(ls.len(), |k: int| stripped(ls[k])))
            &&& ends_block(line_content(s.subrange(at, line_end(s, at))))
            &&& forall|k: int|
                0 <= k < ls.len() ==> is_line(#[trigger] ls[k]) && ls[k].last() == '\n' && payload(
                    line_content(ls[k]),
                ) is Some && !ends_block(line_content(ls[k]))
        }),
    decreases s.len() - i,
{
    let ls = block_lines(s, i);
    if i < s.len() {
        let e = line_end(s, i);
        line_end_bounds(s, i);
        let line = s.subrange(i, e);
        let content = line_content(line);
        if ends_block(content) {
            assert(s.subrange(i, i) =~= flat(ls));
            assert(so_far + flat(Seq::new(ls.len(), |k: int| stripped(ls[k]))) =~= so_far);
        } else {
            let p = payload(content)->0;
            let next = so_far + p + line_ending(line);
            uncommented_is(s, name, e, next);
            let (at, b) = uncommented(s, name, e, next)->Ok_0;
            let rest = block_lines(s, e);
            let mapped = Seq::new(ls.len(), |k: int| stripped(ls[k]));
            let rest_mapped = Seq::new(rest.len(), |k: int| stripped(rest[k]));
            assert(ls == seq![line] + rest);
            assert(mapped =~= seq![stripped(line)] + rest_mapped);
            flat_add(seq![line], rest);
            flat_one(line);
            flat_add(seq![stripped(line)], rest_mapped);
            flat_one(stripped(line));
            assert(s.subrange(i, at) =~= line + s.subrange(e, at));
            assert(next + flat(rest_mapped) =~= so_far + (stripped(line) + flat(rest_mapped)));
            assert(is_line(line)) by {
                assert forall|j: int| 0 <= j < line.len() - 1 implies #[trigger] line[j] != '\n' by {
                    assert(s[i + j] != '\n');
                }
            }
            assert(s[e - 1] == '\n');
            assert forall|k: int| 0 <= k < ls.len() implies is_line(#[trigger] ls[k])
                && ls[k].last() == '\n' && payload(line_content(ls[k])) is Some && !ends_block(
                line_content(ls[k]),
            ) by {
                if k > 0 {
                    assert(ls[k] == rest[k - 1]);
                }
            }
        }
    }
}

proof fn all_kept(was: Seq<Seq<char>>, now: Seq<Seq<char>>, i: int)
    requires
        was.len() == now.len(),
        0 <= i <= now.len(),
        forall|k: int| 0 <= k < now.len() ==> shows(#[trigger] was[k], now[k]),
    ensures
        head_kept(was, now, i) == now.len(),
    decreases now.len() - i,
{
    if i < now.len() {
        assert(shows(was[i], now[i]));
        all_kept(was, now, i + 1);
    }
}

/// Stripping the comment prefixes of a block and putting them back gives the
/// document back, character for character.
#[verifier::rlimit(60)]
#[verifier::spinoff_prover]
pub proof fn commented_block_round_trips(src: Seq<char>)
    requires
        located(src) is Ok,
        located(src)->Ok_0.commented,
    ensures
        ({
            let b = located(src)->Ok_0;
            b.prefix + recommented(b.source, b.block) + b.suffix == src
        }),
{
    if commented_block(src) is None {
        // A fenced block is not a commented one.
        assert(located(src) == fenced(src));
        assert(false);
    }
    let start = behind_shebang(src);
    line_end_bounds(src, 0);
    line_end_bounds(src, start);
    let end = line_end(src, start);
    let name = opener_name(src.subrange(start, end))->0;
    uncommented_is(src, name, end, Seq::empty());
    let (at, b) = uncommented(src, name, end, Seq::empty())->Ok_0;
    let ls = block_lines(src, end);
    let m = Seq::new(ls.len(), |k: int| stripped(ls[k]));
    assert(b =~= flat(m));
    assert forall|k: int| 0 <= k < m.len() implies is_line(#[trigger] m[k]) && m[k].last() == '\n'
        && shows(ls[k], m[k]) && line_ending(m[k]) == line_ending(ls[k]) by {
        prefix_restored(ls[k]);
    }
    lines_of_flat(m);
    lines_of_flat(ls);
    all_kept(ls, m, 0);
    assert forall|k: int| 0 <= k < m.len() implies #[trigger] respelled(ls, m, k) == ls[k] by {
        assert(line_ending(m[k]) == line_ending(ls[k]));
        line_splits(ls[k]);
    }
    assert(Seq::new(m.len(), |k: int| respelled(ls, m, k)) =~= ls);
    assert(src.take(end) + src.subrange(end, at) + src.skip(at) =~= src);
}

/// Is no line of the text one that would end a commented block?
pub open spec fn no_closer(s: Seq<char>) -> bool {
    forall|i: int|
        0 <= i < lines_of(s).len() ==> !ends_block("# "@ + line_content(#[trigger] lines_of(s)[i]))
}

/// A kept line shows the line it is kept for.
proof fn kept_shows(was: Seq<Seq<char>>, now: Seq<Seq<char>>)
    ensures
        ({
            let head = head_kept(was, now, 0);
            let tail = tail_kept(was, now, head, 0);
            &&& 0 <= head <= was.len()
            &&& 0 <= tail
            &&& head + tail <= now.len()
            &&& head + tail <= was.len()
            &&& forall|i: int| 0 <= i < head ==> shows(was[i], #[trigger] now[i])
            &&& forall|i: int|
                now.len() - tail <= i < now.len() ==> shows(
                    was[i - now.len() + was.len()],
                    #[trigger] now[i],
                )
        }),
{
    head_shows(was, now, 0);
    tail_shows(was, now, head_kept(was, now, 0), 0);
}

proof fn head_shows(was: Seq<Seq<char>>, now: Seq<Seq<char>>, i: int)
    requires
        0 <= i <= was.len(),
        i <= now.len(),
    ensures
        i <= head_kept(was, now, i) <= was.len(),
        head_kept(was, now, i) <= now.len(),
        forall|k: int| i <= k < head_kept(was, now, i) ==> shows(was[k], #[trigger] now[k]),
    decreases now.len() - i,
{
    if i < was.len() && i < now.len() && shows(was[i], now[i]) {
        head_shows(was, now, i + 1);
    }
}

proof fn tail_shows(was: Seq<Seq<char>>, now: Seq<Seq<char>>, head: int, k: int)
    requires
        0 <= head,
        0 <= k,
        head + k <= was.len(),
        head + k <= now.len(),
    ensures
        k <= tail_kept(was, now, head, k),
        head + tail_kept(was, now, head, k) <= was.len(),
        head + tail_kept(was, now, head, k) <= now.len(),
        forall|i: int|
            now.len() - tail_kept(was, now, head, k) <= i < now.len() - k ==> shows(
                was[i - now.len() + was.len()],
                #[trigger] now[i],
            ),
    decreases now.len() - k,
{
    if k < was.len() - head && k < now.len() - head && shows(
        was[was.len() - 1 - k],
        now[now.len() - 1 - k],
    ) {
        tail_shows(was, now, head, k + 1);
        assert forall|i: int|
            now.len() - tail_kept(was, now, head, k) <= i < now.len() - k implies shows(
            was[i - now.len() + was.len()],
            #[trigger] now[i],
        ) by {
            if i == now.len() - 1 - k {
                assert(was[i - now.len() + was.len()] == was[was.len() - 1 - k]);
            }
        }
    }
}

/// A line behind a prefix is that prefix, the line's content and its ending.
proof fn shown_line(content: Seq<char>, line: Seq<char>)
    requires
        is_line(line),
        line.last() == '\n',
        payload(content) == Some(line_content(line)),
    ensures
        ({
            let x = content + line_ending(line);
            &&& is_line(x)
            &&& x.last() == '\n'
            &&& line_content(x) == content
            &&& line_ending(x) == line_ending(line)
        }),
{
    let t = line_ending(line);
    let c = line_content(line);
    let x = content + t;
    line_splits(line);
    reveal_strlit("#");
    reveal_strlit("\r\n");
    reveal_strlit("\n");
    reveal_strlit("");
    assert(line == c + t);
    assert(t.len() >= 1 && t.last() == '\n');
    if content != "#"@ {
        assert(c =~= content.skip(2));
    }
    assert(content.len() > 0);
    if c.len() > 0 {
        assert(content.last() == c.last());
        assert(line[c.len() - 1] == c.last());
    }
    assert(x[content.len() - 1] == content.last());
    assert(line_content(x) =~= content);
    assert(line_ending(x) =~= t);
    assert forall|j: int| 0 <= j < x.len() - 1 implies #[trigger] x[j] != '\n' by {
        if j < content.len() {
            if j >= 2 {
                assert(content[j] == c[j - 2]);
                assert(line[j - 2] == c[j - 2]);
            }
        } else {
            assert(t.len() == 2);
            assert(j == content.len());
        }
    }
}

/// The lines of a block with their prefixes: lines, none of which ends the block, and
/// behind whose prefix the block's lines stand.
proof fn respelled_lines(was: Seq<Seq<char>>, now: Seq<Seq<char>>, i: int)
    requires
        0 <= i < now.len(),
        is_line(now[i]),
        now[i].last() == '\n',
        !ends_block("# "@ + line_content(now[i])),
    ensures
        ({
            let x = respelled(was, now, i);
            &&& is_line(x)
            &&& x.last() == '\n'
            &&& payload(line_content(x)) == Some(line_content(now[i]))
            &&& line_ending(x) == line_ending(now[i])
            &&& !ends_block(line_content(x))
        }),
{
    kept_shows(was, now);
    let x = respelled(was, now, i);
    let head = head_kept(was, now, 0);
    let tail = tail_kept(was, now, head, 0);
    let c = line_content(now[i]);
    reveal_strlit("#");
    reveal_strlit("# ");
    reveal_strlit("# ///");
    let content = if i < head {
        line_content(was[i])
    } else if i >= now.len() - tail {
        line_content(was[i - now.len() + was.len()])
    } else if c.len() == 0 {
        "#"@
    } else {
        "# "@ + c
    };
    assert(x == content + line_ending(now[i]));
    if i < head || i >= now.len() - tail {
        assert(shows(
            was[if i < head {
                i
            } else {
                i - now.len() + was.len()
            }],
            now[i],
        ));
    } else if c.len() > 0 {
        assert(("# "@ + c).skip(2) =~= c);
    } else {
        assert(c =~= Seq::<char>::empty());
    }
    shown_line(content, now[i]);
    if content == "#"@ {
        trimmed_end_short(content);
    } else {
        assert(content =~= "# "@ + c);
    }
}

proof fn trimmed_end_short(s: Seq<char>)
    ensures
        trimmed_end(s).len() <= s.len(),
    decreases s.len(),
{
    if s.len() > 0 {
        trimmed_end_short(s.drop_last());
    }
}

/// A line ends where it ends in another text with the same characters up to there.
proof fn same_line_end(a: Seq<char>, b: Seq<char>, x: int, y: int, n: int)
    requires
        0 <= x,
        0 <= y,
        0 < n,
        x + n <= a.len(),
        y + n <= b.len(),
        a.subrange(x, x + n) == b.subrange(y, y + n),
        a[x + n - 1] == '\n',
        line_end(a, x) == x + n,
    ensures
        line_end(b, y) == y + n,
    decreases n,
{
    assert(a[x] == a.subrange(x, x + n)[0]);
    assert(b[y] == b.subrange(y, y + n)[0]);
    if n > 1 {
        if a[x] != '\n' {
            line_end_bounds(a, x + 1);
            assert(a.subrange(x + 1, x + n) =~= a.subrange(x, x + n).skip(1));
            assert(b.subrange(y + 1, y + n) =~= b.subrange(y, y + n).skip(1));
            same_line_end(a, b, x + 1, y + 1, n - 1);
        }
    }
}

/// The end of a line that stands in a text.
proof fn line_there(l: Seq<char>, b: Seq<char>, y: int)
    requires
        is_line(l),
        l.last() == '\n',
        0 <= y,
        y + l.len() <= b.len(),
        b.subrange(y, y + l.len()) == l,
    ensures
        line_end(b, y) == y + l.len(),
{
    line_end_bounds(l, 0);
    let e = line_end(l, 0);
    if e < l.len() {
        assert(l[e - 1] == '\n');
    }
    assert(l.subrange(0, l.len() as int) =~= l);
    same_line_end(l, b, 0, y, l.len() as int);
}

proof fn uncommented_from(
    text: Seq<char>,
    name: Seq<char>,
    out: Seq<Seq<char>>,
    now: Seq<Seq<char>>,
    y: int,
    so_far: Seq<char>,
)
    requires
        0 <= y,
        out.len() == now.len(),
        y + flat(out).len() < text.len(),
        text.subrange(y, y + flat(out).len()) == flat(out),
        forall|i: int| 0 <= i < out.len() ==> {
            let x = #[trigger] out[i];
            &&& is_line(x)
            &&& x.last() == '\n'
            &&& payload(line_content(x)) == Some(line_content(now[i]))
            &&& line_ending(x) == line_ending(now[i])
            &&& !ends_block(line_content(x))
        },
        ({
            let e = y + flat(out).len();
            ends_block(line_content(text.subrange(e, line_end(text, e))))
        }),
    ensures
        uncommented(text, name, y, so_far) == Ok::<(int, Seq<char>), Er>(
            (y + flat(out).len(), so_far + flat(now)),
        ),
    decreases out.len(),
{
    if out.len() == 0 {
        assert(so_far + flat(now) =~= so_far);
    } else {
        let l = out[0];
        let rest = out.drop_first();
        let later = now.drop_first();
        assert(out =~= seq![l] + rest);
        assert(now =~= seq![now[0]] + later);
        flat_add(seq![l], rest);
        flat_one(l);
        flat_add(seq![now[0]], later);
        flat_one(now[0]);
        let whole = flat(out);
        assert(text.subrange(y, y + l.len()) =~= l) by {
            assert(whole.take(l.len() as int) =~= l);
            assert(text.subrange(y, y + l.len()) =~= text.subrange(y, y + whole.len()).take(
                l.len() as int,
            ));
        }
        line_there(l, text, y);
        let z = y + l.len();
        assert(text.subrange(z, z + flat(rest).len()) =~= flat(rest)) by {
            assert(whole.skip(l.len() as int) =~= flat(rest));
            assert(text.subrange(z, z + flat(rest).len()) =~= text.subrange(
                y,
                y + whole.len(),
            ).skip(l.len() as int));
        }
        line_splits(now[0]);
        let next = so_far + line_content(now[0]) + line_ending(l);
        assert(next =~= so_far + now[0]);
        assert forall|i: int| 0 <= i < rest.len() implies {
            let x = #[trigger] rest[i];
            &&& is_line(x)
            &&& x.last() == '\n'
            &&& payload(line_content(x)) == Some(line_content(later[i]))
            &&& line_ending(x) == line_ending(later[i])
            &&& !ends_block(line_content(x))
        } by {
            assert(rest[i] == out[i + 1]);
        }
        uncommented_from(text, name, rest, later, z, next);
        assert(next + flat(later) =~= so_far + flat(now));
    }
}

/// An edited block with its prefixes, in its place, reads as the edited block, where its
/// lines are terminated and none would end the block.
#[verifier::rlimit(60)]
#[verifier::spinoff_prover]
pub proof fn edited_block_reads_back(src: Seq<char>, s: Seq<char>)
    requires
        located(src) is Ok,
        located(src)->Ok_0.commented,
        s.len() > 0 ==> s.last() == '\n',
        no_closer(s),
    ensures
        ({
            let b = located(src)->Ok_0;
            let text = recommented(b.source, s);
            located(b.prefix + text + b.suffix) == Ok::<Bk, Er>(
                Bk { block: s, source: text, ..b },
            )
        }),
{
    if commented_block(src) is None {
        // A fenced block is not a commented one.
        assert(located(src) == fenced(src));
        assert(false);
    }
    let b = located(src)->Ok_0;
    let start = behind_shebang(src);
    line_end_bounds(src, 0);
    line_end_bounds(src, start);
    let end = line_end(src, start);
    let name = opener_name(src.subrange(start, end))->0;
    uncommented_is(src, name, end, Seq::empty());
    let (at, _) = uncommented(src, name, end, Seq::empty())->Ok_0;
    let was = lines_of(b.source);
    let now = lines_of(s);
    let out = Seq::new(now.len(), |i: int| respelled(was, now, i));
    lines_are_lines(s);
    lines_round_trip(s);
    assert forall|i: int| 0 <= i < out.len() implies {
        let x = #[trigger] out[i];
        &&& is_line(x)
        &&& x.last() == '\n'
        &&& payload(line_content(x)) == Some(line_content(now[i]))
        &&& line_ending(x) == line_ending(now[i])
        &&& !ends_block(line_content(x))
    } by {
        if i == now.len() - 1 {
            assert(flat(now).last() == now.last().last());
        }
        respelled_lines(was, now, i);
    }
    let text = b.prefix + flat(out) + b.suffix;
    let e = end + flat(out).len();
    assert(text.take(end) =~= src.take(end));
    assert(text.skip(e) =~= src.skip(at));
    assert(src[end - 1] == '\n');
    // The opener is where it was.
    let first = line_end(src, 0);
    assert(behind_shebang(text) == start) by {
        if start > 0 {
            assert(src[0] == text[0] && src[1] == text[1]);
            assert(src.subrange(0, first) =~= text.subrange(0, first));
            assert(src[first - 1] == '\n');
            same_line_end(src, text, 0, 0, first);
        } else {
            assert(src[0] == text.take(end)[0]);
            if end >= 2 {
                assert(src[1] == text.take(end)[1]);
            }
        }
    }
    assert(src.subrange(start, end) =~= text.subrange(start, end));
    same_line_end(src, text, start, start, end - start);
    // The closer is what it was.
    let ce = line_end(src, at);
    line_end_bounds(src, at);
    assert(line_end(text, e) == e + (ce - at)) by {
        line_end_shifted(src, text, at, e);
    }
    assert(text.subrange(e, e + (ce - at)) =~= src.subrange(at, ce));
    assert(text.subrange(end, e) =~= flat(out));
    uncommented_from(text, name, out, now, end, Seq::empty());
    assert(Seq::<char>::empty() + flat(now) =~= s);
    assert(text.subrange(end, e) =~= recommented(b.source, s));
}

/// Lines end alike in texts that end alike.
proof fn line_end_shifted(a: Seq<char>, b: Seq<char>, x: int, y: int)
    requires
        0 <= x <= a.len(),
        0 <= y <= b.len(),
        a.skip(x) == b.skip(y),
    ensures
        line_end(b, y) - y == line_end(a, x) - x,
    decreases a.len() - x,
{
    assert(a.skip(x).len() == a.len() - x);
    assert(b.skip(y).len() == b.len() - y);
    if x < a.len() {
        assert(a[x] == a.skip(x)[0]);
        assert(b[y] == b.skip(y)[0]);
        if a[x] != '\n' {
            assert(a.skip(x + 1) =~= a.skip(x).skip(1));
            assert(b.skip(y + 1) =~= b.skip(y).skip(1));
            line_end_shifted(a, b, x + 1, y + 1);
        }
    }
}

/// The opaque parts of a lens, and how its block stands in the document, are those
/// of another.
pub open spec fn same_surroundings<X>(a: FrontDoc<X>, b: FrontDoc<X>) -> bool {
    a.prefix == b.prefix && a.suffix == b.suffix && a.lang == b.lang && a.commented == b.commented
        && a.source == b.source
}

proof fn changes_keep_surroundings<D: Document>(
    d: FrontDoc<D::Doc>,
    paths: Seq<Seq<St>>,
    c: Change,
    fx: Facts,
    n: nat,
)
    ensures
        same_surroundings(changed_each::<Frontmatter<D>>(d, paths, c, fx, n).0, d),
    decreases n,
{
    if n > 0 {
        changes_keep_surroundings::<D>(d, paths, c, fx, (n - 1) as nat);
    }
}

proof fn plain_keeps_surroundings<D: Document>(d: FrontDoc<D::Doc>, e: Ex, fx: Facts)
    ensures
        same_surroundings(plain_mutated::<Frontmatter<D>>(d, e, fx).0, d),
{
    assert forall|paths: Seq<Seq<St>>, c: Change| same_surroundings(
        (#[trigger] changed_each::<Frontmatter<D>>(d, paths, c, fx, paths.len())).0,
        d,
    ) by {
        changes_keep_surroundings::<D>(d, paths, c, fx, paths.len());
    }
}

proof fn turns_keep_surroundings<D: Document>(d: FrontDoc<D::Doc>, ms: Seq<Ex>, fx: Facts)
    ensures
        same_surroundings(mutated_in_turn::<Frontmatter<D>>(d, ms, fx).0, d),
    decreases ms.len(),
{
    if ms.len() > 0 {
        turns_keep_surroundings::<D>(d, ms.drop_last(), fx);
        let now = mutated_in_turn::<Frontmatter<D>>(d, ms.drop_last(), fx).0;
        plain_keeps_surroundings::<D>(now, ms.last(), fx);
    }
}

/// Whatever a mutation does to the block, the rest of the document stays as it is.
pub proof fn edits_keep_the_body<D: Document>(d: FrontDoc<D::Doc>, e: Ex, fx: Facts)
    ensures
        same_surroundings(mutated::<Frontmatter<D>>(d, e, fx).0, d),
    decreases e,
{
    match crate::paths::lowered(e, Frontmatter::<D>::whole_of(d), fx) {
        Err(_) => {},
        Ok(Some(ms)) => {
            turns_keep_surroundings::<D>(d, ms, fx);
        },
        Ok(None) => match e {
            Ex::Pipe(a, b) => {
                edits_keep_the_body::<D>(d, *a, fx);
                let mid = mutated::<Frontmatter<D>>(d, *a, fx).0;
                edits_keep_the_body::<D>(mid, *b, fx);
            },
            _ => {
                plain_keeps_surroundings::<D>(d, e, fx);
            },
        },
    }
}

} // verus!
