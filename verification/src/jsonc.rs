//! JSONC/JSON5/JSON documents.
//!
//! Parse JSONC into a tree that round-trips exactly, project it to the value
//! model for querying, and edit it in place touching only the targeted nodes.
//! Structurally malformed input is rejected at [`parse`] with a line and column,
//! so an edit never splices into a broken tree. `.json` is read by the same
//! parser (it is a subset with no comments to preserve).
use crate::convert::{pretty_text, to_pretty_json};
use crate::error::{fail, opt_need, EditError, Er};
use crate::eval::expand_delete_paths;
use crate::float::{Facts, FloatFacts, FloatNeed, Need};
use crate::json_edit::{js_append, js_at, js_delete, js_set};
use crate::json_lexer::{jts, json_tokens, lex, token_texts, tokens_round_trip, Jt, Tok, Token};
use crate::json_nodes::{js_val, write_tokens};
use crate::json_parser::{j_document, parse_document, Se};
use crate::json_syntax::{document_green, json_tree, json_tree_is_lossless};
use crate::json_tree::{group_json_views, js_text, toks_text, Js, Json};
use crate::model::{
    group_comment_views, group_expr_views, group_value_views, paths_view, steps_of, vals,
    CommentKind, Expr, St, Step, Val, Value,
};
use crate::mutate::{
    apply_mutation, attempt, done, has_iterate, iterates, mutated, opt_value, Mutable, MutationKind, Outcome,
};
use crate::semantics::expanded;
use crate::strs::{chars_of, nat_digits, slice_text, wide_text};
use crate::syntax::{fits, green, green_holds, green_text};
use crate::text::{dominant, dominant_ending, marked, split_bom};
use vstd::prelude::*;

verus! {

broadcast use {group_value_views, group_expr_views, group_comment_views, group_json_views};

/// The comment kinds this format supports.
pub fn comment_kinds() -> (r: Vec<CommentKind>)
    ensures
        r@ == seq![CommentKind::Head, CommentKind::Inline, CommentKind::Foot],
{
    vec![CommentKind::Head, CommentKind::Inline, CommentKind::Foot]
}

/// A parse failure, or the floating-point result whose absence stopped the parse.
#[derive(Debug)]
pub struct ParseError {
    pub msg: String,
    pub need: Option<FloatNeed>,
}

impl ParseError {
    /// The message.
    pub fn to_string(&self) -> (r: String)
        ensures
            r@ == self.msg@,
    {
        self.msg.clone()
    }
}

/// A parsed JSONC document.
pub struct Jsonc {
    pub head: Vec<Token>,
    pub value: Json,
    pub tail: Vec<Token>,
    /// Whether the source uses any spelling strict JSON forbids (JSON5's unquoted
    /// keys, single-quoted strings, `+`/hex/leading-dot numbers,
    /// `Infinity`/`NaN`, line continuations). Gates what a **freshly inserted**
    /// value may use: a JSON5 document can take an `Infinity` literal; a
    /// strict-JSON document cannot (it errors rather than writing `null`).
    /// Untouched regions round-trip regardless.
    pub json5: bool,
    /// The source opened with a UTF-8 byte-order mark: kept out of the tree (it is
    /// not JSON) and restored by `to_source`.
    pub bom: bool,
}

/// The mathematical content of a [`Jsonc`].
pub struct JsoncDoc {
    pub head: Seq<Jt>,
    pub value: Js,
    pub tail: Seq<Jt>,
    pub json5: bool,
    pub bom: bool,
}

/// The text of a document without its byte-order mark.
pub open spec fn jsonc_body(d: JsoncDoc) -> Seq<char> {
    toks_text(d.head) + js_text(d.value) + toks_text(d.tail)
}

/// The text of a document.
pub open spec fn jsonc_source(d: JsoncDoc) -> Seq<char> {
    marked(d.bom, jsonc_body(d))
}

/// Is a number spelled in a way that strict JSON forbids?
pub open spec fn number5(t: Seq<char>) -> bool {
    let u = if t.len() > 0 && (t[0] == '+' || t[0] == '-') {
        t.drop_first()
    } else {
        t
    };
    (t.len() > 0 && t[0] == '+') || crate::semantics::starts(u, "0x"@) || crate::semantics::starts(
        u,
        "0X"@,
    ) || (u.len() > 0 && (u[0] == '.' || u.last() == '.')) || crate::semantics::ends(
        t,
        "Infinity"@,
    ) || t == "NaN"@
}

/// Is a token spelled in a way that strict JSON forbids? Comments and trailing
/// commas are JSONC, not JSON5, and do not count.
pub open spec fn token5(t: Jt) -> bool {
    match t.kind {
        Tok::SingleStr | Tok::Ident => true,
        Tok::Str => crate::strings::find_sep(t.text, "\\\n"@, 0) is Some,
        Tok::Num => number5(t.text),
        _ => false,
    }
}

/// Does the source use a spelling that strict JSON forbids?
pub open spec fn uses_json5(ts: Seq<Jt>) -> bool {
    exists|i: int| 0 <= i < ts.len() && token5(#[trigger] ts[i])
}

fn is_number5(text: &str) -> (r: bool)
    ensures
        r == number5(text@),
{
    let cs = chars_of(text);
    let n: usize = cs.len();
    let from: usize = if n > 0 && (cs[0] == '+' || cs[0] == '-') {
        1
    } else {
        0
    };
    let u = slice_text(&cs, from, n);
    let us = chars_of(&u);
    proof {
        if from == 1 {
            assert(us@ =~= text@.drop_first());
        } else {
            assert(us@ =~= text@);
        }
    }
    let m: usize = us.len();
    (n > 0 && cs[0] == '+') || crate::builtins::begins(&us, &chars_of("0x"))
        || crate::builtins::begins(&us, &chars_of("0X")) || (m > 0 && (us[0] == '.' || us[m - 1]
        == '.')) || crate::builtins::finishes(&cs, &chars_of("Infinity")) || crate::strs::same(
        text,
        "NaN",
    )
}

/// Does the source use a spelling that strict JSON forbids?
fn detect_json5(ts: &Vec<Token>) -> (r: bool)
    ensures
        r == uses_json5(jts(ts@)),
{
    let ghost all = jts(ts@);
    let mut i: usize = 0;
    while i < ts.len()
        invariant
            i <= ts.len(),
            all == jts(ts@),
            forall|k: int| 0 <= k < i ==> !token5(#[trigger] all[k]),
        decreases ts.len() - i,
    {
        assert(all[i as int] == ts@[i as int]@);
        let five = match ts[i].kind {
            Tok::SingleStr | Tok::Ident => true,
            Tok::Str => {
                let cs = chars_of(&ts[i].text);
                let mark = chars_of("\\\n");
                crate::strings::next_sep(&cs, &mark, 0).is_some()
            },
            Tok::Num => is_number5(&ts[i].text),
            _ => false,
        };
        if five {
            return true;
        }
        i = i + 1;
    }
    false
}

/// The line breaks among the first `n` characters.
pub open spec fn breaks_before(s: Seq<char>, n: int) -> nat
    decreases n,
{
    if n <= 0 {
        0
    } else if s[n - 1] == '\n' {
        breaks_before(s, n - 1) + 1
    } else {
        breaks_before(s, n - 1)
    }
}

/// The 1-based line and column (in characters) of position `at`.
pub open spec fn line_and_column(s: Seq<char>, at: int) -> (nat, nat) {
    (
        breaks_before(s, at) + 1,
        (at - crate::json_spell::last_line(s, at) + 1) as nat,
    )
}

fn line_col(cs: &[char], at: usize) -> (r: (u128, u128))
    requires
        at <= cs.len(),
    ensures
        (r.0 as nat, r.1 as nat) == line_and_column(cs@, at as int),
{
    let mut line: u128 = 1;
    let mut start: usize = 0;
    let mut i: usize = 0;
    while i < at
        invariant
            i <= at <= cs.len(),
            line == breaks_before(cs@, i as int) + 1,
            line <= i + 1,
            start == crate::json_spell::last_line(cs@, i as int),
            start <= i,
        decreases at - i,
    {
        if cs[i] == '\n' {
            line = line + 1;
            start = i + 1;
        }
        i = i + 1;
    }
    (line, (at - start) as u128 + 1)
}

/// The position of token `i` in the source.
pub open spec fn token_offset(ts: Seq<Jt>, i: int) -> int {
    toks_text(ts.take(i)).len() as int
}

/// A position as it is shown.
pub open spec fn position_text(s: Seq<char>, at: int) -> Seq<char> {
    "line "@ + nat_digits(line_and_column(s, at).0) + ", column "@ + nat_digits(
        line_and_column(s, at).1,
    )
}

/// A structural problem as it is shown.
pub open spec fn problem_text(s: Seq<char>, ts: Seq<Jt>, e: Se) -> Seq<char> {
    "invalid JSONC at "@ + position_text(s, token_offset(ts, e.at)) + ": "@ + e.msg + (
    match e.opened {
        Some(o) => " (unclosed `"@ + ts[o].text + "` at "@ + position_text(s, token_offset(ts, o))
            + ")"@,
        None => Seq::empty(),
    })
}

/// The content of a parse failure.
pub struct Jf {
    pub msg: Seq<char>,
    pub need: Option<Need>,
}

/// The document a source body denotes.
pub open spec fn jsonc_read(bom: bool, s: Seq<char>, fx: Facts) -> Result<JsoncDoc, Jf> {
    let ts = json_tokens(s, 0);
    match j_document(ts, fx) {
        Err(e) => Err(
            Jf {
                msg: if e.need is Some {
                    e.msg
                } else {
                    problem_text(s, ts, e)
                },
                need: e.need,
            },
        ),
        Ok(None) => Err(Jf { msg: "invalid JSONC: no value found"@, need: None }),
        Ok(Some((head, value, tail))) => Ok(
            JsoncDoc { head, value, tail, json5: uses_json5(ts), bom },
        ),
    }
}

/// The document a source denotes.
pub open spec fn jsonc_parsed(src: Seq<char>, fx: Facts) -> Result<JsoncDoc, Jf> {
    if src.len() > 0 && src[0] == '\u{feff}' {
        jsonc_read(true, src.drop_first(), fx)
    } else {
        jsonc_read(false, src, fx)
    }
}

/// The view of a parse.
pub open spec fn jsonc_view(r: Result<Jsonc, ParseError>) -> Result<JsoncDoc, Jf> {
    match r {
        Ok(d) => Ok(d.content()),
        Err(e) => Err(Jf { msg: e.msg@, need: opt_need(e.need) }),
    }
}

fn offset_of(ts: &Vec<Token>, i: usize, cs: &[char]) -> (r: usize)
    requires
        i <= ts.len(),
        toks_text(jts(ts@)) == cs@,
    ensures
        r == token_offset(jts(ts@), i as int),
        r <= cs.len(),
{
    let ghost all = jts(ts@);
    let mut n: usize = 0;
    let mut k: usize = 0;
    assert(token_texts(all.take(0)) =~= Seq::<Seq<char>>::empty());
    while k < i
        invariant
            k <= i <= ts.len(),
            all == jts(ts@),
            toks_text(all) == cs@,
            n == toks_text(all.take(k as int)).len(),
            n <= cs.len(),
        decreases i - k,
    {
        proof {
            assert(token_texts(all.take(k + 1)) =~= token_texts(all.take(k as int)).push(
                all[k as int].text,
            ));
            crate::lines::flat_push(token_texts(all.take(k as int)), all[k as int].text);
            assert(all =~= all.take(k + 1) + all.skip(k + 1));
            assert(token_texts(all) =~= token_texts(all.take(k + 1)) + token_texts(
                all.skip(k + 1),
            ));
            crate::lines::flat_add(token_texts(all.take(k + 1)), token_texts(all.skip(k + 1)));
        }
        n = n + ts[k].text.as_str().unicode_len();
        k = k + 1;
    }
    proof {
        assert(all =~= all.take(i as int) + all.skip(i as int));
    }
    n
}

fn position(cs: &[char], at: usize) -> (r: String)
    requires
        at <= cs.len(),
    ensures
        r@ == position_text(cs@, at as int),
{
    let (line, col) = line_col(cs, at);
    let mut out = "line ".to_owned();
    out.append(&wide_text(line));
    out.append(", column ");
    out.append(&wide_text(col));
    out
}

impl Jsonc {
    /// The content of the document.
    pub open spec fn content(&self) -> JsoncDoc {
        JsoncDoc {
            head: jts(self.head@),
            value: self.value@,
            tail: jts(self.tail@),
            json5: self.json5,
            bom: self.bom,
        }
    }
}

/// Parse JSONC source into a [`Jsonc`] document.
///
/// Malformed input is rejected with the first problem's line and column: an
/// unrecognized character, a missing `:` or `,`, a stray token where a key or
/// value belongs, an unclosed container, or anything but whitespace and comments
/// after the top-level value. Editing a structurally broken document would splice
/// into a tree that does not mean what the text says.
pub fn parse(src: &str, facts: &FloatFacts) -> (r: Result<Jsonc, ParseError>)
    ensures
        jsonc_view(r) == jsonc_parsed(src@, facts@),
{
    let (bom, body) = split_bom(src);
    proof {
        if bom {
            assert(src@.drop_first() =~= body@);
        }
    }
    let cs = chars_of(body);
    parse_body(bom, &cs, facts)
}

/// Parse a source body.
pub fn parse_body(bom: bool, cs: &[char], facts: &FloatFacts) -> (r: Result<Jsonc, ParseError>)
    ensures
        jsonc_view(r) == jsonc_read(bom, cs@, facts@),
{
    let ts = lex(cs);
    proof {
        crate::json_parser::tokens_filled(cs@, 0);
        tokens_round_trip(cs@, 0);
        assert(cs@.skip(0) =~= cs@);
    }
    match parse_document(&ts, facts) {
        Ok(Some(p)) => Ok(
            Jsonc {
                head: p.head,
                value: p.value,
                tail: p.tail,
                json5: detect_json5(&ts),
                bom,
            },
        ),
        Ok(None) => Err(
            ParseError { msg: "invalid JSONC: no value found".to_owned(), need: None },
        ),
        Err(e) => {
            if e.need.is_some() {
                return Err(ParseError { msg: e.msg, need: e.need });
            }
            let mut msg = "invalid JSONC at ".to_owned();
            let at: usize = offset_of(&ts, e.at, cs);
            msg.append(&position(cs, at));
            msg.append(": ");
            msg.append(&e.msg);
            if let Some(o) = e.opened {
                assert(jts(ts@)[o as int] == ts@[o as int]@);
                msg.append(" (unclosed `");
                msg.append(&ts[o].text);
                msg.append("` at ");
                let from: usize = offset_of(&ts, o, cs);
                msg.append(&position(cs, from));
                msg.append(")");
            }
            assert(msg@ =~= problem_text(
                cs@,
                jts(ts@),
                crate::json_parser::problem_view(e),
            ));
            Err(ParseError { msg, need: None })
        },
    }
}

/// The document with another value.
pub open spec fn with_root(d: JsoncDoc, v: Js) -> JsoncDoc {
    JsoncDoc { value: v, ..d }
}

/// The document's dominant line ending, for lines an insertion adds.
pub open spec fn jsonc_eol(d: JsoncDoc) -> Seq<char> {
    dominant_ending(jsonc_body(d))
}

/// The document with the value at a path set.
pub open spec fn jsonc_set(d: JsoncDoc, path: Seq<St>, v: Val) -> Result<JsoncDoc, Er> {
    match js_set(d.value, path, v, d.json5, jsonc_eol(d)) {
        Ok(x) => Ok(with_root(d, x)),
        Err(e) => Err(e),
    }
}

/// The document with items appended to the array at a path.
pub open spec fn jsonc_append(d: JsoncDoc, path: Seq<St>, items: Seq<Val>) -> Result<JsoncDoc, Er> {
    match js_append(d.value, path, items, d.json5, jsonc_eol(d)) {
        Ok(x) => Ok(with_root(d, x)),
        Err(e) => Err(e),
    }
}

/// The value at a path.
pub open spec fn jsonc_value(d: JsoncDoc, path: Seq<St>) -> Option<Val> {
    match js_at(d.value, path) {
        Some(n) => Some(js_val(n)),
        None => None,
    }
}

/// The document with one path deleted.
pub open spec fn jsonc_drop(d: JsoncDoc, path: Seq<St>) -> Result<JsoncDoc, Er> {
    match js_delete(d.value, path) {
        Ok(x) => Ok(with_root(d, x)),
        Err(e) => Err(e),
    }
}

/// What deleting the first `n` of some paths in turn leads to.
pub open spec fn jsonc_drops(d: JsoncDoc, paths: Seq<Seq<St>>, n: nat) -> Outcome<JsoncDoc>
    decreases n,
{
    if n == 0 {
        (d, Ok(()))
    } else {
        let (now, r) = jsonc_drops(d, paths, (n - 1) as nat);
        match r {
            Err(e) => (now, Err(e)),
            Ok(_) => attempt(now, jsonc_drop(now, paths[n - 1])),
        }
    }
}

/// What deleting a path leads to. A `[]` in it deletes every iterated element or
/// member, back to front so indices stay valid as the collection shrinks.
pub open spec fn jsonc_delete(d: JsoncDoc, path: Seq<St>) -> Outcome<JsoncDoc> {
    if iterates(path) {
        match expanded(path, js_val(d.value)) {
            Err(e) => (d, Err(e)),
            Ok(ps) => jsonc_drops(d, ps.reverse(), ps.len()),
        }
    } else {
        attempt(d, jsonc_drop(d, path))
    }
}

impl Jsonc {
    /// The syntax tree of the document, without its byte-order mark.
    pub fn syntax(&self) -> (r: rowan::GreenNode)
        requires
            fits(jsonc_body(self.content())),
        ensures
            green_holds(r) == document_green(
                self.content().head,
                self.content().value,
                self.content().tail,
            ),
            green_text(green_holds(r)) == jsonc_body(self.content()),
    {
        proof {
            json_tree_is_lossless(jts(self.head@), self.value@, jts(self.tail@));
        }
        green(&json_tree(&self.head, &self.value, &self.tail))
    }

    /// The text without the byte-order mark.
    pub fn body(&self) -> (r: String)
        ensures
            r@ == jsonc_body(self.content()),
    {
        let mut out = String::new();
        write_tokens(&mut out, &self.head);
        self.value.write(&mut out);
        write_tokens(&mut out, &self.tail);
        assert(out@ =~= jsonc_body(self.content()));
        out
    }

    /// The file's dominant line ending, for lines an insertion adds.
    fn eol(&self) -> (r: &'static str)
        ensures
            r@ == jsonc_eol(self.content()),
    {
        dominant(&self.body())
    }

    /// Set the value at `path` to `value`, format-preserving. If the path already
    /// resolves, only that value node changes. If a trailing part of the path is
    /// missing, a new member is inserted into the deepest existing object
    /// (matching its indent/comma style), creating intermediate objects as needed.
    /// Creating through an array index or `[]` is not supported.
    pub fn set(&mut self, path: &Vec<Step>, value: &Value) -> (r: Result<(), EditError>)
        ensures
            (final(self).content(), done(r)) == attempt(
                old(self).content(),
                jsonc_set(old(self).content(), steps_of(path@), value@),
            ),
    {
        let eol = self.eol();
        assert(steps_of(path@).skip(0) =~= steps_of(path@));
        self.value.set(path, 0, value, self.json5, eol)
    }

    /// The value at `path`, projected to the value model, or `None` if absent.
    pub fn value_at(&self, path: &Vec<Step>) -> (r: Option<Value>)
        ensures
            opt_value(r) == jsonc_value(self.content(), steps_of(path@)),
    {
        match self.value.at(path) {
            Some(n) => Some(n.project()),
            None => None,
        }
    }

    /// Append `items` to the array at `path`, format-preserving: existing elements
    /// and layout are untouched; new elements match the array's indent and comma
    /// style.
    pub fn append(&mut self, path: &Vec<Step>, items: &Vec<Value>) -> (r: Result<(), EditError>)
        ensures
            (final(self).content(), done(r)) == attempt(
                old(self).content(),
                jsonc_append(old(self).content(), steps_of(path@), vals(items@)),
            ),
    {
        let eol = self.eol();
        assert(steps_of(path@).skip(0) =~= steps_of(path@));
        self.value.append(path, 0, items, self.json5, eol)
    }

    fn drop_path(&mut self, path: &Vec<Step>) -> (r: Result<(), EditError>)
        ensures
            (final(self).content(), done(r)) == attempt(
                old(self).content(),
                jsonc_drop(old(self).content(), steps_of(path@)),
            ),
    {
        assert(steps_of(path@).skip(0) =~= steps_of(path@));
        self.value.delete(path, 0)
    }

    /// Delete the value at `path`, format-preserving: the member's or element's
    /// line is removed cleanly (no dangling comma or blank line). A missing key or
    /// out-of-range index is a no-op (jq semantics). A `[]` in `path` deletes
    /// **every** iterated element/member (jq's `del(.a[])` empties the collection),
    /// one clean splice each.
    pub fn delete(&mut self, path: &Vec<Step>) -> (r: Result<(), EditError>)
        ensures
            (final(self).content(), done(r)) == jsonc_delete(old(self).content(), steps_of(path@)),
    {
        let ghost d = self.content();
        if !has_iterate(path) {
            return self.drop_path(path);
        }
        let whole = self.value.project();
        let paths = match expand_delete_paths(path, &whole) {
            Err(e) => {
                return Err(EditError::from_eval(e));
            },
            Ok(p) => p,
        };
        let ghost ps = paths_view(paths@);
        let mut i: usize = 0;
        while i < paths.len()
            invariant
                i <= paths.len(),
                ps == paths_view(paths@),
                d == old(self).content(),
                (self.content(), Ok::<(), Er>(())) == jsonc_drops(d, ps, i as nat),
                jsonc_delete(d, steps_of(path@)) == jsonc_drops(d, ps, ps.len()),
            decreases paths.len() - i,
        {
            assert(ps[i as int] == steps_of(paths@[i as int]@));
            if let Err(e) = self.drop_path(&paths[i]) {
                proof {
                    drops_stop(d, ps, (i + 1) as nat, ps.len());
                }
                return Err(e);
            }
            i = i + 1;
        }
        Ok(())
    }
}

proof fn drops_stop(d: JsoncDoc, ps: Seq<Seq<St>>, i: nat, n: nat)
    requires
        i <= n,
        jsonc_drops(d, ps, i).1 is Err,
    ensures
        jsonc_drops(d, ps, n) == jsonc_drops(d, ps, i),
    decreases n - i,
{
    if i < n {
        drops_stop(d, ps, i, (n - 1) as nat);
    }
}

/// Apply a mutation expression to `doc`, preserving format everywhere untouched.
pub fn apply(doc: &mut Jsonc, expr: &Expr, facts: &FloatFacts) -> (r: Result<(), EditError>)
    ensures
        (final(doc).content(), done(r)) == mutated::<Jsonc>(old(doc).content(), expr@, facts@),
{
    apply_mutation(doc, expr, facts)
}

impl Mutable for Jsonc {
    type Doc = JsoncDoc;

    open spec fn doc(&self) -> JsoncDoc {
        self.content()
    }

    open spec fn fanning() -> bool {
        true
    }

    open spec fn whole_of(d: JsoncDoc) -> Val {
        js_val(d.value)
    }

    open spec fn value_in(d: JsoncDoc, path: Seq<St>) -> Option<Val> {
        jsonc_value(d, path)
    }

    open spec fn set_in(d: JsoncDoc, path: Seq<St>, value: Val) -> Result<JsoncDoc, Er> {
        jsonc_set(d, path, value)
    }

    open spec fn delete_in(d: JsoncDoc, path: Seq<St>) -> Outcome<JsoncDoc> {
        jsonc_delete(d, path)
    }

    open spec fn append_in(d: JsoncDoc, path: Seq<St>, items: Seq<Val>) -> Option<
        Result<JsoncDoc, Er>,
    > {
        Some(jsonc_append(d, path, items))
    }

    open spec fn miss_in(d: JsoncDoc, path: Seq<St>) -> Result<(), Er> {
        Err(fail("path not found"@))
    }

    open spec fn check_in(d: JsoncDoc, path: Seq<St>, kind: MutationKind) -> Result<(), Er> {
        Ok(())
    }

    fn fans_out() -> (r: bool) {
        true
    }

    fn whole(&self) -> (r: Value) {
        self.value.project()
    }

    fn value_at(&self, path: &Vec<Step>) -> (r: Option<Value>) {
        Jsonc::value_at(self, path)
    }

    fn set(&mut self, path: &Vec<Step>, value: &Value) -> (r: Result<(), EditError>) {
        Jsonc::set(self, path, value)
    }

    fn delete(&mut self, path: &Vec<Step>) -> (r: Result<(), EditError>) {
        Jsonc::delete(self, path)
    }

    fn append(&mut self, path: &Vec<Step>, items: &Vec<Value>) -> (r: Option<
        Result<(), EditError>,
    >) {
        Some(Jsonc::append(self, path, items))
    }

    fn miss(&self, path: &Vec<Step>) -> (r: Result<(), EditError>) {
        Err(EditError::new("path not found"))
    }

    fn check_path(&self, path: &Vec<Step>, kind: MutationKind) -> (r: Result<(), EditError>) {
        Ok(())
    }
}

/// Emit a value as pretty JSON (the JSON/JSONC conversion target). JSON has no
/// comments, so nothing is dropped here beyond what the source already lost.
pub fn emit(value: &Value) -> (r: String)
    ensures
        r@ == pretty_text(value@, ""@).push('\n'),
{
    to_pretty_json(value)
}

} // verus!
