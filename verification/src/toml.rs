//! TOML documents: format-preserving edits of a [`Node`] tree that the `toml_edit`
//! crate reads and writes.
use crate::document::Document;
use crate::error::{fail, EditError, Er};
use crate::eval::{eval_path, expand_delete_paths};
use crate::feature::Feature;
use crate::float::FloatFacts;
use crate::line_comment::sanitize_comment_line;
use crate::model::{
    cmts, group_comment_views, group_expr_views, group_value_views, paths_view, steps_of, texts,
    Cmt, CommentKind, Commented, Expr, St, Step, Val, Value,
};
use crate::mutate::{
    apply_mutation, attempt, done, has_iterate, iterates, mutated, opt_value, Mutable,
    MutationKind, Outcome,
};
use crate::semantics::{expanded, path_outs};
use crate::strs::{cat, chars_of, slice_text};
use crate::text::{BOM, marked, restore_endings, restored, split_bom, with_bom};
use crate::toml_change::{drop_in_tree, nd_drop, nd_set, set_in_tree};
use crate::toml_comments::{toml_commented, tree_commented};
use crate::toml_emit::inline_suffix;
use crate::toml_items::{document_tree, parse_tree, parsed_view, print_tree, printed};
use crate::toml_nodes::{has_hash, hashed, nd_noted, nd_val};
use crate::toml_notes::{nd_note, write_comment};
use crate::toml_keep_laws::sound_is_formed;
use crate::toml_tree::{
    ets, find_slot, formed, group_toml_views, is_header, slot, sound, unique_tree, Nd, Node,
};
use crate::wrap::{budget_of, width_of, wrap_comment, wrap_width, wrapped};
use vstd::prelude::*;

pub use crate::toml_emit::{emit, emit_commented};

verus! {

broadcast use {group_value_views, group_expr_views, group_comment_views, group_toml_views};

/// The comment kinds this format supports.
pub fn comment_kinds() -> (r: Vec<CommentKind>)
    ensures
        r@ == seq![CommentKind::Head, CommentKind::Inline, CommentKind::Foot],
{
    vec![CommentKind::Head, CommentKind::Inline, CommentKind::Foot]
}

/// A parse failure.
#[derive(Debug)]
pub struct ParseError {
    pub msg: String,
}

impl ParseError {
    /// The message.
    pub fn to_string(&self) -> (r: String)
        ensures
            r@ == self.msg@,
    {
        self.msg.clone()
    }
}

/// A parsed TOML document.
pub struct Toml {
    pub root: Node,
    /// The text behind the last line that holds data.
    pub trailing: String,
    pub had_comments: bool,
    /// The parsed source (after any byte-order mark). The printer writes every
    /// line ending as `\n` and always ends the file with one, so serializing
    /// restores the original's endings and missing final newline from it.
    pub original: String,
    /// The source opened with a UTF-8 byte-order mark (restored on output).
    pub bom: bool,
}

/// The mathematical content of a [`Toml`].
pub struct TomlDoc {
    pub root: Nd,
    pub trailing: Seq<char>,
    pub had_comments: bool,
    pub original: Seq<char>,
    pub bom: bool,
}

impl Toml {
    /// The document's content.
    pub open spec fn content(&self) -> TomlDoc {
        TomlDoc {
            root: self.root@,
            trailing: self.trailing@,
            had_comments: self.had_comments,
            original: self.original@,
            bom: self.bom,
        }
    }
}

/// The printed text, without the newline at its end where the source had none.
pub open spec fn toml_body(d: TomlDoc) -> Seq<char> {
    let out = printed(d.root, d.trailing);
    if d.original.len() > 0 && d.original.last() != '\n' && out.len() > 0 && out.last() == '\n' {
        out.drop_last()
    } else {
        out
    }
}

/// The text of a document: printed, each line with the ending it had in the
/// source.
pub open spec fn toml_source(d: TomlDoc) -> Seq<char> {
    marked(d.bom, restored(d.original, toml_body(d)))
}

/// What parsing a text, with or without a byte-order mark, leads to.
pub open spec fn toml_read(bom: bool, text: Seq<char>) -> Result<TomlDoc, Seq<char>> {
    match document_tree(text) {
        Ok((root, trailing)) => Ok(
            TomlDoc {
                root,
                trailing,
                had_comments: hashed(trailing) || nd_noted(root),
                original: text,
                bom,
            },
        ),
        Err(m) => Err(m),
    }
}

/// What parsing a source leads to.
pub open spec fn toml_parsed(src: Seq<char>) -> Result<TomlDoc, Seq<char>> {
    if src.len() > 0 && src[0] == BOM {
        toml_read(true, src.drop_first())
    } else {
        toml_read(false, src)
    }
}

/// The view of a parse.
pub open spec fn toml_view(r: Result<Toml, ParseError>) -> Result<TomlDoc, Seq<char>> {
    match r {
        Ok(d) => Ok(d.content()),
        Err(e) => Err(e.msg@),
    }
}

/// A document as parsing and editing make them: its root is a standard table, and
/// its tree is of a form that a document can have.
pub open spec fn toml_ok(d: TomlDoc) -> bool {
    is_header(d.root) && formed(d.root)
}

/// Parse TOML source into a [`Toml`] document.
pub fn parse(src: &str) -> (r: Result<Toml, ParseError>)
    ensures
        toml_view(r) == toml_parsed(src@),
        r is Ok ==> toml_ok((r->Ok_0).content()) && sound((r->Ok_0).content().root) && unique_tree(
            (r->Ok_0).content().root,
        ),
{
    let (bom, body) = split_bom(src);
    assert(bom ==> body@ =~= src@.drop_first());
    let parsed = parse_tree(body);
    assert(parsed_view(parsed) == document_tree(body@));
    let r = match parsed {
        Err(msg) => Err(ParseError { msg }),
        Ok((root, trailing)) => {
            proof {
                sound_is_formed(root@);
            }
            let had_comments = has_hash(&trailing) || root.has_comment();
            Ok(Toml { root, trailing, had_comments, original: body.to_owned(), bom })
        },
    };
    assert(toml_view(r) == toml_read(bom, body@));
    r
}

/// The value at a path.
pub open spec fn toml_value(d: TomlDoc, path: Seq<St>) -> Option<Val> {
    match path_outs(path, nd_val(d.root)) {
        Ok(vs) => if vs.len() > 0 {
            Some(vs[0])
        } else {
            None
        },
        Err(_) => None,
    }
}

/// The document with a path set.
pub open spec fn toml_set(d: TomlDoc, path: Seq<St>, v: Val) -> Result<TomlDoc, Er> {
    match nd_set(d.root, path, v) {
        Ok(root) => Ok(TomlDoc { root, ..d }),
        Err(e) => Err(e),
    }
}

/// The document with one path deleted.
pub open spec fn toml_drop(d: TomlDoc, path: Seq<St>) -> Result<TomlDoc, Er> {
    match nd_drop(d.root, path) {
        Ok(root) => Ok(TomlDoc { root, ..d }),
        Err(e) => Err(e),
    }
}

/// What deleting the first `n` of some paths in turn leads to.
pub open spec fn toml_drops(d: TomlDoc, paths: Seq<Seq<St>>, n: nat) -> Outcome<TomlDoc>
    decreases n,
{
    if n == 0 {
        (d, Ok(()))
    } else {
        let (now, r) = toml_drops(d, paths, (n - 1) as nat);
        match r {
            Err(e) => (now, Err(e)),
            Ok(_) => attempt(now, toml_drop(now, paths[n - 1])),
        }
    }
}

/// What deleting a path leads to. A `[]` in it deletes every iterated element or
/// entry, back to front so indices stay valid as the collection shrinks.
pub open spec fn toml_delete(d: TomlDoc, path: Seq<St>) -> Outcome<TomlDoc> {
    if iterates(path) {
        match expanded(path, nd_val(d.root)) {
            Err(e) => (d, Err(e)),
            Ok(ps) => toml_drops(d, ps.reverse(), ps.len()),
        }
    } else {
        attempt(d, toml_drop(d, path))
    }
}

proof fn drops_stop(d: TomlDoc, ps: Seq<Seq<St>>, i: nat, n: nat)
    requires
        i <= n,
        toml_drops(d, ps, i).1 is Err,
    ensures
        toml_drops(d, ps, n) == toml_drops(d, ps, i),
    decreases n - i,
{
    if i < n {
        drops_stop(d, ps, i, (n - 1) as nat);
    }
}

impl Toml {
    /// Set the value at `path`, format-preserving. Missing keys are created,
    /// including intermediate tables (jq's `.a.b = 1` auto-creates `.a`). A path
    /// ending in an array index sets, appends (`idx == len`), or auto-vivifies an
    /// array or array-of-tables element (`.foo[0] = { ... }` -> `[[foo]]`).
    pub fn set(&mut self, path: &Vec<Step>, value: &Value) -> (r: Result<(), EditError>)
        ensures
            (final(self).content(), done(r)) == attempt(
                old(self).content(),
                toml_set(old(self).content(), steps_of(path@), value@),
            ),
    {
        set_in_tree(&mut self.root, path, value)
    }

    /// The value at `path`, or `None`.
    pub fn value_at(&self, path: &Vec<Step>) -> (r: Option<Value>)
        ensures
            opt_value(r) == toml_value(self.content(), steps_of(path@)),
    {
        let whole = self.root.project();
        match eval_path(path, &whole) {
            Ok(vs) => {
                if vs.len() > 0 {
                    Some(vs[0].clone())
                } else {
                    None
                }
            },
            Err(_) => None,
        }
    }

    fn drop_path(&mut self, path: &Vec<Step>) -> (r: Result<(), EditError>)
        ensures
            (final(self).content(), done(r)) == attempt(
                old(self).content(),
                toml_drop(old(self).content(), steps_of(path@)),
            ),
    {
        drop_in_tree(&mut self.root, path)
    }

    /// Delete the key or array element at `path` (a missing target is a no-op). A
    /// `[]` in `path` deletes **every** iterated element/table-entry (jq's
    /// `del(.a[])` empties the collection).
    pub fn delete(&mut self, path: &Vec<Step>) -> (r: Result<(), EditError>)
        ensures
            (final(self).content(), done(r)) == toml_delete(old(self).content(), steps_of(path@)),
    {
        let ghost d = self.content();
        if !has_iterate(path) {
            return self.drop_path(path);
        }
        let whole = self.root.project();
        let paths = match expand_delete_paths(path, &whole) {
            Err(e) => {
                return Err(EditError::from_eval(e));
            },
            Ok(p) => p,
        };
        let ghost ps = paths_view(paths@);
        let mut i: usize = 0;
        while i < paths.len()
            invariant
                i <= paths.len(),
                ps == paths_view(paths@),
                d == old(self).content(),
                (self.content(), Ok::<(), Er>(())) == toml_drops(d, ps, i as nat),
                toml_delete(d, steps_of(path@)) == toml_drops(d, ps, ps.len()),
            decreases paths.len() - i,
        {
            assert(ps[i as int] == steps_of(paths@[i as int]@));
            if let Err(e) = self.drop_path(&paths[i]) {
                proof {
                    drops_stop(d, ps, (i + 1) as nat, ps.len());
                }
                return Err(e);
            }
            i = i + 1;
        }
        Ok(())
    }

    /// Whether the document holds comments: it did when it was parsed, or one was
    /// written since.
    pub fn has_comments(&self) -> (r: bool)
        ensures
            r == self.content().had_comments,
    {
        self.had_comments
    }

    /// Project to the commented value model.
    pub fn to_commented(&self) -> (r: Option<Commented>)
        ensures
            r is Some,
            (r->0)@ == toml_commented(self.content().root, self.content().trailing),
    {
        Some(tree_commented(&self.root, &self.trailing))
    }
}

/// Apply a mutation expression to `doc`, preserving format everywhere untouched.
pub fn apply(doc: &mut Toml, expr: &Expr, facts: &FloatFacts) -> (r: Result<(), EditError>)
    ensures
        (final(doc).content(), done(r)) == mutated::<Toml>(old(doc).content(), expr@, facts@),
{
    apply_mutation(doc, expr, facts)
}

impl Mutable for Toml {
    type Doc = TomlDoc;

    open spec fn doc(&self) -> TomlDoc {
        self.content()
    }

    open spec fn fanning() -> bool {
        true
    }

    open spec fn whole_of(d: TomlDoc) -> Val {
        nd_val(d.root)
    }

    open spec fn value_in(d: TomlDoc, path: Seq<St>) -> Option<Val> {
        toml_value(d, path)
    }

    open spec fn set_in(d: TomlDoc, path: Seq<St>, value: Val) -> Result<TomlDoc, Er> {
        toml_set(d, path, value)
    }

    open spec fn delete_in(d: TomlDoc, path: Seq<St>) -> Outcome<TomlDoc> {
        toml_delete(d, path)
    }

    open spec fn append_in(d: TomlDoc, path: Seq<St>, items: Seq<Val>) -> Option<
        Result<TomlDoc, Er>,
    > {
        None
    }

    open spec fn miss_in(d: TomlDoc, path: Seq<St>) -> Result<(), Er> {
        Err(fail("path not found"@))
    }

    open spec fn check_in(d: TomlDoc, path: Seq<St>, kind: MutationKind) -> Result<(), Er> {
        Ok(())
    }

    fn fans_out() -> (r: bool) {
        true
    }

    fn whole(&self) -> (r: Value) {
        self.root.project()
    }

    fn value_at(&self, path: &Vec<Step>) -> (r: Option<Value>) {
        Toml::value_at(self, path)
    }

    fn set(&mut self, path: &Vec<Step>, value: &Value) -> (r: Result<(), EditError>) {
        Toml::set(self, path, value)
    }

    fn delete(&mut self, path: &Vec<Step>) -> (r: Result<(), EditError>) {
        Toml::delete(self, path)
    }

    fn append(&mut self, path: &Vec<Step>, items: &Vec<Value>) -> (r: Option<
        Result<(), EditError>,
    >) {
        None
    }

    fn miss(&self, path: &Vec<Step>) -> (r: Result<(), EditError>) {
        Err(EditError::new("path not found"))
    }

    fn check_path(&self, path: &Vec<Step>, kind: MutationKind) -> (r: Result<(), EditError>) {
        Ok(())
    }
}

/// Does a path of keys lead nowhere in the table?
pub open spec fn note_misses(t: Nd, p: Seq<St>, i: int) -> bool
    decreases p.len() - i,
{
    match (p[i], t) {
        (St::Field(k), Nd::Table(es, _, _)) => {
            let j = slot(es, k);
            if !(0 <= j < es.len()) {
                true
            } else if i + 1 >= p.len() {
                false
            } else if es[j].node is Table {
                note_misses(es[j].node, p, i + 1)
            } else {
                true
            }
        },
        _ => false,
    }
}

fn misses(t: &Node, path: &Vec<Step>, i: usize) -> (r: bool)
    requires
        i < path.len(),
    ensures
        r == note_misses(t@, steps_of(path@), i as int),
    decreases path.len() - i,
{
    assert(steps_of(path@)[i as int] == path@[i as int]@);
    match (&path[i], t) {
        (Step::Field(k), Node::Table(es, _, _)) => {
            let j: usize = find_slot(es, k);
            if j >= es.len() {
                return true;
            }
            assert(ets(es@)[j as int] == es@[j as int]@);
            if i + 1 >= path.len() {
                return false;
            }
            if matches!(&es[j].node, Node::Table(_, _, _)) {
                misses(&es[j].node, path, i + 1)
            } else {
                true
            }
        },
        _ => false,
    }
}

/// The document with a comment written. Head comments wrap to the document's
/// width; an inline comment never wraps.
pub open spec fn toml_noted(d: TomlDoc, path: Seq<St>, kind: CommentKind, text: Seq<char>) -> Result<
    (TomlDoc, Seq<Seq<char>>),
    Er,
> {
    let width = width_of(printed(d.root, d.trailing));
    match nd_note(
        d.root,
        path,
        kind,
        wrapped(text, budget_of(width, 0, 2)),
        inline_suffix(Some(text)),
    ) {
        Ok(root) => Ok((TomlDoc { root, had_comments: true, ..d }, Seq::empty())),
        Err(e) => Err(e),
    }
}

/// The document with a comment removed; a path of keys that leads nowhere changes
/// nothing.
pub open spec fn toml_unnoted(d: TomlDoc, path: Seq<St>, kind: CommentKind) -> Result<TomlDoc, Er> {
    if !(kind is Foot) && path.len() > 0 && path.last() is Field && note_misses(d.root, path, 0) {
        Ok(d)
    } else {
        match nd_note(d.root, path, kind, Seq::empty(), Seq::empty()) {
            Ok(root) => Ok(TomlDoc { root, ..d }),
            Err(e) => Err(e),
        }
    }
}

impl Document for Toml {
    open spec fn source_of(d: TomlDoc) -> Seq<char> {
        toml_source(d)
    }

    open spec fn commented_of(d: TomlDoc) -> Seq<Cmt> {
        seq![toml_commented(d.root, d.trailing)]
    }

    open spec fn note_in(d: TomlDoc, at: int, path: Seq<St>, kind: CommentKind, text: Seq<char>) -> Result<
        (TomlDoc, Seq<Seq<char>>),
        Er,
    > {
        toml_noted(d, path, kind, text)
    }

    open spec fn unnote_in(d: TomlDoc, path: Seq<St>, kind: CommentKind) -> Result<TomlDoc, Er> {
        toml_unnoted(d, path, kind)
    }

    open spec fn features_of() -> Seq<Feature> {
        seq![
            Feature::Comments,
            Feature::Nesting,
            Feature::Arrays,
            Feature::TypedScalars,
            Feature::NonFinite,
        ]
    }

    fn to_source(&self) -> (r: String) {
        let out = print_tree(&self.root, &self.trailing);
        let cs = chars_of(&out);
        let os = chars_of(&self.original);
        let body = if os.len() > 0 && os[os.len() - 1] != '\n' && cs.len() > 0 && cs[cs.len() - 1]
            == '\n' {
            let cut = slice_text(&cs, 0, cs.len() - 1);
            assert(cut@ =~= out@.drop_last());
            cut
        } else {
            out
        };
        with_bom(self.bom, restore_endings(&self.original, &body))
    }

    fn features(&self) -> (r: Vec<Feature>) {
        vec![
            Feature::Comments,
            Feature::Nesting,
            Feature::Arrays,
            Feature::TypedScalars,
            Feature::NonFinite,
        ]
    }

    fn to_commented_all(&self) -> (r: Vec<Commented>) {
        let mut out: Vec<Commented> = Vec::new();
        out.push(tree_commented(&self.root, &self.trailing));
        assert(cmts(out@) =~= seq![toml_commented(self.root@, self.trailing@)]);
        out
    }

    fn set_comment_in_doc(&mut self, at: usize, path: &Vec<Step>, kind: CommentKind, text: &str) -> (r: Result<
        Vec<String>,
        EditError,
    >) {
        let width: usize = wrap_width(&print_tree(&self.root, &self.trailing));
        let lines = wrap_comment(text, width, 0, 2);
        let suffix = cat(" # ", &sanitize_comment_line(text));
        write_comment(&mut self.root, path, kind, &lines, &suffix)?;
        self.had_comments = true;
        let none: Vec<String> = Vec::new();
        assert(texts(none@) =~= Seq::<Seq<char>>::empty());
        Ok(none)
    }

    fn delete_comment(&mut self, path: &Vec<Step>, kind: CommentKind) -> (r: Result<
        (),
        EditError,
    >) {
        let n: usize = path.len();
        if n > 0 {
            assert(steps_of(path@).last() == path@[n - 1]@);
            if matches!(&path[n - 1], Step::Field(_)) && !matches!(kind, CommentKind::Foot)
                && misses(&self.root, path, 0) {
                return Ok(());
            }
        }
        let lines: Vec<String> = Vec::new();
        assert(texts(lines@) =~= Seq::<Seq<char>>::empty());
        let none = String::new();
        assert(none@ =~= Seq::<char>::empty());
        write_comment(&mut self.root, path, kind, &lines, &none)
    }
}

} // verus!
