//! KDL documents: format-preserving edits of a [`Kdoc`] tree that the `kdl` crate
//! reads and writes.
//!
//! KDL nodes carry positional **arguments**, `key=value` **properties**, and a
//! **children** block, none of which the flat value model has a slot for directly.
//! The projection maps them: nodes group by name (repeats are arrays), a node is
//! its children object, its lone scalar or its argument array, and a node mixing
//! arguments with properties or children puts the arguments under the reserved key
//! `"-"`.
use crate::document::Document;
use crate::error::{fail, opt_need, wants, EditError, Er};
use crate::eval::{eval_path, expand_delete_paths};
use crate::feature::Feature;
use crate::float::{parsed, Facts, FloatFacts, FloatNeed};
use crate::kdl_change::{find_nodes, indent_unit, ints, occurrences, unit_of};
use crate::kdl_comments::{doc_noted, kdl_commented, tree_commented};
use crate::kdl_edit::{delete_in_doc, doc_drop, doc_set, set_in_doc};
use crate::kdl_items::{kdl_document, parse_tree, print_tree, printed};
use crate::kdl_nodes::doc_val;
use crate::kdl_notes::{misses_note, note_misses, note_walk, write_note};
use crate::kdl_tree::{group_kdl_views, kas, kns, Arg, Ka, Kd, Kdoc, Kn, Knode, Kv, Scalar};
use crate::model::{
    cmts, group_comment_views, group_expr_views, group_value_views, paths_view, steps_of, texts,
    Cmt, CommentKind, Commented, Expr, St, Step, Val, Value,
};
use crate::mutate::{
    apply_mutation, attempt, done, has_iterate, iterates, mutated, opt_value, Mutable,
    MutationKind, Outcome,
};
use crate::semantics::{expanded, path_outs};
use crate::strs::{int_digits, same, wide_text};
use crate::text::{dominant, dominant_ending, eol_inserted, inserted_respelled};
use crate::wrap::{width_of, wrap_width};
use vstd::prelude::*;

pub use crate::kdl_notes::{emit, emit_commented};

verus! {

broadcast use {group_value_views, group_expr_views, group_comment_views, group_kdl_views};

/// The comment kinds this format supports.
pub fn comment_kinds() -> (r: Vec<CommentKind>)
    ensures
        r@ == seq![CommentKind::Head, CommentKind::Inline, CommentKind::Foot],
{
    vec![CommentKind::Head, CommentKind::Inline, CommentKind::Foot]
}

/// A parse failure, or the floating-point result whose absence stopped the parse.
#[derive(Debug)]
pub struct ParseError {
    pub msg: String,
    pub need: Option<FloatNeed>,
}

impl ParseError {
    /// The message.
    pub fn to_string(&self) -> (r: String)
        ensures
            r@ == self.msg@,
    {
        self.msg.clone()
    }
}

/// A parsed KDL document.
pub struct Kdl {
    pub doc: Kdoc,
    /// The floats that stand for the integers too wide for the value model.
    pub facts: FloatFacts,
}

/// The mathematical content of a [`Kdl`].
pub struct KdlDoc {
    pub doc: Kd,
    pub facts: Facts,
}

impl Kdl {
    /// The document's content.
    pub open spec fn content(&self) -> KdlDoc {
        KdlDoc { doc: self.doc@, facts: self.facts@ }
    }
}

/// A scalar with the float of an integer too wide for the value model looked up.
pub open spec fn admitted_value(v: Kv, fx: Facts) -> Result<Kv, Er> {
    match v {
        Kv::Wide(i, _) => match parsed(fx, int_digits(i as int)) {
            Ok(f) => Ok(Kv::Wide(i, f)),
            Err(n) => Err(wants(n)),
        },
        _ => Ok(v),
    }
}

/// The first `n` entries, admitted.
pub open spec fn admitted_row(es: Seq<Ka>, fx: Facts, n: nat) -> Result<Seq<Ka>, Er>
    decreases n,
{
    if n == 0 || n > es.len() {
        Ok(Seq::empty())
    } else {
        match admitted_row(es, fx, (n - 1) as nat) {
            Err(e) => Err(e),
            Ok(s) => match admitted_value(es[n - 1].value, fx) {
                Err(e) => Err(e),
                Ok(v) => Ok(s.push(Ka { value: v, ..es[n - 1] })),
            },
        }
    }
}

/// A node, admitted.
pub open spec fn admitted_node(n: Kn, fx: Facts) -> Result<Kn, Er>
    decreases n, 0int, 0int,
{
    match admitted_row(n.args, fx, n.args.len()) {
        Err(e) => Err(e),
        Ok(args) => match n.children {
            None => Ok(Kn { args, ..n }),
            Some(d) => match admitted_doc(d, fx) {
                Err(e) => Err(e),
                Ok(c) => Ok(Kn { args, children: Some(c), ..n }),
            },
        },
    }
}

/// A document, admitted: every integer too wide for the value model has its float.
pub open spec fn admitted_doc(d: Kd, fx: Facts) -> Result<Kd, Er>
    decreases d, 2int, 0int,
{
    match admitted_nodes(d.nodes, fx, d.nodes.len()) {
        Err(e) => Err(e),
        Ok(nodes) => Ok(Kd { nodes, form: d.form }),
    }
}

/// The first `n` nodes, admitted.
pub open spec fn admitted_nodes(ns: Seq<Kn>, fx: Facts, n: nat) -> Result<Seq<Kn>, Er>
    decreases ns, 1int, n,
{
    if n == 0 || n > ns.len() {
        Ok(Seq::empty())
    } else {
        match admitted_nodes(ns, fx, (n - 1) as nat) {
            Err(e) => Err(e),
            Ok(s) => match admitted_node(ns[n - 1], fx) {
                Err(e) => Err(e),
                Ok(k) => Ok(s.push(k)),
            },
        }
    }
}

proof fn row_stops(es: Seq<Ka>, fx: Facts, i: nat, n: nat)
    requires
        i <= n <= es.len(),
        admitted_row(es, fx, i) is Err,
    ensures
        admitted_row(es, fx, n) == admitted_row(es, fx, i),
    decreases n - i,
{
    if i < n {
        row_stops(es, fx, i, (n - 1) as nat);
    }
}

proof fn nodes_stop(ns: Seq<Kn>, fx: Facts, i: nat, n: nat)
    requires
        i <= n <= ns.len(),
        admitted_nodes(ns, fx, i) is Err,
    ensures
        admitted_nodes(ns, fx, n) == admitted_nodes(ns, fx, i),
    decreases n - i,
{
    if i < n {
        nodes_stop(ns, fx, i, (n - 1) as nat);
    }
}

fn wide_digits(i: i128) -> (r: String)
    ensures
        r@ == int_digits(i as int),
{
    if i >= 0 {
        return wide_text(i as u128);
    }
    let mut out = String::new();
    out.push('-');
    let n: u128 = if i == i128::MIN {
        170141183460469231731687303715884105728u128
    } else {
        (-i) as u128
    };
    out.append(&wide_text(n));
    assert(out@ =~= int_digits(i as int));
    out
}

/// The view of an admission.
spec fn row_view(r: Result<Vec<Arg>, EditError>) -> Result<Seq<Ka>, Er> {
    match r {
        Ok(s) => Ok(kas(s@)),
        Err(e) => Err(e@),
    }
}

/// The view of an admission.
pub open spec fn doc_view(r: Result<Kdoc, EditError>) -> Result<Kd, Er> {
    match r {
        Ok(d) => Ok(d@),
        Err(e) => Err(e@),
    }
}

fn admit_row(es: Vec<Arg>, facts: &FloatFacts) -> (r: Result<Vec<Arg>, EditError>)
    ensures
        row_view(r) == admitted_row(kas(es@), facts@, es.len() as nat),
{
    let ghost all = kas(es@);
    let n: usize = es.len();
    let mut rest = es;
    let mut out: Vec<Arg> = Vec::new();
    let mut i: usize = 0;
    assert(kas(out@) =~= Seq::<Ka>::empty());
    assert(kas(rest@) =~= all.skip(0));
    while i < n
        invariant
            i <= n == all.len(),
            all == kas(es@),
            rest.len() == n - i,
            kas(rest@) == all.skip(i as int),
            Ok::<Seq<Ka>, Er>(kas(out@)) == admitted_row(all, facts@, i as nat),
        decreases n - i,
    {
        assert(kas(rest@)[0] == rest@[0]@);
        assert(all.skip(i as int)[0] == all[i as int]);
        let ghost now = kas(rest@);
        let mut a = rest.remove(0);
        assert(kas(rest@) =~= now.remove(0));
        assert(kas(rest@) =~= all.skip(i + 1));
        if let Scalar::Wide(x, _) = &a.value {
            let x: i128 = *x;
            match facts.parse(&wide_digits(x)) {
                Err(need) => {
                    proof {
                        row_stops(all, facts@, (i + 1) as nat, n as nat);
                    }
                    return Err(
                        EditError { msg: crate::error::need_text(), need: Some(need) },
                    );
                },
                Ok(f) => {
                    a.value = Scalar::Wide(x, f);
                },
            }
        }
        out.push(a);
        i = i + 1;
    }
    Ok(out)
}

fn admit_node(n: Knode, facts: &FloatFacts) -> (r: Result<Knode, EditError>)
    ensures
        (match r {
            Ok(k) => Ok(k@),
            Err(e) => Err(e@),
        }) == admitted_node(n@, facts@),
    decreases n@, 0int,
{
    let ghost whole = n@;
    let args = admit_row(n.args, facts)?;
    let children = match n.children {
        None => None,
        Some(d) => {
            assert(whole.children == Some(d@));
            assert(decreases_to!(whole => whole.children->0));
            Some(admit_doc(d, facts)?)
        },
    };
    Ok(Knode { ty: n.ty, name: n.name, args, children, form: n.form })
}

/// Look up the float of every integer too wide for the value model.
fn admit_doc(d: Kdoc, facts: &FloatFacts) -> (r: Result<Kdoc, EditError>)
    ensures
        doc_view(r) == admitted_doc(d@, facts@),
    decreases d@, 1int,
{
    let ghost whole = d@;
    let ghost all = kns(d.nodes@);
    let n: usize = d.nodes.len();
    let mut rest = d.nodes;
    let mut out: Vec<Knode> = Vec::new();
    let mut i: usize = 0;
    assert(kns(out@) =~= Seq::<Kn>::empty());
    assert(kns(rest@) =~= all.skip(0));
    while i < n
        invariant
            i <= n == all.len(),
            whole == d@,
            all == whole.nodes,
            rest.len() == n - i,
            kns(rest@) == all.skip(i as int),
            Ok::<Seq<Kn>, Er>(kns(out@)) == admitted_nodes(all, facts@, i as nat),
        decreases n - i,
    {
        assert(kns(rest@)[0] == rest@[0]@);
        assert(all.skip(i as int)[0] == all[i as int]);
        let ghost now = kns(rest@);
        let k = rest.remove(0);
        assert(kns(rest@) =~= now.remove(0));
        assert(kns(rest@) =~= all.skip(i + 1));
        assert(decreases_to!(whole => whole.nodes[i as int]));
        match admit_node(k, facts) {
            Err(e) => {
                proof {
                    nodes_stop(all, facts@, (i + 1) as nat, n as nat);
                }
                return Err(e);
            },
            Ok(k) => {
                out.push(k);
            },
        }
        i = i + 1;
    }
    Ok(Kdoc { nodes: out, form: d.form })
}

/// What parsing a text leads to.
pub open spec fn kdl_parsed(src: Seq<char>, fx: Facts) -> Result<KdlDoc, Er> {
    match kdl_document(src) {
        Err(m) => Err(fail(m)),
        Ok(t) => match admitted_doc(t, fx) {
            Err(e) => Err(e),
            Ok(doc) => Ok(KdlDoc { doc, facts: fx }),
        },
    }
}

/// The view of a parse.
pub open spec fn kdl_view(r: Result<Kdl, ParseError>) -> Result<KdlDoc, Er> {
    match r {
        Ok(d) => Ok(d.content()),
        Err(e) => Err(Er { msg: e.msg@, need: opt_need(e.need) }),
    }
}

/// Parse KDL source into a [`Kdl`] document. The floats that stand for integers
/// too wide for the value model are looked up in `facts`.
pub fn parse(src: &str, facts: &FloatFacts) -> (r: Result<Kdl, ParseError>)
    ensures
        kdl_view(r) == kdl_parsed(src@, facts@),
{
    match parse_tree(src) {
        Err(msg) => Err(ParseError { msg, need: None }),
        Ok(t) => match admit_doc(t, facts) {
            Err(e) => Err(ParseError { msg: e.msg, need: e.need }),
            Ok(doc) => Ok(Kdl { doc, facts: facts.clone() }),
        },
    }
}

/// The value at a path.
pub open spec fn kdl_value(d: KdlDoc, path: Seq<St>) -> Option<Val> {
    match path_outs(path, doc_val(d.doc)) {
        Ok(vs) => if vs.len() > 0 {
            Some(vs[0])
        } else {
            None
        },
        Err(_) => None,
    }
}

/// A document after an edit: text that came in with `\n` line breaks gets the
/// file's own, and the text around it is left as it was.
pub open spec fn respelled_doc(d: KdlDoc, next: Kd) -> Result<KdlDoc, Er> {
    let eol = dominant_ending(printed(d.doc));
    let after = printed(next);
    let fixed = inserted_respelled(printed(d.doc), after, eol);
    if eol == "\n"@ || fixed == after {
        Ok(KdlDoc { doc: next, facts: d.facts })
    } else {
        match kdl_document(fixed) {
            Err(m) => Err(fail("internal: re-reading an edit: "@ + m)),
            Ok(t) => match admitted_doc(t, d.facts) {
                Err(e) => Err(e),
                Ok(doc) => Ok(KdlDoc { doc, facts: d.facts }),
            },
        }
    }
}

/// The document with a path set.
pub open spec fn kdl_set(d: KdlDoc, path: Seq<St>, v: Val) -> Result<KdlDoc, Er> {
    if path.len() == 0 {
        Err(fail("cannot set the whole document"@))
    } else {
        match doc_set(d.doc, path, 0, v, 0, unit_of(d.doc)) {
            Err(e) => Err(e),
            Ok(next) => respelled_doc(d, next),
        }
    }
}

/// The document with one path deleted.
pub open spec fn kdl_drop(d: KdlDoc, path: Seq<St>) -> Result<KdlDoc, Er> {
    match doc_drop(d.doc, path, 0, false) {
        Ok(doc) => Ok(KdlDoc { doc, facts: d.facts }),
        Err(e) => Err(e),
    }
}

/// What deleting the first `n` of some paths in turn leads to.
pub open spec fn kdl_drops(d: KdlDoc, paths: Seq<Seq<St>>, n: nat) -> Outcome<KdlDoc>
    decreases n,
{
    if n == 0 {
        (d, Ok(()))
    } else {
        let (now, r) = kdl_drops(d, paths, (n - 1) as nat);
        match r {
            Err(e) => (now, Err(e)),
            Ok(_) => attempt(now, kdl_drop(now, paths[n - 1])),
        }
    }
}

/// Does a path iterate over a run of repeated nodes?
pub open spec fn whole_run(d: KdlDoc, path: Seq<St>) -> bool {
    path.len() == 2 && path[0] is Field && path[1] is Iterate && occurrences(
        d.doc.nodes,
        path[0]->Field_0,
        d.doc.nodes.len(),
    ).len() > 1
}

/// What deleting a path leads to. A `[]` behind a repeated name deletes every
/// occurrence; elsewhere it deletes what it iterates over, back to front.
pub open spec fn kdl_delete(d: KdlDoc, path: Seq<St>) -> Outcome<KdlDoc> {
    if path.len() == 0 {
        (d, Err(fail("del(.) is not allowed"@)))
    } else if whole_run(d, path) {
        attempt(d, kdl_drop(d, path.take(1)))
    } else if iterates(path) {
        match expanded(path, doc_val(d.doc)) {
            Err(e) => (d, Err(e)),
            Ok(ps) => kdl_drops(d, ps.reverse(), ps.len()),
        }
    } else {
        attempt(d, kdl_drop(d, path))
    }
}

proof fn drops_stop(d: KdlDoc, ps: Seq<Seq<St>>, i: nat, n: nat)
    requires
        i <= n,
        kdl_drops(d, ps, i).1 is Err,
    ensures
        kdl_drops(d, ps, n) == kdl_drops(d, ps, i),
    decreases n - i,
{
    if i < n {
        drops_stop(d, ps, i, (n - 1) as nat);
    }
}

impl Kdl {
    /// Set the value at `path`, format-preserving. Existing arguments and
    /// properties update in place; a missing leaf node is created; a run of
    /// repeated nodes extends when the assignment's array matches its prefix.
    /// Replacing a whole node body wholesale is refused.
    pub fn set(&mut self, path: &Vec<Step>, value: &Value) -> (r: Result<(), EditError>)
        ensures
            (final(self).content(), done(r)) == attempt(
                old(self).content(),
                kdl_set(old(self).content(), steps_of(path@), value@),
            ),
    {
        if path.len() == 0 {
            return Err(EditError::new("cannot set the whole document"));
        }
        let before = print_tree(&self.doc);
        let unit = indent_unit(&self.doc);
        let ghost d0 = self.content();
        let mut next = self.doc.clone();
        set_in_doc(&mut next, path, 0, value, 0, &unit)?;
        let eol = dominant(&before);
        if !same(eol, "\n") {
            let after = print_tree(&next);
            let fixed = eol_inserted(&before, &after, eol);
            if !same(&fixed, &after) {
                match parse_tree(&fixed) {
                    Err(m) => {
                        let mut msg = "internal: re-reading an edit: ".to_owned();
                        msg.append(&m);
                        return Err(EditError::of(msg));
                    },
                    Ok(t) => {
                        next = admit_doc(t, &self.facts)?;
                    },
                }
            }
        }
        self.doc = next;
        Ok(())
    }

    /// The value at `path`, or `None`.
    pub fn value_at(&self, path: &Vec<Step>) -> (r: Option<Value>)
        ensures
            opt_value(r) == kdl_value(self.content(), steps_of(path@)),
    {
        let whole = self.doc.project();
        match eval_path(path, &whole) {
            Ok(vs) => {
                if vs.len() > 0 {
                    Some(vs[0].clone())
                } else {
                    None
                }
            },
            Err(_) => None,
        }
    }

    fn drop_path(&mut self, path: &Vec<Step>) -> (r: Result<(), EditError>)
        ensures
            (final(self).content(), done(r)) == attempt(
                old(self).content(),
                kdl_drop(old(self).content(), steps_of(path@)),
            ),
    {
        delete_in_doc(&mut self.doc, path, 0, false)
    }

    /// Delete the node / property / argument at `path` (a miss is a no-op).
    pub fn delete(&mut self, path: &Vec<Step>) -> (r: Result<(), EditError>)
        ensures
            (final(self).content(), done(r)) == kdl_delete(old(self).content(), steps_of(path@)),
    {
        let ghost d = self.content();
        if path.len() == 0 {
            return Err(EditError::new("del(.) is not allowed"));
        }
        assert(steps_of(path@)[0] == path@[0]@);
        if path.len() == 2 {
            assert(steps_of(path@)[1] == path@[1]@);
            if let (Step::Field(name), Step::Iterate) = (&path[0], &path[1]) {
                let occ = find_nodes(&self.doc.nodes, name);
                assert(ints(occ@).len() == occ.len());
                if occ.len() > 1 {
                    let mut one: Vec<Step> = Vec::new();
                    one.push(path[0].clone());
                    assert(steps_of(one@) =~= steps_of(path@).take(1));
                    return self.drop_path(&one);
                }
            }
        }
        if !has_iterate(path) {
            return self.drop_path(path);
        }
        let whole = self.doc.project();
        let paths = match expand_delete_paths(path, &whole) {
            Err(e) => {
                return Err(EditError::from_eval(e));
            },
            Ok(p) => p,
        };
        let ghost ps = paths_view(paths@);
        let mut i: usize = 0;
        while i < paths.len()
            invariant
                i <= paths.len(),
                ps == paths_view(paths@),
                d == old(self).content(),
                (self.content(), Ok::<(), Er>(())) == kdl_drops(d, ps, i as nat),
                kdl_delete(d, steps_of(path@)) == kdl_drops(d, ps, ps.len()),
            decreases paths.len() - i,
        {
            assert(ps[i as int] == steps_of(paths@[i as int]@));
            if let Err(e) = self.drop_path(&paths[i]) {
                proof {
                    drops_stop(d, ps, (i + 1) as nat, ps.len());
                }
                return Err(e);
            }
            i = i + 1;
        }
        Ok(())
    }

    /// Whether the document holds comments.
    pub fn has_comments(&self) -> (r: bool)
        ensures
            r == doc_noted(self.content().doc),
    {
        self.doc.has_comment()
    }

    /// Project to the commented value model.
    pub fn to_commented(&self) -> (r: Option<Commented>)
        ensures
            r is Some,
            (r->0)@ == kdl_commented(self.content().doc),
    {
        Some(tree_commented(&self.doc))
    }
}

/// Apply a mutation expression to `doc`, preserving format everywhere untouched.
pub fn apply(doc: &mut Kdl, expr: &Expr, facts: &FloatFacts) -> (r: Result<(), EditError>)
    ensures
        (final(doc).content(), done(r)) == mutated::<Kdl>(old(doc).content(), expr@, facts@),
{
    apply_mutation(doc, expr, facts)
}

impl Mutable for Kdl {
    type Doc = KdlDoc;

    open spec fn doc(&self) -> KdlDoc {
        self.content()
    }

    open spec fn fanning() -> bool {
        false
    }

    open spec fn whole_of(d: KdlDoc) -> Val {
        doc_val(d.doc)
    }

    open spec fn value_in(d: KdlDoc, path: Seq<St>) -> Option<Val> {
        kdl_value(d, path)
    }

    open spec fn set_in(d: KdlDoc, path: Seq<St>, value: Val) -> Result<KdlDoc, Er> {
        kdl_set(d, path, value)
    }

    open spec fn delete_in(d: KdlDoc, path: Seq<St>) -> Outcome<KdlDoc> {
        kdl_delete(d, path)
    }

    open spec fn append_in(d: KdlDoc, path: Seq<St>, items: Seq<Val>) -> Option<
        Result<KdlDoc, Er>,
    > {
        None
    }

    open spec fn miss_in(d: KdlDoc, path: Seq<St>) -> Result<(), Er> {
        Err(fail("path not found"@))
    }

    open spec fn check_in(d: KdlDoc, path: Seq<St>, kind: MutationKind) -> Result<(), Er> {
        Ok(())
    }

    fn fans_out() -> (r: bool) {
        false
    }

    fn whole(&self) -> (r: Value) {
        self.doc.project()
    }

    fn value_at(&self, path: &Vec<Step>) -> (r: Option<Value>) {
        Kdl::value_at(self, path)
    }

    fn set(&mut self, path: &Vec<Step>, value: &Value) -> (r: Result<(), EditError>) {
        Kdl::set(self, path, value)
    }

    fn delete(&mut self, path: &Vec<Step>) -> (r: Result<(), EditError>) {
        Kdl::delete(self, path)
    }

    fn append(&mut self, path: &Vec<Step>, items: &Vec<Value>) -> (r: Option<
        Result<(), EditError>,
    >) {
        None
    }

    fn miss(&self, path: &Vec<Step>) -> (r: Result<(), EditError>) {
        Err(EditError::new("path not found"))
    }

    fn check_path(&self, path: &Vec<Step>, kind: MutationKind) -> (r: Result<(), EditError>) {
        Ok(())
    }
}

/// The document with a comment written.
pub open spec fn kdl_noted(d: KdlDoc, path: Seq<St>, kind: CommentKind, text: Seq<char>) -> Result<
    (KdlDoc, Seq<Seq<char>>),
    Er,
> {
    if kind is Foot {
        Err(fail("setting a foot comment isn't supported for KDL yet"@))
    } else {
        match note_walk(d.doc, path, 0, kind, Some(text), width_of(printed(d.doc))) {
            Ok(doc) => Ok((KdlDoc { doc, facts: d.facts }, Seq::empty())),
            Err(e) => Err(e),
        }
    }
}

/// The document with a comment removed. A path that leads to nothing in the document
/// changes nothing; one that leads to a property or an argument is refused.
pub open spec fn kdl_unnoted(d: KdlDoc, path: Seq<St>, kind: CommentKind) -> Result<KdlDoc, Er> {
    if kind is Foot {
        Err(fail("deleting a foot comment isn't supported for KDL yet"@))
    } else if note_misses(d.doc, path, 0) {
        Ok(d)
    } else {
        match note_walk(d.doc, path, 0, kind, None, 0) {
            Ok(doc) => Ok(KdlDoc { doc, facts: d.facts }),
            Err(e) => Err(e),
        }
    }
}

impl Document for Kdl {
    open spec fn source_of(d: KdlDoc) -> Seq<char> {
        printed(d.doc)
    }

    open spec fn commented_of(d: KdlDoc) -> Seq<Cmt> {
        seq![kdl_commented(d.doc)]
    }

    open spec fn note_in(d: KdlDoc, at: int, path: Seq<St>, kind: CommentKind, text: Seq<char>) -> Result<
        (KdlDoc, Seq<Seq<char>>),
        Er,
    > {
        kdl_noted(d, path, kind, text)
    }

    open spec fn unnote_in(d: KdlDoc, path: Seq<St>, kind: CommentKind) -> Result<KdlDoc, Er> {
        kdl_unnoted(d, path, kind)
    }

    open spec fn features_of() -> Seq<Feature> {
        seq![Feature::Comments, Feature::Nesting, Feature::Arrays, Feature::TypedScalars]
    }

    fn to_source(&self) -> (r: String) {
        print_tree(&self.doc)
    }

    fn features(&self) -> (r: Vec<Feature>) {
        vec![Feature::Comments, Feature::Nesting, Feature::Arrays, Feature::TypedScalars]
    }

    fn to_commented_all(&self) -> (r: Vec<Commented>) {
        let mut out: Vec<Commented> = Vec::new();
        out.push(tree_commented(&self.doc));
        assert(cmts(out@) =~= seq![kdl_commented(self.doc@)]);
        out
    }

    fn set_comment_in_doc(&mut self, at: usize, path: &Vec<Step>, kind: CommentKind, text: &str) -> (r: Result<
        Vec<String>,
        EditError,
    >) {
        if matches!(kind, CommentKind::Foot) {
            return Err(EditError::new("setting a foot comment isn't supported for KDL yet"));
        }
        let width: usize = wrap_width(&print_tree(&self.doc));
        write_note(&mut self.doc, path, 0, kind, Some(text), width)?;
        let none: Vec<String> = Vec::new();
        assert(texts(none@) =~= Seq::<Seq<char>>::empty());
        Ok(none)
    }

    fn delete_comment(&mut self, path: &Vec<Step>, kind: CommentKind) -> (r: Result<
        (),
        EditError,
    >) {
        if matches!(kind, CommentKind::Foot) {
            return Err(EditError::new("deleting a foot comment isn't supported for KDL yet"));
        }
        if misses_note(&self.doc, path, 0) {
            return Ok(());
        }
        write_note(&mut self.doc, path, 0, kind, None, 0)
    }
}

} // verus!
