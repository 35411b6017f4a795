//! Reading and writing KDL text, done by the `kdl` crate.
//!
//! The crate's parsed values are opaque here. [`document_holds`], [`node_holds`]
//! and [`entry_holds`] name what a parsed document, node and entry hold; one
//! function each takes a piece out of them or puts one together, and the recursion
//! over them, from a document to a [`Kdoc`] and back, is done here.
use crate::float::{Float, Flt};
use crate::kdl_tree::{
    group_kdl_views, kas, kns, no_nf, opt_af, opt_df, opt_id, opt_nf, Arg, ArgForm, DocForm, Ident,
    Ka, Kd, Kdoc, Kn, Knode, Kv, Nf, NodeForm, Scalar,
};
use vstd::prelude::*;

verus! {

broadcast use group_kdl_views;

/// `kdl`'s document.
#[verifier::external_type_specification]
#[verifier::external_body]
pub struct ExKdlDocument(kdl::KdlDocument);

/// `kdl`'s node.
#[verifier::external_type_specification]
#[verifier::external_body]
pub struct ExKdlNode(kdl::KdlNode);

/// `kdl`'s entry: an argument or a property.
#[verifier::external_type_specification]
#[verifier::external_body]
pub struct ExKdlEntry(kdl::KdlEntry);

/// What a parsed document holds.
pub uninterp spec fn document_holds(d: kdl::KdlDocument) -> Kd;

/// What a parsed node holds.
pub uninterp spec fn node_holds(n: kdl::KdlNode) -> Kn;

/// What a parsed entry holds.
pub uninterp spec fn entry_holds(e: kdl::KdlEntry) -> Ka;

/// What a text parses to as a document, or the message it is refused with.
pub uninterp spec fn kdl_document(text: Seq<char>) -> Result<Kd, Seq<char>>;

/// How a document is written.
pub uninterp spec fn kdl_text(d: Kd) -> Seq<char>;

/// How a scalar is spelled by default; a string bare where it is a valid
/// identifier.
pub uninterp spec fn kdl_scalar_text(v: Kv) -> Seq<char>;

/// The double that a decimal text reads as, zero where it reads as none.
pub uninterp spec fn double_read(text: Seq<char>) -> Flt;

/// The contents of a list of parsed nodes.
pub open spec fn nodes_hold(s: Seq<kdl::KdlNode>) -> Seq<Kn> {
    Seq::new(s.len(), |i: int| node_holds(s[i]))
}

/// The contents of a list of parsed entries.
pub open spec fn entries_hold(s: Seq<kdl::KdlEntry>) -> Seq<Ka> {
    Seq::new(s.len(), |i: int| entry_holds(s[i]))
}

/// What an optional parsed document holds.
pub open spec fn opt_holds(d: Option<kdl::KdlDocument>) -> Option<Kd> {
    match d {
        Some(x) => Some(document_holds(x)),
        None => None,
    }
}

/// `KdlDocument::parse`, named by [`kdl_document`].
#[verifier::external_body]
fn read_document(text: &str) -> (r: Result<kdl::KdlDocument, String>)
    ensures
        match r {
            Ok(d) => kdl_document(text@) == Ok::<Kd, Seq<char>>(document_holds(d)),
            Err(m) => kdl_document(text@) == Err::<Kd, Seq<char>>(m@),
        },
{
    kdl::KdlDocument::parse(text).map_err(|e| e.to_string())
}

/// `KdlDocument::nodes`.
#[verifier::external_body]
fn nodes(d: &kdl::KdlDocument) -> (r: Vec<kdl::KdlNode>)
    ensures
        nodes_hold(r@) == document_holds(*d).nodes,
{
    d.nodes().to_vec()
}

/// `KdlDocument::format`.
#[verifier::external_body]
fn document_form(d: &kdl::KdlDocument) -> (r: Option<DocForm>)
    ensures
        opt_df(r) == document_holds(*d).form,
{
    d.format().map(|f| DocForm { leading: f.leading.clone(), trailing: f.trailing.clone() })
}

/// `KdlNode::name` and `KdlNode::ty`.
#[verifier::external_body]
fn node_names(n: &kdl::KdlNode) -> (r: (Ident, Option<Ident>))
    ensures
        r.0@ == node_holds(*n).name,
        opt_id(r.1) == node_holds(*n).ty,
{
    let name = n.name();
    (
        Ident { value: name.value().to_owned(), repr: name.repr().map(str::to_owned) },
        n.ty().map(|t| Ident { value: t.value().to_owned(), repr: t.repr().map(str::to_owned) }),
    )
}

/// `KdlNode::format`.
#[verifier::external_body]
fn node_form(n: &kdl::KdlNode) -> (r: Option<NodeForm>)
    ensures
        opt_nf(r) == node_holds(*n).form,
{
    n.format().map(|f| NodeForm {
        leading: f.leading.clone(),
        before_ty_name: f.before_ty_name.clone(),
        after_ty_name: f.after_ty_name.clone(),
        after_ty: f.after_ty.clone(),
        before_children: f.before_children.clone(),
        before_terminator: f.before_terminator.clone(),
        terminator: f.terminator.clone(),
        trailing: f.trailing.clone(),
    })
}

/// `KdlNode::entries`.
#[verifier::external_body]
fn entries(n: &kdl::KdlNode) -> (r: Vec<kdl::KdlEntry>)
    ensures
        entries_hold(r@) == node_holds(*n).args,
{
    n.entries().to_vec()
}

/// `KdlNode::children`.
#[verifier::external_body]
fn children(n: &kdl::KdlNode) -> (r: Option<kdl::KdlDocument>)
    ensures
        opt_holds(r) == node_holds(*n).children,
{
    n.children().cloned()
}

/// `KdlEntry::ty` and `KdlEntry::name`.
#[verifier::external_body]
fn entry_names(e: &kdl::KdlEntry) -> (r: (Option<Ident>, Option<Ident>))
    ensures
        opt_id(r.0) == entry_holds(*e).ty,
        opt_id(r.1) == entry_holds(*e).name,
{
    (
        e.ty().map(|t| Ident { value: t.value().to_owned(), repr: t.repr().map(str::to_owned) }),
        e.name().map(|n| Ident { value: n.value().to_owned(), repr: n.repr().map(str::to_owned) }),
    )
}

/// A value as `kdl` holds it: every integer has 128 bits.
pub enum Raw {
    Str(String),
    Int(i128),
    Float(Float),
    Bool(bool),
    Null,
}

/// The scalar of a value. An integer that fits 64 bits is one; a wider one is kept
/// as it is, and the float nearest to it is not known yet.
pub open spec fn narrowed(v: Raw) -> Kv {
    match v {
        Raw::Str(s) => Kv::Str(s@),
        Raw::Int(i) => if i64::MIN <= i <= i64::MAX {
            Kv::Int(i as i64)
        } else {
            Kv::Wide(i, None)
        },
        Raw::Float(f) => Kv::Float(f@),
        Raw::Bool(b) => Kv::Bool(b),
        Raw::Null => Kv::Null,
    }
}

/// `KdlEntry::value`.
#[verifier::external_body]
fn raw_value(e: &kdl::KdlEntry) -> (r: Raw)
    ensures
        narrowed(r) == entry_holds(*e).value,
{
    match e.value() {
        kdl::KdlValue::String(s) => Raw::Str(s.clone()),
        kdl::KdlValue::Integer(i) => Raw::Int(*i),
        kdl::KdlValue::Float(f) => Raw::Float(Float { bits: f.to_bits(), text: f.to_string() }),
        kdl::KdlValue::Bool(b) => Raw::Bool(*b),
        kdl::KdlValue::Null => Raw::Null,
    }
}

/// The scalar of an entry.
fn entry_value(e: &kdl::KdlEntry) -> (r: Scalar)
    ensures
        r@ == entry_holds(*e).value,
{
    match raw_value(e) {
        Raw::Str(s) => Scalar::Str(s),
        Raw::Int(i) => if i64::MIN as i128 <= i && i <= i64::MAX as i128 {
            Scalar::Int(i as i64)
        } else {
            Scalar::Wide(i, None)
        },
        Raw::Float(f) => Scalar::Float(f),
        Raw::Bool(b) => Scalar::Bool(b),
        Raw::Null => Scalar::Null,
    }
}

/// `KdlEntry::format`.
#[verifier::external_body]
fn entry_form(e: &kdl::KdlEntry) -> (r: Option<ArgForm>)
    ensures
        opt_af(r) == entry_holds(*e).form,
{
    e.format().map(|f| ArgForm {
        value_repr: f.value_repr.clone(),
        leading: f.leading.clone(),
        trailing: f.trailing.clone(),
        after_ty: f.after_ty.clone(),
        before_ty_name: f.before_ty_name.clone(),
        after_ty_name: f.after_ty_name.clone(),
        after_key: f.after_key.clone(),
        after_eq: f.after_eq.clone(),
        keep: f.autoformat_keep,
    })
}

/// The scalar that is written for a scalar of the tree. A float is written as the
/// double its decimal rendering reads as.
pub open spec fn written(v: Kv) -> Kv {
    match v {
        Kv::Wide(i, _) => if i64::MIN <= i <= i64::MAX {
            Kv::Int(i as i64)
        } else {
            Kv::Wide(i, None)
        },
        Kv::Float(f) => Kv::Float(double_read(f.text)),
        _ => v,
    }
}

/// `KdlEntry::new`: an argument without a format. A float is handed over through
/// `str::parse`, whose result is named by [`double_read`].
#[verifier::external_body]
fn new_entry(v: &Scalar) -> (r: kdl::KdlEntry)
    ensures
        entry_holds(r) == (Ka { ty: None, name: None, value: written(v@), form: None }),
        v@ is Float ==> entry_holds(r).value == Kv::Float(double_read(v@->Float_0.text)),
{
    kdl::KdlEntry::new(match v {
        Scalar::Str(s) => kdl::KdlValue::String(s.clone()),
        Scalar::Int(i) => kdl::KdlValue::Integer(i128::from(*i)),
        Scalar::Wide(i, _) => kdl::KdlValue::Integer(*i),
        Scalar::Float(f) => kdl::KdlValue::Float(f.text.parse().unwrap_or_default()),
        Scalar::Bool(b) => kdl::KdlValue::Bool(*b),
        Scalar::Null => kdl::KdlValue::Null,
    })
}

/// `KdlValue::to_string`, named by [`kdl_scalar_text`].
#[verifier::external_body]
fn value_spelling(e: &kdl::KdlEntry) -> (r: String)
    ensures
        r@ == kdl_scalar_text(entry_holds(*e).value),
{
    e.value().to_string()
}

/// `KdlEntry::set_name`.
#[verifier::external_body]
fn name_entry(e: kdl::KdlEntry, name: &Ident) -> (r: kdl::KdlEntry)
    ensures
        entry_holds(r) == (Ka { name: Some(name@), ..entry_holds(e) }),
{
    let mut e = e;
    let mut id = kdl::KdlIdentifier::from(name.value.as_str());
    if let Some(t) = &name.repr {
        id.set_repr(t.as_str());
    }
    e.set_name(Some(id));
    e
}

/// `KdlEntry::set_ty`.
#[verifier::external_body]
fn type_entry(e: kdl::KdlEntry, ty: &Ident) -> (r: kdl::KdlEntry)
    ensures
        entry_holds(r) == (Ka { ty: Some(ty@), ..entry_holds(e) }),
{
    let mut e = e;
    let mut id = kdl::KdlIdentifier::from(ty.value.as_str());
    if let Some(t) = &ty.repr {
        id.set_repr(t.as_str());
    }
    e.set_ty(id);
    e
}

/// `KdlEntry::set_format`.
#[verifier::external_body]
fn form_entry(e: kdl::KdlEntry, f: &ArgForm) -> (r: kdl::KdlEntry)
    ensures
        entry_holds(r) == (Ka { form: Some(f@), ..entry_holds(e) }),
{
    let mut e = e;
    let mut form = kdl::KdlEntryFormat::default();
    form.value_repr = f.value_repr.clone();
    form.leading = f.leading.clone();
    form.trailing = f.trailing.clone();
    form.after_ty = f.after_ty.clone();
    form.before_ty_name = f.before_ty_name.clone();
    form.after_ty_name = f.after_ty_name.clone();
    form.after_key = f.after_key.clone();
    form.after_eq = f.after_eq.clone();
    form.autoformat_keep = f.keep;
    e.set_format(form);
    e
}

/// `KdlNode::new` and `KdlNode::clear_format`: a node without entries, children or
/// format.
#[verifier::external_body]
fn new_node(name: &Ident) -> (r: kdl::KdlNode)
    ensures
        node_holds(r) == (Kn {
            ty: None,
            name: name@,
            args: Seq::empty(),
            children: None,
            form: None,
        }),
{
    let mut n = kdl::KdlNode::new(name.value.as_str());
    n.clear_format();
    if let Some(t) = &name.repr {
        n.name_mut().set_repr(t.as_str());
    }
    n
}

/// `KdlNode::set_ty`.
#[verifier::external_body]
fn type_node(n: kdl::KdlNode, ty: &Ident) -> (r: kdl::KdlNode)
    ensures
        node_holds(r) == (Kn { ty: Some(ty@), ..node_holds(n) }),
{
    let mut n = n;
    let mut id = kdl::KdlIdentifier::from(ty.value.as_str());
    if let Some(t) = &ty.repr {
        id.set_repr(t.as_str());
    }
    n.set_ty(id);
    n
}

/// `KdlNode::entries_mut`: a node with other entries.
#[verifier::external_body]
fn fill_node(n: kdl::KdlNode, es: Vec<kdl::KdlEntry>) -> (r: kdl::KdlNode)
    ensures
        node_holds(r) == (Kn { args: entries_hold(es@), ..node_holds(n) }),
{
    let mut n = n;
    *n.entries_mut() = es;
    n
}

/// `KdlNode::set_children`.
#[verifier::external_body]
fn parent_node(n: kdl::KdlNode, children: kdl::KdlDocument) -> (r: kdl::KdlNode)
    ensures
        node_holds(r) == (Kn { children: Some(document_holds(children)), ..node_holds(n) }),
{
    let mut n = n;
    n.set_children(children);
    n
}

/// `KdlNode::set_format`.
#[verifier::external_body]
fn form_node(n: kdl::KdlNode, f: &NodeForm) -> (r: kdl::KdlNode)
    ensures
        node_holds(r) == (Kn { form: Some(f@), ..node_holds(n) }),
{
    let mut n = n;
    let mut form = kdl::KdlNodeFormat::default();
    form.leading = f.leading.clone();
    form.before_ty_name = f.before_ty_name.clone();
    form.after_ty_name = f.after_ty_name.clone();
    form.after_ty = f.after_ty.clone();
    form.before_children = f.before_children.clone();
    form.before_terminator = f.before_terminator.clone();
    form.terminator = f.terminator.clone();
    form.trailing = f.trailing.clone();
    n.set_format(form);
    n
}

/// `KdlDocument::new`, `nodes_mut` and `set_format`.
#[verifier::external_body]
fn new_document(ns: Vec<kdl::KdlNode>, form: &Option<DocForm>) -> (r: kdl::KdlDocument)
    ensures
        document_holds(r) == (Kd { nodes: nodes_hold(ns@), form: opt_df(*form) }),
{
    let mut d = kdl::KdlDocument::new();
    *d.nodes_mut() = ns;
    if let Some(f) = form {
        d.set_format(kdl::KdlDocumentFormat {
            leading: f.leading.clone(),
            trailing: f.trailing.clone(),
        });
    }
    d
}

/// `KdlDocument::to_string`, named by [`kdl_text`].
#[verifier::external_body]
fn print(d: &kdl::KdlDocument) -> (r: String)
    ensures
        r@ == kdl_text(document_holds(*d)),
{
    d.to_string()
}

/// A text repeated.
pub open spec fn repeated(s: Seq<char>, n: nat) -> Seq<char>
    decreases n,
{
    if n == 0 {
        Seq::empty()
    } else {
        repeated(s, (n - 1) as nat) + s
    }
}

/// A node that holds data and no layout yet: no types, no spelling of its own, only
/// arguments, and neither comments nor white space besides a newline behind it.
pub open spec fn fresh(n: Kn) -> bool
    decreases n, 0int, 0int,
{
    n.ty is None && n.name.repr is None && n.form == Some(fresh_form()) && (forall|i: int|
        0 <= i < n.args.len() ==> fresh_arg(#[trigger] n.args[i])) && match n.children {
        None => true,
        Some(d) => d.form is None && fresh_all(d.nodes, d.nodes.len()),
    }
}

/// An argument that holds data and no layout that lasts.
pub open spec fn fresh_arg(a: Ka) -> bool {
    a.ty is None && a.name is None && match a.form {
        None => true,
        Some(f) => !f.keep,
    }
}

/// Are the first `n` nodes without layout?
pub open spec fn fresh_all(ns: Seq<Kn>, n: nat) -> bool
    decreases ns, 1int, n,
{
    if n == 0 || n > ns.len() {
        true
    } else {
        fresh_all(ns, (n - 1) as nat) && fresh(ns[n - 1])
    }
}

/// The layout of a new node: a newline behind it.
pub open spec fn fresh_form() -> Nf {
    Nf { trailing: seq!['\n'], ..no_nf() }
}

/// The layout of a node on a line of its own, `level` steps deep.
pub open spec fn line_form(level: nat, unit: Seq<char>) -> Nf {
    Nf {
        leading: repeated(unit, level),
        before_children: seq![' '],
        terminator: seq!['\n'],
        ..no_nf()
    }
}

/// A fresh node laid out: each node of it on a line of its own, at its depth, and
/// every argument in its default spelling.
pub open spec fn laid_out(n: Kn, level: nat, unit: Seq<char>) -> Kn
    decreases n, 0int, 0int,
{
    Kn {
        args: Seq::new(n.args.len(), |i: int| Ka { form: None, ..n.args[i] }),
        children: match n.children {
            None => None,
            Some(d) => Some(
                Kd { nodes: laid_out_all(d.nodes, level + 1, unit, d.nodes.len()), form: d.form },
            ),
        },
        form: Some(line_form(level, unit)),
        ..n
    }
}

/// The first `n` nodes laid out.
pub open spec fn laid_out_all(ns: Seq<Kn>, level: nat, unit: Seq<char>, n: nat) -> Seq<Kn>
    decreases ns, 1int, n,
{
    if n == 0 || n > ns.len() {
        Seq::empty()
    } else {
        laid_out_all(ns, level, unit, (n - 1) as nat).push(laid_out(ns[n - 1], level, unit))
    }
}

/// `KdlNode::autoformat_config` of a fresh node, with an indentation level and
/// unit: it puts every node on a line of its own and drops the spelling of
/// arguments.
#[verifier::external_body]
fn autoformat(n: kdl::KdlNode, level: usize, unit: &str) -> (r: kdl::KdlNode)
    requires
        fresh(node_holds(n)),
    ensures
        node_holds(r) == laid_out(node_holds(n), level as nat, unit@),
{
    let mut n = n;
    n.autoformat_config(&kdl::FormatConfig::builder().indent_level(level).indent(unit).build());
    n
}

/// The node of a parsed node.
fn read_node(n: &kdl::KdlNode) -> (r: Knode)
    ensures
        r@ == node_holds(*n),
    decreases node_holds(*n), 0int,
{
    let (name, ty) = node_names(n);
    let es = entries(n);
    let ghost all = entries_hold(es@);
    let mut args: Vec<Arg> = Vec::new();
    let mut i: usize = 0;
    assert(kas(args@) =~= all.take(0));
    while i < es.len()
        invariant
            i <= es.len(),
            all == entries_hold(es@),
            kas(args@) == all.take(i as int),
        decreases es.len() - i,
    {
        assert(all[i as int] == entry_holds(es@[i as int]));
        let (ty, name) = entry_names(&es[i]);
        args.push(Arg { ty, name, value: entry_value(&es[i]), form: entry_form(&es[i]) });
        assert(kas(args@) =~= all.take(i + 1));
        i = i + 1;
    }
    assert(all.take(i as int) =~= all);
    let kids = match children(n) {
        Some(d) => {
            assert(node_holds(*n).children == Some(document_holds(d)));
            assert(decreases_to!(node_holds(*n) => node_holds(*n).children->0));
            Some(read_doc(&d))
        },
        None => None,
    };
    Knode { ty, name, args, children: kids, form: node_form(n) }
}

/// The tree of a parsed document.
fn read_doc(d: &kdl::KdlDocument) -> (r: Kdoc)
    ensures
        r@ == document_holds(*d),
    decreases document_holds(*d), 1int,
{
    let ns = nodes(d);
    let ghost whole = document_holds(*d);
    let ghost all = nodes_hold(ns@);
    let mut out: Vec<Knode> = Vec::new();
    let mut i: usize = 0;
    assert(kns(out@) =~= all.take(0));
    while i < ns.len()
        invariant
            i <= ns.len(),
            all == nodes_hold(ns@),
            whole == document_holds(*d),
            all == whole.nodes,
            kns(out@) == all.take(i as int),
        decreases ns.len() - i,
    {
        assert(all[i as int] == node_holds(ns@[i as int]));
        assert(decreases_to!(whole => whole.nodes[i as int]));
        out.push(read_node(&ns[i]));
        assert(kns(out@) =~= all.take(i + 1));
        i = i + 1;
    }
    assert(all.take(i as int) =~= all);
    Kdoc { nodes: out, form: document_form(d) }
}

/// What is written for an argument.
pub open spec fn written_arg(a: Ka) -> Ka {
    Ka { value: written(a.value), ..a }
}

/// What is written for a node.
pub open spec fn written_node(n: Kn) -> Kn
    decreases n, 0int, 0int,
{
    Kn {
        args: Seq::new(n.args.len(), |i: int| written_arg(n.args[i])),
        children: match n.children {
            None => None,
            Some(d) => Some(written_doc(d)),
        },
        ..n
    }
}

/// What is written for a document.
pub open spec fn written_doc(d: Kd) -> Kd
    decreases d, 2int, 0int,
{
    Kd { nodes: written_nodes(d.nodes, d.nodes.len()), form: d.form }
}

/// What is written for the first `n` nodes.
pub open spec fn written_nodes(ns: Seq<Kn>, n: nat) -> Seq<Kn>
    decreases ns, 1int, n,
{
    if n == 0 || n > ns.len() {
        Seq::empty()
    } else {
        written_nodes(ns, (n - 1) as nat).push(written_node(ns[n - 1]))
    }
}

fn build_entry(a: &Arg) -> (r: kdl::KdlEntry)
    ensures
        entry_holds(r) == written_arg(a@),
{
    let mut e = new_entry(&a.value);
    if let Some(t) = &a.ty {
        e = type_entry(e, t);
    }
    if let Some(n) = &a.name {
        e = name_entry(e, n);
    }
    if let Some(f) = &a.form {
        e = form_entry(e, f);
    }
    e
}

/// The node to write for a node of the tree.
fn build_node(n: &Knode) -> (r: kdl::KdlNode)
    ensures
        node_holds(r) == written_node(n@),
    decreases n, 0int,
{
    let mut es: Vec<kdl::KdlEntry> = Vec::new();
    let ghost all = n@.args;
    let mut i: usize = 0;
    while i < n.args.len()
        invariant
            i <= n.args.len(),
            all == kas(n.args@),
            es.len() == i,
            forall|j: int|
                0 <= j < i ==> entry_holds(#[trigger] es@[j]) == written_arg(all[j]),
        decreases n.args.len() - i,
    {
        assert(all[i as int] == n.args@[i as int]@);
        es.push(build_entry(&n.args[i]));
        i = i + 1;
    }
    assert(entries_hold(es@) =~= written_node(n@).args);
    let mut k = fill_node(new_node(&n.name), es);
    if let Some(t) = &n.ty {
        k = type_node(k, t);
    }
    if let Some(d) = &n.children {
        k = parent_node(k, build_doc(d));
    }
    if let Some(f) = &n.form {
        k = form_node(k, f);
    }
    k
}

/// The document to write for a tree.
fn build_doc(d: &Kdoc) -> (r: kdl::KdlDocument)
    ensures
        document_holds(r) == written_doc(d@),
    decreases d, 1int,
{
    let mut out: Vec<kdl::KdlNode> = Vec::new();
    let ghost all = kns(d.nodes@);
    let mut i: usize = 0;
    assert(nodes_hold(out@) =~= written_nodes(all, 0));
    while i < d.nodes.len()
        invariant
            i <= d.nodes.len(),
            all == kns(d.nodes@),
            nodes_hold(out@) == written_nodes(all, i as nat),
        decreases d.nodes.len() - i,
    {
        assert(all[i as int] == d.nodes@[i as int]@);
        let ghost before = nodes_hold(out@);
        let k = build_node(&d.nodes[i]);
        out.push(k);
        assert(nodes_hold(out@) =~= before.push(node_holds(k)));
        i = i + 1;
    }
    new_document(out, &d.form)
}

/// The view of a parse.
pub open spec fn tree_view(r: Result<Kdoc, String>) -> Result<Kd, Seq<char>> {
    match r {
        Ok(d) => Ok(d@),
        Err(m) => Err(m@),
    }
}

/// Parse a text.
pub fn parse_tree(text: &str) -> (r: Result<Kdoc, String>)
    ensures
        tree_view(r) == kdl_document(text@),
{
    match read_document(text) {
        Ok(d) => Ok(read_doc(&d)),
        Err(m) => Err(m),
    }
}

/// The text of a document.
pub open spec fn printed(d: Kd) -> Seq<char> {
    kdl_text(written_doc(d))
}

/// Write a document.
pub fn print_tree(d: &Kdoc) -> (r: String)
    ensures
        r@ == printed(d@),
{
    print(&build_doc(d))
}

/// How a scalar is spelled by default.
pub open spec fn plain_spelling(v: Kv) -> Seq<char> {
    kdl_scalar_text(written(v))
}

/// Spell a scalar.
pub fn spell_plain(v: &Scalar) -> (r: String)
    ensures
        r@ == plain_spelling(v@),
{
    value_spelling(&new_entry(v))
}

proof fn written_stays_fresh(n: Kn)
    requires
        fresh(n),
    ensures
        fresh(written_node(n)),
    decreases n, 0int, 0int,
{
    let w = written_node(n);
    assert forall|i: int| 0 <= i < w.args.len() implies fresh_arg(#[trigger] w.args[i]) by {
        assert(fresh_arg(n.args[i]));
    }
    if let Some(d) = n.children {
        written_all_stay_fresh(d.nodes, d.nodes.len());
        let ws = written_nodes(d.nodes, d.nodes.len());
        written_count(d.nodes, d.nodes.len());
    }
}

proof fn written_count(ns: Seq<Kn>, n: nat)
    requires
        n <= ns.len(),
    ensures
        written_nodes(ns, n).len() == n,
        forall|i: int| 0 <= i < n ==> #[trigger] written_nodes(ns, n)[i] == written_node(ns[i]),
    decreases n,
{
    if n > 0 {
        written_count(ns, (n - 1) as nat);
    }
}

proof fn fresh_all_is(ns: Seq<Kn>, n: nat)
    requires
        n <= ns.len(),
    ensures
        fresh_all(ns, n) <==> forall|i: int| 0 <= i < n ==> fresh(#[trigger] ns[i]),
    decreases n,
{
    if n > 0 {
        fresh_all_is(ns, (n - 1) as nat);
    }
}

proof fn written_all_stay_fresh(ns: Seq<Kn>, n: nat)
    requires
        n == ns.len(),
        fresh_all(ns, n),
    ensures
        fresh_all(written_nodes(ns, n), n),
    decreases ns, 1int, n,
{
    fresh_all_is(ns, n);
    written_count(ns, n);
    let ws = written_nodes(ns, n);
    assert forall|i: int| 0 <= i < n implies fresh(#[trigger] ws[i]) by {
        assert(fresh(ns[i]));
        written_stays_fresh(ns[i]);
    }
    fresh_all_is(ws, n);
}

/// A fresh node as it is written on lines of its own.
pub open spec fn formatted(n: Kn, level: nat, unit: Seq<char>) -> Kn {
    laid_out(written_node(n), level, unit)
}

/// Lay out a fresh node: each node of it on a line of its own, at its depth.
pub fn format_node(n: &Knode, level: usize, unit: &str) -> (r: Knode)
    requires
        fresh(n@),
    ensures
        r@ == formatted(n@, level as nat, unit@),
{
    proof {
        written_stays_fresh(n@);
    }
    read_node(&autoformat(build_node(n), level, unit))
}

} // verus!
