//! The tree of a TOML document: its data and how each piece is spelled.
//!
//! A key or a value carries its decor, the white space and comments before and
//! behind it; what has no decor of its own is printed with a default one. A
//! table is one of two forms: a standard table under a header (or spelled as
//! dotted keys), or an inline table.
use crate::model::{opt_text, Val, Value};
use vstd::prelude::*;

verus! {

/// The text before and behind a piece; `None` for the default.
pub struct Decor {
    pub prefix: Option<String>,
    pub suffix: Option<String>,
}

/// The mathematical content of a [`Decor`].
pub struct Dc {
    pub prefix: Option<Seq<char>>,
    pub suffix: Option<Seq<char>>,
}

impl View for Decor {
    type V = Dc;

    open spec fn view(&self) -> Dc {
        Dc { prefix: opt_text(self.prefix), suffix: opt_text(self.suffix) }
    }
}

/// The default decor.
pub open spec fn no_decor() -> Dc {
    Dc { prefix: None, suffix: None }
}

/// A key: its text, how it is spelled (`None` for the default spelling), its
/// decor as the last key of a path, and its decor between dots.
pub struct Name {
    pub key: String,
    pub repr: Option<String>,
    pub leaf: Decor,
    pub dotted: Decor,
}

/// The mathematical content of a [`Name`].
pub struct Nm {
    pub key: Seq<char>,
    pub repr: Option<Seq<char>>,
    pub leaf: Dc,
    pub dotted: Dc,
}

impl View for Name {
    type V = Nm;

    open spec fn view(&self) -> Nm {
        Nm {
            key: self.key@,
            repr: opt_text(self.repr),
            leaf: self.leaf@,
            dotted: self.dotted@,
        }
    }
}

/// A key in its default spelling.
pub open spec fn fresh_name(key: Seq<char>) -> Nm {
    Nm { key, repr: None, leaf: no_decor(), dotted: no_decor() }
}

/// What stands between the last item and the closing bracket.
pub struct Fill {
    /// Whether the last item has a comma.
    pub comma: bool,
    pub trailing: String,
}

/// The mathematical content of a [`Fill`].
pub struct Fl {
    pub comma: bool,
    pub trailing: Seq<char>,
}

impl View for Fill {
    type V = Fl;

    open spec fn view(&self) -> Fl {
        Fl { comma: self.comma, trailing: self.trailing@ }
    }
}

/// Neither comma nor text before the closing bracket.
pub open spec fn no_fill() -> Fl {
    Fl { comma: false, trailing: Seq::empty() }
}

/// How a table is written.
pub enum Form {
    /// `{ ... }`, or dotted keys within one.
    Inline { fill: Fill, dotted: bool },
    /// Under a `[header]`. An implicit table without values of its own shows no
    /// header, a dotted one is spelled as dotted keys; the position orders the
    /// tables of the document, `None` for a table placed behind the one before.
    Header { implicit: bool, dotted: bool, position: Option<isize> },
}

/// The mathematical content of a [`Form`].
pub enum Fm {
    Inline { fill: Fl, dotted: bool },
    Header { implicit: bool, dotted: bool, position: Option<isize> },
}

impl View for Form {
    type V = Fm;

    open spec fn view(&self) -> Fm {
        match *self {
            Form::Inline { fill, dotted } => Fm::Inline { fill: fill@, dotted },
            Form::Header { implicit, dotted, position } => Fm::Header {
                implicit,
                dotted,
                position,
            },
        }
    }
}

/// A node of the tree.
pub enum Node {
    /// A scalar: its value, how it is spelled (`None` for the default spelling),
    /// and its decor.
    Scalar(Value, Option<String>, Decor),
    Array(Vec<Node>, Fill, Decor),
    Table(Vec<Entry>, Form, Decor),
    /// An array of tables (`[[key]]` blocks).
    Tables(Vec<Node>),
}

/// A key and what stands under it.
pub struct Entry {
    pub name: Name,
    pub node: Node,
}

/// The mathematical content of a [`Node`].
pub enum Nd {
    Scalar(Val, Option<Seq<char>>, Dc),
    Array(Seq<Nd>, Fl, Dc),
    Table(Seq<Et>, Fm, Dc),
    Tables(Seq<Nd>),
}

/// The mathematical content of an [`Entry`].
pub struct Et {
    pub name: Nm,
    pub node: Nd,
}

/// Nothing.
pub open spec fn null_nd() -> Nd {
    Nd::Scalar(Val::Null, None, no_decor())
}

pub open spec fn nd_of(n: Node) -> Nd
    decreases n,
{
    match n {
        Node::Scalar(v, r, d) => Nd::Scalar(v@, opt_text(r), d@),
        Node::Array(a, f, d) => Nd::Array(
            Seq::new(
                a@.len(),
                |i: int|
                    if 0 <= i < a@.len() {
                        nd_of(a@[i])
                    } else {
                        null_nd()
                    },
            ),
            f@,
            d@,
        ),
        Node::Table(es, f, d) => Nd::Table(
            Seq::new(
                es@.len(),
                |i: int|
                    if 0 <= i < es@.len() {
                        et_of(es@[i])
                    } else {
                        Et { name: fresh_name(Seq::empty()), node: null_nd() }
                    },
            ),
            f@,
            d@,
        ),
        Node::Tables(a) => Nd::Tables(
            Seq::new(
                a@.len(),
                |i: int|
                    if 0 <= i < a@.len() {
                        nd_of(a@[i])
                    } else {
                        null_nd()
                    },
            ),
        ),
    }
}

pub open spec fn et_of(e: Entry) -> Et
    decreases e,
{
    Et { name: e.name@, node: nd_of(e.node) }
}

impl View for Node {
    type V = Nd;

    open spec fn view(&self) -> Nd {
        nd_of(*self)
    }
}

impl View for Entry {
    type V = Et;

    open spec fn view(&self) -> Et {
        et_of(*self)
    }
}

/// The contents of a list of nodes.
pub open spec fn nds(s: Seq<Node>) -> Seq<Nd> {
    Seq::new(s.len(), |i: int| s[i]@)
}

/// The contents of a list of entries.
pub open spec fn ets(s: Seq<Entry>) -> Seq<Et> {
    Seq::new(s.len(), |i: int| s[i]@)
}

pub broadcast proof fn nd_scalar_view(v: Value, r: Option<String>, d: Decor)
    ensures
        #[trigger] nd_of(Node::Scalar(v, r, d)) == Nd::Scalar(v@, opt_text(r), d@),
{
}

pub broadcast proof fn nd_array_view(a: Vec<Node>, f: Fill, d: Decor)
    ensures
        #[trigger] nd_of(Node::Array(a, f, d)) == Nd::Array(nds(a@), f@, d@),
{
    assert(nd_of(Node::Array(a, f, d))->Array_0 =~= nds(a@));
}

pub broadcast proof fn nd_table_view(es: Vec<Entry>, f: Form, d: Decor)
    ensures
        #[trigger] nd_of(Node::Table(es, f, d)) == Nd::Table(ets(es@), f@, d@),
{
    assert(nd_of(Node::Table(es, f, d))->Table_0 =~= ets(es@));
}

pub broadcast proof fn nd_tables_view(a: Vec<Node>)
    ensures
        #[trigger] nd_of(Node::Tables(a)) == Nd::Tables(nds(a@)),
{
    assert(nd_of(Node::Tables(a))->Tables_0 =~= nds(a@));
}

pub broadcast proof fn et_view(e: Entry)
    ensures
        #[trigger] et_of(e) == (Et { name: e.name@, node: nd_of(e.node) }),
{
}

pub broadcast proof fn nds_push(s: Seq<Node>, x: Node)
    ensures
        #[trigger] nds(s.push(x)) == nds(s).push(x@),
{
    assert(nds(s.push(x)) =~= nds(s).push(x@));
}

pub broadcast proof fn ets_push(s: Seq<Entry>, x: Entry)
    ensures
        #[trigger] ets(s.push(x)) == ets(s).push(x@),
{
    assert(ets(s.push(x)) =~= ets(s).push(x@));
}

pub broadcast group group_toml_views {
    nd_scalar_view,
    nd_array_view,
    nd_table_view,
    nd_tables_view,
    et_view,
    nds_push,
    ets_push,
}

/// Is the node a value: a scalar, an array or an inline table?
pub open spec fn is_value(n: Nd) -> bool {
    match n {
        Nd::Scalar(_, _, _) => true,
        Nd::Array(_, _, _) => true,
        Nd::Table(_, f, _) => f is Inline,
        Nd::Tables(_) => false,
    }
}

/// Does the node hold something? A null stands for an item that is not there.
pub open spec fn held(n: Nd) -> bool {
    !(n is Scalar && n->Scalar_0 is Null)
}

/// Is the value neither an array nor an object?
pub open spec fn scalar(v: Val) -> bool {
    !(v is Array) && !(v is Object)
}

/// Is the tree one that a document can have: a scalar's value is a scalar, every
/// block of an array of tables is a table, and every list is of a length that a
/// machine can hold?
pub open spec fn sound(n: Nd) -> bool
    decreases n,
{
    match n {
        Nd::Array(a, _, _) => a.len() < usize::MAX && forall|i: int|
            0 <= i < a.len() ==> sound(#[trigger] a[i]),
        Nd::Tables(a) => a.len() < usize::MAX && forall|i: int|
            0 <= i < a.len() ==> sound(#[trigger] a[i]) && a[i] is Table,
        Nd::Table(es, _, _) => forall|i: int| 0 <= i < es.len() ==> sound((#[trigger] es[i]).node),
        Nd::Scalar(v, _, _) => scalar(v),
    }
}

/// Does no table in the tree have a key twice?
pub open spec fn unique_tree(n: Nd) -> bool
    decreases n,
{
    match n {
        Nd::Array(a, _, _) => forall|i: int| 0 <= i < a.len() ==> unique_tree(#[trigger] a[i]),
        Nd::Tables(a) => forall|i: int| 0 <= i < a.len() ==> unique_tree(#[trigger] a[i]),
        Nd::Table(es, _, _) => (forall|i: int|
            0 <= i < es.len() ==> unique_tree((#[trigger] es[i]).node)) && (forall|i: int, j: int|
            0 <= i < j < es.len() ==> (#[trigger] es[i]).name.key != (#[trigger] es[j]).name.key),
        Nd::Scalar(_, _, _) => true,
    }
}

/// Is the tree of a form that a document can have: a scalar's value is a scalar,
/// every block of an array of tables is a table, and no table has a key twice?
pub open spec fn formed(n: Nd) -> bool
    decreases n,
{
    match n {
        Nd::Array(a, _, _) => forall|i: int| 0 <= i < a.len() ==> formed(#[trigger] a[i]),
        Nd::Tables(a) => forall|i: int|
            0 <= i < a.len() ==> formed(#[trigger] a[i]) && a[i] is Table,
        Nd::Table(es, _, _) => (forall|i: int| 0 <= i < es.len() ==> formed((#[trigger] es[i]).node))
            && distinct(es),
        Nd::Scalar(v, _, _) => scalar(v),
    }
}

/// Are the keys of the entries distinct?
pub open spec fn distinct(es: Seq<Et>) -> bool {
    forall|i: int, j: int|
        0 <= i < j < es.len() ==> (#[trigger] es[i]).name.key != (#[trigger] es[j]).name.key
}

/// Is every list of a length that a machine can hold?
pub open spec fn sized(n: Nd) -> bool
    decreases n,
{
    match n {
        Nd::Array(a, _, _) => a.len() < usize::MAX && forall|i: int|
            0 <= i < a.len() ==> sized(#[trigger] a[i]),
        Nd::Tables(a) => a.len() < usize::MAX && forall|i: int|
            0 <= i < a.len() ==> sized(#[trigger] a[i]),
        Nd::Table(es, _, _) => forall|i: int| 0 <= i < es.len() ==> sized((#[trigger] es[i]).node),
        Nd::Scalar(_, _, _) => true,
    }
}

/// Is the node a standard table?
pub open spec fn is_header(n: Nd) -> bool {
    n is Table && n->Table_1 is Header
}

/// The decor of a node; an array of tables has none.
pub open spec fn decor_in(n: Nd) -> Dc {
    match n {
        Nd::Scalar(_, _, d) => d,
        Nd::Array(_, _, d) => d,
        Nd::Table(_, _, d) => d,
        Nd::Tables(_) => no_decor(),
    }
}

/// The node with another decor.
pub open spec fn with_decor(n: Nd, d: Dc) -> Nd {
    match n {
        Nd::Scalar(v, r, _) => Nd::Scalar(v, r, d),
        Nd::Array(a, f, _) => Nd::Array(a, f, d),
        Nd::Table(es, f, _) => Nd::Table(es, f, d),
        Nd::Tables(a) => Nd::Tables(a),
    }
}

/// The first position at or after `i` whose key is `k`, or the length.
pub open spec fn slot_from(es: Seq<Et>, k: Seq<char>, i: int) -> int
    decreases es.len() - i,
{
    if i >= es.len() {
        es.len() as int
    } else if es[i].name.key == k {
        i
    } else {
        slot_from(es, k, i + 1)
    }
}

/// The position of the key `k`, or the length.
pub open spec fn slot(es: Seq<Et>, k: Seq<char>) -> int {
    slot_from(es, k, 0)
}

proof fn slot_from_bounds(es: Seq<Et>, k: Seq<char>, i: int)
    requires
        0 <= i <= es.len(),
    ensures
        i <= slot_from(es, k, i) <= es.len(),
        slot_from(es, k, i) < es.len() ==> es[slot_from(es, k, i)].name.key == k,
        forall|j: int| i <= j < slot_from(es, k, i) ==> (#[trigger] es[j]).name.key != k,
    decreases es.len() - i,
{
    if i < es.len() && es[i].name.key != k {
        slot_from_bounds(es, k, i + 1);
    }
}

/// The position of a key is that of the first entry that has it.
pub proof fn slot_bounds(es: Seq<Et>, k: Seq<char>)
    ensures
        0 <= slot(es, k) <= es.len(),
        slot(es, k) < es.len() ==> es[slot(es, k)].name.key == k,
        forall|j: int| 0 <= j < slot(es, k) ==> (#[trigger] es[j]).name.key != k,
{
    slot_from_bounds(es, k, 0);
}

proof fn slot_from_is(es: Seq<Et>, k: Seq<char>, i: int, r: int)
    requires
        0 <= i <= r <= es.len(),
        r < es.len() ==> es[r].name.key == k,
        forall|j: int| i <= j < r ==> (#[trigger] es[j]).name.key != k,
    ensures
        slot_from(es, k, i) == r,
    decreases r - i,
{
    if i < r {
        slot_from_is(es, k, i + 1, r);
    }
}

/// Only the first entry with a key is at its position.
pub proof fn slot_is(es: Seq<Et>, k: Seq<char>, r: int)
    requires
        0 <= r <= es.len(),
        r < es.len() ==> es[r].name.key == k,
        forall|j: int| 0 <= j < r ==> (#[trigger] es[j]).name.key != k,
    ensures
        slot(es, k) == r,
{
    slot_from_is(es, k, 0, r);
}

/// The entries with one put in: in the place of the entry with its key, or
/// behind the others.
pub open spec fn put(es: Seq<Et>, e: Et) -> Seq<Et> {
    let i = slot(es, e.name.key);
    if 0 <= i < es.len() {
        es.update(i, e)
    } else {
        es.push(e)
    }
}

/// The position of the key `k`, or the length.
pub fn find_slot(es: &Vec<Entry>, k: &str) -> (r: usize)
    ensures
        r == slot(ets(es@), k@),
        r <= es.len(),
        r < es.len() ==> es@[r as int].name.key@ == k@,
{
    let mut i: usize = 0;
    while i < es.len()
        invariant
            i <= es.len(),
            forall|j: int| 0 <= j < i ==> (#[trigger] ets(es@)[j]).name.key != k@,
        decreases es.len() - i,
    {
        assert(ets(es@)[i as int].name.key == es@[i as int].name.key@);
        if crate::strs::same(&es[i].name.key, k) {
            proof {
                slot_is(ets(es@), k@, i as int);
            }
            return i;
        }
        i = i + 1;
    }
    proof {
        slot_is(ets(es@), k@, i as int);
    }
    i
}

/// Put an entry in: in the place of the entry with its key, or behind the
/// others.
pub fn put_entry(es: &mut Vec<Entry>, e: Entry)
    ensures
        ets(final(es)@) == put(ets(old(es)@), e@),
{
    let i: usize = find_slot(es, &e.name.key);
    let ghost before = ets(es@);
    let ghost x = e@;
    assert(x.name.key == e.name.key@);
    if i < es.len() {
        es.set(i, e);
        assert(ets(es@) =~= before.update(i as int, x));
    } else {
        es.push(e);
        assert(ets(es@) =~= before.push(x));
    }
}

impl Decor {
    /// The default decor.
    pub fn none() -> (r: Decor)
        ensures
            r@ == no_decor(),
    {
        Decor { prefix: None, suffix: None }
    }
}

impl Clone for Decor {
    fn clone(&self) -> (r: Decor)
        ensures
            r@ == self@,
    {
        Decor {
            prefix: crate::comment::clone_opt_text(&self.prefix),
            suffix: crate::comment::clone_opt_text(&self.suffix),
        }
    }
}

impl Name {
    /// A key in its default spelling.
    pub fn fresh(key: &str) -> (r: Name)
        ensures
            r@ == fresh_name(key@),
    {
        Name { key: key.to_owned(), repr: None, leaf: Decor::none(), dotted: Decor::none() }
    }
}

impl Fill {
    /// Neither comma nor text before the closing bracket.
    pub fn none() -> (r: Fill)
        ensures
            r@ == no_fill(),
    {
        let r = Fill { comma: false, trailing: String::new() };
        assert(r.trailing@ =~= Seq::<char>::empty());
        r
    }
}

impl Node {
    /// Is the node a value: a scalar, an array or an inline table?
    pub fn stands_inline(&self) -> (r: bool)
        ensures
            r == is_value(self@),
    {
        match self {
            Node::Scalar(_, _, _) => true,
            Node::Array(_, _, _) => true,
            Node::Table(_, f, _) => matches!(f, Form::Inline { .. }),
            Node::Tables(_) => false,
        }
    }

    /// Is the node a standard table?
    pub fn is_standard(&self) -> (r: bool)
        ensures
            r == is_header(self@),
    {
        match self {
            Node::Table(_, f, _) => matches!(f, Form::Header { .. }),
            _ => false,
        }
    }

    /// The decor; an array of tables has none.
    pub fn decor(&self) -> (r: Decor)
        ensures
            r@ == decor_in(self@),
    {
        match self {
            Node::Scalar(_, _, d) => d.clone(),
            Node::Array(_, _, d) => d.clone(),
            Node::Table(_, _, d) => d.clone(),
            Node::Tables(_) => Decor::none(),
        }
    }

    /// The node with another decor.
    pub fn dressed(self, decor: Decor) -> (r: Node)
        ensures
            r@ == with_decor(self@, decor@),
    {
        match self {
            Node::Scalar(v, r, _) => {
                let n = Node::Scalar(v, r, decor);
                n
            },
            Node::Array(a, f, _) => {
                proof {
                    nd_array_view(a, f, decor);
                    nd_array_view(a, f, self->Array_2);
                }
                Node::Array(a, f, decor)
            },
            Node::Table(es, f, _) => {
                proof {
                    nd_table_view(es, f, decor);
                    nd_table_view(es, f, self->Table_2);
                }
                Node::Table(es, f, decor)
            },
            Node::Tables(a) => Node::Tables(a),
        }
    }
}

} // verus!
