//! The data the library computes on, each type beside its mathematical
//! counterpart, in which contracts are stated.
use crate::float::{Float, Flt};
use vstd::prelude::*;
use vstd::string::*;

verus! {

/// A value: what queries yield and edits write. Numbers keep an `Int`/`Float`
/// distinction so integer output stays clean; objects are insertion-ordered
/// because key order is user-visible.
#[derive(Debug)]
pub enum Value {
    Null,
    Bool(bool),
    Int(i64),
    Float(Float),
    Str(String),
    Array(Vec<Value>),
    Object(Vec<(String, Value)>),
}

/// The mathematical content of a [`Value`].
pub enum Val {
    Null,
    Bool(bool),
    Int(i64),
    Float(Flt),
    Str(Seq<char>),
    Array(Seq<Val>),
    Object(Seq<(Seq<char>, Val)>),
}

pub open spec fn val_of(v: Value) -> Val
    decreases v,
{
    match v {
        Value::Null => Val::Null,
        Value::Bool(b) => Val::Bool(b),
        Value::Int(i) => Val::Int(i),
        Value::Float(f) => Val::Float(f@),
        Value::Str(s) => Val::Str(s@),
        Value::Array(a) => Val::Array(
            Seq::new(
                a@.len(),
                |i: int|
                    if 0 <= i < a@.len() {
                        val_of(a@[i])
                    } else {
                        Val::Null
                    },
            ),
        ),
        Value::Object(m) => Val::Object(
            Seq::new(
                m@.len(),
                |i: int|
                    if 0 <= i < m@.len() {
                        (m@[i].0@, val_of(m@[i].1))
                    } else {
                        (Seq::empty(), Val::Null)
                    },
            ),
        ),
    }
}

impl View for Value {
    type V = Val;

    open spec fn view(&self) -> Val {
        val_of(*self)
    }
}

/// The contents of a sequence of values.
pub open spec fn vals(s: Seq<Value>) -> Seq<Val> {
    Seq::new(s.len(), |i: int| s[i]@)
}

/// The contents of an object's members.
pub open spec fn members(s: Seq<(String, Value)>) -> Seq<(Seq<char>, Val)> {
    Seq::new(s.len(), |i: int| (s[i].0@, s[i].1@))
}

/// The content of an array is that of its elements.
pub broadcast proof fn array_view(a: Vec<Value>)
    ensures
        #[trigger] val_of(Value::Array(a)) == Val::Array(vals(a@)),
{
    assert(val_of(Value::Array(a))->Array_0 =~= vals(a@));
}

/// The content of an object is that of its members.
pub broadcast proof fn object_view(m: Vec<(String, Value)>)
    ensures
        #[trigger] val_of(Value::Object(m)) == Val::Object(members(m@)),
{
    assert(val_of(Value::Object(m))->Object_0 =~= members(m@));
}

pub broadcast proof fn vals_push(s: Seq<Value>, v: Value)
    ensures
        #[trigger] vals(s.push(v)) == vals(s).push(v@),
{
    assert(vals(s.push(v)) =~= vals(s).push(v@));
}

pub broadcast proof fn members_push(s: Seq<(String, Value)>, v: (String, Value))
    ensures
        #[trigger] members(s.push(v)) == members(s).push((v.0@, v.1@)),
{
    assert(members(s.push(v)) =~= members(s).push((v.0@, v.1@)));
}

pub broadcast group group_value_views {
    array_view,
    object_view,
    vals_push,
    members_push,
}

/// The three places a comment stands relative to a node.
#[derive(Debug, Clone, Copy, PartialEq, Eq, Structural)]
pub enum CommentKind {
    /// Own-line comments before the node.
    Head,
    /// A trailing comment on the node's line.
    Inline,
    /// Own-line comments after the node that no following sibling claims.
    Foot,
}

/// One navigation step within a path, applied to the current input.
#[derive(Debug, PartialEq)]
pub enum Step {
    /// `.field` or `."quoted"` - object member access.
    Field(String),
    /// `[n]` - array index (negative counts from the end).
    Index(i64),
    /// `[]` - iterate array elements / object values.
    Iterate,
    /// `#` (head) / `#.head` / `#.inline` / `#.foot` - the comment of the node
    /// reached by the preceding steps. Terminal: no step may follow it.
    Comment(CommentKind),
}

/// The mathematical content of a [`Step`].
pub enum St {
    Field(Seq<char>),
    Index(i64),
    Iterate,
    Comment(CommentKind),
}

impl View for Step {
    type V = St;

    open spec fn view(&self) -> St {
        match *self {
            Step::Field(k) => St::Field(k@),
            Step::Index(i) => St::Index(i),
            Step::Iterate => St::Iterate,
            Step::Comment(k) => St::Comment(k),
        }
    }
}

/// The contents of a path.
pub open spec fn steps_of(s: Seq<Step>) -> Seq<St> {
    Seq::new(s.len(), |i: int| s[i]@)
}

/// The contents of a list of paths.
pub open spec fn paths_view(s: Seq<Vec<Step>>) -> Seq<Seq<St>> {
    Seq::new(s.len(), |i: int| steps_of(s[i]@))
}

impl Clone for Step {
    fn clone(&self) -> (r: Step)
        ensures
            r@ == self@,
    {
        match self {
            Step::Field(k) => Step::Field(k.clone()),
            Step::Index(i) => Step::Index(*i),
            Step::Iterate => Step::Iterate,
            Step::Comment(k) => Step::Comment(*k),
        }
    }
}

/// A binary operator.
#[derive(Debug, Clone, Copy, PartialEq, Eq, Structural)]
pub enum BinOp {
    Add,
    Sub,
    Mul,
    Div,
    Mod,
    Eq,
    Ne,
    Lt,
    Gt,
    Le,
    Ge,
}

/// An expression node.
#[derive(Debug, PartialEq)]
pub enum Expr {
    /// A path from the current input; an empty step list is identity (`.`).
    Path(Vec<Step>),
    /// A literal scalar value.
    Literal(Value),
    /// Arithmetic negation.
    Neg(Box<Expr>),
    /// A binary operation.
    Binary(BinOp, Box<Expr>, Box<Expr>),
    /// `left | right` - pipe each output of `left` into `right`.
    Pipe(Box<Expr>, Box<Expr>),
    /// `left // right` - jq's alternative: `left`'s truthy outputs, or - when
    /// there are none (a miss, `null`, `false`) - `right`'s.
    Alternative(Box<Expr>, Box<Expr>),
    /// `a, b, c` - concatenate output streams.
    Comma(Vec<Expr>),
    /// A function call, e.g. `length`, `select(.x == 1)`, `ltrimstr("pre")`.
    Call(String, Vec<Expr>),
    /// `[ expr ]` - collect the inner stream into an array (`None` = `[]`).
    Collect(Option<Box<Expr>>),
    /// `{ key: expr, ... }` - construct an object.
    ObjectConstruct(Vec<(String, Expr)>),
    /// `path = rhs` - assign; `rhs` is evaluated against the whole input.
    Assign(Box<Expr>, Box<Expr>),
    /// `path |= rhs` - update-assign; `rhs` sees the current value at `path`.
    UpdateAssign(Box<Expr>, Box<Expr>),
    /// `path += rhs` - add-assign; `path = path + rhs` (numeric add,
    /// string/array concat). `rhs` is evaluated against the whole input.
    AddAssign(Box<Expr>, Box<Expr>),
    /// `^dN | body` - select document N of a multi-document stream, then
    /// apply `body` to it.
    DocSelect(usize, Box<Expr>),
}

/// The mathematical content of an [`Expr`].
pub enum Ex {
    Path(Seq<St>),
    Literal(Val),
    Neg(Box<Ex>),
    Binary(BinOp, Box<Ex>, Box<Ex>),
    Pipe(Box<Ex>, Box<Ex>),
    Alternative(Box<Ex>, Box<Ex>),
    Comma(Seq<Ex>),
    Call(Seq<char>, Seq<Ex>),
    Collect(Option<Box<Ex>>),
    ObjectConstruct(Seq<(Seq<char>, Ex)>),
    Assign(Box<Ex>, Box<Ex>),
    UpdateAssign(Box<Ex>, Box<Ex>),
    AddAssign(Box<Ex>, Box<Ex>),
    DocSelect(usize, Box<Ex>),
}

pub open spec fn ex_of(e: Expr) -> Ex
    decreases e,
{
    match e {
        Expr::Path(p) => Ex::Path(steps_of(p@)),
        Expr::Literal(v) => Ex::Literal(v@),
        Expr::Neg(a) => Ex::Neg(Box::new(ex_of(*a))),
        Expr::Binary(op, a, b) => Ex::Binary(op, Box::new(ex_of(*a)), Box::new(ex_of(*b))),
        Expr::Pipe(a, b) => Ex::Pipe(Box::new(ex_of(*a)), Box::new(ex_of(*b))),
        Expr::Alternative(a, b) => Ex::Alternative(Box::new(ex_of(*a)), Box::new(ex_of(*b))),
        Expr::Comma(items) => Ex::Comma(
            Seq::new(
                items@.len(),
                |i: int|
                    if 0 <= i < items@.len() {
                        ex_of(items@[i])
                    } else {
                        Ex::Path(Seq::empty())
                    },
            ),
        ),
        Expr::Call(name, args) => Ex::Call(
            name@,
            Seq::new(
                args@.len(),
                |i: int|
                    if 0 <= i < args@.len() {
                        ex_of(args@[i])
                    } else {
                        Ex::Path(Seq::empty())
                    },
            ),
        ),
        Expr::Collect(inner) => Ex::Collect(
            match inner {
                Some(a) => Some(Box::new(ex_of(*a))),
                None => None,
            },
        ),
        Expr::ObjectConstruct(pairs) => Ex::ObjectConstruct(
            Seq::new(
                pairs@.len(),
                |i: int|
                    if 0 <= i < pairs@.len() {
                        (pairs@[i].0@, ex_of(pairs@[i].1))
                    } else {
                        (Seq::empty(), Ex::Path(Seq::empty()))
                    },
            ),
        ),
        Expr::Assign(a, b) => Ex::Assign(Box::new(ex_of(*a)), Box::new(ex_of(*b))),
        Expr::UpdateAssign(a, b) => Ex::UpdateAssign(Box::new(ex_of(*a)), Box::new(ex_of(*b))),
        Expr::AddAssign(a, b) => Ex::AddAssign(Box::new(ex_of(*a)), Box::new(ex_of(*b))),
        Expr::DocSelect(n, a) => Ex::DocSelect(n, Box::new(ex_of(*a))),
    }
}

impl View for Expr {
    type V = Ex;

    open spec fn view(&self) -> Ex {
        ex_of(*self)
    }
}

/// The contents of a list of expressions.
pub open spec fn exs(s: Seq<Expr>) -> Seq<Ex> {
    Seq::new(s.len(), |i: int| s[i]@)
}

/// The contents of an object constructor's members.
pub open spec fn ex_pairs(s: Seq<(String, Expr)>) -> Seq<(Seq<char>, Ex)> {
    Seq::new(s.len(), |i: int| (s[i].0@, s[i].1@))
}

pub broadcast proof fn comma_view(items: Vec<Expr>)
    ensures
        #[trigger] ex_of(Expr::Comma(items)) == Ex::Comma(exs(items@)),
{
    assert(ex_of(Expr::Comma(items))->Comma_0 =~= exs(items@));
}

pub broadcast proof fn call_view(name: String, args: Vec<Expr>)
    ensures
        #[trigger] ex_of(Expr::Call(name, args)) == Ex::Call(name@, exs(args@)),
{
    assert(ex_of(Expr::Call(name, args))->Call_1 =~= exs(args@));
}

pub broadcast proof fn construct_view(pairs: Vec<(String, Expr)>)
    ensures
        #[trigger] ex_of(Expr::ObjectConstruct(pairs)) == Ex::ObjectConstruct(ex_pairs(pairs@)),
{
    assert(ex_of(Expr::ObjectConstruct(pairs))->ObjectConstruct_0 =~= ex_pairs(pairs@));
}

pub broadcast proof fn steps_push(s: Seq<Step>, x: Step)
    ensures
        #[trigger] steps_of(s.push(x)) == steps_of(s).push(x@),
{
    assert(steps_of(s.push(x)) =~= steps_of(s).push(x@));
}

pub broadcast proof fn exs_push(s: Seq<Expr>, x: Expr)
    ensures
        #[trigger] exs(s.push(x)) == exs(s).push(x@),
{
    assert(exs(s.push(x)) =~= exs(s).push(x@));
}

pub broadcast proof fn ex_pairs_push(s: Seq<(String, Expr)>, x: (String, Expr))
    ensures
        #[trigger] ex_pairs(s.push(x)) == ex_pairs(s).push((x.0@, x.1@)),
{
    assert(ex_pairs(s.push(x)) =~= ex_pairs(s).push((x.0@, x.1@)));
}

pub broadcast proof fn paths_push(s: Seq<Vec<Step>>, x: Vec<Step>)
    ensures
        #[trigger] paths_view(s.push(x)) == paths_view(s).push(steps_of(x@)),
{
    assert(paths_view(s.push(x)) =~= paths_view(s).push(steps_of(x@)));
}

pub broadcast group group_expr_views {
    comma_view,
    call_view,
    construct_view,
    steps_push,
    exs_push,
    ex_pairs_push,
    paths_push,
}

/// The contents of a list of strings.
pub open spec fn texts(s: Seq<String>) -> Seq<Seq<char>> {
    Seq::new(s.len(), |i: int| s[i]@)
}

/// The content of an optional string.
pub open spec fn opt_text(s: Option<String>) -> Option<Seq<char>> {
    match s {
        Some(t) => Some(t@),
        None => None,
    }
}

/// The comments attached to one node, by kind.
#[derive(Debug, PartialEq)]
pub struct Comments {
    /// Own-line comments immediately before the node, one entry per line.
    pub head: Vec<String>,
    /// A trailing comment on the node's own line.
    pub inline: Option<String>,
    /// Own-line comments after the node that no following sibling claims.
    pub foot: Vec<String>,
}

/// The mathematical content of [`Comments`].
pub struct Notes {
    pub head: Seq<Seq<char>>,
    pub inline: Option<Seq<char>>,
    pub foot: Seq<Seq<char>>,
}

impl View for Comments {
    type V = Notes;

    open spec fn view(&self) -> Notes {
        Notes { head: texts(self.head@), inline: opt_text(self.inline), foot: texts(self.foot@) }
    }
}

/// A [`Value`] enriched with per-node comments - what conversion carries so a
/// commented source survives into a commented target.
#[derive(Debug, PartialEq)]
pub struct Commented {
    pub comments: Comments,
    pub node: CommentedNode,
}

/// The shape of a [`Commented`] node, mirroring [`Value`].
#[derive(Debug, PartialEq)]
pub enum CommentedNode {
    /// A scalar (never `Value::Array`/`Value::Object` - those are the variants
    /// below, so comments can attach to every element/entry).
    Scalar(Value),
    Array(Vec<Commented>),
    Object(Vec<(String, Commented)>),
}

/// The mathematical content of a [`Commented`].
pub struct Cmt {
    pub notes: Notes,
    pub node: CmtNode,
}

/// The mathematical content of a [`CommentedNode`].
pub enum CmtNode {
    Scalar(Val),
    Array(Seq<Cmt>),
    Object(Seq<(Seq<char>, Cmt)>),
}

pub open spec fn no_notes() -> Notes {
    Notes { head: Seq::empty(), inline: None, foot: Seq::empty() }
}

pub open spec fn cmt_of(c: Commented) -> Cmt
    decreases c,
{
    Cmt { notes: c.comments@, node: cmt_node_of(c.node) }
}

pub open spec fn cmt_node_of(n: CommentedNode) -> CmtNode
    decreases n,
{
    match n {
        CommentedNode::Scalar(v) => CmtNode::Scalar(v@),
        CommentedNode::Array(a) => CmtNode::Array(
            Seq::new(
                a@.len(),
                |i: int|
                    if 0 <= i < a@.len() {
                        cmt_of(a@[i])
                    } else {
                        Cmt { notes: no_notes(), node: CmtNode::Scalar(Val::Null) }
                    },
            ),
        ),
        CommentedNode::Object(m) => CmtNode::Object(
            Seq::new(
                m@.len(),
                |i: int|
                    if 0 <= i < m@.len() {
                        (m@[i].0@, cmt_of(m@[i].1))
                    } else {
                        (Seq::empty(), Cmt { notes: no_notes(), node: CmtNode::Scalar(Val::Null) })
                    },
            ),
        ),
    }
}

impl View for Commented {
    type V = Cmt;

    open spec fn view(&self) -> Cmt {
        cmt_of(*self)
    }
}

/// The contents of a list of commented nodes.
pub open spec fn cmts(s: Seq<Commented>) -> Seq<Cmt> {
    Seq::new(s.len(), |i: int| s[i]@)
}

/// The contents of a list of commented members.
pub open spec fn cmt_members(s: Seq<(String, Commented)>) -> Seq<(Seq<char>, Cmt)> {
    Seq::new(s.len(), |i: int| (s[i].0@, s[i].1@))
}

pub broadcast proof fn cmt_view(c: Commented)
    ensures
        #[trigger] cmt_of(c) == (Cmt { notes: c.comments@, node: cmt_node_of(c.node) }),
{
}

pub broadcast proof fn cmt_scalar_view(v: Value)
    ensures
        #[trigger] cmt_node_of(CommentedNode::Scalar(v)) == CmtNode::Scalar(v@),
{
}

pub broadcast proof fn cmt_array_view(a: Vec<Commented>)
    ensures
        #[trigger] cmt_node_of(CommentedNode::Array(a)) == CmtNode::Array(cmts(a@)),
{
    assert(cmt_node_of(CommentedNode::Array(a))->Array_0 =~= cmts(a@));
}

pub broadcast proof fn cmt_object_view(m: Vec<(String, Commented)>)
    ensures
        #[trigger] cmt_node_of(CommentedNode::Object(m)) == CmtNode::Object(cmt_members(m@)),
{
    assert(cmt_node_of(CommentedNode::Object(m))->Object_0 =~= cmt_members(m@));
}

pub broadcast proof fn cmts_push(s: Seq<Commented>, x: Commented)
    ensures
        #[trigger] cmts(s.push(x)) == cmts(s).push(x@),
{
    assert(cmts(s.push(x)) =~= cmts(s).push(x@));
}

pub broadcast proof fn cmt_members_push(s: Seq<(String, Commented)>, x: (String, Commented))
    ensures
        #[trigger] cmt_members(s.push(x)) == cmt_members(s).push((x.0@, x.1@)),
{
    assert(cmt_members(s.push(x)) =~= cmt_members(s).push((x.0@, x.1@)));
}

pub broadcast proof fn texts_push(s: Seq<String>, x: String)
    ensures
        #[trigger] texts(s.push(x)) == texts(s).push(x@),
{
    assert(texts(s.push(x)) =~= texts(s).push(x@));
}

pub broadcast group group_comment_views {
    cmt_view,
    cmt_scalar_view,
    cmt_array_view,
    cmt_object_view,
    cmts_push,
    cmt_members_push,
    texts_push,
}

} // verus!
