//! The expression AST: what an expression mutates, what it addresses, and how
//! a path reads as source text.
use crate::model::{ex_pairs, exs, group_expr_views, steps_of, Ex, St};
use crate::strs::{chars_of, debug_quoted, int_digits, int_text, quoted_text, same};
use vstd::prelude::*;
use vstd::string::*;

pub use crate::model::{BinOp, CommentKind, Expr, Step};

verus! {

broadcast use group_expr_views;

/// The name of a comment kind, as it stands in a path.
pub open spec fn kind_text(k: CommentKind) -> Seq<char> {
    match k {
        CommentKind::Head => "head"@,
        CommentKind::Inline => "inline"@,
        CommentKind::Foot => "foot"@,
    }
}

impl CommentKind {
    /// The kind's name.
    pub fn as_str(self) -> (r: &'static str)
        ensures
            r@ == kind_text(self),
    {
        match self {
            CommentKind::Head => "head",
            CommentKind::Inline => "inline",
            CommentKind::Foot => "foot",
        }
    }
}

/// Does the expression contain an assignment or a `del(...)`?
pub open spec fn mutates(e: Ex) -> bool
    decreases e, 1int,
{
    match e {
        Ex::Assign(_, _) => true,
        Ex::UpdateAssign(_, _) => true,
        Ex::AddAssign(_, _) => true,
        Ex::Call(name, args) => name == "del"@ || some_mutate(args),
        Ex::Pipe(a, b) => mutates(*a) || mutates(*b),
        Ex::Alternative(a, b) => mutates(*a) || mutates(*b),
        Ex::Comma(items) => some_mutate(items),
        Ex::Neg(a) => mutates(*a),
        Ex::Binary(_, a, b) => mutates(*a) || mutates(*b),
        Ex::Collect(inner) => match inner {
            Some(a) => mutates(*a),
            None => false,
        },
        Ex::ObjectConstruct(pairs) => some_pair_mutate(pairs),
        Ex::DocSelect(_, a) => mutates(*a),
        Ex::Path(_) => false,
        Ex::Literal(_) => false,
    }
}

pub open spec fn some_mutate(items: Seq<Ex>) -> bool
    decreases items, 0int,
{
    exists|i: int| 0 <= i < items.len() && mutates(#[trigger] items[i])
}

pub open spec fn some_pair_mutate(pairs: Seq<(Seq<char>, Ex)>) -> bool
    decreases pairs, 0int,
{
    exists|i: int| 0 <= i < pairs.len() && mutates((#[trigger] pairs[i]).1)
}

/// Does the expression address a comment (a `#` step, or the `comments`
/// stream)?
pub open spec fn addresses_comment(e: Ex) -> bool
    decreases e, 1int,
{
    match e {
        Ex::Path(steps) => exists|i: int| 0 <= i < steps.len() && (#[trigger] steps[i]) is Comment,
        Ex::Pipe(a, b) => addresses_comment(*a) || addresses_comment(*b),
        Ex::Alternative(a, b) => addresses_comment(*a) || addresses_comment(*b),
        Ex::Binary(_, a, b) => addresses_comment(*a) || addresses_comment(*b),
        Ex::Assign(a, b) => addresses_comment(*a) || addresses_comment(*b),
        Ex::UpdateAssign(a, b) => addresses_comment(*a) || addresses_comment(*b),
        Ex::AddAssign(a, b) => addresses_comment(*a) || addresses_comment(*b),
        Ex::Comma(items) => some_comment(items),
        Ex::Neg(a) => addresses_comment(*a),
        Ex::Call(name, args) => name == "comments"@ || some_comment(args),
        Ex::Collect(inner) => match inner {
            Some(a) => addresses_comment(*a),
            None => false,
        },
        Ex::ObjectConstruct(pairs) => some_pair_comment(pairs),
        Ex::DocSelect(_, a) => addresses_comment(*a),
        Ex::Literal(_) => false,
    }
}

pub open spec fn some_comment(items: Seq<Ex>) -> bool
    decreases items, 0int,
{
    exists|i: int| 0 <= i < items.len() && addresses_comment(#[trigger] items[i])
}

pub open spec fn some_pair_comment(pairs: Seq<(Seq<char>, Ex)>) -> bool
    decreases pairs, 0int,
{
    exists|i: int| 0 <= i < pairs.len() && addresses_comment((#[trigger] pairs[i]).1)
}

fn any_mutates(items: &Vec<Expr>) -> (r: bool)
    ensures
        r == some_mutate(exs(items@)),
    decreases items,
{
    let mut i: usize = 0;
    while i < items.len()
        invariant
            i <= items.len(),
            forall|j: int| 0 <= j < i ==> !mutates(#[trigger] exs(items@)[j]),
        decreases items.len() - i,
    {
        assert(exs(items@)[i as int] == items@[i as int]@);
        if items[i].is_mutation() {
            return true;
        }
        i = i + 1;
    }
    false
}

fn any_pair_mutates(pairs: &Vec<(String, Expr)>) -> (r: bool)
    ensures
        r == some_pair_mutate(ex_pairs(pairs@)),
    decreases pairs,
{
    let mut i: usize = 0;
    while i < pairs.len()
        invariant
            i <= pairs.len(),
            forall|j: int| 0 <= j < i ==> !mutates((#[trigger] ex_pairs(pairs@)[j]).1),
        decreases pairs.len() - i,
    {
        assert(ex_pairs(pairs@)[i as int].1 == pairs@[i as int].1@);
        if pairs[i].1.is_mutation() {
            return true;
        }
        i = i + 1;
    }
    false
}

fn any_comment(items: &Vec<Expr>) -> (r: bool)
    ensures
        r == some_comment(exs(items@)),
    decreases items,
{
    let mut i: usize = 0;
    while i < items.len()
        invariant
            i <= items.len(),
            forall|j: int| 0 <= j < i ==> !addresses_comment(#[trigger] exs(items@)[j]),
        decreases items.len() - i,
    {
        assert(exs(items@)[i as int] == items@[i as int]@);
        if items[i].has_comment() {
            return true;
        }
        i = i + 1;
    }
    false
}

fn any_pair_comment(pairs: &Vec<(String, Expr)>) -> (r: bool)
    ensures
        r == some_pair_comment(ex_pairs(pairs@)),
    decreases pairs,
{
    let mut i: usize = 0;
    while i < pairs.len()
        invariant
            i <= pairs.len(),
            forall|j: int| 0 <= j < i ==> !addresses_comment((#[trigger] ex_pairs(pairs@)[j]).1),
        decreases pairs.len() - i,
    {
        assert(ex_pairs(pairs@)[i as int].1 == pairs@[i as int].1@);
        if pairs[i].1.has_comment() {
            return true;
        }
        i = i + 1;
    }
    false
}

fn any_comment_step(steps: &Vec<Step>) -> (r: bool)
    ensures
        r == exists|i: int|
            0 <= i < steps_of(steps@).len() && (#[trigger] steps_of(steps@)[i]) is Comment,
{
    let mut i: usize = 0;
    while i < steps.len()
        invariant
            i <= steps.len(),
            forall|j: int| 0 <= j < i ==> !((#[trigger] steps_of(steps@)[j]) is Comment),
        decreases steps.len() - i,
    {
        assert(steps_of(steps@)[i as int] == steps@[i as int]@);
        if let Step::Comment(_) = &steps[i] {
            return true;
        }
        i = i + 1;
    }
    false
}

impl Expr {
    /// Does this expression mutate the document (contains an assignment or a
    /// `del(...)`)? A front end uses this to pick mutation mode vs query mode.
    pub fn is_mutation(&self) -> (r: bool)
        ensures
            r == mutates(self@),
        decreases self,
    {
        match self {
            Expr::Assign(_, _) => true,
            Expr::UpdateAssign(_, _) => true,
            Expr::AddAssign(_, _) => true,
            Expr::Call(name, args) => same(name, "del") || any_mutates(args),
            Expr::Pipe(a, b) => a.is_mutation() || b.is_mutation(),
            Expr::Alternative(a, b) => a.is_mutation() || b.is_mutation(),
            Expr::Comma(items) => any_mutates(items),
            Expr::Neg(a) => a.is_mutation(),
            Expr::Binary(_, a, b) => a.is_mutation() || b.is_mutation(),
            Expr::Collect(inner) => match inner {
                Some(a) => a.is_mutation(),
                None => false,
            },
            Expr::ObjectConstruct(pairs) => any_pair_mutates(pairs),
            Expr::DocSelect(_, a) => a.is_mutation(),
            Expr::Path(_) => false,
            Expr::Literal(_) => false,
        }
    }

    /// The path steps if this expression is a plain path (the only valid left
    /// side of an assignment), else `None`.
    pub fn as_path(&self) -> (r: Option<&Vec<Step>>)
        ensures
            r is Some <==> self@ is Path,
            r is Some ==> self@ == Ex::Path(steps_of(r->0@)),
    {
        match self {
            Expr::Path(steps) => Some(steps),
            _ => None,
        }
    }

    /// Does this expression address a comment (a `#` step) anywhere? A front
    /// end routes such queries through the comment-aware evaluator.
    pub fn has_comment(&self) -> (r: bool)
        ensures
            r == addresses_comment(self@),
        decreases self,
    {
        match self {
            Expr::Path(steps) => any_comment_step(steps),
            Expr::Pipe(a, b) => a.has_comment() || b.has_comment(),
            Expr::Alternative(a, b) => a.has_comment() || b.has_comment(),
            Expr::Binary(_, a, b) => a.has_comment() || b.has_comment(),
            Expr::Assign(a, b) => a.has_comment() || b.has_comment(),
            Expr::UpdateAssign(a, b) => a.has_comment() || b.has_comment(),
            Expr::AddAssign(a, b) => a.has_comment() || b.has_comment(),
            Expr::Comma(items) => any_comment(items),
            Expr::Neg(a) => a.has_comment(),
            Expr::Call(name, args) => same(name, "comments") || any_comment(args),
            Expr::Collect(inner) => match inner {
                Some(a) => a.has_comment(),
                None => false,
            },
            Expr::ObjectConstruct(pairs) => any_pair_comment(pairs),
            Expr::DocSelect(_, a) => a.has_comment(),
            Expr::Literal(_) => false,
        }
    }
}

/// An ASCII letter or `_`.
pub open spec fn ident_start(c: char) -> bool {
    ('a' <= c && c <= 'z') || ('A' <= c && c <= 'Z') || c == '_'
}

/// An ASCII letter, digit or `_`.
pub open spec fn ident_part(c: char) -> bool {
    ident_start(c) || ('0' <= c && c <= '9')
}

/// Whether `k` is a bare identifier that needs no quoting in a path.
pub open spec fn bare_ident(k: Seq<char>) -> bool {
    k.len() > 0 && ident_start(k[0]) && forall|i: int| 0 <= i < k.len() ==> ident_part(#[trigger] k[i])
}

/// A step as path source text.
pub open spec fn step_text(s: St) -> Seq<char> {
    match s {
        St::Field(k) => if bare_ident(k) {
            seq!['.'] + k
        } else {
            ".["@ + quoted_text(k) + "]"@
        },
        St::Index(i) => "["@ + int_digits(i as int) + "]"@,
        St::Iterate => "[]"@,
        St::Comment(k) => if k == CommentKind::Head {
            ".#"@
        } else {
            ".#."@ + kind_text(k)
        },
    }
}

/// The steps' texts, one after another.
pub open spec fn steps_text(s: Seq<St>) -> Seq<char>
    decreases s.len(),
{
    if s.len() == 0 {
        Seq::empty()
    } else {
        steps_text(s.drop_last()) + step_text(s.last())
    }
}

/// A path as source text; the empty path is `.`.
pub open spec fn path_text(s: Seq<St>) -> Seq<char> {
    if s.len() == 0 {
        "."@
    } else {
        steps_text(s)
    }
}

/// Whether `k` is a bare identifier that needs no quoting in a path (`.foo`).
pub fn is_bare_ident(k: &str) -> (r: bool)
    ensures
        r == bare_ident(k@),
{
    let cs = chars_of(k);
    if cs.len() == 0 || !is_ident_start(cs[0]) {
        return false;
    }
    let mut i: usize = 0;
    while i < cs.len()
        invariant
            i <= cs.len(),
            cs@ == k@,
            forall|j: int| 0 <= j < i ==> ident_part(#[trigger] cs@[j]),
        decreases cs.len() - i,
    {
        if !is_ident_part(cs[i]) {
            return false;
        }
        i = i + 1;
    }
    true
}

/// An ASCII letter or `_`.
pub fn is_ident_start(c: char) -> (r: bool)
    ensures
        r == ident_start(c),
{
    ('a' <= c && c <= 'z') || ('A' <= c && c <= 'Z') || c == '_'
}

/// An ASCII letter, digit or `_`.
pub fn is_ident_part(c: char) -> (r: bool)
    ensures
        r == ident_part(c),
{
    is_ident_start(c) || ('0' <= c && c <= '9')
}

/// Render a path of steps back to jq-ish source text (`.a.b[0]`, `.["a.b"]`)
/// for error messages. An empty path is `.` (identity).
pub fn render_path(steps: &[Step]) -> (r: String)
    ensures
        r@ == path_text(steps_of(steps@)),
{
    if steps.len() == 0 {
        return ".".to_owned();
    }
    let mut out = String::new();
    let ghost all = steps_of(steps@);
    let mut i: usize = 0;
    while i < steps.len()
        invariant
            i <= steps.len(),
            all == steps_of(steps@),
            out@ == steps_text(all.take(i as int)),
        decreases steps.len() - i,
    {
        let ghost before = out@;
        match &steps[i] {
            Step::Field(k) => {
                if is_bare_ident(k) {
                    out.push('.');
                    out.append(k);
                } else {
                    // Non-identifier keys use the bracket-string form so the
                    // rendered path is itself a valid expression.
                    out.append(".[");
                    out.append(&debug_quoted(k));
                    out.append("]");
                }
            },
            Step::Index(n) => {
                out.append("[");
                out.append(&int_text(*n));
                out.append("]");
            },
            Step::Iterate => out.append("[]"),
            Step::Comment(kind) => {
                if let CommentKind::Head = kind {
                    out.append(".#");
                } else {
                    out.append(".#.");
                    out.append(kind.as_str());
                }
            },
        }
        assert(out@ =~= before + step_text(all[i as int]));
        assert(all.take(i + 1).drop_last() =~= all.take(i as int));
        i = i + 1;
    }
    assert(all.take(i as int) =~= all);
    out
}

fn clone_exprs(items: &Vec<Expr>) -> (r: Vec<Expr>)
    ensures
        exs(r@) == exs(items@),
    decreases items,
{
    let mut out: Vec<Expr> = Vec::new();
    assert(exs(out@) =~= exs(items@).take(0));
    let mut i: usize = 0;
    while i < items.len()
        invariant
            i <= items.len(),
            exs(out@) == exs(items@).take(i as int),
        decreases items.len() - i,
    {
        out.push(items[i].clone());
        assert(exs(items@).take(i + 1) =~= exs(items@).take(i as int).push(items@[i as int]@));
        i = i + 1;
    }
    assert(exs(items@).take(i as int) =~= exs(items@));
    out
}

fn clone_pairs(pairs: &Vec<(String, Expr)>) -> (r: Vec<(String, Expr)>)
    ensures
        ex_pairs(r@) == ex_pairs(pairs@),
    decreases pairs,
{
    let mut out: Vec<(String, Expr)> = Vec::new();
    assert(ex_pairs(out@) =~= ex_pairs(pairs@).take(0));
    let mut i: usize = 0;
    while i < pairs.len()
        invariant
            i <= pairs.len(),
            ex_pairs(out@) == ex_pairs(pairs@).take(i as int),
        decreases pairs.len() - i,
    {
        out.push((pairs[i].0.clone(), pairs[i].1.clone()));
        assert(ex_pairs(pairs@).take(i + 1) =~= ex_pairs(pairs@).take(i as int).push(
            ex_pairs(pairs@)[i as int],
        ));
        i = i + 1;
    }
    assert(ex_pairs(pairs@).take(i as int) =~= ex_pairs(pairs@));
    out
}

impl Clone for Expr {
    fn clone(&self) -> (r: Expr)
        ensures
            r@ == self@,
        decreases self,
    {
        match self {
            Expr::Path(p) => Expr::Path(crate::eval::clone_steps(p)),
            Expr::Literal(v) => Expr::Literal(v.clone()),
            Expr::Neg(a) => Expr::Neg(Box::new((**a).clone())),
            Expr::Binary(op, a, b) => Expr::Binary(
                *op,
                Box::new((**a).clone()),
                Box::new((**b).clone()),
            ),
            Expr::Pipe(a, b) => Expr::Pipe(Box::new((**a).clone()), Box::new((**b).clone())),
            Expr::Alternative(a, b) => Expr::Alternative(
                Box::new((**a).clone()),
                Box::new((**b).clone()),
            ),
            Expr::Comma(items) => Expr::Comma(clone_exprs(items)),
            Expr::Call(name, args) => Expr::Call(name.clone(), clone_exprs(args)),
            Expr::Collect(inner) => match inner {
                Some(a) => Expr::Collect(Some(Box::new((**a).clone()))),
                None => Expr::Collect(None),
            },
            Expr::ObjectConstruct(pairs) => Expr::ObjectConstruct(clone_pairs(pairs)),
            Expr::Assign(a, b) => Expr::Assign(Box::new((**a).clone()), Box::new((**b).clone())),
            Expr::UpdateAssign(a, b) => Expr::UpdateAssign(
                Box::new((**a).clone()),
                Box::new((**b).clone()),
            ),
            Expr::AddAssign(a, b) => Expr::AddAssign(
                Box::new((**a).clone()),
                Box::new((**b).clone()),
            ),
            Expr::DocSelect(n, a) => Expr::DocSelect(*n, Box::new((**a).clone())),
        }
    }
}

} // verus!
