//! The mutation driver every format shares.
//!
//! A format provides the primitive, format-preserving edits ([`Mutable`]: read
//! the value at a path, set it, delete it); [`apply_mutation`] turns a mutation
//! expression (`=`, `|=`, `+=`, `del`, `|`-chains of them, and path-expression
//! targets through [`crate::paths::lower_mutation`]) into calls on those
//! primitives. The format decides what a path means; the driver decides what
//! the expression means, once, for all of them.
use crate::arith::{add, add_val};
use crate::error::{fail, EditError, Er};
use crate::eval::{eval, expand_iter_paths, first_value};
use crate::float::{Facts, FloatFacts};
use crate::model::{
    exs, group_expr_views, group_value_views, paths_view, steps_of, vals, Ex, Expr, St, Step, Val, Value,
};
use crate::paths::{lower_mutation, lowered};
use crate::semantics::{ex_eval, expanded, one_value};
use crate::strs::same;
use vstd::prelude::*;
use vstd::string::*;

verus! {

broadcast use {group_value_views, group_expr_views};

/// Which mutation a target path belongs to, for [`Mutable::check_path`].
#[derive(Debug, Clone, Copy, PartialEq, Eq, Structural)]
pub enum MutationKind {
    /// `path = value`
    Assign,
    /// `path |= f`
    Update,
    /// `path += value`
    Add,
    /// `del(path)`
    Delete,
}

/// What an edit leads to: the document afterwards, and whether it was refused.
pub type Outcome<D> = (D, Result<(), Er>);

/// The view of an edit's result.
pub open spec fn done(r: Result<(), EditError>) -> Result<(), Er> {
    match r {
        Ok(_) => Ok(()),
        Err(e) => Err(e@),
    }
}

/// The view of an optional value.
pub open spec fn opt_value(v: Option<Value>) -> Option<Val> {
    match v {
        Some(x) => Some(x@),
        None => None,
    }
}

/// An edit that either yields a new document or is refused and changes nothing.
pub open spec fn attempt<D>(d: D, r: Result<D, Er>) -> Outcome<D> {
    match r {
        Ok(next) => (next, Ok(())),
        Err(e) => (d, Err(e)),
    }
}

/// The items `+=` appends: those of an array added to an array.
pub open spec fn appended_items(current: Val, addend: Val) -> Option<Seq<Val>> {
    match (current, addend) {
        (Val::Array(_), Val::Array(items)) => Some(items),
        _ => None,
    }
}

/// What adding leads to: appending in place where that is done, else writing
/// the sum.
pub open spec fn add_outcome<D>(d: D, in_place: Option<Result<D, Er>>, written: Result<D, Er>) -> Outcome<D> {
    match in_place {
        Some(r) => attempt(d, r),
        None => attempt(d, written),
    }
}

/// The primitive edits a format provides to [`apply_mutation`].
///
/// Paths handed to `value_at`, `set`, `add` and `delete` are plain paths. Where
/// `[]` fans out they are also iterate-free for everything but `=`'s create
/// check and `delete` (a format's own `del(.a[])` semantics).
pub trait Mutable: Sized {
    /// The mathematical content of the document.
    type Doc;

    /// The content of this document.
    spec fn doc(&self) -> Self::Doc;

    /// Whether `[]` in an assignment target fans out into one edit per element.
    spec fn fanning() -> bool;

    /// The value of a document.
    spec fn whole_of(d: Self::Doc) -> Val;

    /// The value at a path.
    spec fn value_in(d: Self::Doc, path: Seq<St>) -> Option<Val>;

    /// The document with a path set.
    spec fn set_in(d: Self::Doc, path: Seq<St>, value: Val) -> Result<Self::Doc, Er>;

    /// What deleting a path leads to.
    spec fn delete_in(d: Self::Doc, path: Seq<St>) -> Outcome<Self::Doc>;

    /// The document with items appended in place, for a format that can.
    spec fn append_in(d: Self::Doc, path: Seq<St>, items: Seq<Val>) -> Option<
        Result<Self::Doc, Er>,
    >;

    /// What `|=` and `+=` do at a path that doesn't resolve.
    spec fn miss_in(d: Self::Doc, path: Seq<St>) -> Result<(), Er>;

    /// Whether the format can edit a path at all.
    spec fn check_in(d: Self::Doc, path: Seq<St>, kind: MutationKind) -> Result<(), Er>;

    /// Whether `[]` in an assignment target fans out into one edit per element
    /// (`.a[] |= f`). A format without it sees the iterate path in
    /// `set`/`value_at` and answers for it itself.
    fn fans_out() -> (r: bool)
        ensures
            r == Self::fanning(),
    ;

    /// The document value an assignment's right side, and a path-expression
    /// target, is evaluated against.
    fn whole(&self) -> (r: Value)
        ensures
            r@ == Self::whole_of(self.doc()),
    ;

    /// The value at `path`, or `None` when it doesn't resolve.
    fn value_at(&self, path: &Vec<Step>) -> (r: Option<Value>)
        ensures
            opt_value(r) == Self::value_in(self.doc(), steps_of(path@)),
    ;

    /// Set the value at `path`, format-preserving (creating it where the format
    /// can). A refused edit changes nothing.
    fn set(&mut self, path: &Vec<Step>, value: &Value) -> (r: Result<(), EditError>)
        ensures
            (final(self).doc(), done(r)) == attempt(
                old(self).doc(),
                Self::set_in(old(self).doc(), steps_of(path@), value@),
            ),
    ;

    /// Delete the value at `path`.
    fn delete(&mut self, path: &Vec<Step>) -> (r: Result<(), EditError>)
        ensures
            (final(self).doc(), done(r)) == Self::delete_in(old(self).doc(), steps_of(path@)),
    ;

    /// Append `items` to the array at `path` in place, format-preserving. `None`
    /// means the format has no in-place append, and `+=` writes the concatenated
    /// array through `set` instead.
    fn append(&mut self, path: &Vec<Step>, items: &Vec<Value>) -> (r: Option<Result<(), EditError>>)
        ensures
            match Self::append_in(old(self).doc(), steps_of(path@), vals(items@)) {
                None => r is None && final(self).doc() == old(self).doc(),
                Some(a) => r is Some && (final(self).doc(), done(r->0)) == attempt(
                    old(self).doc(),
                    a,
                ),
            },
    ;

    /// `path += addend`, where `current` is the value there: array onto array
    /// goes through [`Mutable::append`] when the format has one; anything else
    /// writes `current + addend`.
    fn add(&mut self, path: &Vec<Step>, current: &Value, addend: &Value, facts: &FloatFacts) -> (r: Result<
        (),
        EditError,
    >)
        ensures
            (final(self).doc(), done(r)) == add_outcome(
                old(self).doc(),
                match appended_items(current@, addend@) {
                    Some(items) => Self::append_in(old(self).doc(), steps_of(path@), items),
                    None => None,
                },
                match add_val(current@, addend@, facts@) {
                    Err(e) => Err(e),
                    Ok(sum) => Self::set_in(old(self).doc(), steps_of(path@), sum),
                },
            ),
    {
        if let (Value::Array(_), Value::Array(items)) = (current, addend) {
            if let Some(r) = self.append(path, items) {
                return r;
            }
        }
        match add_values(current, addend, facts) {
            Err(e) => Err(e),
            Ok(sum) => self.set(path, &sum),
        }
    }

    /// What `|=`/`+=` does when `path` doesn't resolve: an error, or for a
    /// document mapped over leniently a no-op.
    fn miss(&self, path: &Vec<Step>) -> (r: Result<(), EditError>)
        ensures
            done(r) == Self::miss_in(self.doc(), steps_of(path@)),
    ;

    /// Reject a target path this format can't edit before anything happens.
    fn check_path(&self, path: &Vec<Step>, kind: MutationKind) -> (r: Result<(), EditError>)
        ensures
            done(r) == Self::check_in(self.doc(), steps_of(path@), kind),
    ;
}

/// What `path += addend` leads to where `current` stands.
pub open spec fn added<M: Mutable>(d: M::Doc, path: Seq<St>, current: Val, addend: Val, fx: Facts) -> Outcome<
    M::Doc,
> {
    add_outcome(
        d,
        match appended_items(current, addend) {
            Some(items) => M::append_in(d, path, items),
            None => None,
        },
        match add_val(current, addend, fx) {
            Err(e) => Err(e),
            Ok(sum) => M::set_in(d, path, sum),
        },
    )
}

/// `current + addend` with the evaluator's `+` (numbers add, strings and arrays
/// concatenate, objects merge, `null` is the identity).
pub fn add_values(current: &Value, addend: &Value, facts: &FloatFacts) -> (r: Result<
    Value,
    EditError,
>)
    ensures
        match r {
            Ok(v) => add_val(current@, addend@, facts@) == Ok::<Val, Er>(v@),
            Err(e) => add_val(current@, addend@, facts@) == Err::<Val, Er>(e@),
        },
{
    match crate::arith::add(current, addend, facts) {
        Ok(v) => Ok(v),
        Err(e) => Err(EditError::from_eval(e)),
    }
}

/// Is `[]` among the steps?
pub open spec fn iterates(path: Seq<St>) -> bool {
    exists|i: int| 0 <= i < path.len() && (#[trigger] path[i]) is Iterate
}

/// Is `[]` among the steps?
pub fn has_iterate(path: &Vec<Step>) -> (r: bool)
    ensures
        r == iterates(steps_of(path@)),
{
    let mut i: usize = 0;
    while i < path.len()
        invariant
            i <= path.len(),
            forall|j: int| 0 <= j < i ==> !((#[trigger] steps_of(path@)[j]) is Iterate),
        decreases path.len() - i,
    {
        assert(steps_of(path@)[i as int] == path@[i as int]@);
        if let Step::Iterate = &path[i] {
            return true;
        }
        i = i + 1;
    }
    false
}

/// How a fan-out changes each element.
pub enum Change {
    /// Every element gets the same value.
    To(Val),
    /// An expression maps over each element.
    Through(Ex),
    /// A value is added to each element.
    Plus(Val),
}

/// The value an element changes to.
pub open spec fn changed(c: Change, current: Val, fx: Facts) -> Result<Val, Er> {
    match c {
        Change::To(v) => Ok(v),
        Change::Through(e) => one_value(ex_eval(e, current, fx)),
        Change::Plus(v) => add_val(current, v, fx),
    }
}

/// What changing the first `n` of `paths` in turn leads to.
pub open spec fn changed_each<M: Mutable>(d: M::Doc, paths: Seq<Seq<St>>, c: Change, fx: Facts, n: nat) -> (
    M::Doc,
    Option<Result<(), Er>>,
)
    decreases n,
{
    if n == 0 {
        (d, None)
    } else {
        let (now, stopped) = changed_each::<M>(d, paths, c, fx, (n - 1) as nat);
        if stopped is Some {
            (now, stopped)
        } else {
            let p = paths[n - 1];
            match M::value_in(now, p) {
                None => (now, Some(M::miss_in(now, p))),
                Some(current) => match changed(c, current, fx) {
                    Err(e) => (now, Some(Err(e))),
                    Ok(v) => match M::set_in(now, p, v) {
                        Err(e) => (now, Some(Err(e))),
                        Ok(next) => (next, None),
                    },
                },
            }
        }
    }
}

/// What a fan-out leads to: each element selected by `steps` changed through
/// the format's ordinary index-keyed `set`. Where nothing is selected, `=` is
/// refused (elements cannot be created through `[]`) and the update forms are a
/// no-op.
pub open spec fn fanned<M: Mutable>(d: M::Doc, steps: Seq<St>, whole: Val, create: bool, c: Change, fx: Facts) -> Outcome<
    M::Doc,
> {
    match expanded(steps, whole) {
        Err(e) => (d, Err(e)),
        Ok(paths) => if paths.len() == 0 && create {
            (d, Err(fail("cannot create through `[]`"@)))
        } else {
            let (now, stopped) = changed_each::<M>(d, paths, c, fx, paths.len());
            (
                now,
                match stopped {
                    Some(r) => r,
                    None => Ok(()),
                },
            )
        },
    }
}

/// What a mutation at a plain path leads to.
pub open spec fn plain_mutated<M: Mutable>(d: M::Doc, e: Ex, fx: Facts) -> Outcome<M::Doc> {
    match e {
        Ex::Assign(l, r) => match *l {
            Ex::Path(steps) => match M::check_in(d, steps, MutationKind::Assign) {
                Err(x) => (d, Err(x)),
                Ok(_) => match one_value(ex_eval(*r, M::whole_of(d), fx)) {
                    Err(x) => (d, Err(x)),
                    Ok(v) => if M::fanning() && iterates(steps) {
                        fanned::<M>(d, steps, M::whole_of(d), true, Change::To(v), fx)
                    } else {
                        attempt(d, M::set_in(d, steps, v))
                    },
                },
            },
            _ => (d, Err(fail("left side of an assignment must be a path"@))),
        },
        Ex::UpdateAssign(l, r) => match *l {
            Ex::Path(steps) => match M::check_in(d, steps, MutationKind::Update) {
                Err(x) => (d, Err(x)),
                Ok(_) => if M::fanning() && iterates(steps) {
                    fanned::<M>(d, steps, M::whole_of(d), false, Change::Through(*r), fx)
                } else {
                    match M::value_in(d, steps) {
                        None => (d, M::miss_in(d, steps)),
                        Some(current) => match one_value(ex_eval(*r, current, fx)) {
                            Err(x) => (d, Err(x)),
                            Ok(v) => attempt(d, M::set_in(d, steps, v)),
                        },
                    }
                },
            },
            _ => (d, Err(fail("left side of an assignment must be a path"@))),
        },
        Ex::AddAssign(l, r) => match *l {
            Ex::Path(steps) => match M::check_in(d, steps, MutationKind::Add) {
                Err(x) => (d, Err(x)),
                Ok(_) => match one_value(ex_eval(*r, M::whole_of(d), fx)) {
                    Err(x) => (d, Err(x)),
                    Ok(addend) => if M::fanning() && iterates(steps) {
                        fanned::<M>(d, steps, M::whole_of(d), false, Change::Plus(addend), fx)
                    } else {
                        match M::value_in(d, steps) {
                            None => (d, M::miss_in(d, steps)),
                            Some(current) => added::<M>(d, steps, current, addend, fx),
                        }
                    },
                },
            },
            _ => (d, Err(fail("left side of an assignment must be a path"@))),
        },
        Ex::Call(name, args) => if name == "del"@ {
            if args.len() != 1 {
                (d, Err(fail("del(...) takes one path argument"@)))
            } else {
                match args[0] {
                    Ex::Path(steps) => match M::check_in(d, steps, MutationKind::Delete) {
                        Err(x) => (d, Err(x)),
                        Ok(_) => M::delete_in(d, steps),
                    },
                    _ => (d, Err(fail("del(...) takes a path"@))),
                }
            }
        } else {
            (d, Err(not_a_mutation()))
        },
        _ => (d, Err(not_a_mutation())),
    }
}

pub open spec fn not_a_mutation() -> Er {
    fail("expected an assignment (`path = value`) or `del(path)`"@)
}

/// What plain-path mutations applied in turn lead to.
pub open spec fn mutated_in_turn<M: Mutable>(d: M::Doc, ms: Seq<Ex>, fx: Facts) -> Outcome<M::Doc>
    decreases ms.len(),
{
    if ms.len() == 0 {
        (d, Ok(()))
    } else {
        let (now, r) = mutated_in_turn::<M>(d, ms.drop_last(), fx);
        match r {
            Err(e) => (now, Err(e)),
            Ok(_) => plain_mutated::<M>(now, ms.last(), fx),
        }
    }
}

/// What a mutation expression leads to. A path-expression target is lowered to
/// one plain-path edit per match first, and `a | b` applies `a` then `b`.
pub open spec fn mutated<M: Mutable>(d: M::Doc, e: Ex, fx: Facts) -> Outcome<M::Doc>
    decreases e,
{
    match lowered(e, M::whole_of(d), fx) {
        Err(x) => (d, Err(x)),
        Ok(Some(ms)) => mutated_in_turn::<M>(d, ms, fx),
        Ok(None) => match e {
            Ex::Pipe(a, b) => {
                let (mid, r) = mutated::<M>(d, *a, fx);
                match r {
                    Err(x) => (mid, Err(x)),
                    Ok(_) => mutated::<M>(mid, *b, fx),
                }
            },
            _ => plain_mutated::<M>(d, e, fx),
        },
    }
}

/// The view of an evaluation that must yield a value.
pub open spec fn edit_value(r: Result<Value, EditError>) -> Result<Val, Er> {
    match r {
        Ok(v) => Ok(v@),
        Err(e) => Err(e@),
    }
}

/// The first result of `expr` over `input`: an assignment's right side.
pub fn eval_one(expr: &Expr, input: &Value, facts: &FloatFacts) -> (r: Result<Value, EditError>)
    ensures
        edit_value(r) == one_value(ex_eval(expr@, input@, facts@)),
{
    match eval(expr, input, facts) {
        Err(e) => Err(EditError::from_eval(e)),
        Ok(s) => match first_value(s) {
            Ok(v) => Ok(v),
            Err(e) => Err(EditError::from_eval(e)),
        },
    }
}

/// How a fan-out changes each element, borrowed from the expression.
enum Fan<'e> {
    To(Value),
    Through(&'e Expr),
    Plus(Value),
}

spec fn fan_view(f: Fan<'_>) -> Change {
    match f {
        Fan::To(v) => Change::To(v@),
        Fan::Through(e) => Change::Through(e@),
        Fan::Plus(v) => Change::Plus(v@),
    }
}

fn change(f: &Fan<'_>, current: &Value, facts: &FloatFacts) -> (r: Result<Value, EditError>)
    ensures
        edit_value(r) == changed(fan_view(*f), current@, facts@),
{
    match f {
        Fan::To(v) => Ok(v.clone()),
        Fan::Through(e) => eval_one(e, current, facts),
        Fan::Plus(v) => add_values(current, v, facts),
    }
}

proof fn fan_stops<M: Mutable>(d: M::Doc, paths: Seq<Seq<St>>, c: Change, fx: Facts, i: nat, n: nat)
    requires
        i <= n,
        changed_each::<M>(d, paths, c, fx, i).1 is Some,
    ensures
        changed_each::<M>(d, paths, c, fx, n) == changed_each::<M>(d, paths, c, fx, i),
    decreases n - i,
{
    if i < n {
        fan_stops::<M>(d, paths, c, fx, i, (n - 1) as nat);
    }
}

/// Change each element selected by `steps`, setting each through the format's
/// ordinary index-keyed `set`, so every replacement is as surgical as a
/// hand-typed `.a[i] = ..`. `create` is true for plain assignment (`=`), where
/// an expansion resolving to nothing means "you asked to create elements
/// through `[]`" and errors; the update forms (`|=`, `+=`) treat an empty
/// expansion as a miss (a no-op), jq-shaped.
fn set_each<M: Mutable>(
    doc: &mut M,
    steps: &Vec<Step>,
    whole: &Value,
    create: bool,
    f: &Fan<'_>,
    facts: &FloatFacts,
) -> (r: Result<(), EditError>)
    ensures
        (final(doc).doc(), done(r)) == fanned::<M>(
            old(doc).doc(),
            steps_of(steps@),
            whole@,
            create,
            fan_view(*f),
            facts@,
        ),
{
    let ghost d0 = doc.doc();
    let ghost c = fan_view(*f);
    let paths = match expand_iter_paths(steps, whole) {
        Err(e) => {
            return Err(EditError::from_eval(e));
        },
        Ok(paths) => paths,
    };
    let ghost ps = paths_view(paths@);
    if paths.len() == 0 && create {
        return Err(EditError::new("cannot create through `[]`"));
    }
    let mut i: usize = 0;
    while i < paths.len()
        invariant
            i <= paths.len(),
            ps == paths_view(paths@),
            c == fan_view(*f),
            d0 == old(doc).doc(),
            expanded(steps_of(steps@), whole@) == Ok::<Seq<Seq<St>>, Er>(ps),
            !(ps.len() == 0 && create),
            changed_each::<M>(d0, ps, c, facts@, i as nat) == (doc.doc(), None::<Result<(), Er>>),
        decreases paths.len() - i,
    {
        assert(ps[i as int] == steps_of(paths@[i as int]@));
        let current = match doc.value_at(&paths[i]) {
            None => {
                proof {
                    fan_stops::<M>(d0, ps, c, facts@, (i + 1) as nat, ps.len());
                }
                return doc.miss(&paths[i]);
            },
            Some(v) => v,
        };
        let value = match change(f, &current, facts) {
            Err(e) => {
                proof {
                    fan_stops::<M>(d0, ps, c, facts@, (i + 1) as nat, ps.len());
                }
                return Err(e);
            },
            Ok(v) => v,
        };
        match doc.set(&paths[i], &value) {
            Err(e) => {
                proof {
                    fan_stops::<M>(d0, ps, c, facts@, (i + 1) as nat, ps.len());
                }
                return Err(e);
            },
            Ok(_) => {},
        }
        i = i + 1;
    }
    Ok(())
}

fn apply_plain<M: Mutable>(doc: &mut M, expr: &Expr, facts: &FloatFacts) -> (r: Result<(), EditError>)
    ensures
        (final(doc).doc(), done(r)) == plain_mutated::<M>(old(doc).doc(), expr@, facts@),
{
    match expr {
        Expr::Assign(lhs, rhs) => {
            let steps = match lhs.as_path() {
                None => {
                    return Err(EditError::new("left side of an assignment must be a path"));
                },
                Some(steps) => steps,
            };
            doc.check_path(steps, MutationKind::Assign)?;
            let whole = doc.whole();
            let value = eval_one(rhs, &whole, facts)?;
            if M::fans_out() && has_iterate(steps) {
                // `.a[] = x`: every element gets the same value.
                return set_each(doc, steps, &whole, true, &Fan::To(value), facts);
            }
            doc.set(steps, &value)
        },
        Expr::UpdateAssign(lhs, rhs) => {
            let steps = match lhs.as_path() {
                None => {
                    return Err(EditError::new("left side of an assignment must be a path"));
                },
                Some(steps) => steps,
            };
            doc.check_path(steps, MutationKind::Update)?;
            if M::fans_out() && has_iterate(steps) {
                // `.a[] |= f`: map `f` over each element.
                let whole = doc.whole();
                return set_each(doc, steps, &whole, false, &Fan::Through(rhs), facts);
            }
            let current = match doc.value_at(steps) {
                None => {
                    return doc.miss(steps);
                },
                Some(v) => v,
            };
            let value = eval_one(rhs, &current, facts)?;
            doc.set(steps, &value)
        },
        Expr::AddAssign(lhs, rhs) => {
            let steps = match lhs.as_path() {
                None => {
                    return Err(EditError::new("left side of an assignment must be a path"));
                },
                Some(steps) => steps,
            };
            doc.check_path(steps, MutationKind::Add)?;
            let whole = doc.whole();
            let addend = eval_one(rhs, &whole, facts)?;
            if M::fans_out() && has_iterate(steps) {
                // `.a[] += x`: jq's `.a[] |= . + x`, per element.
                return set_each(doc, steps, &whole, false, &Fan::Plus(addend), facts);
            }
            let current = match doc.value_at(steps) {
                None => {
                    return doc.miss(steps);
                },
                Some(v) => v,
            };
            doc.add(steps, &current, &addend, facts)
        },
        Expr::Call(name, args) => {
            if !same(name, "del") {
                return Err(
                    EditError::new("expected an assignment (`path = value`) or `del(path)`"),
                );
            }
            if args.len() != 1 {
                return Err(EditError::new("del(...) takes one path argument"));
            }
            let steps = match args[0].as_path() {
                None => {
                    return Err(EditError::new("del(...) takes a path"));
                },
                Some(steps) => steps,
            };
            doc.check_path(steps, MutationKind::Delete)?;
            doc.delete(steps)
        },
        _ => Err(EditError::new("expected an assignment (`path = value`) or `del(path)`")),
    }
}

/// Apply a mutation expression to `doc` through its [`Mutable`] primitives.
///
/// `=` and `+=` evaluate their right side against the whole document; `|=`
/// against the value it replaces. A path-expression target is lowered to one
/// plain-path edit per match first, and `a | b` applies `a` then `b`.
pub fn apply_mutation<M: Mutable>(doc: &mut M, expr: &Expr, facts: &FloatFacts) -> (r: Result<
    (),
    EditError,
>)
    ensures
        (final(doc).doc(), done(r)) == mutated::<M>(old(doc).doc(), expr@, facts@),
    decreases expr,
{
    let ghost d0 = doc.doc();
    let whole = doc.whole();
    let lowering = match lower_mutation(expr, &whole, facts) {
        Err(e) => {
            return Err(EditError::from_eval(e));
        },
        Ok(l) => l,
    };
    if let Some(each) = lowering {
        let ghost ms = exs(each@);
        let mut i: usize = 0;
        while i < each.len()
            invariant
                i <= each.len(),
                ms == exs(each@),
                d0 == old(doc).doc(),
                mutated_in_turn::<M>(d0, ms.take(i as int), facts@) == (doc.doc(), Ok::<(), Er>(())),
                mutated::<M>(d0, expr@, facts@) == mutated_in_turn::<M>(d0, ms, facts@),
            decreases each.len() - i,
        {
            assert(ms.take(i + 1).drop_last() =~= ms.take(i as int));
            assert(ms.take(i + 1).last() == each@[i as int]@);
            match apply_plain(doc, &each[i], facts) {
                Err(e) => {
                    proof {
                        turn_stops::<M>(d0, ms, facts@, i + 1);
                    }
                    return Err(e);
                },
                Ok(_) => {},
            }
            i = i + 1;
        }
        assert(ms.take(i as int) =~= ms);
        return Ok(());
    }
    match expr {
        Expr::Pipe(a, b) => {
            apply_mutation(doc, a, facts)?;
            apply_mutation(doc, b, facts)
        },
        _ => apply_plain(doc, expr, facts),
    }
}

proof fn turn_stops<M: Mutable>(d: M::Doc, ms: Seq<Ex>, fx: Facts, i: int)
    requires
        0 <= i <= ms.len(),
        mutated_in_turn::<M>(d, ms.take(i), fx).1 is Err,
    ensures
        mutated_in_turn::<M>(d, ms, fx) == mutated_in_turn::<M>(d, ms.take(i), fx),
    decreases ms.len() - i,
{
    if i == ms.len() {
        assert(ms.take(i) =~= ms);
    } else {
        assert(ms.take(i + 1).drop_last() =~= ms.take(i));
        turn_stops::<M>(d, ms, fx, i + 1);
    }
}

/// A path-expression target that matches nothing leaves the document as it is,
/// whatever the right side.
pub proof fn no_match_is_a_no_op<M: Mutable>(d: M::Doc, e: Ex, lhs: Ex, fx: Facts)
    requires
        crate::paths::target_of(e) == Some(lhs),
        crate::semantics::ex_paths(lhs, M::whole_of(d), fx) == Ok::<Seq<Seq<St>>, Er>(Seq::empty()),
    ensures
        mutated::<M>(d, e, fx) == (d, Ok::<(), Er>(())),
{
    let none = Seq::<Seq<St>>::empty();
    assert(crate::paths::mutations_at(e, none, Val::Null) =~= Seq::<Ex>::empty());
    assert(crate::semantics::deletion_order(none) =~= none);
}

} // verus!
