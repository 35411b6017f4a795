//! What a mutation hands to a document's own edits, whatever the format.
use crate::arith::bin_val;
use crate::error::Er;
use crate::float::Facts;
use crate::model::{BinOp, Ex, St, Val};
use crate::mutate::{
    attempt, changed_each, iterates, mutated, plain_mutated, Change, Mutable, MutationKind,
};
use crate::semantics::{ex_eval, expanded};
use vstd::prelude::*;
use vstd::string::*;

verus! {

/// `p = e` sets the path to the first value of `e` on the document's value, as it is
/// before the edit, and is refused where there is none.
pub proof fn assigning_sets_the_first_value<M: Mutable>(d: M::Doc, p: Seq<St>, e: Ex, s: Seq<Val>, fx: Facts)
    requires
        !iterates(p) || !M::fanning(),
        M::check_in(d, p, MutationKind::Assign) is Ok,
        ex_eval(e, M::whole_of(d), fx) == Ok::<Seq<Val>, Er>(s),
    ensures
        ({
            let o = mutated::<M>(d, Ex::Assign(Box::new(Ex::Path(p)), Box::new(e)), fx);
            &&& s.len() > 0 ==> o == attempt(d, M::set_in(d, p, s[0]))
            &&& s.len() == 0 ==> o.0 == d && o.1 is Err
        }),
{
    let x = Ex::Assign(Box::new(Ex::Path(p)), Box::new(e));
    assert(mutated::<M>(d, x, fx) == plain_mutated::<M>(d, x, fx));
}

/// `p |= f` sets the path to the first value of `f` on what stands there, and where nothing
/// stands there changes nothing.
pub proof fn updating_sets_what_it_makes<M: Mutable>(d: M::Doc, p: Seq<St>, f: Ex, fx: Facts)
    requires
        !iterates(p) || !M::fanning(),
        M::check_in(d, p, MutationKind::Update) is Ok,
    ensures
        ({
            let o = mutated::<M>(d, Ex::UpdateAssign(Box::new(Ex::Path(p)), Box::new(f)), fx);
            match M::value_in(d, p) {
                None => o == (d, M::miss_in(d, p)),
                Some(x) => match ex_eval(f, x, fx) {
                    Ok(s) => (s.len() > 0 ==> o == attempt(d, M::set_in(d, p, s[0]))) && (s.len() == 0
                        ==> o.0 == d && o.1 is Err),
                    Err(e) => o == (d, Err::<(), Er>(e)),
                },
            }
        }),
{
    let x = Ex::UpdateAssign(Box::new(Ex::Path(p)), Box::new(f));
    assert(mutated::<M>(d, x, fx) == plain_mutated::<M>(d, x, fx));
}

/// `p += e` sets the path to what stands there plus the first value of `e` on the
/// document's value; an array added to an array may be appended in place.
pub proof fn adding_sets_the_sum<M: Mutable>(d: M::Doc, p: Seq<St>, e: Ex, x: Val, s: Seq<Val>, fx: Facts)
    requires
        !iterates(p) || !M::fanning(),
        M::check_in(d, p, MutationKind::Add) is Ok,
        ex_eval(e, M::whole_of(d), fx) == Ok::<Seq<Val>, Er>(s),
        s.len() > 0,
        M::value_in(d, p) == Some(x),
    ensures
        ({
            let o = mutated::<M>(d, Ex::AddAssign(Box::new(Ex::Path(p)), Box::new(e)), fx);
            let sum = bin_val(BinOp::Add, x, s[0], fx);
            if x is Array && s[0] is Array && M::append_in(d, p, s[0]->Array_0) is Some {
                o == attempt(d, M::append_in(d, p, s[0]->Array_0)->0)
            } else {
                match sum {
                    Ok(v) => o == attempt(d, M::set_in(d, p, v)),
                    Err(x) => o == (d, Err::<(), Er>(x)),
                }
            }
        }),
{
    let y = Ex::AddAssign(Box::new(Ex::Path(p)), Box::new(e));
    assert(mutated::<M>(d, y, fx) == plain_mutated::<M>(d, y, fx));
}

/// `del(p)` deletes the path.
pub proof fn deleting_deletes<M: Mutable>(d: M::Doc, p: Seq<St>, fx: Facts)
    requires
        M::check_in(d, p, MutationKind::Delete) is Ok,
    ensures
        mutated::<M>(d, Ex::Call("del"@, seq![Ex::Path(p)]), fx) == M::delete_in(d, p),
{
    let e = Ex::Call("del"@, seq![Ex::Path(p)]);
    assert(seq![Ex::Path(p)][0] == Ex::Path(p));
    assert(mutated::<M>(d, e, fx) == plain_mutated::<M>(d, e, fx));
}

/// A mutation that the format's check refuses changes nothing.
pub proof fn refused_changes_nothing<M: Mutable>(d: M::Doc, p: Seq<St>, e: Ex, fx: Facts)
    ensures
        M::check_in(d, p, MutationKind::Assign) is Err ==> {
            let o = mutated::<M>(d, Ex::Assign(Box::new(Ex::Path(p)), Box::new(e)), fx);
            o.0 == d && o.1 is Err
        },
        M::check_in(d, p, MutationKind::Update) is Err ==> {
            let o = mutated::<M>(d, Ex::UpdateAssign(Box::new(Ex::Path(p)), Box::new(e)), fx);
            o.0 == d && o.1 is Err
        },
        M::check_in(d, p, MutationKind::Add) is Err ==> {
            let o = mutated::<M>(d, Ex::AddAssign(Box::new(Ex::Path(p)), Box::new(e)), fx);
            o.0 == d && o.1 is Err
        },
        M::check_in(d, p, MutationKind::Delete) is Err ==> {
            let o = mutated::<M>(d, Ex::Call("del"@, seq![Ex::Path(p)]), fx);
            o.0 == d && o.1 is Err
        },
{
    let a = Ex::Assign(Box::new(Ex::Path(p)), Box::new(e));
    let u = Ex::UpdateAssign(Box::new(Ex::Path(p)), Box::new(e));
    let s = Ex::AddAssign(Box::new(Ex::Path(p)), Box::new(e));
    let c = Ex::Call("del"@, seq![Ex::Path(p)]);
    assert(seq![Ex::Path(p)][0] == Ex::Path(p));
    assert(mutated::<M>(d, a, fx) == plain_mutated::<M>(d, a, fx));
    assert(mutated::<M>(d, u, fx) == plain_mutated::<M>(d, u, fx));
    assert(mutated::<M>(d, s, fx) == plain_mutated::<M>(d, s, fx));
    assert(mutated::<M>(d, c, fx) == plain_mutated::<M>(d, c, fx));
}

/// Of two mutations one behind the other the second sees what the first left, and is not
/// made where the first is refused.
pub proof fn mutations_run_in_turn<M: Mutable>(d: M::Doc, a: Ex, c: Ex, fx: Facts)
    ensures
        ({
            let both = mutated::<M>(d, Ex::Pipe(Box::new(a), Box::new(c)), fx);
            let first = mutated::<M>(d, a, fx);
            &&& first.1 is Ok ==> both == mutated::<M>(first.0, c, fx)
            &&& first.1 is Err ==> both == first
        }),
{
}

/// A path with `[]` in an assignment stands for its concrete paths, each of which is set
/// in turn: to the value, to what `f` makes of what stands there, or to that plus the
/// value.
pub proof fn fanning_sets_each<M: Mutable>(d: M::Doc, paths: Seq<Seq<St>>, c: Change, fx: Facts, n: nat)
    requires
        n < paths.len(),
        changed_each::<M>(d, paths, c, fx, n).1 is None,
    ensures
        ({
            let now = changed_each::<M>(d, paths, c, fx, n).0;
            let (then, stopped) = changed_each::<M>(d, paths, c, fx, n + 1);
            let p = paths[n as int];
            match M::value_in(now, p) {
                None => then == now && stopped == Some(M::miss_in(now, p)),
                Some(x) => {
                    let want: Result<Val, Er> = match c {
                        Change::To(v) => Ok(v),
                        Change::Plus(v) => bin_val(BinOp::Add, x, v, fx),
                        Change::Through(f) => match ex_eval(f, x, fx) {
                            Ok(s) => if s.len() > 0 {
                                Ok(s[0])
                            } else {
                                Err(
                                    crate::error::fail(
                                        "right side of the assignment produced no value"@,
                                    ),
                                )
                            },
                            Err(e) => Err(e),
                        },
                    };
                    match want {
                        Err(e) => then == now && stopped == Some(Err::<(), Er>(e)),
                        Ok(v) => match M::set_in(now, p, v) {
                            Ok(next) => then == next && stopped is None,
                            Err(e) => then == now && stopped == Some(Err::<(), Er>(e)),
                        },
                    }
                },
            }
        }),
{
}

/// The concrete paths that a path with `[]` stands for are all gone through.
pub proof fn fanning_is_whole<M: Mutable>(d: M::Doc, p: Seq<St>, e: Ex, s: Seq<Val>, paths: Seq<Seq<St>>, fx: Facts)
    requires
        iterates(p),
        M::fanning(),
        expanded(p, M::whole_of(d)) == Ok::<Seq<Seq<St>>, Er>(paths),
        paths.len() > 0,
        ex_eval(e, M::whole_of(d), fx) == Ok::<Seq<Val>, Er>(s),
        s.len() > 0,
        M::check_in(d, p, MutationKind::Assign) is Ok,
        M::check_in(d, p, MutationKind::Add) is Ok,
        M::check_in(d, p, MutationKind::Update) is Ok,
    ensures
        mutated::<M>(d, Ex::Assign(Box::new(Ex::Path(p)), Box::new(e)), fx).0 == changed_each::<M>(
            d,
            paths,
            Change::To(s[0]),
            fx,
            paths.len(),
        ).0,
        mutated::<M>(d, Ex::AddAssign(Box::new(Ex::Path(p)), Box::new(e)), fx).0 == changed_each::<M>(
            d,
            paths,
            Change::Plus(s[0]),
            fx,
            paths.len(),
        ).0,
        mutated::<M>(d, Ex::UpdateAssign(Box::new(Ex::Path(p)), Box::new(e)), fx).0 == changed_each::<
            M,
        >(d, paths, Change::Through(e), fx, paths.len()).0,
{
    let a = Ex::Assign(Box::new(Ex::Path(p)), Box::new(e));
    let u = Ex::UpdateAssign(Box::new(Ex::Path(p)), Box::new(e));
    let t = Ex::AddAssign(Box::new(Ex::Path(p)), Box::new(e));
    assert(mutated::<M>(d, a, fx) == plain_mutated::<M>(d, a, fx));
    assert(mutated::<M>(d, u, fx) == plain_mutated::<M>(d, u, fx));
    assert(mutated::<M>(d, t, fx) == plain_mutated::<M>(d, t, fx));
}

} // verus!
