//! What holds of the streams that expressions yield: of steps and paths, of pipes, commas
//! and alternatives, of operators on streams, and of assignments.
use crate::arith::{bin_val, neg_val};
use crate::error::Er;
use crate::eval_laws::{apart, key_from_is, path_front, plain_path, rest_is_plain};
use crate::float::Facts;
use crate::index::resolved;
use crate::model::{BinOp, Ex, St, Val};
use crate::semantics::{
    add_at, add_assign_fn, assign_fn, bin_fn, bin_right_fn, del_at, del_fn, del_member_fn, eval_fn,
    ex_eval, first_or_null, neg_fn, nth_eval_fn, nth_member_fn, path_outs, set_at, set_fn,
    set_member_fn, step_fn, step_outs, truthy_only, update_at, update_fn, update_member_fn, upto,
};
use crate::seqs::{bind_all, map_all};
use crate::value::{key_at, key_at_bounds};
use vstd::prelude::*;

verus! {

/// An expression in a box.
pub open spec fn b(e: Ex) -> Box<Ex> {
    Box::new(e)
}

/// Neither null nor `false`.
pub open spec fn counts() -> spec_fn(Val) -> bool {
    |x: Val| !(x is Null) && x != Val::Bool(false)
}

/// A stream behind a stream; an error ends both.
pub open spec fn then(r: Result<Seq<Val>, Er>, s: Result<Seq<Val>, Er>) -> Result<Seq<Val>, Er> {
    match r {
        Err(e) => Err(e),
        Ok(a) => match s {
            Err(e) => Err(e),
            Ok(c) => Ok(a + c),
        },
    }
}

pub proof fn bind_nothing<A, B>(f: spec_fn(A) -> Result<Seq<B>, Er>)
    ensures
        bind_all(Seq::<A>::empty(), f) == Ok::<Seq<B>, Er>(Seq::empty()),
{
}

pub proof fn bind_single<A, B>(x: A, f: spec_fn(A) -> Result<Seq<B>, Er>)
    ensures
        bind_all(seq![x], f) == f(x),
{
    assert(seq![x].drop_last() =~= Seq::<A>::empty());
    bind_nothing(f);
    if let Ok(s) = f(x) {
        assert(Seq::<B>::empty() + s =~= s);
    }
}

pub proof fn bind_add<A, B>(s: Seq<A>, t: Seq<A>, f: spec_fn(A) -> Result<Seq<B>, Er>)
    ensures
        bind_all(s + t, f) == (match bind_all(s, f) {
            Err(e) => Err(e),
            Ok(a) => match bind_all(t, f) {
                Err(e) => Err(e),
                Ok(c) => Ok(a + c),
            },
        }),
    decreases t.len(),
{
    if t.len() == 0 {
        assert(s + t =~= s);
        assert(t =~= Seq::<A>::empty());
        bind_nothing(f);
        if let Ok(a) = bind_all(s, f) {
            assert(a + Seq::<B>::empty() =~= a);
        }
    } else {
        assert((s + t).drop_last() =~= s + t.drop_last());
        bind_add(s, t.drop_last(), f);
        if let Ok(a) = bind_all(s, f) {
            if let Ok(c) = bind_all(t.drop_last(), f) {
                if let Ok(d) = f(t.last()) {
                    assert(a + c + d =~= a + (c + d));
                }
            }
        }
    }
}

/// What `map_all` gives, element by element.
pub proof fn map_each<A, B>(s: Seq<A>, f: spec_fn(A) -> Result<B, Er>)
    ensures
        match map_all(s, f) {
            Ok(t) => t.len() == s.len() && forall|i: int|
                0 <= i < s.len() ==> f(s[i]) == Ok::<B, Er>(#[trigger] t[i]),
            Err(e) => exists|i: int| 0 <= i < s.len() && f(#[trigger] s[i]) == Err::<B, Er>(e),
        },
    decreases s.len(),
{
    if s.len() > 0 {
        let init = s.drop_last();
        map_each(init, f);
        match map_all(init, f) {
            Ok(t) => {
                if let Ok(x) = f(s.last()) {
                    let u = t.push(x);
                    assert forall|i: int| 0 <= i < s.len() implies f(s[i]) == Ok::<B, Er>(
                        #[trigger] u[i],
                    ) by {
                        if i < init.len() {
                            assert(init[i] == s[i]);
                            assert(u[i] == t[i]);
                        }
                    }
                } else {
                    assert(s[s.len() - 1] == s.last());
                }
            },
            Err(e) => {
                let i = choose|i: int| 0 <= i < init.len() && f(#[trigger] init[i]) == Err::<B, Er>(e);
                assert(s[i] == init[i]);
            },
        }
    }
}

/// The identity is neutral in a pipe, a literal stands for its value, and an expression
/// without steps yields its input.
pub proof fn identity_is_neutral(e: Ex, x: Val, v: Val, fx: Facts)
    ensures
        ex_eval(Ex::Path(Seq::empty()), v, fx) == Ok::<Seq<Val>, Er>(seq![v]),
        ex_eval(Ex::Literal(x), v, fx) == Ok::<Seq<Val>, Er>(seq![x]),
        ex_eval(Ex::Pipe(b(Ex::Path(Seq::empty())), b(e)), v, fx) == ex_eval(e, v, fx),
        ex_eval(Ex::Pipe(b(Ex::Literal(x)), b(e)), v, fx) == ex_eval(e, x, fx),
        ex_eval(Ex::Pipe(b(e), b(Ex::Path(Seq::empty()))), v, fx) == ex_eval(e, v, fx),
{
    bind_single(v, eval_fn(e, fx));
    bind_single(x, eval_fn(e, fx));
    assert(ex_eval(Ex::Path(Seq::empty()), v, fx) == Ok::<Seq<Val>, Er>(seq![v]));
    if let Ok(s) = ex_eval(e, v, fx) {
        identities(s, fx);
    }
}

proof fn identities(s: Seq<Val>, fx: Facts)
    ensures
        bind_all(s, eval_fn(Ex::Path(Seq::empty()), fx)) == Ok::<Seq<Val>, Er>(s),
    decreases s.len(),
{
    let f = eval_fn(Ex::Path(Seq::empty()), fx);
    if s.len() > 0 {
        identities(s.drop_last(), fx);
        assert(f(s.last()) == ex_eval(Ex::Path(Seq::empty()), s.last(), fx));
        assert(s.drop_last() + seq![s.last()] =~= s);
    } else {
        assert(s =~= Seq::<Val>::empty());
    }
}

/// A pipe feeds each value of the left stream to the right side, in order: what it yields
/// of a stream is what it yields of its front and then of its back.
pub proof fn pipes_feed_in_order(l: Ex, l1: Ex, l2: Ex, r: Ex, v: Val, s: Seq<Val>, t: Seq<Val>, fx: Facts)
    requires
        ex_eval(l, v, fx) == Ok::<Seq<Val>, Er>(s + t),
        ex_eval(l1, v, fx) == Ok::<Seq<Val>, Er>(s),
        ex_eval(l2, v, fx) == Ok::<Seq<Val>, Er>(t),
    ensures
        ex_eval(Ex::Pipe(b(l), b(r)), v, fx) == then(
            ex_eval(Ex::Pipe(b(l1), b(r)), v, fx),
            ex_eval(Ex::Pipe(b(l2), b(r)), v, fx),
        ),
{
    bind_add(s, t, eval_fn(r, fx));
}

/// An error on the left is the error of a pipe, and nothing on the left gives nothing.
pub proof fn pipes_stop(l: Ex, r: Ex, v: Val, fx: Facts)
    ensures
        ex_eval(l, v, fx) is Err ==> ex_eval(Ex::Pipe(b(l), b(r)), v, fx) == ex_eval(l, v, fx),
        ex_eval(l, v, fx) == Ok::<Seq<Val>, Er>(Seq::empty()) ==> ex_eval(
            Ex::Pipe(b(l), b(r)),
            v,
            fx,
        ) == Ok::<Seq<Val>, Er>(Seq::empty()),
{
    bind_nothing(eval_fn(r, fx));
}

/// Commas put the streams of their items one behind the other, each on the same input.
pub proof fn commas_join(items: Seq<Ex>, e: Ex, v: Val, fx: Facts)
    ensures
        ex_eval(Ex::Comma(Seq::empty()), v, fx) == Ok::<Seq<Val>, Er>(Seq::empty()),
        ex_eval(Ex::Comma(items.push(e)), v, fx) == then(
            ex_eval(Ex::Comma(items), v, fx),
            ex_eval(e, v, fx),
        ),
{
    let all = items.push(e);
    let n = items.len();
    let f = nth_eval_fn(items, v, fx);
    let g = nth_eval_fn(all, v, fx);
    assert(upto(0) =~= Seq::<int>::empty());
    assert(upto(all.len()).drop_last() =~= upto(n));
    assert(upto(all.len()).last() == n);
    assert(g(n as int) == ex_eval(e, v, fx));
    same_front(items, e, v, fx, n);
}

proof fn same_front(items: Seq<Ex>, e: Ex, v: Val, fx: Facts, n: nat)
    requires
        n <= items.len(),
    ensures
        bind_all(upto(n), nth_eval_fn(items, v, fx)) == bind_all(
            upto(n),
            nth_eval_fn(items.push(e), v, fx),
        ),
    decreases n,
{
    if n > 0 {
        same_front(items, e, v, fx, (n - 1) as nat);
        assert(upto(n).drop_last() =~= upto((n - 1) as nat));
        assert(items.push(e)[n - 1] == items[n - 1]);
    }
}

proof fn truthy_is_filter(s: Seq<Val>)
    ensures
        truthy_only(s) == s.filter(counts()),
    decreases s.len(),
{
    reveal(Seq::filter);
    if s.len() > 0 {
        truthy_is_filter(s.drop_last());
        assert(truthy_only(s) =~= s.filter(counts()));
    } else {
        assert(truthy_only(s) =~= s.filter(counts()));
    }
}

/// `l // r` yields the values of `l` that are neither null nor `false`, in order, or what
/// `r` yields where there is none; an error of `l` is its error.
pub proof fn alternatives_fall_back(l: Ex, r: Ex, v: Val, fx: Facts)
    ensures
        match ex_eval(l, v, fx) {
            Err(e) => ex_eval(Ex::Alternative(b(l), b(r)), v, fx) == Err::<Seq<Val>, Er>(e),
            Ok(s) => ex_eval(Ex::Alternative(b(l), b(r)), v, fx) == (if exists|i: int|
                0 <= i < s.len() && counts()(#[trigger] s[i]) {
                Ok(s.filter(counts()))
            } else {
                ex_eval(r, v, fx)
            }),
        },
{
    if let Ok(s) = ex_eval(l, v, fx) {
        truthy_is_filter(s);
        kept_iff(s);
    }
}

proof fn kept_iff(s: Seq<Val>)
    ensures
        truthy_only(s).len() > 0 <==> exists|i: int| 0 <= i < s.len() && counts()(#[trigger] s[i]),
    decreases s.len(),
{
    if s.len() > 0 {
        let init = s.drop_last();
        kept_iff(init);
        if exists|i: int| 0 <= i < init.len() && counts()(#[trigger] init[i]) {
            let i = choose|i: int| 0 <= i < init.len() && counts()(#[trigger] init[i]);
            assert(s[i] == init[i]);
        }
        if counts()(s.last()) {
            assert(counts()(s[s.len() - 1]));
        }
        if exists|i: int| 0 <= i < s.len() && counts()(#[trigger] s[i]) {
            let i = choose|i: int| 0 <= i < s.len() && counts()(#[trigger] s[i]);
            if i < init.len() {
                assert(init[i] == s[i]);
            }
        }
    }
}

/// `[e]` is one array of all that `e` yields, and `[]` the empty one.
pub proof fn collecting_keeps_all(e: Ex, v: Val, fx: Facts)
    ensures
        match ex_eval(e, v, fx) {
            Err(x) => ex_eval(Ex::Collect(Some(b(e))), v, fx) == Err::<Seq<Val>, Er>(x),
            Ok(s) => ex_eval(Ex::Collect(Some(b(e))), v, fx) == Ok::<Seq<Val>, Er>(
                seq![Val::Array(s)],
            ),
        },
        ex_eval(Ex::Collect(None), v, fx) == Ok::<Seq<Val>, Er>(seq![Val::Array(Seq::empty())]),
{
}

/// `{k: e, ..}` is one object with the given keys in the given order, each with the first
/// value of its expression on the input, or null.
pub proof fn objects_take_first_values(pairs: Seq<(Seq<char>, Ex)>, v: Val, fx: Facts)
    ensures
        match ex_eval(Ex::ObjectConstruct(pairs), v, fx) {
            Ok(s) => s.len() == 1 && s[0] is Object && s[0]->Object_0.len() == pairs.len()
                && forall|i: int|
                0 <= i < pairs.len() ==> (#[trigger] s[0]->Object_0[i]).0 == pairs[i].0 && match ex_eval(
                    pairs[i].1,
                    v,
                    fx,
                ) {
                    Ok(t) => s[0]->Object_0[i].1 == (if t.len() > 0 {
                        t[0]
                    } else {
                        Val::Null
                    }),
                    Err(_) => false,
                },
            Err(e) => exists|i: int|
                0 <= i < pairs.len() && ex_eval((#[trigger] pairs[i]).1, v, fx) == Err::<Seq<Val>, Er>(e),
        },
{
    let n = upto(pairs.len());
    let f = nth_member_fn(pairs, v, fx);
    map_each(n, f);
    match map_all(n, f) {
        Ok(m) => {
            assert forall|i: int| 0 <= i < pairs.len() implies (#[trigger] m[i]).0 == pairs[i].0 && match ex_eval(
                pairs[i].1,
                v,
                fx,
            ) {
                Ok(t) => m[i].1 == (if t.len() > 0 {
                    t[0]
                } else {
                    Val::Null
                }),
                Err(_) => false,
            } by {
                assert(n[i] == i);
                assert(f(n[i]) == Ok::<(Seq<char>, Val), Er>(m[i]));
            }
        },
        Err(e) => {
            let i = choose|i: int| 0 <= i < n.len() && f(#[trigger] n[i]) == Err::<(Seq<char>, Val), Er>(e);
            assert(n[i] == i);
            assert(ex_eval(pairs[i].1, v, fx) == Err::<Seq<Val>, Er>(e));
        },
    }
}

/// An operator on two streams takes every value of the left with every value of the
/// right: all those with the first of the left come first.
pub proof fn operators_take_all_pairs(op: BinOp, l: Ex, r: Ex, v: Val, s: Seq<Val>, t: Seq<Val>, fx: Facts)
    requires
        ex_eval(l, v, fx) == Ok::<Seq<Val>, Er>(s),
        ex_eval(r, v, fx) == Ok::<Seq<Val>, Er>(t),
        ex_eval(Ex::Binary(op, b(l), b(r)), v, fx) is Ok,
    ensures
        ({
            let o = ex_eval(Ex::Binary(op, b(l), b(r)), v, fx)->Ok_0;
            &&& o.len() == s.len() * t.len()
            &&& forall|i: int, j: int|
                0 <= i < s.len() && 0 <= j < t.len() ==> 0 <= i * t.len() + j < o.len() && bin_val(
                    op,
                    #[trigger] s[i],
                    #[trigger] t[j],
                    fx,
                ) == Ok::<Val, Er>(o[i * t.len() + j])
        }),
{
    pairs_taken(op, s, t, fx);
}

proof fn pairs_taken(op: BinOp, s: Seq<Val>, t: Seq<Val>, fx: Facts)
    requires
        bind_all(s, bin_fn(op, t, fx)) is Ok,
    ensures
        ({
            let o = bind_all(s, bin_fn(op, t, fx))->Ok_0;
            &&& o.len() == s.len() * t.len()
            &&& forall|i: int, j: int|
                0 <= i < s.len() && 0 <= j < t.len() ==> 0 <= i * t.len() + j < o.len() && bin_val(
                    op,
                    #[trigger] s[i],
                    #[trigger] t[j],
                    fx,
                ) == Ok::<Val, Er>(o[i * t.len() + j])
        }),
    decreases s.len(),
{
    let f = bin_fn(op, t, fx);
    if s.len() > 0 {
        let init = s.drop_last();
        pairs_taken(op, init, t, fx);
        let a = bind_all(init, f)->Ok_0;
        let g = bin_right_fn(op, s.last(), fx);
        map_each(t, g);
        let c = map_all(t, g)->Ok_0;
        let o = a + c;
        let n = t.len() as int;
        let k = init.len() as int;
        assert(s.len() * t.len() == k * n + n) by (nonlinear_arith)
            requires
                s.len() == k + 1,
                t.len() == n,
        ;
        assert(init.len() * t.len() == k * n) by (nonlinear_arith)
            requires
                init.len() == k,
                t.len() == n,
        ;
        assert forall|i: int, j: int| 0 <= i < s.len() && 0 <= j < t.len() implies 0 <= i * t.len() + j
            < o.len() && bin_val(op, #[trigger] s[i], #[trigger] t[j], fx) == Ok::<Val, Er>(
            o[i * t.len() + j],
        ) by {
            if i < k {
                assert(init[i] == s[i]);
                assert(bin_val(op, init[i], t[j], fx) == Ok::<Val, Er>(a[i * t.len() + j]));
                assert(o[i * t.len() + j] == a[i * t.len() + j]);
            } else {
                assert(i * t.len() + j == a.len() + j) by (nonlinear_arith)
                    requires
                        i == k,
                        a.len() == k * n,
                        t.len() == n,
                ;
                assert(g(t[j]) == Ok::<Val, Er>(c[j]));
                assert(o[a.len() + j] == c[j]);
            }
        }
    } else {
        assert(s.len() * t.len() == 0) by (nonlinear_arith)
            requires
                s.len() == 0,
        ;
    }
}

/// Negation is taken of each value of a stream.
pub proof fn negation_is_taken_of_each(e: Ex, v: Val, fx: Facts)
    ensures
        match ex_eval(Ex::Neg(b(e)), v, fx) {
            Ok(o) => ex_eval(e, v, fx) is Ok && o.len() == ex_eval(e, v, fx)->Ok_0.len() && forall|i: int|
                0 <= i < o.len() ==> neg_val(ex_eval(e, v, fx)->Ok_0[i]) == Ok::<Val, Er>(#[trigger] o[i]),
            Err(_) => true,
        },
{
    if let Ok(s) = ex_eval(e, v, fx) {
        map_each(s, neg_fn());
        if let Ok(o) = map_all(s, neg_fn()) {
            assert forall|i: int| 0 <= i < o.len() implies neg_val(s[i]) == Ok::<Val, Er>(
                #[trigger] o[i],
            ) by {
                assert(neg_fn()(s[i]) == Ok::<Val, Er>(o[i]));
            }
        }
    }
}

/// A key yields the value of the first member that has it, and nothing where there is
/// none; an index yields the element at that place, counted from the end where it is
/// negative, and nothing beyond; null has neither; and neither is had by another type.
pub proof fn steps_lead_there(v: Val, k: Seq<char>, x: i64, i: int, fx: Facts)
    ensures
        v is Object && 0 <= i < v->Object_0.len() && v->Object_0[i].0 == k && (forall|j: int|
            0 <= j < i ==> (#[trigger] v->Object_0[j]).0 != k) ==> ex_eval(
            Ex::Path(seq![St::Field(k)]),
            v,
            fx,
        ) == Ok::<Seq<Val>, Er>(seq![v->Object_0[i].1]),
        v is Object && (forall|j: int| 0 <= j < v->Object_0.len() ==> (#[trigger] v->Object_0[j]).0 != k)
            ==> ex_eval(Ex::Path(seq![St::Field(k)]), v, fx) == Ok::<Seq<Val>, Er>(Seq::empty()),
        v is Array && 0 <= x < v->Array_0.len() && v->Array_0.len() <= usize::MAX ==> ex_eval(
            Ex::Path(seq![St::Index(x)]),
            v,
            fx,
        ) == Ok::<Seq<Val>, Er>(seq![v->Array_0[x as int]]),
        v is Array && -v->Array_0.len() <= x < 0 && v->Array_0.len() <= usize::MAX ==> ex_eval(
            Ex::Path(seq![St::Index(x)]),
            v,
            fx,
        ) == Ok::<Seq<Val>, Er>(seq![v->Array_0[v->Array_0.len() + x]]),
        v is Array && (x >= v->Array_0.len() || x < -v->Array_0.len()) ==> ex_eval(
            Ex::Path(seq![St::Index(x)]),
            v,
            fx,
        ) == Ok::<Seq<Val>, Er>(Seq::empty()),
        v is Null ==> ex_eval(Ex::Path(seq![St::Field(k)]), v, fx) == Ok::<Seq<Val>, Er>(Seq::empty())
            && ex_eval(Ex::Path(seq![St::Index(x)]), v, fx) == Ok::<Seq<Val>, Er>(Seq::empty()),
        !(v is Object) && !(v is Null) ==> ex_eval(Ex::Path(seq![St::Field(k)]), v, fx) is Err,
        !(v is Array) && !(v is Null) ==> ex_eval(Ex::Path(seq![St::Index(x)]), v, fx) is Err,
{
    one_step(St::Field(k), v);
    one_step(St::Index(x), v);
    if let Val::Object(m) = v {
        key_at_bounds(m, k);
        if 0 <= i < m.len() && m[i].0 == k && (forall|j: int| 0 <= j < i ==> (#[trigger] m[j]).0 != k) {
            key_from_is(m, k, 0, i);
        }
        if forall|j: int| 0 <= j < m.len() ==> (#[trigger] m[j]).0 != k {
            key_from_is(m, k, 0, m.len() as int);
        }
    }
}

/// `.[]` yields the elements of an array and the values of an object, all of them and in
/// order, and is refused of any other type.
pub proof fn iteration_yields_all(v: Val, fx: Facts)
    ensures
        ({
            let o = ex_eval(Ex::Path(seq![St::Iterate]), v, fx);
            &&& v is Array ==> o == Ok::<Seq<Val>, Er>(v->Array_0)
            &&& v is Object ==> o is Ok && o->Ok_0.len() == v->Object_0.len() && forall|i: int|
                0 <= i < v->Object_0.len() ==> (#[trigger] v->Object_0[i]).1 == o->Ok_0[i]
            &&& !(v is Array) && !(v is Object) ==> o is Err
        }),
{
    one_step(St::Iterate, v);
}

proof fn one_step(st: St, v: Val)
    ensures
        path_outs(seq![st], v) == step_outs(st, v),
{
    let p = seq![st];
    assert(p.drop_last() =~= Seq::<St>::empty());
    assert(path_outs(p.drop_last(), v) == Ok::<Seq<Val>, Er>(seq![v]));
    bind_single(v, step_fn(st));
}

spec fn piped(p: Seq<St>, q: Seq<St>, v: Val, fx: Facts) -> Result<Seq<Val>, Er> {
    match path_outs(p, v) {
        Err(e) => Err(e),
        Ok(s) => bind_all(s, eval_fn(Ex::Path(q), fx)),
    }
}

proof fn path_is_piped(p: Seq<St>, q: Seq<St>, v: Val, fx: Facts)
    ensures
        path_outs(p + q, v) == piped(p, q, v, fx) || (path_outs(p + q, v) is Err && piped(p, q, v, fx)
            is Err),
    decreases q.len(),
{
    if q.len() == 0 {
        assert(p + q =~= p);
        assert(q =~= Seq::<St>::empty());
        if let Ok(s) = path_outs(p, v) {
            identities(s, fx);
        }
    } else {
        let c = q.drop_last();
        let st = q.last();
        path_is_piped(p, c, v, fx);
        assert((p + q).drop_last() =~= p + c);
        assert((p + q).last() == st);
        assert(c.push(st) =~= q);
        if let Ok(s) = path_outs(p, v) {
            steps_pipe(s, c, st, fx);
        }
    }
}

/// A path behind a path is the pipe of the two.
pub proof fn paths_are_pipes(p: Seq<St>, q: Seq<St>, v: Val, fx: Facts)
    ensures
        ({
            let whole = ex_eval(Ex::Path(p + q), v, fx);
            let pipe = ex_eval(Ex::Pipe(b(Ex::Path(p)), b(Ex::Path(q))), v, fx);
            whole == pipe || (whole is Err && pipe is Err)
        }),
{
    path_is_piped(p, q, v, fx);
    assert(ex_eval(Ex::Path(p), v, fx) == path_outs(p, v));
    assert(ex_eval(Ex::Path(p + q), v, fx) == path_outs(p + q, v));
    assert(ex_eval(Ex::Pipe(b(Ex::Path(p)), b(Ex::Path(q))), v, fx) == piped(p, q, v, fx));
}

proof fn steps_pipe(s: Seq<Val>, c: Seq<St>, st: St, fx: Facts)
    ensures
        ({
            let whole = bind_all(s, eval_fn(Ex::Path(c.push(st)), fx));
            let part = match bind_all(s, eval_fn(Ex::Path(c), fx)) {
                Err(e) => Err(e),
                Ok(t) => bind_all(t, step_fn(st)),
            };
            whole == part || (whole is Err && part is Err)
        }),
    decreases s.len(),
{
    let q = c.push(st);
    assert(q.drop_last() =~= c);
    let f = eval_fn(Ex::Path(q), fx);
    let g = eval_fn(Ex::Path(c), fx);
    bind_nothing(g);
    bind_nothing(step_fn(st));
    if s.len() > 0 {
        let init = s.drop_last();
        let x = s.last();
        steps_pipe(init, c, st, fx);
        assert(f(x) == path_outs(q, x));
        assert(g(x) == path_outs(c, x));
        if let Ok(t) = bind_all(init, g) {
            if let Ok(u) = g(x) {
                bind_add(t, u, step_fn(st));
            }
        }
    }
}

/// An assignment yields one result for each value of its right side, with that value at
/// the path.
pub proof fn assignments_set(p: Seq<St>, e: Ex, v: Val, fx: Facts)
    requires
        plain_path(p),
        ex_eval(Ex::Assign(b(Ex::Path(p)), b(e)), v, fx) is Ok,
    ensures
        ({
            let o = ex_eval(Ex::Assign(b(Ex::Path(p)), b(e)), v, fx)->Ok_0;
            let s = ex_eval(e, v, fx)->Ok_0;
            &&& ex_eval(e, v, fx) is Ok
            &&& o.len() == s.len()
            &&& forall|i: int|
                0 <= i < o.len() ==> path_outs(p, #[trigger] o[i]) == Ok::<Seq<Val>, Er>(seq![s[i]])
        }),
{
    let s = ex_eval(e, v, fx)->Ok_0;
    map_each(s, assign_fn(v, p));
    let o = map_all(s, assign_fn(v, p))->Ok_0;
    assert forall|i: int| 0 <= i < o.len() implies path_outs(p, #[trigger] o[i]) == Ok::<Seq<Val>, Er>(
        seq![s[i]],
    ) by {
        assert(assign_fn(v, p)(s[i]) == Ok::<Val, Er>(o[i]));
        crate::eval_laws::assigned_reads_back(v, p, s[i]);
    }
}

/// `p += e` puts the sum of what stands at the path, or null, and each value of `e` there:
/// what is there first, what is added behind it.
pub proof fn additions_add(p: Seq<St>, e: Ex, v: Val, fx: Facts)
    requires
        plain_path(p),
        ex_eval(Ex::AddAssign(b(Ex::Path(p)), b(e)), v, fx) is Ok,
        ex_eval(e, v, fx) is Ok,
        ex_eval(e, v, fx)->Ok_0.len() > 0,
    ensures
        ({
            let o = ex_eval(Ex::AddAssign(b(Ex::Path(p)), b(e)), v, fx)->Ok_0;
            let s = ex_eval(e, v, fx)->Ok_0;
            let old_outs = path_outs(p, v);
            &&& o.len() == s.len()
            &&& old_outs is Ok
            &&& forall|i: int|
                0 <= i < o.len() ==> {
                    let sum = bin_val(
                        BinOp::Add,
                        if old_outs->Ok_0.len() > 0 {
                            old_outs->Ok_0[0]
                        } else {
                            Val::Null
                        },
                        s[i],
                        fx,
                    );
                    sum is Ok && path_outs(p, #[trigger] o[i]) == Ok::<Seq<Val>, Er>(seq![sum->Ok_0])
                }
        }),
{
    let s = ex_eval(e, v, fx)->Ok_0;
    let f = add_assign_fn(v, p, fx);
    map_each(s, f);
    let o = map_all(s, f)->Ok_0;
    assert(f(s[0]) == Ok::<Val, Er>(o[0]));
    assert forall|i: int| 0 <= i < o.len() implies ({
        let sum = bin_val(BinOp::Add, first_or_null(path_outs(p, v)->Ok_0), s[i], fx);
        sum is Ok && path_outs(p, #[trigger] o[i]) == Ok::<Seq<Val>, Er>(seq![sum->Ok_0])
    }) by {
        assert(f(s[i]) == Ok::<Val, Er>(o[i]));
        let sum = bin_val(BinOp::Add, first_or_null(path_outs(p, v)->Ok_0), s[i], fx);
        assert(add_at(v, p, s[i], fx) == Ok::<Val, Er>(o[i]));
        crate::eval_laws::assigned_reads_back(v, p, sum->Ok_0);
    }
}

/// `p |= f` puts the first value of `f` on what stands at the path there, or null, and is
/// refused where nothing stands there; it leaves what stands under another key.
pub proof fn updates_apply(v: Val, p: Seq<St>, f: Ex, q: Seq<St>, fx: Facts)
    requires
        plain_path(p),
        plain_path(q),
        ex_eval(Ex::UpdateAssign(b(Ex::Path(p)), b(f)), v, fx) is Ok,
    ensures
        ({
            let o = ex_eval(Ex::UpdateAssign(b(Ex::Path(p)), b(f)), v, fx)->Ok_0;
            let was = path_outs(p, v);
            &&& o.len() == 1
            &&& was is Ok && was->Ok_0.len() == 1
            &&& ex_eval(f, was->Ok_0[0], fx) is Ok
            &&& path_outs(p, o[0]) == Ok::<Seq<Val>, Er>(
                seq![
                    if ex_eval(f, was->Ok_0[0], fx)->Ok_0.len() > 0 {
                        ex_eval(f, was->Ok_0[0], fx)->Ok_0[0]
                    } else {
                        Val::Null
                    },
                ],
            )
            &&& apart(p, q) ==> path_outs(q, o[0]) == path_outs(q, v)
        }),
{
    update_applies(v, p, f, q, fx);
}

proof fn update_applies(v: Val, p: Seq<St>, f: Ex, q: Seq<St>, fx: Facts)
    requires
        plain_path(p),
        plain_path(q),
        update_at(v, p, f, fx) is Ok,
    ensures
        ({
            let w = update_at(v, p, f, fx)->Ok_0;
            let was = path_outs(p, v);
            &&& was is Ok && was->Ok_0.len() == 1
            &&& ex_eval(f, was->Ok_0[0], fx) is Ok
            &&& path_outs(p, w) == Ok::<Seq<Val>, Er>(
                seq![first_or_null(ex_eval(f, was->Ok_0[0], fx)->Ok_0)],
            )
            &&& apart(p, q) ==> path_outs(q, w) == path_outs(q, v)
        }),
    decreases p.len(),
{
    if p.len() > 0 {
        let w = update_at(v, p, f, fx)->Ok_0;
        let rest = p.drop_first();
        rest_is_plain(p);
        path_front(p, v);
        path_front(p, w);
        assert(p[0] is Field || p[0] is Index);
        if q.len() > 0 {
            path_front(q, v);
            path_front(q, w);
            rest_is_plain(q);
        }
        let qr = if q.len() > 0 {
            q.drop_first()
        } else {
            q
        };
        match p[0] {
            St::Field(k) => {
                let m = v->Object_0;
                key_at_bounds(m, k);
                let i = key_at(m, k);
                update_applies(m[i].1, rest, f, qr, fx);
                let x = update_at(m[i].1, rest, f, fx)->Ok_0;
                let n = m.update(i, (m[i].0, x));
                assert forall|j: int| 0 <= j < m.len() implies (#[trigger] n[j]).0 == m[j].0 by {}
                crate::eval_laws::keys_place(n, m, k);
                if q.len() > 0 && q[0] is Field {
                    crate::eval_laws::keys_place(n, m, q[0]->Field_0);
                    key_at_bounds(m, q[0]->Field_0);
                }
            },
            St::Index(x) => {
                let a = v->Array_0;
                let n = resolved(x as int, a.len() as int)->0;
                update_applies(a[n], rest, f, qr, fx);
            },
            _ => {},
        }
    } else {
        assert(p =~= Seq::<St>::empty());
    }
}

/// Setting, updating or deleting through `.[]` does so at each element or member, which all
/// stay in their places.
pub proof fn iteration_edits_each(v: Val, p: Seq<St>, new: Val, f: Ex, fx: Facts)
    ensures
        ({
            let q = seq![St::Iterate] + p;
            &&& match set_at(v, q, new) {
                Ok(w) => (v is Array ==> w is Array && w->Array_0.len() == v->Array_0.len() && forall|
                    i: int,
                | 0 <= i < v->Array_0.len() ==> set_at(v->Array_0[i], p, new) == Ok::<Val, Er>(
                    #[trigger] w->Array_0[i],
                )) && (v is Object ==> w is Object && w->Object_0.len() == v->Object_0.len() && forall|
                    i: int,
                | 0 <= i < v->Object_0.len() ==> (#[trigger] w->Object_0[i]).0 == v->Object_0[i].0 && set_at(
                    v->Object_0[i].1,
                    p,
                    new,
                ) == Ok::<Val, Er>(w->Object_0[i].1)),
                Err(_) => true,
            }
            &&& match update_at(v, q, f, fx) {
                Ok(w) => (v is Array ==> w is Array && w->Array_0.len() == v->Array_0.len() && forall|
                    i: int,
                | 0 <= i < v->Array_0.len() ==> update_at(v->Array_0[i], p, f, fx) == Ok::<Val, Er>(
                    #[trigger] w->Array_0[i],
                )) && (v is Object ==> w is Object && w->Object_0.len() == v->Object_0.len() && forall|
                    i: int,
                | 0 <= i < v->Object_0.len() ==> (#[trigger] w->Object_0[i]).0 == v->Object_0[i].0
                    && update_at(v->Object_0[i].1, p, f, fx) == Ok::<Val, Er>(w->Object_0[i].1)),
                Err(_) => true,
            }
            &&& match del_at(v, q) {
                Ok(w) => (v is Array ==> w is Array && if p.len() == 0 {
                    w->Array_0.len() == 0
                } else {
                    w->Array_0.len() == v->Array_0.len() && forall|i: int|
                        0 <= i < v->Array_0.len() ==> del_at(v->Array_0[i], p) == Ok::<Val, Er>(
                            #[trigger] w->Array_0[i],
                        )
                }) && (v is Object ==> w is Object && if p.len() == 0 {
                    w->Object_0.len() == 0
                } else {
                    w->Object_0.len() == v->Object_0.len() && forall|i: int|
                        0 <= i < v->Object_0.len() ==> (#[trigger] w->Object_0[i]).0 == v->Object_0[i].0
                            && del_at(v->Object_0[i].1, p) == Ok::<Val, Er>(w->Object_0[i].1)
                }),
                Err(_) => true,
            }
        }),
{
    let q = seq![St::Iterate] + p;
    assert(q.drop_first() =~= p);
    assert(q[0] == St::Iterate);
    match v {
        Val::Array(a) => {
            map_each(a, set_fn(p, new));
            map_each(a, update_fn(p, f, fx));
            map_each(a, del_fn(p));
            if let Ok(w) = map_all(a, set_fn(p, new)) {
                assert forall|i: int| 0 <= i < a.len() implies set_at(a[i], p, new) == Ok::<Val, Er>(
                    #[trigger] w[i],
                ) by {
                    assert(set_fn(p, new)(a[i]) == Ok::<Val, Er>(w[i]));
                }
            }
            if let Ok(w) = map_all(a, update_fn(p, f, fx)) {
                assert forall|i: int| 0 <= i < a.len() implies update_at(a[i], p, f, fx) == Ok::<Val, Er>(
                    #[trigger] w[i],
                ) by {
                    assert(update_fn(p, f, fx)(a[i]) == Ok::<Val, Er>(w[i]));
                }
            }
            if let Ok(w) = map_all(a, del_fn(p)) {
                assert forall|i: int| 0 <= i < a.len() implies del_at(a[i], p) == Ok::<Val, Er>(
                    #[trigger] w[i],
                ) by {
                    assert(del_fn(p)(a[i]) == Ok::<Val, Er>(w[i]));
                }
            }
        },
        Val::Object(m) => {
            map_each(m, set_member_fn(p, new));
            map_each(m, update_member_fn(p, f, fx));
            map_each(m, del_member_fn(p));
            if let Ok(w) = map_all(m, set_member_fn(p, new)) {
                assert forall|i: int| 0 <= i < m.len() implies (#[trigger] w[i]).0 == m[i].0 && set_at(
                    m[i].1,
                    p,
                    new,
                ) == Ok::<Val, Er>(w[i].1) by {
                    assert(set_member_fn(p, new)(m[i]) == Ok::<(Seq<char>, Val), Er>(w[i]));
                }
            }
            if let Ok(w) = map_all(m, update_member_fn(p, f, fx)) {
                assert forall|i: int| 0 <= i < m.len() implies (#[trigger] w[i]).0 == m[i].0 && update_at(
                    m[i].1,
                    p,
                    f,
                    fx,
                ) == Ok::<Val, Er>(w[i].1) by {
                    assert(update_member_fn(p, f, fx)(m[i]) == Ok::<(Seq<char>, Val), Er>(w[i]));
                }
            }
            if let Ok(w) = map_all(m, del_member_fn(p)) {
                assert forall|i: int| 0 <= i < m.len() implies (#[trigger] w[i]).0 == m[i].0 && del_at(
                    m[i].1,
                    p,
                ) == Ok::<Val, Er>(w[i].1) by {
                    assert(del_member_fn(p)(m[i]) == Ok::<(Seq<char>, Val), Er>(w[i]));
                }
            }
        },
        _ => {},
    }
}

/// Deleting an element takes out that element, and a key every member that has it; all
/// others stay, in order.
pub proof fn deletions_take_out(a: Seq<Val>, x: i64, m: Seq<(Seq<char>, Val)>, k: Seq<char>)
    ensures
        0 <= x < a.len() && a.len() <= usize::MAX ==> del_at(Val::Array(a), seq![St::Index(x)]) == Ok::<
            Val,
            Er,
        >(Val::Array(a.remove(x as int))),
        -a.len() <= x < 0 && a.len() <= usize::MAX ==> del_at(Val::Array(a), seq![St::Index(x)])
            == Ok::<Val, Er>(Val::Array(a.remove(a.len() + x))),
        x >= a.len() || x < -a.len() ==> del_at(Val::Array(a), seq![St::Index(x)]) == Ok::<Val, Er>(
            Val::Array(a),
        ),
        del_at(Val::Object(m), seq![St::Field(k)]) == Ok::<Val, Er>(
            Val::Object(m.filter(|e: (Seq<char>, Val)| e.0 != k)),
        ),
{
    without_is_filter(m, k);
}

proof fn without_is_filter(m: Seq<(Seq<char>, Val)>, k: Seq<char>)
    ensures
        crate::semantics::without_key(m, k) == m.filter(|e: (Seq<char>, Val)| e.0 != k),
    decreases m.len(),
{
    reveal(Seq::filter);
    let f = |e: (Seq<char>, Val)| e.0 != k;
    if m.len() > 0 {
        without_is_filter(m.drop_last(), k);
    }
    assert(crate::semantics::without_key(m, k) =~= m.filter(f));
}

} // verus!
