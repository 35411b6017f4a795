//! What holds of expanding a path, of selecting through one, and of walking a
//! commented value along one.
use crate::comment::{
    entry_from, nodes_at, plain, plain_all, plain_members, step_nodes, steps_nodes,
};
use crate::error::Er;
use crate::eval_laws::{key_from_is, path_front, plain_path, rest_is_plain};
use crate::float::Facts;
use crate::index::{normalized, resolved};
use crate::model::{Cmt, CmtNode, Ex, St, Val};
use crate::order_laws::{back_to_front, deletions_run_back_to_front};
use crate::paths::{lowered, target_of};
use crate::semantics::{
    deletion_order, ex_founds, ex_paths, expand_member_fn, expand_nth_fn, expanded, founds_fn,
    member_values, nth_founds_fn, null_filled, path_founds, path_outs, prefixed, set_at, step_fn,
    step_founds, step_founds_fn, step_outs, upto, Found,
};
use crate::seqs::bind_all;
use crate::toml_laws::unique_keys;
use crate::value::{key_at, key_at_bounds};
use vstd::prelude::*;

verus! {

/// Is the path of every position plain?
spec fn founds_plain(fs: Seq<Found>) -> bool {
    forall|i: int| 0 <= i < fs.len() ==> plain_path((#[trigger] fs[i]).0)
}

proof fn bind_plain<A>(s: Seq<A>, f: spec_fn(A) -> Result<Seq<Found>, Er>)
    requires
        forall|i: int| 0 <= i < s.len() && f(#[trigger] s[i]) is Ok ==> founds_plain(f(s[i])->Ok_0),
    ensures
        bind_all(s, f) is Ok ==> founds_plain(bind_all(s, f)->Ok_0),
    decreases s.len(),
{
    if s.len() > 0 {
        let init = s.drop_last();
        assert forall|i: int| 0 <= i < init.len() && f(#[trigger] init[i]) is Ok implies founds_plain(
            f(init[i])->Ok_0,
        ) by {
            assert(init[i] == s[i]);
        }
        bind_plain(init, f);
        assert(s[s.len() - 1] == s.last());
        if bind_all(s, f) is Ok {
            let a = bind_all(init, f)->Ok_0;
            let b = f(s.last())->Ok_0;
            assert forall|i: int| 0 <= i < (a + b).len() implies plain_path((#[trigger] (a + b)[i]).0) by {
                if i < a.len() {
                    assert((a + b)[i] == a[i]);
                } else {
                    assert((a + b)[i] == b[i - a.len()]);
                }
            }
        }
    }
}

proof fn step_founds_plain(st: St, p: Seq<St>, v: Option<Val>)
    requires
        plain_path(p),
    ensures
        step_founds(st, p, v) is Ok ==> founds_plain(step_founds(st, p, v)->Ok_0),
{
}

proof fn path_founds_plain(steps: Seq<St>, v: Option<Val>)
    ensures
        path_founds(steps, v) is Ok ==> founds_plain(path_founds(steps, v)->Ok_0),
    decreases steps.len(),
{
    if steps.len() > 0 {
        path_founds_plain(steps.drop_last(), v);
        if let Ok(fs) = path_founds(steps.drop_last(), v) {
            let f = step_founds_fn(steps.last());
            assert forall|i: int| 0 <= i < fs.len() && f(#[trigger] fs[i]) is Ok implies founds_plain(
                f(fs[i])->Ok_0,
            ) by {
                step_founds_plain(steps.last(), fs[i].0, fs[i].1);
            }
            bind_plain(fs, f);
        }
    }
}

/// The paths an expression selects are made of keys and indices.
proof fn selected_plain(e: Ex, v: Option<Val>, fx: Facts)
    ensures
        ex_founds(e, v, fx) is Ok ==> founds_plain(ex_founds(e, v, fx)->Ok_0),
    decreases e,
{
    match e {
        Ex::Path(steps) => {
            path_founds_plain(steps, v);
        },
        Ex::Pipe(a, b) => {
            selected_plain(*a, v, fx);
            if let Ok(fs) = ex_founds(*a, v, fx) {
                let f = founds_fn(*b, fx);
                assert forall|i: int| 0 <= i < fs.len() && f(#[trigger] fs[i]) is Ok implies founds_plain(
                    f(fs[i])->Ok_0,
                ) by {
                    selected_plain(*b, fs[i].1, fx);
                    let inner = ex_founds(*b, fs[i].1, fx)->Ok_0;
                    let out = f(fs[i])->Ok_0;
                    assert forall|k: int| 0 <= k < out.len() implies plain_path((#[trigger] out[k]).0) by {
                        let (x, y) = (fs[i].0, inner[k].0);
                        assert(out[k].0 == x + y);
                        assert forall|m: int| 0 <= m < (x + y).len() implies (#[trigger] (x + y)[m]) is Field
                            || (x + y)[m] is Index by {
                            if m < x.len() {
                                assert((x + y)[m] == x[m]);
                            } else {
                                assert((x + y)[m] == y[m - x.len()]);
                            }
                        }
                    }
                }
                bind_plain(fs, f);
            }
        },
        Ex::Comma(items) => {
            let s = upto(items.len());
            let f = nth_founds_fn(items, v, fx);
            assert forall|i: int| 0 <= i < s.len() && f(#[trigger] s[i]) is Ok implies founds_plain(
                f(s[i])->Ok_0,
            ) by {
                assert(s[i] == i);
                assert(decreases_to!(e => items[i]));
                selected_plain(items[i], v, fx);
            }
            bind_plain(s, f);
        },
        _ => {},
    }
}

/// A deletion through a path expression deletes exactly the paths the expression
/// selects, each once and strictly back to front.
pub proof fn lowered_deletions(e: Ex, lhs: Ex, doc: Val, fx: Facts)
    requires
        e is Call,
        target_of(e) == Some(lhs),
        ex_paths(lhs, doc, fx) is Ok,
    ensures
        ({
            let ps = ex_paths(lhs, doc, fx)->Ok_0;
            let q = deletion_order(ps);
            let ms = lowered(e, doc, fx)->Ok_0->0;
            &&& lowered(e, doc, fx) is Ok
            &&& lowered(e, doc, fx)->Ok_0 is Some
            &&& ms.len() == q.len()
            &&& forall|k: int|
                0 <= k < q.len() ==> #[trigger] ms[k] == Ex::Call("del"@, seq![Ex::Path(q[k])])
            &&& back_to_front(q)
            &&& q.no_duplicates()
            &&& forall|x: Seq<St>| q.contains(x) <==> ps.contains(x)
        }),
{
    let ps = ex_paths(lhs, doc, fx)->Ok_0;
    selected_plain(lhs, Some(doc), fx);
    let fs = ex_founds(lhs, Some(doc), fx)->Ok_0;
    assert forall|i: int| 0 <= i < ps.len() implies plain_path(#[trigger] ps[i]) by {
        assert(ps[i] == fs[i].0);
    }
    deletions_run_back_to_front(ps);
}

/// A value along the rest of a path.
spec fn along(p: Seq<St>) -> spec_fn(Val) -> Result<Seq<Val>, Er> {
    |v: Val| path_outs(p, v)
}

proof fn bind_sum<A, B>(a: Seq<A>, b: Seq<A>, f: spec_fn(A) -> Result<Seq<B>, Er>)
    ensures
        bind_all(a + b, f) == (match bind_all(a, f) {
            Err(e) => Err(e),
            Ok(x) => match bind_all(b, f) {
                Err(e) => Err(e),
                Ok(y) => Ok(x + y),
            },
        }),
    decreases b.len(),
{
    if b.len() == 0 {
        assert(a + b =~= a);
        if let Ok(x) = bind_all(a, f) {
            assert(x + Seq::<B>::empty() =~= x);
        }
    } else {
        assert((a + b).drop_last() =~= a + b.drop_last());
        bind_sum(a, b.drop_last(), f);
        if let Ok(x) = bind_all(a, f) {
            if let Ok(y) = bind_all(b.drop_last(), f) {
                if let Ok(z) = f(b.last()) {
                    assert((x + y) + z =~= x + (y + z));
                }
            }
        }
    }
}

/// A path one step longer, over a stream.
proof fn stream_steps(s: Seq<Val>, p: Seq<St>)
    requires
        p.len() > 0,
        bind_all(s, along(p.drop_last())) is Ok,
        bind_all(bind_all(s, along(p.drop_last()))->Ok_0, step_fn(p.last())) is Ok,
    ensures
        bind_all(s, along(p)) == bind_all(
            bind_all(s, along(p.drop_last()))->Ok_0,
            step_fn(p.last()),
        ),
    decreases s.len(),
{
    if s.len() > 0 {
        let f = along(p.drop_last());
        let g = step_fn(p.last());
        let a = bind_all(s.drop_last(), f)->Ok_0;
        let b = f(s.last())->Ok_0;
        bind_sum(a, b, g);
        stream_steps(s.drop_last(), p);
    }
}

/// What a path yields, it yields step by step from its front.
proof fn outs_from_front(p: Seq<St>, v: Val)
    requires
        p.len() > 0,
        path_outs(p, v) is Ok,
    ensures
        step_outs(p[0], v) is Ok,
        bind_all(step_outs(p[0], v)->Ok_0, along(p.drop_first())) == path_outs(p, v),
    decreases p.len(),
{
    let init = p.drop_last();
    let rest = p.drop_first();
    if p.len() == 1 {
        assert(init =~= Seq::<St>::empty());
        assert(rest =~= Seq::<St>::empty());
        let one = seq![v];
        assert(one.drop_last() =~= Seq::<Val>::empty());
        assert(bind_all(one.drop_last(), step_fn(p[0])) == Ok::<Seq<Val>, Er>(Seq::empty()));
        let s = step_outs(p[0], v)->Ok_0;
        assert(Seq::<Val>::empty() + s =~= s);
        identity_stream(s);
        assert(rest == Seq::<St>::empty());
    } else {
        outs_from_front(init, v);
        assert(init[0] == p[0]);
        assert(init.drop_first() =~= rest.drop_last());
        assert(rest.last() == p.last());
        let s = step_outs(p[0], v)->Ok_0;
        stream_steps(s, rest);
    }
}

proof fn identity_stream(s: Seq<Val>)
    ensures
        bind_all(s, along(Seq::empty())) == Ok::<Seq<Val>, Er>(s),
    decreases s.len(),
{
    if s.len() > 0 {
        identity_stream(s.drop_last());
        assert(s.drop_last() + seq![s.last()] =~= s);
    } else {
        assert(s =~= Seq::<Val>::empty());
    }
}

/// Is every array short enough for an index to reach its end?
pub open spec fn indexable(v: Val) -> bool
    decreases v,
{
    match v {
        Val::Array(a) => a.len() <= i64::MAX && a.len() <= usize::MAX && forall|i: int|
            0 <= i < a.len() ==> indexable(#[trigger] a[i]),
        Val::Object(m) => forall|i: int| 0 <= i < m.len() ==> indexable((#[trigger] m[i]).1),
        _ => true,
    }
}

/// Do the paths yield the values, one each?
pub open spec fn one_by_one(v: Val, ps: Seq<Seq<St>>, vs: Seq<Val>) -> bool {
    ps.len() == vs.len() && forall|i: int|
        0 <= i < ps.len() ==> plain_path(#[trigger] ps[i]) && path_outs(ps[i], v) == Ok::<
            Seq<Val>,
            Er,
        >(seq![vs[i]])
}

/// The expanded paths behind a step that leads to one value.
proof fn one_by_one_under(v: Val, st: St, x: Val, ps: Seq<Seq<St>>, vs: Seq<Val>)
    requires
        st is Field || st is Index,
        step_outs(st, v) == Ok::<Seq<Val>, Er>(seq![x]),
        one_by_one(x, ps, vs),
    ensures
        one_by_one(v, prefixed(seq![st], ps), vs),
{
    let qs = prefixed(seq![st], ps);
    assert forall|i: int| 0 <= i < qs.len() implies plain_path(#[trigger] qs[i]) && path_outs(qs[i], v)
        == Ok::<Seq<Val>, Er>(seq![vs[i]]) by {
        let q = qs[i];
        assert(q == seq![st] + ps[i]);
        assert(plain_path(ps[i]));
        assert forall|k: int| 0 <= k < q.len() implies (#[trigger] q[k]) is Field || q[k] is Index by {
            if k > 0 {
                assert(q[k] == ps[i][k - 1]);
            }
        }
        path_front(q, v);
        assert(q.drop_first() =~= ps[i]);
    }
}

proof fn one_by_one_sum(v: Val, ps: Seq<Seq<St>>, vs: Seq<Val>, qs: Seq<Seq<St>>, ws: Seq<Val>)
    requires
        one_by_one(v, ps, vs),
        one_by_one(v, qs, ws),
    ensures
        one_by_one(v, ps + qs, vs + ws),
{
    let all = ps + qs;
    assert forall|i: int| 0 <= i < all.len() implies plain_path(#[trigger] all[i]) && path_outs(all[i], v)
        == Ok::<Seq<Val>, Er>(seq![(vs + ws)[i]]) by {
        if i < ps.len() {
            assert(all[i] == ps[i]);
        } else {
            assert(all[i] == qs[i - ps.len()]);
        }
    }
}

proof fn elements_expand(steps: Seq<St>, a: Seq<Val>, n: nat)
    requires
        steps.len() > 0,
        n <= a.len() <= i64::MAX,
        a.len() <= usize::MAX,
        bind_all(a.take(n as int), along(steps.drop_first())) is Ok,
        forall|i: int| 0 <= i < a.len() ==> unique_keys(#[trigger] a[i]) && indexable(a[i]),
    ensures
        ({
            let r = bind_all(
                Seq::new(a.len(), |i: int| i).take(n as int),
                expand_nth_fn(steps.drop_first(), a),
            );
            r is Ok && one_by_one(
                Val::Array(a),
                r->Ok_0,
                bind_all(a.take(n as int), along(steps.drop_first()))->Ok_0,
            )
        }),
    decreases steps.len(), n,
{
    let rest = steps.drop_first();
    let ix = Seq::new(a.len(), |i: int| i);
    if n == 0 {
        assert(ix.take(0) =~= Seq::<int>::empty());
        assert(a.take(0) =~= Seq::<Val>::empty());
    } else {
        let m = (n - 1) as nat;
        assert(a.take(n as int).drop_last() =~= a.take(m as int));
        assert(ix.take(n as int).drop_last() =~= ix.take(m as int));
        elements_expand(steps, a, m);
        let x = a[m as int];
        assert(a.take(n as int).last() == x);
        assert(ix.take(n as int).last() == m as int);
        expanded_one_by_one(rest, x);
        let st = St::Index(m as i64);
        one_by_one_under(Val::Array(a), st, x, expanded(rest, x)->Ok_0, path_outs(rest, x)->Ok_0);
        one_by_one_sum(
            Val::Array(a),
            bind_all(ix.take(m as int), expand_nth_fn(rest, a))->Ok_0,
            bind_all(a.take(m as int), along(rest))->Ok_0,
            prefixed(seq![st], expanded(rest, x)->Ok_0),
            path_outs(rest, x)->Ok_0,
        );
    }
}

proof fn members_expand(steps: Seq<St>, m: Seq<(Seq<char>, Val)>, n: nat)
    requires
        steps.len() > 0,
        n <= m.len(),
        bind_all(member_values(m).take(n as int), along(steps.drop_first())) is Ok,
        unique_keys(Val::Object(m)),
        indexable(Val::Object(m)),
    ensures
        ({
            let r = bind_all(m.take(n as int), expand_member_fn(steps.drop_first()));
            r is Ok && one_by_one(
                Val::Object(m),
                r->Ok_0,
                bind_all(member_values(m).take(n as int), along(steps.drop_first()))->Ok_0,
            )
        }),
    decreases steps.len(), n,
{
    let rest = steps.drop_first();
    let mv = member_values(m);
    if n == 0 {
        assert(m.take(0) =~= Seq::<(Seq<char>, Val)>::empty());
        assert(mv.take(0) =~= Seq::<Val>::empty());
    } else {
        let k = (n - 1) as nat;
        assert(m.take(n as int).drop_last() =~= m.take(k as int));
        assert(mv.take(n as int).drop_last() =~= mv.take(k as int));
        members_expand(steps, m, k);
        let x = m[k as int].1;
        assert(mv.take(n as int).last() == x);
        assert(m.take(n as int).last() == m[k as int]);
        assert(unique_keys(m[k as int].1) && indexable(m[k as int].1));
        expanded_one_by_one(rest, x);
        let st = St::Field(m[k as int].0);
        key_from_is(m, m[k as int].0, 0, k as int);
        one_by_one_under(Val::Object(m), st, x, expanded(rest, x)->Ok_0, path_outs(rest, x)->Ok_0);
        one_by_one_sum(
            Val::Object(m),
            bind_all(m.take(k as int), expand_member_fn(rest))->Ok_0,
            bind_all(mv.take(k as int), along(rest))->Ok_0,
            prefixed(seq![st], expanded(rest, x)->Ok_0),
            path_outs(rest, x)->Ok_0,
        );
    }
}

/// Expanding a path gives one concrete path for each value the path yields, in
/// order, and each of them yields that value alone. It is stated of values in which
/// no object has a key twice.
pub proof fn expanded_one_by_one(steps: Seq<St>, v: Val)
    requires
        unique_keys(v),
        indexable(v),
        path_outs(steps, v) is Ok,
    ensures
        expanded(steps, v) is Ok,
        one_by_one(v, expanded(steps, v)->Ok_0, path_outs(steps, v)->Ok_0),
    decreases steps.len(),
{
    if steps.len() == 0 {
        let none = Seq::<St>::empty();
        assert(plain_path(none));
        assert(expanded(steps, v)->Ok_0 =~= seq![none]);
    } else {
        let rest = steps.drop_first();
        outs_from_front(steps, v);
        let s = step_outs(steps[0], v)->Ok_0;
        match (steps[0], v) {
            (St::Iterate, Val::Array(a)) => {
                assert(a.take(a.len() as int) =~= a);
                let ix = Seq::new(a.len(), |i: int| i);
                assert(ix.take(a.len() as int) =~= ix);
                elements_expand(steps, a, a.len());
            },
            (St::Iterate, Val::Object(m)) => {
                assert(m.take(m.len() as int) =~= m);
                let mv = member_values(m);
                assert(mv.take(m.len() as int) =~= mv);
                members_expand(steps, m, m.len());
            },
            (st, _) => {
                if s.len() > 0 {
                    assert(s.len() == 1);
                    let x = s[0];
                    assert(s =~= seq![x]);
                    assert(s.drop_last() =~= Seq::<Val>::empty());
                    assert(bind_all(s.drop_last(), along(rest)) == Ok::<Seq<Val>, Er>(Seq::empty()));
                    assert(path_outs(rest, x) is Ok);
                    assert(Seq::<Val>::empty() + path_outs(rest, x)->Ok_0 =~= path_outs(rest, x)->Ok_0);
                    assert(path_outs(steps, v) == path_outs(rest, x));
                    found_below(v, st, x);
                    expanded_one_by_one(rest, x);
                    one_by_one_under(v, st, x, expanded(rest, x)->Ok_0, path_outs(rest, x)->Ok_0);
                }
            },
        }
    }
}

proof fn found_below(v: Val, st: St, x: Val)
    requires
        unique_keys(v),
        indexable(v),
        st is Field || st is Index,
        step_outs(st, v) == Ok::<Seq<Val>, Er>(seq![x]),
    ensures
        unique_keys(x),
        indexable(x),
{
    let one = seq![x];
    assert(one[0] == x && one.len() == 1);
    assert(step_outs(st, v)->Ok_0 == one);
    match (st, v) {
        (St::Field(k), Val::Object(m)) => {
            key_at_bounds(m, k);
            let i = key_at(m, k);
            assert(step_outs(st, v)->Ok_0[0] == m[i].1);
            assert(unique_keys(m[i].1) && indexable(m[i].1));
        },
        (St::Index(i), Val::Array(a)) => {
            let n = resolved(i as int, a.len() as int)->0;
            assert(step_outs(st, v)->Ok_0[0] == a[n]);
            assert(unique_keys(a[n]) && indexable(a[n]));
        },
        _ => {},
    }
}

/// Does no scalar of the commented value hold a list?
pub open spec fn scalars_only(c: Cmt) -> bool
    decreases c,
{
    match c.node {
        CmtNode::Scalar(v) => !(v is Array) && !(v is Object),
        CmtNode::Array(a) => forall|i: int| 0 <= i < a.len() ==> scalars_only(#[trigger] a[i]),
        CmtNode::Object(m) => forall|i: int| 0 <= i < m.len() ==> scalars_only((#[trigger] m[i]).1),
    }
}

/// Are the nodes' values the values, one by one?
pub open spec fn stand_for(cs: Seq<Cmt>, vs: Seq<Val>) -> bool {
    cs.len() == vs.len() && forall|i: int|
        0 <= i < cs.len() ==> plain(#[trigger] cs[i]) == vs[i] && scalars_only(cs[i])
}

proof fn entry_key_at(m: Seq<(Seq<char>, Cmt)>, k: Seq<char>, i: int)
    requires
        0 <= i <= m.len(),
    ensures
        crate::value::key_from(plain_members(m), k, i) == entry_from(m, k, i),
    decreases m.len() - i,
{
    if i < m.len() {
        assert(plain_members(m)[i].0 == m[i].0);
        entry_key_at(m, k, i + 1);
    }
}

proof fn step_descends(c: Cmt, st: St)
    requires
        scalars_only(c),
        step_outs(st, plain(c)) is Ok,
    ensures
        stand_for(step_nodes(c, st), step_outs(st, plain(c))->Ok_0),
{
    match c.node {
        CmtNode::Object(m) => {
            let pm = plain_members(m);
            assert(plain(c) == Val::Object(pm));
            if let St::Field(k) = st {
                entry_key_at(m, k, 0);
                key_at_bounds(pm, k);
                let i = entry_from(m, k, 0);
                if 0 <= i < m.len() {
                    assert(pm[i].1 == plain(m[i].1));
                    assert(scalars_only(m[i].1));
                }
            } else if st is Iterate {
                let ns = step_nodes(c, st);
                let vs = member_values(pm);
                assert forall|i: int| 0 <= i < ns.len() implies plain(#[trigger] ns[i]) == vs[i]
                    && scalars_only(ns[i]) by {
                    assert(ns[i] == m[i].1);
                    assert(pm[i].1 == plain(m[i].1));
                }
            }
        },
        CmtNode::Array(a) => {
            let pa = plain_all(a);
            assert(plain(c) == Val::Array(pa));
            if let St::Index(i) = st {
                if let Some(n) = resolved(i as int, a.len() as int) {
                    assert(pa[n] == plain(a[n]));
                    assert(scalars_only(a[n]));
                }
            } else if st is Iterate {
                assert forall|i: int| 0 <= i < a.len() implies plain(#[trigger] a[i]) == pa[i]
                    && scalars_only(a[i]) by {}
            }
        },
        CmtNode::Scalar(_) => {},
    }
}

proof fn stream_descends(cs: Seq<Cmt>, vs: Seq<Val>, st: St)
    requires
        stand_for(cs, vs),
        bind_all(vs, step_fn(st)) is Ok,
    ensures
        stand_for(steps_nodes(cs, st), bind_all(vs, step_fn(st))->Ok_0),
    decreases cs.len(),
{
    if cs.len() > 0 {
        let (ci, vi) = (cs.drop_last(), vs.drop_last());
        assert forall|i: int| 0 <= i < ci.len() implies plain(#[trigger] ci[i]) == vi[i] && scalars_only(
            ci[i],
        ) by {
            assert(ci[i] == cs[i]);
        }
        stream_descends(ci, vi, st);
        assert(cs[cs.len() - 1] == cs.last());
        step_descends(cs.last(), st);
        let a = steps_nodes(ci, st);
        let b = step_nodes(cs.last(), st);
        let x = bind_all(vi, step_fn(st))->Ok_0;
        let y = step_outs(st, vs.last())->Ok_0;
        assert forall|i: int| 0 <= i < (a + b).len() implies plain(#[trigger] (a + b)[i]) == (x + y)[i]
            && scalars_only((a + b)[i]) by {
            if i < a.len() {
                assert((a + b)[i] == a[i]);
            } else {
                assert((a + b)[i] == b[i - a.len()]);
            }
        }
    }
}

/// Walking a commented value along a path finds the nodes whose values the path
/// yields on the plain value, one by one.
pub proof fn descending_is_evaluating(c: Cmt, path: Seq<St>)
    requires
        scalars_only(c),
        path_outs(path, plain(c)) is Ok,
    ensures
        stand_for(nodes_at(c, path), path_outs(path, plain(c))->Ok_0),
    decreases path.len(),
{
    if path.len() > 0 {
        descending_is_evaluating(c, path.drop_last());
        stream_descends(
            nodes_at(c, path.drop_last()),
            path_outs(path.drop_last(), plain(c))->Ok_0,
            path.last(),
        );
    }
}

/// Do the two paths part, at different keys or at different places counted from
/// the front?
pub open spec fn parted(p: Seq<St>, q: Seq<St>) -> bool
    decreases p.len(),
{
    p.len() > 0 && q.len() > 0 && ((p[0] is Field && q[0] is Field && p[0] != q[0]) || (p[0] is Index
        && q[0] is Index && p[0] != q[0] && p[0]->Index_0 >= 0 && q[0]->Index_0 >= 0) || (p[0] == q[0]
        && parted(p.drop_first(), q.drop_first())))
}

/// An assignment leaves what is there elsewhere as it is: under other keys, and at
/// other places of an array.
pub proof fn assigning_leaves_what_is_there(v: Val, p: Seq<St>, q: Seq<St>, new: Val)
    requires
        plain_path(p),
        plain_path(q),
        parted(p, q),
        path_outs(q, v) is Ok,
        path_outs(q, v)->Ok_0.len() > 0,
        set_at(v, p, new) is Ok,
    ensures
        path_outs(q, set_at(v, p, new)->Ok_0) == path_outs(q, v),
    decreases p.len(),
{
    let rest = p.drop_first();
    let qrest = q.drop_first();
    rest_is_plain(p);
    rest_is_plain(q);
    let w = set_at(v, p, new)->Ok_0;
    path_front(q, w);
    path_front(q, v);
    assert(p[0] is Field || p[0] is Index);
    match p[0] {
        St::Field(k) => {
            let m = v->Object_0;
            let other = q[0]->Field_0;
            key_at_bounds(m, k);
            key_at_bounds(m, other);
            let i = key_at(m, k);
            let j = key_at(m, other);
            assert(0 <= j < m.len());
            if i < m.len() {
                let x = set_at(m[i].1, rest, new)->Ok_0;
                let n = m.update(i, (m[i].0, x));
                crate::eval_laws::keys_place(m, n, other);
                if other == k {
                    assigning_leaves_what_is_there(m[i].1, rest, qrest, new);
                } else {
                    assert(n[j] == m[j]);
                }
            } else {
                let x = set_at(Val::Null, rest, new)->Ok_0;
                crate::eval_laws::pushed_place(m, k, x, other);
            }
        },
        St::Index(i) => {
            let a = v->Array_0;
            let n = normalized(i as int, a.len() as int)->0;
            let b = null_filled(a, n + 1);
            let j = resolved(q[0]->Index_0 as int, a.len() as int)->0;
            assert(b[j] == a[j]);
            if j == n {
                assigning_leaves_what_is_there(a[n], rest, qrest, new);
            }
        },
        _ => {},
    }
}

} // verus!
