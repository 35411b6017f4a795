//! Path expressions: resolving an expression to the concrete paths it selects
//! (jq's `path(f)`), and lowering an assignment whose left side is such an
//! expression into one plain-path assignment per match.
//!
//! `(.items[] | select(.id == "b") | .n) = 5` resolves its left side against
//! the document to `.items[1].n`, then applies `.items[1].n = 5` through the
//! format's ordinary single-path edit.
use crate::error::{Er, EvalError};
use crate::eval::{cannot_field, cannot_index, cannot_iterate, clone_steps, eval, first_value, path_list};
use crate::float::{Facts, FloatFacts};
use crate::index::resolve_index;
use crate::model::{
    exs, group_expr_views, group_value_views, members, paths_view, steps_of, vals, Ex, Expr, St, Step, Val, Value,
};
use crate::semantics::{
    add_assign_fn, add_at, add_each_fn, any_truthy, assign_fn, builtin_of, call_outs, deduped,
    del_at, del_each_fn, fold_paths, one_value, plain_outs, set_at, set_each_fn, single, update_at,
    update_each_fn, Builtin, deletion_order, ex_eval, ex_founds, ex_paths, found_paths, founds_fn,
    last_first, nth_founds_fn, path_founds, path_rank, path_val, step_founds, step_founds_fn,
    step_rank, upto, Found,
};
use crate::seqs::{bind_all, bind_step, bind_stop, insert_at, lex_rank, map_all, sort_with, Rank};
use crate::strs::same;
use crate::value::{find_key, get_key, key_at_bounds, rank_texts, truthy};
use vstd::prelude::*;
use vstd::string::*;

verus! {

broadcast use {group_value_views, group_expr_views};

/// A concrete path plus the value found there (`None` when the path names a key
/// or index that doesn't exist yet), borrowed from the input.
pub type Resolved<'v> = (Vec<Step>, Option<&'v Value>);

/// The content of an optional value.
pub open spec fn opt_val(v: Option<&Value>) -> Option<Val> {
    match v {
        Some(x) => Some(x@),
        None => None,
    }
}

/// The contents of resolved positions.
pub open spec fn founds_view(s: Seq<Resolved<'_>>) -> Seq<Found> {
    Seq::new(s.len(), |i: int| (steps_of(s[i].0@), opt_val(s[i].1)))
}

pub broadcast proof fn founds_push(s: Seq<Resolved<'_>>, x: Resolved<'_>)
    ensures
        #[trigger] founds_view(s.push(x)) == founds_view(s).push((steps_of(x.0@), opt_val(x.1))),
{
    assert(founds_view(s.push(x)) =~= founds_view(s).push((steps_of(x.0@), opt_val(x.1))));
}

/// The view of a resolution.
pub open spec fn founds(r: Result<Vec<Resolved<'_>>, EvalError>) -> Result<Seq<Found>, Er> {
    match r {
        Ok(s) => Ok(founds_view(s@)),
        Err(e) => Err(e@),
    }
}

fn found<'v>(path: &Vec<Step>, st: Step, child: Option<&'v Value>) -> (r: Resolved<'v>)
    ensures
        steps_of(r.0@) == steps_of(path@).push(st@),
        r.1 == child,
{
    let mut p = clone_steps(path);
    p.push(st);
    (p, child)
}

/// Apply one navigation step to a resolved path, pushing each continuation.
fn step_paths<'v>(step: &Step, path: &Vec<Step>, v: Option<&'v Value>, out: &mut Vec<Resolved<'v>>) -> (r: Result<
    (),
    EvalError,
>)
    ensures
        match step_founds(step@, steps_of(path@), opt_val(v)) {
            Ok(fs) => r is Ok && founds_view(final(out)@) == founds_view(old(out)@) + fs,
            Err(e) => r is Err && r->Err_0@ == e,
        },
{
    broadcast use founds_push;

    let ghost before = founds_view(out@);
    let ghost p = steps_of(path@);
    match step {
        Step::Field(k) => {
            match v {
                Some(Value::Object(m)) => {
                    let i = find_key(m, k);
                    proof {
                        key_at_bounds(members(m@), k@);
                    }
                    let child = if i < m.len() {
                        Some(&m[i].1)
                    } else {
                        None
                    };
                    assert(opt_val(child) == get_key(members(m@), k@));
                    out.push(found(path, step.clone(), child));
                    assert(founds_view(out@) =~= before + seq![
                        (p.push(step@), get_key(members(m@), k@)),
                    ]);
                },
                Some(Value::Null) | None => {
                    out.push(found(path, step.clone(), None));
                    assert(founds_view(out@) =~= before + seq![(p.push(step@), None::<Val>)]);
                },
                Some(other) => {
                    return Err(cannot_field(other, k));
                },
            }
        },
        Step::Index(i) => {
            match v {
                Some(Value::Array(a)) => {
                    // Normalize a negative index against the array, so the path
                    // names the element it resolved to.
                    match resolve_index(*i, a.len()) {
                        Some(n) => {
                            out.push(found(path, Step::Index(n as i64), Some(&a[n])));
                            assert(founds_view(out@) =~= before + seq![
                                (p.push(St::Index(n as i64)), Some(vals(a@)[n as int])),
                            ]);
                        },
                        None => {
                            out.push(found(path, step.clone(), None));
                            assert(founds_view(out@) =~= before + seq![
                                (p.push(step@), None::<Val>),
                            ]);
                        },
                    }
                },
                Some(Value::Null) | None => {
                    out.push(found(path, step.clone(), None));
                    assert(founds_view(out@) =~= before + seq![(p.push(step@), None::<Val>)]);
                },
                Some(other) => {
                    return Err(cannot_index(other));
                },
            }
        },
        Step::Iterate => {
            match v {
                Some(Value::Array(a)) => {
                    let ghost all = Seq::new(
                        vals(a@).len(),
                        |i: int| (p.push(St::Index(i as i64)), Some(vals(a@)[i])),
                    );
                    let mut n: usize = 0;
                    assert(founds_view(out@) =~= before + all.take(0));
                    while n < a.len()
                        invariant
                            n <= a.len(),
                            p == steps_of(path@),
                            all == Seq::new(
                                vals(a@).len(),
                                |i: int| (p.push(St::Index(i as i64)), Some(vals(a@)[i])),
                            ),
                            founds_view(out@) == before + all.take(n as int),
                        decreases a.len() - n,
                    {
                        out.push(found(path, Step::Index(n as i64), Some(&a[n])));
                        assert(before + all.take(n + 1) =~= (before + all.take(n as int)).push(
                            all[n as int],
                        ));
                        n = n + 1;
                    }
                    assert(all.take(n as int) =~= all);
                },
                Some(Value::Object(m)) => {
                    let ghost all = Seq::new(
                        members(m@).len(),
                        |i: int| (p.push(St::Field(members(m@)[i].0)), Some(members(m@)[i].1)),
                    );
                    let mut n: usize = 0;
                    assert(founds_view(out@) =~= before + all.take(0));
                    while n < m.len()
                        invariant
                            n <= m.len(),
                            p == steps_of(path@),
                            all == Seq::new(
                                members(m@).len(),
                                |i: int|
                                    (p.push(St::Field(members(m@)[i].0)), Some(members(m@)[i].1)),
                            ),
                            founds_view(out@) == before + all.take(n as int),
                        decreases m.len() - n,
                    {
                        out.push(found(path, Step::Field(m[n].0.clone()), Some(&m[n].1)));
                        assert(before + all.take(n + 1) =~= (before + all.take(n as int)).push(
                            all[n as int],
                        ));
                        n = n + 1;
                    }
                    assert(all.take(n as int) =~= all);
                },
                // Nothing there: nothing to iterate, a miss like a query's.
                None => {
                    assert(founds_view(out@) =~= before + Seq::empty());
                },
                Some(other) => {
                    return Err(cannot_iterate(other));
                },
            }
        },
        Step::Comment(_) => {
            return Err(
                EvalError::new(
                    "a comment (`#`) can't be part of a path expression; a comment edit takes a plain path like `.foo.#`",
                ),
            );
        },
    }
    Ok(())
}

fn step_all<'v>(step: &Step, stream: &Vec<Resolved<'v>>) -> (r: Result<Vec<Resolved<'v>>, EvalError>)
    ensures
        founds(r) == bind_all(founds_view(stream@), step_founds_fn(step@)),
{
    let mut next: Vec<Resolved<'v>> = Vec::new();
    let ghost all = founds_view(stream@);
    let ghost f = step_founds_fn(step@);
    assert(founds_view(next@) =~= Seq::<Found>::empty());
    let mut i: usize = 0;
    while i < stream.len()
        invariant
            i <= stream.len(),
            all == founds_view(stream@),
            f == step_founds_fn(step@),
            bind_all(all.take(i as int), f) == Ok::<Seq<Found>, Er>(founds_view(next@)),
        decreases stream.len() - i,
    {
        proof {
            bind_step(all, f, i as int);
            assert(all[i as int] == (steps_of(stream@[i as int].0@), opt_val(stream@[i as int].1)));
        }
        match step_paths(step, &stream[i].0, stream[i].1, &mut next) {
            Err(e) => {
                proof {
                    bind_stop(all, f, i + 1);
                }
                return Err(e);
            },
            Ok(_) => {},
        }
        i = i + 1;
    }
    assert(all.take(i as int) =~= all);
    Ok(next)
}

proof fn founds_stop(steps: Seq<St>, v: Option<Val>, i: int)
    requires
        0 <= i <= steps.len(),
        path_founds(steps.take(i), v) is Err,
    ensures
        path_founds(steps, v) == path_founds(steps.take(i), v),
    decreases steps.len() - i,
{
    if i == steps.len() {
        assert(steps.take(i) =~= steps);
    } else {
        assert(steps.take(i + 1).drop_last() =~= steps.take(i));
        founds_stop(steps, v, i + 1);
    }
}

fn resolve_path<'v>(steps: &Vec<Step>, input: Option<&'v Value>) -> (r: Result<
    Vec<Resolved<'v>>,
    EvalError,
>)
    ensures
        founds(r) == path_founds(steps_of(steps@), opt_val(input)),
{
    let mut stream: Vec<Resolved<'v>> = Vec::new();
    let here: Vec<Step> = Vec::new();
    assert(steps_of(here@) =~= Seq::<St>::empty());
    stream.push((here, input));
    let ghost all = steps_of(steps@);
    assert(founds_view(stream@) =~= seq![(Seq::<St>::empty(), opt_val(input))]);
    let mut i: usize = 0;
    while i < steps.len()
        invariant
            i <= steps.len(),
            all == steps_of(steps@),
            path_founds(all.take(i as int), opt_val(input)) == Ok::<Seq<Found>, Er>(
                founds_view(stream@),
            ),
        decreases steps.len() - i,
    {
        assert(all.take(i + 1).drop_last() =~= all.take(i as int));
        match step_all(&steps[i], &stream) {
            Err(e) => {
                proof {
                    founds_stop(all, opt_val(input), i + 1);
                }
                return Err(e);
            },
            Ok(next) => {
                stream = next;
            },
        }
        i = i + 1;
    }
    assert(all.take(i as int) =~= all);
    Ok(stream)
}

/// Resolve `b` below each position.
fn resolve_each<'v>(b: &Expr, stream: &Vec<Resolved<'v>>, facts: &FloatFacts) -> (r: Result<
    Vec<Resolved<'v>>,
    EvalError,
>)
    ensures
        founds(r) == bind_all(founds_view(stream@), founds_fn(b@, facts@)),
    decreases b, 1int, 0int, 0int,
{
    let mut out: Vec<Resolved<'v>> = Vec::new();
    let ghost all = founds_view(stream@);
    let ghost f = founds_fn(b@, facts@);
    assert(founds_view(out@) =~= Seq::<Found>::empty());
    let mut i: usize = 0;
    while i < stream.len()
        invariant
            i <= stream.len(),
            all == founds_view(stream@),
            f == founds_fn(b@, facts@),
            bind_all(all.take(i as int), f) == Ok::<Seq<Found>, Er>(founds_view(out@)),
        decreases stream.len() - i,
    {
        proof {
            bind_step(all, f, i as int);
            assert(all[i as int] == (steps_of(stream@[i as int].0@), opt_val(stream@[i as int].1)));
        }
        match resolve(b, stream[i].1, facts) {
            Err(e) => {
                proof {
                    bind_stop(all, f, i + 1);
                }
                return Err(e);
            },
            Ok(tails) => {
                let ghost before = founds_view(out@);
                let ghost pre = steps_of(stream@[i as int].0@);
                let ghost ts = founds_view(tails@);
                let ghost more = Seq::new(ts.len(), |i: int| (pre + ts[i].0, ts[i].1));
                assert(founds_view(out@) =~= before + more.take(0));
                let mut j: usize = 0;
                while j < tails.len()
                    invariant
                        j <= tails.len(),
                        i < stream.len(),
                        pre == steps_of(stream@[i as int].0@),
                        ts == founds_view(tails@),
                        more == Seq::new(ts.len(), |i: int| (pre + ts[i].0, ts[i].1)),
                        founds_view(out@) == before + more.take(j as int),
                    decreases tails.len() - j,
                {
                    broadcast use founds_push;

                    let mut path = clone_steps(&stream[i].0);
                    let mut tail = clone_steps(&tails[j].0);
                    let ghost a = steps_of(path@);
                    let ghost b = steps_of(tail@);
                    path.append(&mut tail);
                    assert(steps_of(path@) =~= a + b);
                    out.push((path, tails[j].1));
                    assert(more[j as int] == (pre + ts[j as int].0, ts[j as int].1));
                    assert(before + more.take(j + 1) =~= (before + more.take(j as int)).push(
                        more[j as int],
                    ));
                    j = j + 1;
                }
                assert(more.take(j as int) =~= more);
            },
        }
        i = i + 1;
    }
    assert(all.take(i as int) =~= all);
    Ok(out)
}

fn resolve_items<'v>(items: &Vec<Expr>, input: Option<&'v Value>, facts: &FloatFacts) -> (r: Result<
    Vec<Resolved<'v>>,
    EvalError,
>)
    ensures
        founds(r) == bind_all(
            upto(items@.len()),
            nth_founds_fn(exs(items@), opt_val(input), facts@),
        ),
    decreases items, 1int, 0int, 0int,
{
    let mut out: Vec<Resolved<'v>> = Vec::new();
    let ghost ix = upto(items@.len());
    let ghost f = nth_founds_fn(exs(items@), opt_val(input), facts@);
    assert(founds_view(out@) =~= Seq::<Found>::empty());
    let mut i: usize = 0;
    while i < items.len()
        invariant
            i <= items.len(),
            ix == upto(items@.len()),
            f == nth_founds_fn(exs(items@), opt_val(input), facts@),
            bind_all(ix.take(i as int), f) == Ok::<Seq<Found>, Er>(founds_view(out@)),
        decreases items.len() - i,
    {
        proof {
            bind_step(ix, f, i as int);
        }
        match resolve(&items[i], input, facts) {
            Err(e) => {
                proof {
                    bind_stop(ix, f, i + 1);
                }
                return Err(e);
            },
            Ok(mut more) => {
                let ghost a = founds_view(out@);
                let ghost b = founds_view(more@);
                out.append(&mut more);
                assert(founds_view(out@) =~= a + b);
            },
        }
        i = i + 1;
    }
    assert(ix.take(i as int) =~= ix);
    Ok(out)
}

fn any_holds(s: &Vec<Value>) -> (r: bool)
    ensures
        r == any_truthy(vals(s@)),
{
    let mut i: usize = 0;
    while i < s.len()
        invariant
            i <= s.len(),
            forall|j: int| 0 <= j < i ==> !truthy(#[trigger] vals(s@)[j]),
        decreases s.len() - i,
    {
        assert(vals(s@)[i as int] == s@[i as int]@);
        if s[i].is_truthy() {
            return true;
        }
        i = i + 1;
    }
    false
}

/// Resolve a path expression below `input` to the positions it selects.
pub fn resolve<'v>(expr: &Expr, input: Option<&'v Value>, facts: &FloatFacts) -> (r: Result<
    Vec<Resolved<'v>>,
    EvalError,
>)
    ensures
        founds(r) == ex_founds(expr@, opt_val(input), facts@),
    decreases expr, 0int, 0int, 0int,
{
    match expr {
        Expr::Path(steps) => resolve_path(steps, input),
        Expr::Pipe(a, b) => {
            let stream = resolve(a, input, facts)?;
            resolve_each(b, &stream, facts)
        },
        Expr::Comma(items) => resolve_items(items, input, facts),
        Expr::Call(name, args) => {
            if same(name, "select") && args.len() == 1 {
                // The predicate sees `null` at a path that doesn't exist, as in
                // jq.
                let conds = match input {
                    Some(v) => eval(&args[0], v, facts)?,
                    None => eval(&args[0], &Value::Null, facts)?,
                };
                let mut out: Vec<Resolved<'v>> = Vec::new();
                if any_holds(&conds) {
                    let here: Vec<Step> = Vec::new();
                    assert(steps_of(here@) =~= Seq::<St>::empty());
                    out.push((here, input));
                    assert(founds_view(out@) =~= seq![(Seq::<St>::empty(), opt_val(input))]);
                } else {
                    assert(founds_view(out@) =~= Seq::<Found>::empty());
                }
                return Ok(out);
            }
            Err(not_path())
        },
        _ => Err(not_path()),
    }
}

fn not_path() -> (r: EvalError)
    ensures
        r@ == crate::semantics::not_a_path(),
{
    EvalError::new(
        "left side of an assignment must be a path (a path, `[]`, `select(...)`, joined by `|` or `,`)",
    )
}

/// Resolve `expr`, a path expression, against `input` into the concrete,
/// iterate-free paths it selects, in document order.
///
/// A path expression is a plain path (`.a.b[0]`, `.a[]`), `select(pred)`, and
/// any `|` or `,` composition of them. The walk mirrors a query: a missing key
/// or index still resolves to its own path (so `=` can create it), `[]` over
/// something missing resolves to nothing, and stepping into the wrong type
/// errors as evaluation does. Anything else is not a path expression.
pub fn eval_paths(expr: &Expr, input: &Value, facts: &FloatFacts) -> (r: Result<
    Vec<Vec<Step>>,
    EvalError,
>)
    ensures
        path_list(r) == ex_paths(expr@, input@, facts@),
    decreases expr, 1int, 0int, 0int,
{
    let stream = resolve(expr, Some(input), facts)?;
    let ghost all = found_paths(founds_view(stream@));
    let mut out: Vec<Vec<Step>> = Vec::new();
    assert(paths_view(out@) =~= all.take(0));
    let mut i: usize = 0;
    while i < stream.len()
        invariant
            i <= stream.len(),
            all == found_paths(founds_view(stream@)),
            paths_view(out@) == all.take(i as int),
        decreases stream.len() - i,
    {
        out.push(clone_steps(&stream[i].0));
        assert(all.take(i + 1) =~= all.take(i as int).push(all[i as int]));
        i = i + 1;
    }
    assert(all.take(i as int) =~= all);
    Ok(out)
}

/// A concrete path as jq's path array: `.items[1].n` is `["items", 1, "n"]`.
pub fn path_to_value(steps: &Vec<Step>) -> (r: Value)
    ensures
        r@ == path_val(steps_of(steps@)),
{
    let mut out: Vec<Value> = Vec::new();
    let ghost all = path_val(steps_of(steps@))->Array_0;
    assert(vals(out@) =~= all.take(0));
    let mut i: usize = 0;
    while i < steps.len()
        invariant
            i <= steps.len(),
            all == path_val(steps_of(steps@))->Array_0,
            vals(out@) == all.take(i as int),
        decreases steps.len() - i,
    {
        let v = match &steps[i] {
            Step::Field(k) => Value::Str(k.clone()),
            Step::Index(n) => Value::Int(*n),
            // A concrete path holds neither of these.
            Step::Iterate | Step::Comment(_) => Value::Null,
        };
        assert(v@ == all[i as int]);
        out.push(v);
        assert(all.take(i + 1) =~= all.take(i as int).push(all[i as int]));
        i = i + 1;
    }
    assert(all.take(i as int) =~= all);
    Value::Array(out)
}

fn rank_steps(a: &Step, b: &Step) -> (r: Rank)
    ensures
        r == step_rank(a@, b@),
{
    match (a, b) {
        (Step::Index(i), Step::Index(j)) => if *i < *j {
            Rank::Below
        } else if *i > *j {
            Rank::Above
        } else {
            Rank::Level
        },
        (Step::Field(k), Step::Field(l)) => rank_texts(k, l),
        (Step::Index(_), _) => Rank::Below,
        (_, Step::Index(_)) => Rank::Above,
        _ => Rank::Level,
    }
}

/// Document order over concrete paths: indices numerically, keys by name
/// (sibling keys never shift each other, so any consistent order will do).
pub fn rank_paths(a: &Vec<Step>, b: &Vec<Step>) -> (r: Rank)
    ensures
        r == path_rank(steps_of(a@), steps_of(b@)),
{
    let ghost f = |x: St, y: St| step_rank(x, y);
    let mut i: usize = 0;
    while i < a.len() && i < b.len()
        invariant
            i <= a.len(),
            i <= b.len(),
            f == (|x: St, y: St| step_rank(x, y)),
            lex_rank(steps_of(a@), steps_of(b@), f, 0) == lex_rank(
                steps_of(a@),
                steps_of(b@),
                f,
                i as int,
            ),
        decreases a.len() - i,
    {
        let r = rank_steps(&a[i], &b[i]);
        if r != Rank::Level {
            return r;
        }
        i = i + 1;
    }
    if a.len() < b.len() {
        Rank::Below
    } else if a.len() > b.len() {
        Rank::Above
    } else {
        Rank::Level
    }
}

fn same_step(a: &Step, b: &Step) -> (r: bool)
    ensures
        r == (a@ == b@),
{
    match (a, b) {
        (Step::Field(k), Step::Field(l)) => same(k, l),
        (Step::Index(i), Step::Index(j)) => *i == *j,
        (Step::Iterate, Step::Iterate) => true,
        (Step::Comment(x), Step::Comment(y)) => *x == *y,
        _ => false,
    }
}

/// Are the two paths equal?
pub fn same_path(a: &Vec<Step>, b: &Vec<Step>) -> (r: bool)
    ensures
        r == (steps_of(a@) == steps_of(b@)),
{
    if a.len() != b.len() {
        assert(steps_of(a@).len() != steps_of(b@).len());
        return false;
    }
    let mut i: usize = 0;
    while i < a.len()
        invariant
            i <= a.len(),
            a.len() == b.len(),
            forall|j: int| 0 <= j < i ==> #[trigger] steps_of(a@)[j] == steps_of(b@)[j],
        decreases a.len() - i,
    {
        if !same_step(&a[i], &b[i]) {
            assert(steps_of(a@)[i as int] != steps_of(b@)[i as int]);
            return false;
        }
        i = i + 1;
    }
    assert(steps_of(a@) =~= steps_of(b@));
    true
}

/// The paths sorted back to front.
fn sort_back_to_front(paths: &Vec<Vec<Step>>) -> (r: Vec<Vec<Step>>)
    ensures
        paths_view(r@) == sort_with(paths_view(paths@), last_first()),
{
    let mut out: Vec<Vec<Step>> = Vec::new();
    let ghost all = paths_view(paths@);
    assert(paths_view(out@) =~= all.take(0));
    let mut i: usize = 0;
    while i < paths.len()
        invariant
            i <= paths.len(),
            all == paths_view(paths@),
            paths_view(out@) == sort_with(all.take(i as int), last_first()),
        decreases paths.len() - i,
    {
        let mut p: usize = out.len();
        while p > 0 && rank_paths(&paths[i], &out[p - 1]) == Rank::Above
            invariant
                p <= out.len(),
                i < paths.len(),
                forall|j: int|
                    p <= j < out.len() ==> path_rank(
                        steps_of(paths@[i as int]@),
                        #[trigger] paths_view(out@)[j],
                    ) == Rank::Above,
            decreases p,
        {
            p = p - 1;
        }
        let ghost x = steps_of(paths@[i as int]@);
        proof {
            assert(all.take(i + 1).drop_last() =~= all.take(i as int));
            assert(all.take(i + 1).last() == x);
            insert_at(paths_view(out@), x, last_first(), p as int);
        }
        let ghost before = paths_view(out@);
        out.insert(p, clone_steps(&paths[i]));
        assert(paths_view(out@) =~= before.insert(p as int, x));
        i = i + 1;
    }
    assert(all.take(i as int) =~= all);
    out
}

/// The paths in the order in which they are deleted: back to front, so earlier
/// indices stay valid, each once.
pub fn order_deletions(paths: &Vec<Vec<Step>>) -> (r: Vec<Vec<Step>>)
    ensures
        paths_view(r@) == deletion_order(paths_view(paths@)),
{
    let sorted = sort_back_to_front(paths);
    let ghost all = paths_view(sorted@);
    let mut out: Vec<Vec<Step>> = Vec::new();
    assert(paths_view(out@) =~= all.take(0));
    let mut i: usize = 0;
    while i < sorted.len()
        invariant
            i <= sorted.len(),
            all == paths_view(sorted@),
            paths_view(out@) == deduped(all.take(i as int)),
        decreases sorted.len() - i,
    {
        assert(all.take(i + 1).drop_last() =~= all.take(i as int));
        assert(all.take(i + 1).last() == all[i as int]);
        if i > 0 {
            assert(all.take(i + 1)[i - 1] == all[i - 1]);
        }
        if i == 0 || !same_path(&sorted[i], &sorted[i - 1]) {
            out.push(clone_steps(&sorted[i]));
        }
        i = i + 1;
    }
    assert(all.take(i as int) =~= all);
    out
}

/// The left side of a mutation when it is a path expression rather than a plain
/// path.
pub open spec fn target_of(e: Ex) -> Option<Ex> {
    let lhs = match e {
        Ex::Assign(l, _) => Some(*l),
        Ex::UpdateAssign(l, _) => Some(*l),
        Ex::AddAssign(l, _) => Some(*l),
        Ex::Call(name, args) => if name == "del"@ && args.len() == 1 {
            Some(args[0])
        } else {
            None
        },
        _ => None,
    };
    match lhs {
        Some(Ex::Path(_)) => None,
        _ => lhs,
    }
}

/// A path as an expression.
pub open spec fn at_path(p: Seq<St>) -> Box<Ex> {
    Box::new(Ex::Path(p))
}

/// One plain-path mutation per path.
pub open spec fn mutation_at(e: Ex, p: Seq<St>, new: Val) -> Ex {
    match e {
        Ex::Assign(_, _) => Ex::Assign(at_path(p), Box::new(Ex::Literal(new))),
        Ex::AddAssign(_, _) => Ex::AddAssign(at_path(p), Box::new(Ex::Literal(new))),
        Ex::UpdateAssign(_, r) => Ex::UpdateAssign(at_path(p), r),
        _ => Ex::Call("del"@, seq![Ex::Path(p)]),
    }
}

/// The mutation at each path.
pub open spec fn mutations_at(e: Ex, paths: Seq<Seq<St>>, new: Val) -> Seq<Ex> {
    Seq::new(paths.len(), |i: int| mutation_at(e, paths[i], new))
}

/// What a mutation through a path expression lowers to: one plain-path mutation
/// per concrete path. `None` when it needs no lowering.
pub open spec fn lowered(e: Ex, doc: Val, fx: Facts) -> Result<Option<Seq<Ex>>, Er> {
    match target_of(e) {
        None => Ok(None),
        Some(lhs) => match ex_paths(lhs, doc, fx) {
            Err(x) => Err(x),
            Ok(paths) => match e {
                Ex::UpdateAssign(_, _) => Ok(Some(mutations_at(e, paths, Val::Null))),
                Ex::Assign(_, r) => lowered_with(e, *r, paths, doc, fx),
                Ex::AddAssign(_, r) => lowered_with(e, *r, paths, doc, fx),
                _ => Ok(Some(mutations_at(e, deletion_order(paths), Val::Null))),
            },
        },
    }
}

/// The lowering of `=` and `+=`: the right side once, against the whole
/// document.
pub open spec fn lowered_with(e: Ex, r: Ex, paths: Seq<Seq<St>>, doc: Val, fx: Facts) -> Result<
    Option<Seq<Ex>>,
    Er,
> {
    if paths.len() == 0 {
        Ok(Some(Seq::empty()))
    } else {
        match one_value(ex_eval(r, doc, fx)) {
            Err(x) => Err(x),
            Ok(new) => Ok(Some(mutations_at(e, paths, new))),
        }
    }
}

/// The left side of a mutation when it is a path expression rather than a plain
/// path: `Some(lhs)` for `lhs = ..`, `lhs |= ..`, `lhs += ..`, `del(lhs)`. A
/// plain path (including `[]` fan-out) is `None`: formats handle it directly.
pub fn path_expr_target(expr: &Expr) -> (r: Option<&Expr>)
    ensures
        r is Some <==> target_of(expr@) is Some,
        r is Some ==> r->0@ == target_of(expr@)->0,
{
    let lhs: &Expr = match expr {
        Expr::Assign(lhs, _) => lhs,
        Expr::UpdateAssign(lhs, _) => lhs,
        Expr::AddAssign(lhs, _) => lhs,
        Expr::Call(name, args) => {
            if same(name, "del") && args.len() == 1 {
                &args[0]
            } else {
                return None;
            }
        },
        _ => {
            return None;
        },
    };
    match lhs.as_path() {
        Some(_) => None,
        None => Some(lhs),
    }
}

/// The view of a lowering.
pub open spec fn lowering(r: Result<Option<Vec<Expr>>, EvalError>) -> Result<Option<Seq<Ex>>, Er> {
    match r {
        Ok(Some(ms)) => Ok(Some(exs(ms@))),
        Ok(None) => Ok(None),
        Err(e) => Err(e@),
    }
}

fn plain_mutation(expr: &Expr, path: &Vec<Step>, new: &Value) -> (r: Expr)
    ensures
        r@ == mutation_at(expr@, steps_of(path@), new@),
{
    let at = Expr::Path(clone_steps(path));
    assert(at@ == Ex::Path(steps_of(path@)));
    match expr {
        Expr::Assign(_, _) => {
            let lit = Expr::Literal(new.clone());
            assert(lit@ == Ex::Literal(new@));
            Expr::Assign(Box::new(at), Box::new(lit))
        },
        Expr::AddAssign(_, _) => {
            let lit = Expr::Literal(new.clone());
            assert(lit@ == Ex::Literal(new@));
            Expr::AddAssign(Box::new(at), Box::new(lit))
        },
        Expr::UpdateAssign(_, rhs) => Expr::UpdateAssign(Box::new(at), Box::new((**rhs).clone())),
        _ => {
            let mut args: Vec<Expr> = Vec::new();
            args.push(at);
            assert(exs(args@) =~= seq![Ex::Path(steps_of(path@))]);
            Expr::Call("del".to_owned(), args)
        },
    }
}

fn plain_mutations(expr: &Expr, paths: &Vec<Vec<Step>>, new: &Value) -> (r: Vec<Expr>)
    ensures
        exs(r@) == mutations_at(expr@, paths_view(paths@), new@),
{
    let mut out: Vec<Expr> = Vec::new();
    let ghost all = mutations_at(expr@, paths_view(paths@), new@);
    assert(exs(out@) =~= all.take(0));
    let mut i: usize = 0;
    while i < paths.len()
        invariant
            i <= paths.len(),
            all == mutations_at(expr@, paths_view(paths@), new@),
            exs(out@) == all.take(i as int),
        decreases paths.len() - i,
    {
        out.push(plain_mutation(expr, &paths[i], new));
        assert(all.take(i + 1) =~= all.take(i as int).push(all[i as int]));
        i = i + 1;
    }
    assert(all.take(i as int) =~= all);
    out
}

fn lower_with(expr: &Expr, rhs: &Expr, paths: &Vec<Vec<Step>>, whole: &Value, facts: &FloatFacts) -> (r: Result<
    Option<Vec<Expr>>,
    EvalError,
>)
    ensures
        lowering(r) == lowered_with(expr@, rhs@, paths_view(paths@), whole@, facts@),
{
    if paths.len() == 0 {
        let none: Vec<Expr> = Vec::new();
        assert(exs(none@) =~= Seq::<Ex>::empty());
        return Ok(Some(none));
    }
    let s = eval(rhs, whole, facts)?;
    let new = first_value(s)?;
    Ok(Some(plain_mutations(expr, paths, &new)))
}

/// Lower a mutation whose target is a path expression into one plain-path
/// mutation per concrete path it resolves to against `whole` (the document
/// before this mutation). `None` means `expr` needs no lowering (not a mutation,
/// or its target is already a plain path); an empty list means the target
/// matched nothing, a no-op.
///
/// `=` and `+=` evaluate their right side once against the whole document and
/// write the result to each path; `|=` keeps its right side, so each path's
/// update sees that path's own value. `del` targets come back to front
/// (duplicates dropped), so deleting one never shifts the index of another.
pub fn lower_mutation(expr: &Expr, whole: &Value, facts: &FloatFacts) -> (r: Result<
    Option<Vec<Expr>>,
    EvalError,
>)
    ensures
        lowering(r) == lowered(expr@, whole@, facts@),
{
    let lhs = match path_expr_target(expr) {
        None => {
            return Ok(None);
        },
        Some(lhs) => lhs,
    };
    let paths = eval_paths(lhs, whole, facts)?;
    match expr {
        Expr::UpdateAssign(_, _) => Ok(Some(plain_mutations(expr, &paths, &Value::Null))),
        Expr::Assign(_, rhs) => lower_with(expr, rhs, &paths, whole, facts),
        Expr::AddAssign(_, rhs) => lower_with(expr, rhs, &paths, whole, facts),
        _ => Ok(Some(plain_mutations(expr, &order_deletions(&paths), &Value::Null))),
    }
}

/// What evaluating mutations one after another makes of a value: each applies
/// to the first output of the one before.
pub open spec fn in_turn(ms: Seq<Ex>, v: Val, fx: Facts) -> Result<Val, Er>
    decreases ms.len(),
{
    if ms.len() == 0 {
        Ok(v)
    } else {
        match in_turn(ms.drop_last(), v, fx) {
            Err(e) => Err(e),
            Ok(w) => match ex_eval(ms.last(), w, fx) {
                Err(e) => Err(e),
                Ok(s) => Ok(
                    if s.len() > 0 {
                        s[0]
                    } else {
                        w
                    },
                ),
            },
        }
    }
}

/// Evaluating a mutation through a path expression is evaluating the plain-path
/// mutations it lowers to, one after another.
#[verifier::rlimit(60)]
#[verifier::spinoff_prover]
pub proof fn lowering_is_evaluation(e: Ex, v: Val, fx: Facts)
    requires
        target_of(e) is Some,
    ensures
        match lowered(e, v, fx) {
            Ok(Some(ms)) => ex_eval(e, v, fx) == single(in_turn(ms, v, fx)),
            Ok(None) => false,
            Err(x) => ex_eval(e, v, fx) == Err::<Seq<Val>, Er>(x),
        },
{
    match e {
        Ex::UpdateAssign(l, r) => {
            if let Ok(paths) = ex_paths(*l, v, fx) {
                turn_is_fold(e, paths, v, Val::Null, update_each_fn(*r, fx), fx);
            }
        },
        Ex::Assign(l, r) => {
            if let Ok(paths) = ex_paths(*l, v, fx) {
                if paths.len() > 0 {
                    if let Ok(new) = one_value(ex_eval(*r, v, fx)) {
                        turn_is_fold(e, paths, v, new, set_each_fn(new), fx);
                    }
                }
            }
        },
        Ex::AddAssign(l, r) => {
            if let Ok(paths) = ex_paths(*l, v, fx) {
                if paths.len() > 0 {
                    if let Ok(new) = one_value(ex_eval(*r, v, fx)) {
                        turn_is_fold(e, paths, v, new, add_each_fn(new, fx), fx);
                    }
                }
            }
        },
        Ex::Call(name, args) => {
            reveal_del();
            assert(ex_eval(e, v, fx) == call_outs(name, args, v, fx));
            assert(call_outs(name, args, v, fx) == plain_outs(Builtin::Del, name, args, v, fx));
            if let Ok(paths) = ex_paths(args[0], v, fx) {
                turn_is_fold(e, deletion_order(paths), v, Val::Null, del_each_fn(), fx);
            }
        },
        _ => {},
    }
}

/// The name `del` stands for the builtin.
proof fn reveal_del()
    ensures
        builtin_of("del"@) == Builtin::Del,
{
    reveal_strlit("del");
    reveal_strlit("select");
    reveal_strlit("length");
    reveal_strlit("keys");
    reveal_strlit("type");
    reveal_strlit("tostring");
    reveal_strlit("tonumber");
    reveal_strlit("ascii_upcase");
    reveal_strlit("ascii_downcase");
    reveal_strlit("has");
    reveal_strlit("ltrimstr");
    reveal_strlit("rtrimstr");
    reveal_strlit("startswith");
    reveal_strlit("endswith");
    reveal_strlit("test");
    reveal_strlit("match");
    reveal_strlit("capture");
    reveal_strlit("sub");
    reveal_strlit("gsub");
    reveal_strlit("split");
    reveal_strlit("join");
    assert("del"@[0] == 'd');
    assert("has"@[0] == 'h');
    assert("sub"@[0] == 's');
}

/// A mutation at a plain path changes a value as the fold's function does.
proof fn mutation_step(e: Ex, p: Seq<St>, w: Val, new: Val, fx: Facts)
    requires
        target_of(e) is Some,
    ensures
        ex_eval(mutation_at(e, p, new), w, fx) == single(
            match e {
                Ex::Assign(_, _) => set_at(w, p, new),
                Ex::AddAssign(_, _) => add_at(w, p, new, fx),
                Ex::UpdateAssign(_, r) => update_at(w, p, *r, fx),
                _ => del_at(w, p),
            },
        ),
{
    let m = mutation_at(e, p, new);
    match e {
        Ex::Assign(_, _) => {
            let lit = Ex::Literal(new);
            assert(ex_eval(lit, w, fx) == Ok::<Seq<Val>, Er>(seq![new]));
            one_map(new, assign_fn(w, p));
        },
        Ex::AddAssign(_, _) => {
            let lit = Ex::Literal(new);
            assert(ex_eval(lit, w, fx) == Ok::<Seq<Val>, Er>(seq![new]));
            one_map(new, add_assign_fn(w, p, fx));
        },
        Ex::UpdateAssign(_, r) => {},
        _ => {
            reveal_del();
            let args = seq![Ex::Path(p)];
            assert(args[0] == Ex::Path(p));
            assert(ex_eval(m, w, fx) == call_outs("del"@, args, w, fx));
            assert(call_outs("del"@, args, w, fx) == plain_outs(Builtin::Del, "del"@, args, w, fx));
        },
    }
}

proof fn one_map(x: Val, f: spec_fn(Val) -> Result<Val, Er>)
    ensures
        map_all(seq![x], f) == (match f(x) {
            Ok(y) => Ok(seq![y]),
            Err(e) => Err(e),
        }),
{
    let s = seq![x];
    assert(s.drop_last() =~= Seq::<Val>::empty());
    assert(map_all(s.drop_last(), f) == Ok::<Seq<Val>, Er>(Seq::empty()));
    if let Ok(y) = f(x) {
        assert(Seq::<Val>::empty().push(y) =~= seq![y]);
    }
}

proof fn turn_is_fold(
    e: Ex,
    paths: Seq<Seq<St>>,
    v: Val,
    new: Val,
    f: spec_fn(Val, Seq<St>) -> Result<Val, Er>,
    fx: Facts,
)
    requires
        target_of(e) is Some,
        f == (match e {
            Ex::Assign(_, _) => set_each_fn(new),
            Ex::AddAssign(_, _) => add_each_fn(new, fx),
            Ex::UpdateAssign(_, r) => update_each_fn(*r, fx),
            _ => del_each_fn(),
        }),
    ensures
        in_turn(mutations_at(e, paths, new), v, fx) == fold_paths(paths, v, f),
    decreases paths.len(),
{
    let ms = mutations_at(e, paths, new);
    if paths.len() > 0 {
        turn_is_fold(e, paths.drop_last(), v, new, f, fx);
        assert(ms.drop_last() =~= mutations_at(e, paths.drop_last(), new));
        if let Ok(w) = fold_paths(paths.drop_last(), v, f) {
            mutation_step(e, paths.last(), w, new, fx);
        }
    }
}

} // verus!
