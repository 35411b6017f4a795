//! The query evaluator (value calculus) over an in-memory [`Value`].
//!
//! Mutation (`=`, `|=`, `+=`, `del`) is handled here at the value level: this
//! defines what value ends up where. The format modules' edits mirror these
//! rules.
use crate::arith::{binary, negate, out};
use crate::builtins::eval_call;
use crate::error::{fail, Er};
use crate::float::FloatFacts;
use crate::index::{normalize_index, resolve_index};
use crate::model::{
    ex_pairs, exs, group_expr_views, group_value_views, members, paths_view, steps_of, vals, BinOp,
    Expr, St, Step, Val, Value,
};
use crate::paths::eval_paths;
use crate::semantics::{
    add_assign_fn, add_each_fn, assign_fn, bin_fn, bin_right_fn, eval_fn, ex_eval, fold_paths,
    neg_fn, nth_eval_fn, nth_member_fn, one_value, set_each_fn, truthy_only, update_at,
    update_each_fn, update_fn, update_member_fn, upto, add_at, comment_edit, expand_member_fn,
    expand_nth_fn, expanded, first_or_null, member_values, no_fields, not_indexable, not_iterable,
    null_filled, path_outs, prefixed, set_at, set_element, set_fn, set_member, set_member_fn,
    step_fn, step_outs,
};
use crate::seqs::{bind_all, bind_step, bind_stop, map_all, map_step, map_stop};
use crate::strings::outs;
use crate::value::{clone_members, clone_values, find_key, key_at_bounds, type_text};
use vstd::prelude::*;
use vstd::string::*;

pub use crate::error::EvalError;

verus! {

broadcast use {group_value_views, group_expr_views};

/// "cannot index <type> with a number".
pub fn cannot_index(v: &Value) -> (r: EvalError)
    ensures
        r@ == not_indexable(v@),
{
    let mut m = "cannot index ".to_owned();
    m.append(v.type_label());
    m.append(" with a number");
    EvalError::of(m)
}

/// "cannot iterate over <type>".
pub fn cannot_iterate(v: &Value) -> (r: EvalError)
    ensures
        r@ == not_iterable(v@),
{
    let mut m = "cannot iterate over ".to_owned();
    m.append(v.type_label());
    EvalError::of(m)
}

/// "cannot index <type> with "<key>"".
pub fn cannot_field(v: &Value, k: &str) -> (r: EvalError)
    ensures
        r@ == no_fields(v@, k@),
{
    let mut m = "cannot index ".to_owned();
    m.append(v.type_label());
    m.append(" with \"");
    m.append(k);
    m.append("\"");
    EvalError::of(m)
}

/// `<prefix><type>`.
fn about(prefix: &str, v: &Value) -> (r: EvalError)
    ensures
        r@ == fail(prefix@ + type_text(v@)),
{
    let mut m = prefix.to_owned();
    m.append(v.type_label());
    EvalError::of(m)
}

/// The message for a comment edit among values.
pub fn comment_mutation_unsupported() -> (r: &'static str)
    ensures
        r@ == comment_edit().msg,
{
    "editing comments (`#`) works only as a mutation of the file itself, e.g. `edikt '.foo.# = \"note\"' file`"
}

/// A copy of a path.
pub fn clone_steps(steps: &Vec<Step>) -> (r: Vec<Step>)
    ensures
        steps_of(r@) == steps_of(steps@),
{
    let mut out: Vec<Step> = Vec::new();
    let mut i: usize = 0;
    while i < steps.len()
        invariant
            i <= steps.len(),
            steps_of(out@) == steps_of(steps@).take(i as int),
        decreases steps.len() - i,
    {
        out.push(steps[i].clone());
        assert(steps_of(steps@).take(i + 1) =~= steps_of(steps@).take(i as int).push(
            steps@[i as int]@,
        ));
        i = i + 1;
    }
    assert(steps_of(steps@).take(i as int) =~= steps_of(steps@));
    out
}

/// The values of an object's members.
pub fn values_of(m: &Vec<(String, Value)>) -> (r: Vec<Value>)
    ensures
        vals(r@) == member_values(members(m@)),
{
    let mut out: Vec<Value> = Vec::new();
    let ghost all = member_values(members(m@));
    let mut i: usize = 0;
    while i < m.len()
        invariant
            i <= m.len(),
            all == member_values(members(m@)),
            vals(out@) == all.take(i as int),
        decreases m.len() - i,
    {
        out.push(m[i].1.clone());
        assert(all.take(i + 1) =~= all.take(i as int).push(all[i as int]));
        i = i + 1;
    }
    assert(all.take(i as int) =~= all);
    out
}

/// What one step yields for a value.
pub fn apply_step(step: &Step, v: &Value) -> (r: Result<Vec<Value>, EvalError>)
    ensures
        outs(r) == step_outs(step@, v@),
{
    match step {
        Step::Field(k) => match v {
            Value::Object(m) => {
                let i = find_key(m, k);
                let mut one: Vec<Value> = Vec::new();
                if i < m.len() {
                    one.push(m[i].1.clone());
                }
                assert(outs(Ok(one)) == step_outs(step@, v@)) by {
                    key_at_bounds(members(m@), k@);
                    if i < m.len() {
                        assert(vals(one@) =~= seq![members(m@)[i as int].1]);
                    } else {
                        assert(vals(one@) =~= Seq::<Val>::empty());
                    }
                }
                Ok(one)
            },
            Value::Null => {
                let none: Vec<Value> = Vec::new();
                assert(vals(none@) =~= Seq::<Val>::empty());
                Ok(none)
            },
            _ => Err(cannot_field(v, k)),
        },
        Step::Index(i) => match v {
            Value::Array(a) => {
                let mut one: Vec<Value> = Vec::new();
                match resolve_index(*i, a.len()) {
                    Some(n) => {
                        one.push(a[n].clone());
                        assert(vals(one@) =~= seq![vals(a@)[n as int]]);
                    },
                    None => {
                        assert(vals(one@) =~= Seq::<Val>::empty());
                    },
                }
                Ok(one)
            },
            Value::Null => {
                let none: Vec<Value> = Vec::new();
                assert(vals(none@) =~= Seq::<Val>::empty());
                Ok(none)
            },
            _ => Err(cannot_index(v)),
        },
        Step::Iterate => match v {
            Value::Array(a) => Ok(clone_values(a)),
            Value::Object(m) => Ok(values_of(m)),
            _ => Err(cannot_iterate(v)),
        },
        Step::Comment(_) => Err(
            EvalError::new(
                "comment access (`#`) resolves only as a whole path like `.foo.#`, not after a pipe over a value",
            ),
        ),
    }
}

/// What one step yields for a stream.
fn apply_step_all(step: &Step, stream: &Vec<Value>) -> (r: Result<Vec<Value>, EvalError>)
    ensures
        outs(r) == bind_all(vals(stream@), step_fn(step@)),
{
    let mut next: Vec<Value> = Vec::new();
    let ghost all = vals(stream@);
    let ghost f = step_fn(step@);
    assert(vals(next@) =~= Seq::<Val>::empty());
    let mut i: usize = 0;
    while i < stream.len()
        invariant
            i <= stream.len(),
            all == vals(stream@),
            f == step_fn(step@),
            bind_all(all.take(i as int), f) == Ok::<Seq<Val>, Er>(vals(next@)),
        decreases stream.len() - i,
    {
        proof {
            bind_step(all, f, i as int);
        }
        match apply_step(step, &stream[i]) {
            Err(e) => {
                proof {
                    bind_stop(all, f, i + 1);
                }
                return Err(e);
            },
            Ok(mut more) => {
                let ghost a = vals(next@);
                let ghost b = vals(more@);
                next.append(&mut more);
                assert(vals(next@) =~= a + b);
            },
        }
        i = i + 1;
    }
    assert(all.take(i as int) =~= all);
    Ok(next)
}

/// A path that fails on the way fails.
proof fn path_stop(steps: Seq<St>, v: Val, i: int)
    requires
        0 <= i <= steps.len(),
        path_outs(steps.take(i), v) is Err,
    ensures
        path_outs(steps, v) == path_outs(steps.take(i), v),
    decreases steps.len() - i,
{
    if i == steps.len() {
        assert(steps.take(i) =~= steps);
    } else {
        assert(steps.take(i + 1).drop_last() =~= steps.take(i));
        path_stop(steps, v, i + 1);
    }
}

/// What a path yields for a value.
pub fn eval_path(steps: &Vec<Step>, input: &Value) -> (r: Result<Vec<Value>, EvalError>)
    ensures
        outs(r) == path_outs(steps_of(steps@), input@),
{
    let mut stream: Vec<Value> = Vec::new();
    stream.push(input.clone());
    let ghost all = steps_of(steps@);
    assert(vals(stream@) =~= seq![input@]);
    let mut i: usize = 0;
    while i < steps.len()
        invariant
            i <= steps.len(),
            all == steps_of(steps@),
            path_outs(all.take(i as int), input@) == Ok::<Seq<Val>, Er>(vals(stream@)),
        decreases steps.len() - i,
    {
        assert(all.take(i + 1).drop_last() =~= all.take(i as int));
        match apply_step_all(&steps[i], &stream) {
            Err(e) => {
                proof {
                    path_stop(all, input@, i + 1);
                }
                return Err(e);
            },
            Ok(next) => {
                stream = next;
            },
        }
        i = i + 1;
    }
    assert(all.take(i as int) =~= all);
    Ok(stream)
}

/// The first output, or null.
pub fn take_first(mut s: Vec<Value>) -> (r: Value)
    ensures
        r@ == first_or_null(vals(s@)),
{
    if s.len() > 0 {
        assert(vals(s@)[0] == s@[0]@);
        s.remove(0)
    } else {
        Value::Null
    }
}

/// The rest of a path behind position `from`.
pub proof fn tail_of(steps: Seq<St>, from: int)
    requires
        0 <= from < steps.len(),
    ensures
        steps.skip(from).len() == steps.len() - from,
        steps.skip(from)[0] == steps[from],
        steps.skip(from).drop_first() == steps.skip(from + 1),
{
    assert(steps.skip(from).drop_first() =~= steps.skip(from + 1));
}

fn set_elements(a: &Vec<Value>, steps: &Vec<Step>, from: usize, new: &Value) -> (r: Result<
    Vec<Value>,
    EvalError,
>)
    requires
        from <= steps.len(),
    ensures
        outs(r) == map_all(vals(a@), set_fn(steps_of(steps@).skip(from as int), new@)),
    decreases steps.len() - from, 1int,
{
    let mut done: Vec<Value> = Vec::new();
    let ghost all = vals(a@);
    let ghost f = set_fn(steps_of(steps@).skip(from as int), new@);
    assert(vals(done@) =~= Seq::<Val>::empty());
    let mut i: usize = 0;
    while i < a.len()
        invariant
            i <= a.len(),
            from <= steps.len(),
            all == vals(a@),
            f == set_fn(steps_of(steps@).skip(from as int), new@),
            map_all(all.take(i as int), f) == Ok::<Seq<Val>, Er>(vals(done@)),
        decreases a.len() - i,
    {
        proof {
            map_step(all, f, i as int);
        }
        match set_from(&a[i], steps, from, new) {
            Err(e) => {
                proof {
                    map_stop(all, f, i + 1);
                }
                return Err(e);
            },
            Ok(x) => done.push(x),
        }
        i = i + 1;
    }
    assert(all.take(i as int) =~= all);
    Ok(done)
}

/// The view of changed members.
pub open spec fn member_outs(r: Result<Vec<(String, Value)>, EvalError>) -> Result<
    Seq<(Seq<char>, Val)>,
    Er,
> {
    match r {
        Ok(m) => Ok(members(m@)),
        Err(e) => Err(e@),
    }
}

fn set_members(m: &Vec<(String, Value)>, steps: &Vec<Step>, from: usize, new: &Value) -> (r: Result<
    Vec<(String, Value)>,
    EvalError,
>)
    requires
        from <= steps.len(),
    ensures
        member_outs(r) == map_all(
            members(m@),
            set_member_fn(steps_of(steps@).skip(from as int), new@),
        ),
    decreases steps.len() - from, 1int,
{
    let mut done: Vec<(String, Value)> = Vec::new();
    let ghost all = members(m@);
    let ghost f = set_member_fn(steps_of(steps@).skip(from as int), new@);
    assert(members(done@) =~= Seq::<(Seq<char>, Val)>::empty());
    let mut i: usize = 0;
    while i < m.len()
        invariant
            i <= m.len(),
            from <= steps.len(),
            all == members(m@),
            f == set_member_fn(steps_of(steps@).skip(from as int), new@),
            map_all(all.take(i as int), f) == Ok::<Seq<(Seq<char>, Val)>, Er>(members(done@)),
        decreases m.len() - i,
    {
        proof {
            map_step(all, f, i as int);
        }
        match set_from(&m[i].1, steps, from, new) {
            Err(e) => {
                proof {
                    map_stop(all, f, i + 1);
                }
                return Err(e);
            },
            Ok(x) => done.push((m[i].0.clone(), x)),
        }
        i = i + 1;
    }
    assert(all.take(i as int) =~= all);
    Ok(done)
}

fn set_field(m: Vec<(String, Value)>, k: &String, steps: &Vec<Step>, from: usize, new: &Value) -> (r: Result<
    Value,
    EvalError,
>)
    requires
        from <= steps.len(),
    ensures
        out(r) == set_member(members(m@), k@, steps_of(steps@).skip(from as int), new@),
    decreases steps.len() - from, 1int,
{
    let mut obj = m;
    let ghost before = members(obj@);
    let i = find_key(&obj, k);
    proof {
        key_at_bounds(before, k@);
    }
    if i < obj.len() {
        let x = set_from(&obj[i].1, steps, from, new)?;
        let ghost vx = x@;
        let key = obj[i].0.clone();
        obj.set(i, (key, x));
        assert(members(obj@) =~= before.update(i as int, (before[i as int].0, vx)));
        Ok(Value::Object(obj))
    } else {
        let x = set_from(&Value::Null, steps, from, new)?;
        obj.push((k.clone(), x));
        Ok(Value::Object(obj))
    }
}

fn set_index(a: Vec<Value>, i: i64, steps: &Vec<Step>, from: usize, new: &Value) -> (r: Result<
    Value,
    EvalError,
>)
    requires
        from <= steps.len(),
    ensures
        out(r) == set_element(vals(a@), i, steps_of(steps@).skip(from as int), new@),
    decreases steps.len() - from, 1int,
{
    let mut arr = a;
    let ghost before = vals(arr@);
    match normalize_index(i, arr.len()) {
        None => Err(EvalError::new("array index out of range")),
        Some(n) => {
            while arr.len() <= n
                invariant
                    before.len() <= arr.len(),
                    arr.len() <= n + 1 || arr.len() == before.len(),
                    vals(arr@) == before + Seq::new(
                        (arr.len() - before.len()) as nat,
                        |i: int| Val::Null,
                    ),
                decreases n + 1 - arr.len(),
            {
                let ghost held = vals(arr@);
                arr.push(Value::Null);
                assert(vals(arr@) =~= before + Seq::new(
                    (arr.len() - before.len()) as nat,
                    |i: int| Val::Null,
                ));
            }
            assert(vals(arr@) =~= null_filled(before, n + 1));
            let x = set_from(&arr[n], steps, from, new)?;
            let ghost vx = x@;
            let ghost held = vals(arr@);
            arr.set(n, x);
            assert(vals(arr@) =~= held.update(n as int, vx));
            Ok(Value::Array(arr))
        },
    }
}

fn set_from(v: &Value, steps: &Vec<Step>, from: usize, new: &Value) -> (r: Result<Value, EvalError>)
    requires
        from <= steps.len(),
    ensures
        out(r) == set_at(v@, steps_of(steps@).skip(from as int), new@),
    decreases steps.len() - from, 0int,
{
    if from == steps.len() {
        return Ok(new.clone());
    }
    proof {
        tail_of(steps_of(steps@), from as int);
    }
    match &steps[from] {
        Step::Field(k) => match v {
            Value::Object(m) => set_field(clone_members(m), k, steps, from + 1, new),
            Value::Null => {
                let none: Vec<(String, Value)> = Vec::new();
                assert(members(none@) =~= Seq::<(Seq<char>, Val)>::empty());
                set_field(none, k, steps, from + 1, new)
            },
            _ => Err(about("cannot set field of ", v)),
        },
        Step::Index(i) => match v {
            Value::Array(a) => set_index(clone_values(a), *i, steps, from + 1, new),
            Value::Null => {
                let none: Vec<Value> = Vec::new();
                assert(vals(none@) =~= Seq::<Val>::empty());
                set_index(none, *i, steps, from + 1, new)
            },
            _ => Err(cannot_index(v)),
        },
        Step::Iterate => match v {
            Value::Array(a) => match set_elements(a, steps, from + 1, new) {
                Ok(done) => Ok(Value::Array(done)),
                Err(e) => Err(e),
            },
            Value::Object(m) => match set_members(m, steps, from + 1, new) {
                Ok(done) => Ok(Value::Object(done)),
                Err(e) => Err(e),
            },
            _ => Err(cannot_iterate(v)),
        },
        Step::Comment(_) => Err(EvalError::new(comment_mutation_unsupported())),
    }
}

/// A copy of `v` with `steps` set to `new`. Missing object keys and array slots
/// are created (arrays extend with nulls), matching jq.
pub fn set_path(v: &Value, steps: &Vec<Step>, new: &Value) -> (r: Result<Value, EvalError>)
    ensures
        out(r) == set_at(v@, steps_of(steps@), new@),
{
    assert(steps_of(steps@).skip(0) =~= steps_of(steps@));
    set_from(v, steps, 0, new)
}

/// The paths in `ps` appended behind `base`, each below `pre`.
spec fn grown(base: Seq<Seq<St>>, pre: Seq<St>, ps: Seq<Seq<St>>) -> Seq<Seq<St>> {
    base + prefixed(pre, ps)
}

proof fn grown_under(base: Seq<Seq<St>>, pre: Seq<St>, st: St, ps: Seq<Seq<St>>)
    ensures
        grown(base, pre.push(st), ps) == grown(base, pre, prefixed(seq![st], ps)),
{
    assert forall|i: int| 0 <= i < ps.len() implies #[trigger] prefixed(pre.push(st), ps)[i]
        == prefixed(pre, prefixed(seq![st], ps))[i] by {
        assert(pre.push(st) + ps[i] =~= pre + (seq![st] + ps[i]));
    }
    assert(prefixed(pre.push(st), ps) =~= prefixed(pre, prefixed(seq![st], ps)));
}

proof fn grown_more(base: Seq<Seq<St>>, pre: Seq<St>, a: Seq<Seq<St>>, b: Seq<Seq<St>>)
    ensures
        grown(grown(base, pre, a), pre, b) == grown(base, pre, a + b),
{
    assert(prefixed(pre, a) + prefixed(pre, b) =~= prefixed(pre, a + b));
    assert(grown(grown(base, pre, a), pre, b) =~= grown(base, pre, a + b));
}

/// A copy of `pre` with `st` behind it.
fn extended(pre: &Vec<Step>, st: Step) -> (r: Vec<Step>)
    ensures
        steps_of(r@) == steps_of(pre@).push(st@),
{
    let mut p = clone_steps(pre);
    p.push(st);
    p
}

/// Depth-first walk appending each complete concrete path to `out`.
fn expand_iter_walk(
    steps: &Vec<Step>,
    from: usize,
    v: &Value,
    acc: &Vec<Step>,
    out: &mut Vec<Vec<Step>>,
) -> (r: Result<(), EvalError>)
    requires
        from <= steps.len(),
    ensures
        match expanded(steps_of(steps@).skip(from as int), v@) {
            Ok(ps) => r is Ok && paths_view(final(out)@) == grown(
                paths_view(old(out)@),
                steps_of(acc@),
                ps,
            ),
            Err(e) => r is Err && r->Err_0@ == e,
        },
    decreases steps.len() - from,
{
    let ghost rest = steps_of(steps@).skip(from as int);
    let ghost base = paths_view(out@);
    let ghost pre = steps_of(acc@);
    if from == steps.len() {
        out.push(clone_steps(acc));
        proof {
            assert(pre + Seq::<St>::empty() =~= pre);
            assert(paths_view(out@) =~= grown(base, pre, seq![Seq::<St>::empty()]));
        }
        return Ok(());
    }
    proof {
        tail_of(steps_of(steps@), from as int);
    }
    if let Step::Iterate = &steps[from] {
        match v {
            Value::Array(a) => {
                let ghost ix = Seq::new(vals(a@).len(), |i: int| i);
                let ghost f = expand_nth_fn(rest.drop_first(), vals(a@));
                let ghost mut done: Seq<Seq<St>> = Seq::empty();
                assert(paths_view(out@) =~= grown(base, pre, done));
                let mut i: usize = 0;
                while i < a.len()
                    invariant
                        i <= a.len(),
                        from < steps.len(),
                        pre == steps_of(acc@),
                        rest == steps_of(steps@).skip(from as int),
                        rest.drop_first() == steps_of(steps@).skip(from + 1),
                        ix == Seq::new(vals(a@).len(), |i: int| i),
                        f == expand_nth_fn(rest.drop_first(), vals(a@)),
                        bind_all(ix.take(i as int), f) == Ok::<Seq<Seq<St>>, Er>(done),
                        paths_view(out@) == grown(base, pre, done),
                        expanded(rest, v@) == bind_all(ix, f),
                    decreases a.len() - i,
                {
                    proof {
                        bind_step(ix, f, i as int);
                    }
                    let ghost held = paths_view(out@);
                    let st = Step::Index(i as i64);
                    let ghost vst = st@;
                    let deeper = extended(acc, st);
                    match expand_iter_walk(steps, from + 1, &a[i], &deeper, out) {
                        Err(e) => {
                            proof {
                                bind_stop(ix, f, i + 1);
                            }
                            return Err(e);
                        },
                        Ok(_) => {
                            proof {
                                let ps = expanded(rest.drop_first(), a@[i as int]@)->Ok_0;
                                grown_under(held, pre, vst, ps);
                                grown_more(base, pre, done, prefixed(seq![vst], ps));
                                done = done + prefixed(seq![vst], ps);
                            }
                        },
                    }
                    i = i + 1;
                }
                assert(ix.take(i as int) =~= ix);
                Ok(())
            },
            Value::Object(m) => {
                let ghost all = members(m@);
                let ghost f = expand_member_fn(rest.drop_first());
                let ghost mut done: Seq<Seq<St>> = Seq::empty();
                assert(paths_view(out@) =~= grown(base, pre, done));
                let mut i: usize = 0;
                while i < m.len()
                    invariant
                        i <= m.len(),
                        from < steps.len(),
                        pre == steps_of(acc@),
                        rest == steps_of(steps@).skip(from as int),
                        rest.drop_first() == steps_of(steps@).skip(from + 1),
                        all == members(m@),
                        f == expand_member_fn(rest.drop_first()),
                        bind_all(all.take(i as int), f) == Ok::<Seq<Seq<St>>, Er>(done),
                        paths_view(out@) == grown(base, pre, done),
                        expanded(rest, v@) == bind_all(all, f),
                    decreases m.len() - i,
                {
                    proof {
                        bind_step(all, f, i as int);
                    }
                    let ghost held = paths_view(out@);
                    let st = Step::Field(m[i].0.clone());
                    let ghost vst = st@;
                    let deeper = extended(acc, st);
                    match expand_iter_walk(steps, from + 1, &m[i].1, &deeper, out) {
                        Err(e) => {
                            proof {
                                bind_stop(all, f, i + 1);
                            }
                            return Err(e);
                        },
                        Ok(_) => {
                            proof {
                                let ps = expanded(rest.drop_first(), m@[i as int].1@)->Ok_0;
                                grown_under(held, pre, vst, ps);
                                grown_more(base, pre, done, prefixed(seq![vst], ps));
                                done = done + prefixed(seq![vst], ps);
                            }
                        },
                    }
                    i = i + 1;
                }
                assert(all.take(i as int) =~= all);
                Ok(())
            },
            _ => Err(cannot_iterate(v)),
        }
    } else {
        // A field/index step: descend the single value it resolves to. A miss
        // is a dead branch; a type error still propagates.
        let next = apply_step(&steps[from], v)?;
        if next.len() == 0 {
            assert(paths_view(out@) =~= grown(base, pre, Seq::empty()));
            return Ok(());
        }
        let st = steps[from].clone();
        let ghost vst = st@;
        let deeper = extended(acc, st);
        assert(vals(next@)[0] == next@[0]@);
        expand_iter_walk(steps, from + 1, &next[0], &deeper, out)?;
        proof {
            let ps = expanded(rest.drop_first(), next@[0]@)->Ok_0;
            grown_under(base, pre, vst, ps);
        }
        Ok(())
    }
}

/// The view of a list of concrete paths.
pub open spec fn path_list(r: Result<Vec<Vec<Step>>, EvalError>) -> Result<Seq<Seq<St>>, Er> {
    match r {
        Ok(ps) => Ok(paths_view(ps@)),
        Err(e) => Err(e@),
    }
}

/// Expand a path containing `[]` into concrete iterate-free paths, one per
/// iterated element, against `value`: an array iterate becomes `.a[0]`,
/// `.a[1]`, ...; an object iterate becomes `.a."key"`, .... A non-iterate step
/// that misses (absent key, out-of-range index) yields no paths, like a query
/// miss; stepping into the wrong type errors, matching evaluation.
pub fn expand_iter_paths(steps: &Vec<Step>, value: &Value) -> (r: Result<Vec<Vec<Step>>, EvalError>)
    ensures
        path_list(r) == expanded(steps_of(steps@), value@),
{
    let mut out: Vec<Vec<Step>> = Vec::new();
    let acc: Vec<Step> = Vec::new();
    assert(steps_of(steps@).skip(0) =~= steps_of(steps@));
    expand_iter_walk(steps, 0, value, &acc, &mut out)?;
    proof {
        let ps = expanded(steps_of(steps@), value@)->Ok_0;
        assert forall|i: int| 0 <= i < ps.len() implies #[trigger] prefixed(steps_of(acc@), ps)[i]
            == ps[i] by {
            assert(steps_of(acc@) + ps[i] =~= ps[i]);
        }
        assert(prefixed(steps_of(acc@), ps) =~= ps);
        assert(paths_view(out@) =~= ps);
    }
    Ok(out)
}

/// The concrete paths for a delete fan-out: [`expand_iter_paths`] reversed, so a
/// caller deletes from the back forward and earlier concrete paths' indices (or
/// keys) stay valid as the collection shrinks.
pub fn expand_delete_paths(steps: &Vec<Step>, value: &Value) -> (r: Result<
    Vec<Vec<Step>>,
    EvalError,
>)
    ensures
        path_list(r) == (match expanded(steps_of(steps@), value@) {
            Ok(ps) => Ok(ps.reverse()),
            Err(e) => Err(e),
        }),
{
    let paths = expand_iter_paths(steps, value)?;
    let ghost ps = paths_view(paths@);
    let mut out: Vec<Vec<Step>> = Vec::new();
    let mut i: usize = paths.len();
    assert(paths_view(out@) =~= Seq::<Seq<St>>::empty());
    while i > 0
        invariant
            i <= paths.len(),
            ps == paths_view(paths@),
            paths_view(out@) == ps.reverse().take(paths.len() - i),
        decreases i,
    {
        i = i - 1;
        out.push(clone_steps(&paths[i]));
        assert(ps.reverse().take(paths.len() - i) =~= ps.reverse().take(
            paths.len() - i - 1,
        ).push(ps[i as int]));
    }
    assert(ps.reverse().take(paths.len() as int) =~= ps.reverse());
    Ok(out)
}

/// Evaluate `e` against each value of a stream.
pub fn eval_each(e: &Expr, stream: &Vec<Value>, facts: &FloatFacts) -> (r: Result<Vec<Value>, EvalError>)
    ensures
        outs(r) == bind_all(vals(stream@), eval_fn(e@, facts@)),
    decreases e, 1int, 0int, 0int,
{
    let mut out: Vec<Value> = Vec::new();
    let ghost all = vals(stream@);
    let ghost f = eval_fn(e@, facts@);
    assert(vals(out@) =~= Seq::<Val>::empty());
    let mut i: usize = 0;
    while i < stream.len()
        invariant
            i <= stream.len(),
            all == vals(stream@),
            f == eval_fn(e@, facts@),
            bind_all(all.take(i as int), f) == Ok::<Seq<Val>, Er>(vals(out@)),
        decreases stream.len() - i,
    {
        proof {
            bind_step(all, f, i as int);
        }
        match eval(e, &stream[i], facts) {
            Err(x) => {
                proof {
                    bind_stop(all, f, i + 1);
                }
                return Err(x);
            },
            Ok(mut more) => {
                let ghost a = vals(out@);
                let ghost b = vals(more@);
                out.append(&mut more);
                assert(vals(out@) =~= a + b);
            },
        }
        i = i + 1;
    }
    assert(all.take(i as int) =~= all);
    Ok(out)
}

fn eval_items(items: &Vec<Expr>, input: &Value, facts: &FloatFacts) -> (r: Result<
    Vec<Value>,
    EvalError,
>)
    ensures
        outs(r) == bind_all(upto(items@.len()), nth_eval_fn(exs(items@), input@, facts@)),
    decreases items, 1int, 0int, 0int,
{
    let mut out: Vec<Value> = Vec::new();
    let ghost ix = upto(items@.len());
    let ghost f = nth_eval_fn(exs(items@), input@, facts@);
    assert(vals(out@) =~= Seq::<Val>::empty());
    let mut i: usize = 0;
    while i < items.len()
        invariant
            i <= items.len(),
            ix == upto(items@.len()),
            f == nth_eval_fn(exs(items@), input@, facts@),
            bind_all(ix.take(i as int), f) == Ok::<Seq<Val>, Er>(vals(out@)),
        decreases items.len() - i,
    {
        proof {
            bind_step(ix, f, i as int);
        }
        match eval(&items[i], input, facts) {
            Err(x) => {
                proof {
                    bind_stop(ix, f, i + 1);
                }
                return Err(x);
            },
            Ok(mut more) => {
                let ghost a = vals(out@);
                let ghost b = vals(more@);
                out.append(&mut more);
                assert(vals(out@) =~= a + b);
            },
        }
        i = i + 1;
    }
    assert(ix.take(i as int) =~= ix);
    Ok(out)
}

fn eval_members(pairs: &Vec<(String, Expr)>, input: &Value, facts: &FloatFacts) -> (r: Result<
    Vec<(String, Value)>,
    EvalError,
>)
    ensures
        member_outs(r) == map_all(
            upto(pairs@.len()),
            nth_member_fn(ex_pairs(pairs@), input@, facts@),
        ),
    decreases pairs, 1int, 0int, 0int,
{
    let mut out: Vec<(String, Value)> = Vec::new();
    let ghost ix = upto(pairs@.len());
    let ghost f = nth_member_fn(ex_pairs(pairs@), input@, facts@);
    assert(members(out@) =~= Seq::<(Seq<char>, Val)>::empty());
    let mut i: usize = 0;
    while i < pairs.len()
        invariant
            i <= pairs.len(),
            ix == upto(pairs@.len()),
            f == nth_member_fn(ex_pairs(pairs@), input@, facts@),
            map_all(ix.take(i as int), f) == Ok::<Seq<(Seq<char>, Val)>, Er>(members(out@)),
        decreases pairs.len() - i,
    {
        proof {
            map_step(ix, f, i as int);
        }
        match eval(&pairs[i].1, input, facts) {
            Err(x) => {
                proof {
                    map_stop(ix, f, i + 1);
                }
                return Err(x);
            },
            Ok(s) => {
                out.push((pairs[i].0.clone(), take_first(s)));
            },
        }
        i = i + 1;
    }
    assert(ix.take(i as int) =~= ix);
    Ok(out)
}

fn negate_all(s: &Vec<Value>) -> (r: Result<Vec<Value>, EvalError>)
    ensures
        outs(r) == map_all(vals(s@), neg_fn()),
{
    let mut out: Vec<Value> = Vec::new();
    let ghost all = vals(s@);
    let ghost f = neg_fn();
    assert(vals(out@) =~= Seq::<Val>::empty());
    let mut i: usize = 0;
    while i < s.len()
        invariant
            i <= s.len(),
            all == vals(s@),
            f == neg_fn(),
            map_all(all.take(i as int), f) == Ok::<Seq<Val>, Er>(vals(out@)),
        decreases s.len() - i,
    {
        proof {
            map_step(all, f, i as int);
        }
        match negate(&s[i]) {
            Err(x) => {
                proof {
                    map_stop(all, f, i + 1);
                }
                return Err(x);
            },
            Ok(v) => out.push(v),
        }
        i = i + 1;
    }
    assert(all.take(i as int) =~= all);
    Ok(out)
}

fn binary_right(op: BinOp, a: &Value, rights: &Vec<Value>, facts: &FloatFacts) -> (r: Result<
    Vec<Value>,
    EvalError,
>)
    ensures
        outs(r) == map_all(vals(rights@), bin_right_fn(op, a@, facts@)),
{
    let mut out: Vec<Value> = Vec::new();
    let ghost all = vals(rights@);
    let ghost f = bin_right_fn(op, a@, facts@);
    assert(vals(out@) =~= Seq::<Val>::empty());
    let mut i: usize = 0;
    while i < rights.len()
        invariant
            i <= rights.len(),
            all == vals(rights@),
            f == bin_right_fn(op, a@, facts@),
            map_all(all.take(i as int), f) == Ok::<Seq<Val>, Er>(vals(out@)),
        decreases rights.len() - i,
    {
        proof {
            map_step(all, f, i as int);
        }
        match binary(op, a, &rights[i], facts) {
            Err(x) => {
                proof {
                    map_stop(all, f, i + 1);
                }
                return Err(x);
            },
            Ok(v) => out.push(v),
        }
        i = i + 1;
    }
    assert(all.take(i as int) =~= all);
    Ok(out)
}

fn binary_all(op: BinOp, lefts: &Vec<Value>, rights: &Vec<Value>, facts: &FloatFacts) -> (r: Result<
    Vec<Value>,
    EvalError,
>)
    ensures
        outs(r) == bind_all(vals(lefts@), bin_fn(op, vals(rights@), facts@)),
{
    let mut out: Vec<Value> = Vec::new();
    let ghost all = vals(lefts@);
    let ghost f = bin_fn(op, vals(rights@), facts@);
    assert(vals(out@) =~= Seq::<Val>::empty());
    let mut i: usize = 0;
    while i < lefts.len()
        invariant
            i <= lefts.len(),
            all == vals(lefts@),
            f == bin_fn(op, vals(rights@), facts@),
            bind_all(all.take(i as int), f) == Ok::<Seq<Val>, Er>(vals(out@)),
        decreases lefts.len() - i,
    {
        proof {
            bind_step(all, f, i as int);
        }
        match binary_right(op, &lefts[i], rights, facts) {
            Err(x) => {
                proof {
                    bind_stop(all, f, i + 1);
                }
                return Err(x);
            },
            Ok(mut more) => {
                let ghost a = vals(out@);
                let ghost b = vals(more@);
                out.append(&mut more);
                assert(vals(out@) =~= a + b);
            },
        }
        i = i + 1;
    }
    assert(all.take(i as int) =~= all);
    Ok(out)
}

/// The truthy ones.
pub fn keep_truthy(s: Vec<Value>) -> (r: Vec<Value>)
    ensures
        vals(r@) == truthy_only(vals(s@)),
{
    let mut out: Vec<Value> = Vec::new();
    let ghost all = vals(s@);
    assert(vals(out@) =~= all.take(0));
    let mut i: usize = 0;
    while i < s.len()
        invariant
            i <= s.len(),
            all == vals(s@),
            vals(out@) == truthy_only(all.take(i as int)),
        decreases s.len() - i,
    {
        assert(all.take(i + 1).drop_last() =~= all.take(i as int));
        assert(all.take(i + 1).last() == all[i as int]);
        if s[i].is_truthy() {
            out.push(s[i].clone());
        }
        i = i + 1;
    }
    assert(all.take(i as int) =~= all);
    out
}

fn assign_each(input: &Value, steps: &Vec<Step>, news: &Vec<Value>) -> (r: Result<
    Vec<Value>,
    EvalError,
>)
    ensures
        outs(r) == map_all(vals(news@), assign_fn(input@, steps_of(steps@))),
{
    let mut out: Vec<Value> = Vec::new();
    let ghost all = vals(news@);
    let ghost f = assign_fn(input@, steps_of(steps@));
    assert(vals(out@) =~= Seq::<Val>::empty());
    let mut i: usize = 0;
    while i < news.len()
        invariant
            i <= news.len(),
            all == vals(news@),
            f == assign_fn(input@, steps_of(steps@)),
            map_all(all.take(i as int), f) == Ok::<Seq<Val>, Er>(vals(out@)),
        decreases news.len() - i,
    {
        proof {
            map_step(all, f, i as int);
        }
        match set_path(input, steps, &news[i]) {
            Err(x) => {
                proof {
                    map_stop(all, f, i + 1);
                }
                return Err(x);
            },
            Ok(v) => out.push(v),
        }
        i = i + 1;
    }
    assert(all.take(i as int) =~= all);
    Ok(out)
}

/// A copy of `v` with `new` added to what stands at `steps`.
pub fn add_path(v: &Value, steps: &Vec<Step>, new: &Value, facts: &FloatFacts) -> (r: Result<
    Value,
    EvalError,
>)
    ensures
        out(r) == add_at(v@, steps_of(steps@), new@, facts@),
{
    let s = eval_path(steps, v)?;
    let current = take_first(s);
    let sum = crate::arith::add(&current, new, facts)?;
    set_path(v, steps, &sum)
}

fn add_assign_each(input: &Value, steps: &Vec<Step>, news: &Vec<Value>, facts: &FloatFacts) -> (r: Result<
    Vec<Value>,
    EvalError,
>)
    ensures
        outs(r) == map_all(vals(news@), add_assign_fn(input@, steps_of(steps@), facts@)),
{
    let mut out: Vec<Value> = Vec::new();
    let ghost all = vals(news@);
    let ghost f = add_assign_fn(input@, steps_of(steps@), facts@);
    assert(vals(out@) =~= Seq::<Val>::empty());
    let mut i: usize = 0;
    while i < news.len()
        invariant
            i <= news.len(),
            all == vals(news@),
            f == add_assign_fn(input@, steps_of(steps@), facts@),
            map_all(all.take(i as int), f) == Ok::<Seq<Val>, Er>(vals(out@)),
        decreases news.len() - i,
    {
        proof {
            map_step(all, f, i as int);
        }
        match add_path(input, steps, &news[i], facts) {
            Err(x) => {
                proof {
                    map_stop(all, f, i + 1);
                }
                return Err(x);
            },
            Ok(v) => out.push(v),
        }
        i = i + 1;
    }
    assert(all.take(i as int) =~= all);
    Ok(out)
}

/// One more path of a fold.
pub proof fn fold_step(
    paths: Seq<Seq<St>>,
    v: Val,
    f: spec_fn(Val, Seq<St>) -> Result<Val, Er>,
    i: int,
)
    requires
        0 <= i < paths.len(),
    ensures
        fold_paths(paths.take(i + 1), v, f) == (match fold_paths(paths.take(i), v, f) {
            Err(e) => Err(e),
            Ok(w) => f(w, paths[i]),
        }),
{
    assert(paths.take(i + 1).drop_last() =~= paths.take(i));
}

/// An error met on the way is the error of the fold.
pub proof fn fold_stop(
    paths: Seq<Seq<St>>,
    v: Val,
    f: spec_fn(Val, Seq<St>) -> Result<Val, Er>,
    i: int,
)
    requires
        0 <= i <= paths.len(),
        fold_paths(paths.take(i), v, f) is Err,
    ensures
        fold_paths(paths, v, f) == fold_paths(paths.take(i), v, f),
    decreases paths.len() - i,
{
    if i == paths.len() {
        assert(paths.take(i) =~= paths);
    } else {
        fold_step(paths, v, f, i);
        fold_stop(paths, v, f, i + 1);
    }
}

fn set_each(input: &Value, paths: &Vec<Vec<Step>>, new: &Value) -> (r: Result<Value, EvalError>)
    ensures
        out(r) == fold_paths(paths_view(paths@), input@, set_each_fn(new@)),
{
    let mut v = input.clone();
    let ghost all = paths_view(paths@);
    let ghost f = set_each_fn(new@);
    let mut i: usize = 0;
    while i < paths.len()
        invariant
            i <= paths.len(),
            all == paths_view(paths@),
            f == set_each_fn(new@),
            fold_paths(all.take(i as int), input@, f) == Ok::<Val, Er>(v@),
        decreases paths.len() - i,
    {
        proof {
            fold_step(all, input@, f, i as int);
        }
        match set_path(&v, &paths[i], new) {
            Err(x) => {
                proof {
                    fold_stop(all, input@, f, i + 1);
                }
                return Err(x);
            },
            Ok(w) => {
                v = w;
            },
        }
        i = i + 1;
    }
    assert(all.take(i as int) =~= all);
    Ok(v)
}

fn add_each(input: &Value, paths: &Vec<Vec<Step>>, new: &Value, facts: &FloatFacts) -> (r: Result<
    Value,
    EvalError,
>)
    ensures
        out(r) == fold_paths(paths_view(paths@), input@, add_each_fn(new@, facts@)),
{
    let mut v = input.clone();
    let ghost all = paths_view(paths@);
    let ghost f = add_each_fn(new@, facts@);
    let mut i: usize = 0;
    while i < paths.len()
        invariant
            i <= paths.len(),
            all == paths_view(paths@),
            f == add_each_fn(new@, facts@),
            fold_paths(all.take(i as int), input@, f) == Ok::<Val, Er>(v@),
        decreases paths.len() - i,
    {
        proof {
            fold_step(all, input@, f, i as int);
        }
        match add_path(&v, &paths[i], new, facts) {
            Err(x) => {
                proof {
                    fold_stop(all, input@, f, i + 1);
                }
                return Err(x);
            },
            Ok(w) => {
                v = w;
            },
        }
        i = i + 1;
    }
    assert(all.take(i as int) =~= all);
    Ok(v)
}

fn update_each(input: &Value, paths: &Vec<Vec<Step>>, rhs: &Expr, facts: &FloatFacts) -> (r: Result<
    Value,
    EvalError,
>)
    ensures
        out(r) == fold_paths(paths_view(paths@), input@, update_each_fn(rhs@, facts@)),
    decreases rhs, 3int, 0int, 0int,
{
    let mut v = input.clone();
    let ghost all = paths_view(paths@);
    let ghost f = update_each_fn(rhs@, facts@);
    let mut i: usize = 0;
    while i < paths.len()
        invariant
            i <= paths.len(),
            all == paths_view(paths@),
            f == update_each_fn(rhs@, facts@),
            fold_paths(all.take(i as int), input@, f) == Ok::<Val, Er>(v@),
        decreases paths.len() - i,
    {
        proof {
            fold_step(all, input@, f, i as int);
        }
        match update_path(&v, &paths[i], rhs, facts) {
            Err(x) => {
                proof {
                    fold_stop(all, input@, f, i + 1);
                }
                return Err(x);
            },
            Ok(w) => {
                v = w;
            },
        }
        i = i + 1;
    }
    assert(all.take(i as int) =~= all);
    Ok(v)
}

fn update_elements(a: &Vec<Value>, steps: &Vec<Step>, from: usize, f: &Expr, facts: &FloatFacts) -> (r: Result<
    Vec<Value>,
    EvalError,
>)
    requires
        from <= steps.len(),
    ensures
        outs(r) == map_all(
            vals(a@),
            update_fn(steps_of(steps@).skip(from as int), f@, facts@),
        ),
    decreases f, 1int, steps.len() - from, 1int,
{
    let mut done: Vec<Value> = Vec::new();
    let ghost all = vals(a@);
    let ghost g = update_fn(steps_of(steps@).skip(from as int), f@, facts@);
    assert(vals(done@) =~= Seq::<Val>::empty());
    let mut i: usize = 0;
    while i < a.len()
        invariant
            i <= a.len(),
            from <= steps.len(),
            all == vals(a@),
            g == update_fn(steps_of(steps@).skip(from as int), f@, facts@),
            map_all(all.take(i as int), g) == Ok::<Seq<Val>, Er>(vals(done@)),
        decreases a.len() - i,
    {
        proof {
            map_step(all, g, i as int);
        }
        match update_from(&a[i], steps, from, f, facts) {
            Err(e) => {
                proof {
                    map_stop(all, g, i + 1);
                }
                return Err(e);
            },
            Ok(x) => done.push(x),
        }
        i = i + 1;
    }
    assert(all.take(i as int) =~= all);
    Ok(done)
}

fn update_members(
    m: &Vec<(String, Value)>,
    steps: &Vec<Step>,
    from: usize,
    f: &Expr,
    facts: &FloatFacts,
) -> (r: Result<Vec<(String, Value)>, EvalError>)
    requires
        from <= steps.len(),
    ensures
        member_outs(r) == map_all(
            members(m@),
            update_member_fn(steps_of(steps@).skip(from as int), f@, facts@),
        ),
    decreases f, 1int, steps.len() - from, 1int,
{
    let mut done: Vec<(String, Value)> = Vec::new();
    let ghost all = members(m@);
    let ghost g = update_member_fn(steps_of(steps@).skip(from as int), f@, facts@);
    assert(members(done@) =~= Seq::<(Seq<char>, Val)>::empty());
    let mut i: usize = 0;
    while i < m.len()
        invariant
            i <= m.len(),
            from <= steps.len(),
            all == members(m@),
            g == update_member_fn(steps_of(steps@).skip(from as int), f@, facts@),
            map_all(all.take(i as int), g) == Ok::<Seq<(Seq<char>, Val)>, Er>(members(done@)),
        decreases m.len() - i,
    {
        proof {
            map_step(all, g, i as int);
        }
        match update_from(&m[i].1, steps, from, f, facts) {
            Err(e) => {
                proof {
                    map_stop(all, g, i + 1);
                }
                return Err(e);
            },
            Ok(x) => done.push((m[i].0.clone(), x)),
        }
        i = i + 1;
    }
    assert(all.take(i as int) =~= all);
    Ok(done)
}

fn update_from(v: &Value, steps: &Vec<Step>, from: usize, f: &Expr, facts: &FloatFacts) -> (r: Result<
    Value,
    EvalError,
>)
    requires
        from <= steps.len(),
    ensures
        out(r) == update_at(v@, steps_of(steps@).skip(from as int), f@, facts@),
    decreases f, 1int, steps.len() - from, 0int,
{
    if from == steps.len() {
        let s = eval(f, v, facts)?;
        return Ok(take_first(s));
    }
    proof {
        tail_of(steps_of(steps@), from as int);
    }
    match &steps[from] {
        Step::Field(k) => match v {
            Value::Object(m) => {
                let i = find_key(m, k);
                proof {
                    key_at_bounds(members(m@), k@);
                }
                if i < m.len() {
                    let x = update_from(&m[i].1, steps, from + 1, f, facts)?;
                    let mut obj = clone_members(m);
                    let ghost before = members(obj@);
                    assert(obj.len() == before.len());
                    let ghost vx = x@;
                    let key = m[i].0.clone();
                    obj.set(i, (key, x));
                    assert(members(obj@) =~= before.update(i as int, (before[i as int].0, vx)));
                    Ok(Value::Object(obj))
                } else {
                    let mut t = "no such key: \"".to_owned();
                    t.append(k);
                    t.append("\"");
                    Err(EvalError::of(t))
                }
            },
            _ => Err(about("cannot update field of ", v)),
        },
        Step::Index(i) => match v {
            Value::Array(a) => match resolve_index(*i, a.len()) {
                Some(n) => {
                    let x = update_from(&a[n], steps, from + 1, f, facts)?;
                    let mut arr = clone_values(a);
                    let ghost before = vals(arr@);
                    assert(arr.len() == before.len());
                    let ghost vx = x@;
                    arr.set(n, x);
                    assert(vals(arr@) =~= before.update(n as int, vx));
                    Ok(Value::Array(arr))
                },
                None => Err(EvalError::new("array index out of range")),
            },
            _ => Err(cannot_index(v)),
        },
        Step::Iterate => match v {
            Value::Array(a) => match update_elements(a, steps, from + 1, f, facts) {
                Ok(done) => Ok(Value::Array(done)),
                Err(e) => Err(e),
            },
            Value::Object(m) => match update_members(m, steps, from + 1, f, facts) {
                Ok(done) => Ok(Value::Object(done)),
                Err(e) => Err(e),
            },
            _ => Err(cannot_iterate(v)),
        },
        Step::Comment(_) => Err(EvalError::new(comment_mutation_unsupported())),
    }
}

/// A copy of `v` with the value at `steps` replaced by `f` applied to it.
pub fn update_path(v: &Value, steps: &Vec<Step>, f: &Expr, facts: &FloatFacts) -> (r: Result<
    Value,
    EvalError,
>)
    ensures
        out(r) == update_at(v@, steps_of(steps@), f@, facts@),
    decreases f, 2int, 0int, 0int,
{
    assert(steps_of(steps@).skip(0) =~= steps_of(steps@));
    update_from(v, steps, 0, f, facts)
}

/// A stream of one value.
pub fn just(v: Value) -> (r: Vec<Value>)
    ensures
        vals(r@) == seq![v@],
{
    let mut one: Vec<Value> = Vec::new();
    let ghost x = v@;
    one.push(v);
    assert(vals(one@) =~= seq![x]);
    one
}

/// The first value of a stream, as the right side of an assignment.
pub fn first_value(s: Vec<Value>) -> (r: Result<Value, EvalError>)
    ensures
        out(r) == one_value(Ok::<Seq<Val>, Er>(vals(s@))),
{
    if s.len() == 0 {
        Err(EvalError::new("right side of the assignment produced no value"))
    } else {
        Ok(take_first(s))
    }
}

/// Evaluate `expr` against `input`, returning the output stream.
pub fn eval(expr: &Expr, input: &Value, facts: &FloatFacts) -> (r: Result<Vec<Value>, EvalError>)
    ensures
        outs(r) == ex_eval(expr@, input@, facts@),
    decreases expr, 0int, 0int, 0int,
{
    match expr {
        Expr::Path(steps) => eval_path(steps, input),
        Expr::Literal(v) => Ok(just(v.clone())),
        Expr::Neg(inner) => {
            let s = eval(inner, input, facts)?;
            negate_all(&s)
        },
        Expr::Binary(op, l, r) => {
            let lefts = eval(l, input, facts)?;
            let rights = eval(r, input, facts)?;
            binary_all(*op, &lefts, &rights, facts)
        },
        Expr::Pipe(l, r) => {
            let s = eval(l, input, facts)?;
            eval_each(r, &s, facts)
        },
        Expr::Alternative(l, r) => {
            // jq's `//`: the left side's truthy outputs; if there are none - a
            // miss, `null`, or `false`: the right side's. A type error on the
            // left still propagates: a miss falls back, a mistake doesn't hide.
            let s = eval(l, input, facts)?;
            let kept = keep_truthy(s);
            if kept.len() == 0 {
                eval(r, input, facts)
            } else {
                Ok(kept)
            }
        },
        Expr::Comma(items) => eval_items(items, input, facts),
        Expr::Call(name, args) => eval_call(name, args, input, facts),
        Expr::Collect(inner) => match inner {
            Some(e) => {
                let s = eval(e, input, facts)?;
                Ok(just(Value::Array(s)))
            },
            None => {
                let none: Vec<Value> = Vec::new();
                assert(vals(none@) =~= Seq::<Val>::empty());
                Ok(just(Value::Array(none)))
            },
        },
        Expr::ObjectConstruct(pairs) => {
            let m = eval_members(pairs, input, facts)?;
            Ok(just(Value::Object(m)))
        },
        // A path-expression target (`(.xs[] | select(...) | .n) = v`) is one
        // plain-path mutation per match, applied in turn.
        Expr::Assign(lhs, rhs) => {
            if let Some(steps) = lhs.as_path() {
                let news = eval(rhs, input, facts)?;
                return assign_each(input, steps, &news);
            }
            let paths = eval_paths(lhs, input, facts)?;
            if paths.len() == 0 {
                return Ok(just(input.clone()));
            }
            let s = eval(rhs, input, facts)?;
            let new = first_value(s)?;
            let v = set_each(input, &paths, &new)?;
            Ok(just(v))
        },
        Expr::UpdateAssign(lhs, rhs) => {
            if let Some(steps) = lhs.as_path() {
                let v = update_path(input, steps, rhs, facts)?;
                return Ok(just(v));
            }
            let paths = eval_paths(lhs, input, facts)?;
            let v = update_each(input, &paths, rhs, facts)?;
            Ok(just(v))
        },
        Expr::AddAssign(lhs, rhs) => {
            if let Some(steps) = lhs.as_path() {
                let news = eval(rhs, input, facts)?;
                return add_assign_each(input, steps, &news, facts);
            }
            let paths = eval_paths(lhs, input, facts)?;
            if paths.len() == 0 {
                return Ok(just(input.clone()));
            }
            let s = eval(rhs, input, facts)?;
            let new = first_value(s)?;
            let v = add_each(input, &paths, &new, facts)?;
            Ok(just(v))
        },
        // `^dN` addresses documents, an axis the value evaluator has no notion
        // of; against a lone value the body simply applies.
        Expr::DocSelect(_, body) => eval(body, input, facts),
    }
}

} // verus!
