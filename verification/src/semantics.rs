//! The meaning of expressions: what stream of values an expression yields for
//! an input, what an assignment makes of a value, and which concrete paths a
//! path expression selects.
//!
//! jq-style generator semantics: every expression maps one input value to a
//! stream of output values. A miss (missing key, out-of-range index) is an
//! empty stream; stepping into the wrong type is an error, and the first error
//! met is the error of the whole.
use crate::arith::{add_val, bin_val, neg_val};
use crate::error::{fail, wants, Er};
use crate::float::{parsed, Facts};
use crate::index::{normalized, resolved};
use crate::model::{BinOp, Ex, St, Val};
use crate::seqs::{bind_all, int_rank, lex_rank, map_all, sort_with, str_rank, Rank};
use crate::strings::{captures_val, find_val, join_val, split_val, sub_val, test_val};
use crate::strs::{lower_text, nat_digits, parse_i64, trimmed, upper_text};
use crate::value::{get_key, key_at, raw_text, sorted_keys, truthy, type_text};
use vstd::prelude::*;

verus! {

/// The first output, or null.
pub open spec fn first_or_null(s: Seq<Val>) -> Val {
    if s.len() > 0 {
        s[0]
    } else {
        Val::Null
    }
}

/// The values of an object's members.
pub open spec fn member_values(m: Seq<(Seq<char>, Val)>) -> Seq<Val> {
    Seq::new(m.len(), |i: int| m[i].1)
}

/// "cannot index <type> with a number".
pub open spec fn not_indexable(v: Val) -> Er {
    fail("cannot index "@ + type_text(v) + " with a number"@)
}

/// "cannot iterate over <type>".
pub open spec fn not_iterable(v: Val) -> Er {
    fail("cannot iterate over "@ + type_text(v))
}

/// "cannot index <type> with "<key>"".
pub open spec fn no_fields(v: Val, k: Seq<char>) -> Er {
    fail("cannot index "@ + type_text(v) + " with \""@ + k + "\""@)
}

/// The refusal of a comment step among values.
pub open spec fn comment_access() -> Er {
    fail(
        "comment access (`#`) resolves only as a whole path like `.foo.#`, not after a pipe over a value"@,
    )
}

/// The refusal of a comment edit among values.
pub open spec fn comment_edit() -> Er {
    fail(
        "editing comments (`#`) works only as a mutation of the file itself, e.g. `edikt '.foo.# = \"note\"' file`"@,
    )
}

/// What one step yields for a value.
pub open spec fn step_outs(st: St, v: Val) -> Result<Seq<Val>, Er> {
    match st {
        St::Field(k) => match v {
            Val::Object(m) => match get_key(m, k) {
                Some(x) => Ok(seq![x]),
                None => Ok(Seq::empty()),
            },
            Val::Null => Ok(Seq::empty()),
            _ => Err(no_fields(v, k)),
        },
        St::Index(i) => match v {
            Val::Array(a) => match resolved(i as int, a.len() as int) {
                Some(n) => Ok(seq![a[n]]),
                None => Ok(Seq::empty()),
            },
            Val::Null => Ok(Seq::empty()),
            _ => Err(not_indexable(v)),
        },
        St::Iterate => match v {
            Val::Array(a) => Ok(a),
            Val::Object(m) => Ok(member_values(m)),
            _ => Err(not_iterable(v)),
        },
        St::Comment(_) => Err(comment_access()),
    }
}

pub open spec fn step_fn(st: St) -> spec_fn(Val) -> Result<Seq<Val>, Er> {
    |v: Val| step_outs(st, v)
}

/// What a path yields for a value, one step after another over the whole
/// stream.
pub open spec fn path_outs(steps: Seq<St>, v: Val) -> Result<Seq<Val>, Er>
    decreases steps.len(),
{
    if steps.len() == 0 {
        Ok(seq![v])
    } else {
        match path_outs(steps.drop_last(), v) {
            Err(e) => Err(e),
            Ok(vs) => bind_all(vs, step_fn(steps.last())),
        }
    }
}

/// `a` extended with nulls to length `n`.
pub open spec fn null_filled(a: Seq<Val>, n: int) -> Seq<Val> {
    if a.len() < n {
        a + Seq::new((n - a.len()) as nat, |i: int| Val::Null)
    } else {
        a
    }
}

/// A member's key beside its changed value.
pub open spec fn keyed(k: Seq<char>, r: Result<Val, Er>) -> Result<(Seq<char>, Val), Er> {
    match r {
        Ok(v) => Ok((k, v)),
        Err(e) => Err(e),
    }
}

/// The array of the changed elements.
pub open spec fn as_array(r: Result<Seq<Val>, Er>) -> Result<Val, Er> {
    match r {
        Ok(a) => Ok(Val::Array(a)),
        Err(e) => Err(e),
    }
}

/// The object of the changed members.
pub open spec fn as_object(r: Result<Seq<(Seq<char>, Val)>, Er>) -> Result<Val, Er> {
    match r {
        Ok(m) => Ok(Val::Object(m)),
        Err(e) => Err(e),
    }
}

/// `v` with `steps` set to `new`. Missing object keys and array slots are
/// created (arrays extend with nulls).
pub open spec fn set_at(v: Val, steps: Seq<St>, new: Val) -> Result<Val, Er>
    decreases steps.len(), 0int,
{
    if steps.len() == 0 {
        Ok(new)
    } else {
        let rest = steps.drop_first();
        match steps[0] {
            St::Field(k) => match v {
                Val::Object(m) => set_member(m, k, rest, new),
                Val::Null => set_member(Seq::empty(), k, rest, new),
                _ => Err(fail("cannot set field of "@ + type_text(v))),
            },
            St::Index(i) => match v {
                Val::Array(a) => set_element(a, i, rest, new),
                Val::Null => set_element(Seq::empty(), i, rest, new),
                _ => Err(not_indexable(v)),
            },
            St::Iterate => match v {
                Val::Array(a) => as_array(map_all(a, set_fn(rest, new))),
                Val::Object(m) => as_object(map_all(m, set_member_fn(rest, new))),
                _ => Err(not_iterable(v)),
            },
            St::Comment(_) => Err(comment_edit()),
        }
    }
}

/// The object with the path below its key `k` set.
pub open spec fn set_member(m: Seq<(Seq<char>, Val)>, k: Seq<char>, rest: Seq<St>, new: Val) -> Result<
    Val,
    Er,
>
    decreases rest.len(), 1int,
{
    let i = key_at(m, k);
    if 0 <= i < m.len() {
        match set_at(m[i].1, rest, new) {
            Ok(x) => Ok(Val::Object(m.update(i, (m[i].0, x)))),
            Err(e) => Err(e),
        }
    } else {
        match set_at(Val::Null, rest, new) {
            Ok(x) => Ok(Val::Object(m.push((k, x)))),
            Err(e) => Err(e),
        }
    }
}

/// The array with the path below its index `i` set.
pub open spec fn set_element(a: Seq<Val>, i: i64, rest: Seq<St>, new: Val) -> Result<Val, Er>
    decreases rest.len(), 1int,
{
    match normalized(i as int, a.len() as int) {
        None => Err(fail("array index out of range"@)),
        Some(n) => {
            let b = null_filled(a, n + 1);
            match set_at(b[n], rest, new) {
                Ok(x) => Ok(Val::Array(b.update(n, x))),
                Err(e) => Err(e),
            }
        },
    }
}

pub open spec fn set_fn(steps: Seq<St>, new: Val) -> spec_fn(Val) -> Result<Val, Er>
    decreases steps.len(), 1int,
{
    |v: Val| set_at(v, steps, new)
}

pub open spec fn set_member_fn(steps: Seq<St>, new: Val) -> spec_fn((Seq<char>, Val)) -> Result<
    (Seq<char>, Val),
    Er,
>
    decreases steps.len(), 1int,
{
    |p: (Seq<char>, Val)| keyed(p.0, set_at(p.1, steps, new))
}

/// The members whose key is not `k`.
pub open spec fn without_key(m: Seq<(Seq<char>, Val)>, k: Seq<char>) -> Seq<(Seq<char>, Val)>
    decreases m.len(),
{
    if m.len() == 0 {
        m
    } else if m.last().0 == k {
        without_key(m.drop_last(), k)
    } else {
        without_key(m.drop_last(), k).push(m.last())
    }
}

/// The container without what `st` names: the leaf of a `del` path.
pub open spec fn remove_at(v: Val, st: St) -> Result<Val, Er> {
    match st {
        St::Field(k) => match v {
            Val::Object(m) => Ok(Val::Object(without_key(m, k))),
            Val::Null => Ok(Val::Null),
            _ => Err(fail("cannot delete a field of "@ + type_text(v))),
        },
        St::Index(i) => match v {
            Val::Array(a) => match resolved(i as int, a.len() as int) {
                Some(n) => Ok(Val::Array(a.remove(n))),
                None => Ok(v),
            },
            Val::Null => Ok(Val::Null),
            _ => Err(fail("cannot delete an index of "@ + type_text(v))),
        },
        St::Iterate => match v {
            Val::Array(_) => Ok(Val::Array(Seq::empty())),
            Val::Object(_) => Ok(Val::Object(Seq::empty())),
            _ => Err(not_iterable(v)),
        },
        St::Comment(_) => Err(comment_edit()),
    }
}

/// `v` with the value at `steps` removed. A missing key or out-of-range index
/// is a no-op.
pub open spec fn del_at(v: Val, steps: Seq<St>) -> Result<Val, Er>
    decreases steps.len(), 0int,
{
    if steps.len() == 0 {
        Err(fail("del(.) is not allowed"@))
    } else if steps.len() == 1 {
        remove_at(v, steps[0])
    } else {
        let rest = steps.drop_first();
        match steps[0] {
            St::Field(k) => match v {
                Val::Object(m) => {
                    let i = key_at(m, k);
                    if 0 <= i < m.len() {
                        match del_at(m[i].1, rest) {
                            Ok(x) => Ok(Val::Object(m.update(i, (m[i].0, x)))),
                            Err(e) => Err(e),
                        }
                    } else {
                        Ok(v)
                    }
                },
                Val::Null => Ok(Val::Null),
                _ => Err(fail("cannot descend into "@ + type_text(v))),
            },
            St::Index(i) => match v {
                Val::Array(a) => match resolved(i as int, a.len() as int) {
                    Some(n) => match del_at(a[n], rest) {
                        Ok(x) => Ok(Val::Array(a.update(n, x))),
                        Err(e) => Err(e),
                    },
                    None => Ok(v),
                },
                Val::Null => Ok(Val::Null),
                _ => Err(not_indexable(v)),
            },
            St::Iterate => match v {
                Val::Array(a) => as_array(map_all(a, del_fn(rest))),
                Val::Object(m) => as_object(map_all(m, del_member_fn(rest))),
                _ => Err(not_iterable(v)),
            },
            St::Comment(_) => Err(comment_edit()),
        }
    }
}

pub open spec fn del_fn(steps: Seq<St>) -> spec_fn(Val) -> Result<Val, Er>
    decreases steps.len(), 1int,
{
    |v: Val| del_at(v, steps)
}

pub open spec fn del_member_fn(steps: Seq<St>) -> spec_fn((Seq<char>, Val)) -> Result<
    (Seq<char>, Val),
    Er,
>
    decreases steps.len(), 1int,
{
    |p: (Seq<char>, Val)| keyed(p.0, del_at(p.1, steps))
}

/// `v` with `new` added to what stands at `steps` (null where nothing does).
pub open spec fn add_at(v: Val, steps: Seq<St>, new: Val, fx: Facts) -> Result<Val, Er> {
    match path_outs(steps, v) {
        Err(e) => Err(e),
        Ok(s) => match add_val(first_or_null(s), new, fx) {
            Err(e) => Err(e),
            Ok(x) => set_at(v, steps, x),
        },
    }
}

/// Each path in front of which `st` is put.
pub open spec fn prefixed(pre: Seq<St>, paths: Seq<Seq<St>>) -> Seq<Seq<St>> {
    Seq::new(paths.len(), |i: int| pre + paths[i])
}

pub open spec fn under(st: St, r: Result<Seq<Seq<St>>, Er>) -> Result<Seq<Seq<St>>, Er> {
    match r {
        Ok(ps) => Ok(prefixed(seq![st], ps)),
        Err(e) => Err(e),
    }
}

/// The concrete, iterate-free paths `steps` stands for in `v`, one per iterated
/// element. A miss yields none; stepping into the wrong type is an error.
pub open spec fn expanded(steps: Seq<St>, v: Val) -> Result<Seq<Seq<St>>, Er>
    decreases steps.len(), 0int,
{
    if steps.len() == 0 {
        Ok(seq![Seq::<St>::empty()])
    } else {
        let rest = steps.drop_first();
        match (steps[0], v) {
            (St::Iterate, Val::Array(a)) => bind_all(
                Seq::new(a.len(), |i: int| i),
                expand_nth_fn(rest, a),
            ),
            (St::Iterate, Val::Object(m)) => bind_all(m, expand_member_fn(rest)),
            (St::Iterate, _) => Err(not_iterable(v)),
            (st, _) => match step_outs(st, v) {
                Err(e) => Err(e),
                Ok(s) => if s.len() == 0 {
                    Ok(Seq::empty())
                } else {
                    under(st, expanded(rest, s[0]))
                },
            },
        }
    }
}

pub open spec fn expand_nth_fn(steps: Seq<St>, a: Seq<Val>) -> spec_fn(int) -> Result<
    Seq<Seq<St>>,
    Er,
>
    decreases steps.len(), 1int,
{
    |i: int| under(St::Index(i as i64), expanded(steps, a[i]))
}

pub open spec fn expand_member_fn(steps: Seq<St>) -> spec_fn((Seq<char>, Val)) -> Result<
    Seq<Seq<St>>,
    Er,
>
    decreases steps.len(), 1int,
{
    |p: (Seq<char>, Val)| under(St::Field(p.0), expanded(steps, p.1))
}

/// A concrete path, and the value found there (`None` when the path names a key
/// or index that doesn't exist yet).
pub type Found = (Seq<St>, Option<Val>);

/// The positions one step leads to.
pub open spec fn step_founds(st: St, p: Seq<St>, v: Option<Val>) -> Result<Seq<Found>, Er> {
    match st {
        St::Field(k) => match v {
            Some(Val::Object(m)) => Ok(seq![(p.push(st), get_key(m, k))]),
            Some(Val::Null) => Ok(seq![(p.push(st), None)]),
            None => Ok(seq![(p.push(st), None)]),
            Some(other) => Err(no_fields(other, k)),
        },
        St::Index(i) => match v {
            Some(Val::Array(a)) => match resolved(i as int, a.len() as int) {
                Some(n) => Ok(seq![(p.push(St::Index(n as i64)), Some(a[n]))]),
                None => Ok(seq![(p.push(st), None)]),
            },
            Some(Val::Null) => Ok(seq![(p.push(st), None)]),
            None => Ok(seq![(p.push(st), None)]),
            Some(other) => Err(not_indexable(other)),
        },
        St::Iterate => match v {
            Some(Val::Array(a)) => Ok(
                Seq::new(a.len(), |i: int| (p.push(St::Index(i as i64)), Some(a[i]))),
            ),
            Some(Val::Object(m)) => Ok(
                Seq::new(m.len(), |i: int| (p.push(St::Field(m[i].0)), Some(m[i].1))),
            ),
            None => Ok(Seq::empty()),
            Some(other) => Err(not_iterable(other)),
        },
        St::Comment(_) => Err(
            fail(
                "a comment (`#`) can't be part of a path expression; a comment edit takes a plain path like `.foo.#`"@,
            ),
        ),
    }
}

pub open spec fn step_founds_fn(st: St) -> spec_fn(Found) -> Result<Seq<Found>, Er> {
    |f: Found| step_founds(st, f.0, f.1)
}

/// The positions a plain path leads to.
pub open spec fn path_founds(steps: Seq<St>, v: Option<Val>) -> Result<Seq<Found>, Er>
    decreases steps.len(),
{
    if steps.len() == 0 {
        Ok(seq![(Seq::<St>::empty(), v)])
    } else {
        match path_founds(steps.drop_last(), v) {
            Err(e) => Err(e),
            Ok(fs) => bind_all(fs, step_founds_fn(steps.last())),
        }
    }
}

/// Positions found below `pre`.
pub open spec fn below_path(pre: Seq<St>, r: Result<Seq<Found>, Er>) -> Result<Seq<Found>, Er> {
    match r {
        Ok(fs) => Ok(Seq::new(fs.len(), |i: int| (pre + fs[i].0, fs[i].1))),
        Err(e) => Err(e),
    }
}

/// Is any output truthy?
pub open spec fn any_truthy(s: Seq<Val>) -> bool {
    exists|i: int| 0 <= i < s.len() && truthy(#[trigger] s[i])
}

/// The integers below `n`.
pub open spec fn upto(n: nat) -> Seq<int> {
    Seq::new(n, |i: int| i)
}

/// The positions a path expression selects: a plain path, `select(pred)`, and
/// any `|` or `,` composition of them.
pub open spec fn ex_founds(e: Ex, v: Option<Val>, fx: Facts) -> Result<Seq<Found>, Er>
    decreases e, 0int, 0int, 0int,
{
    match e {
        Ex::Path(steps) => path_founds(steps, v),
        Ex::Pipe(a, b) => match ex_founds(*a, v, fx) {
            Err(x) => Err(x),
            Ok(fs) => bind_all(fs, founds_fn(*b, fx)),
        },
        Ex::Comma(items) => bind_all(upto(items.len()), nth_founds_fn(items, v, fx)),
        Ex::Call(name, args) => if name == "select"@ && args.len() == 1 {
            match ex_eval(
                args[0],
                match v {
                    Some(x) => x,
                    None => Val::Null,
                },
                fx,
            ) {
                Err(x) => Err(x),
                Ok(s) => if any_truthy(s) {
                    Ok(seq![(Seq::<St>::empty(), v)])
                } else {
                    Ok(Seq::empty())
                },
            }
        } else {
            Err(not_a_path())
        },
        _ => Err(not_a_path()),
    }
}

pub open spec fn not_a_path() -> Er {
    fail(
        "left side of an assignment must be a path (a path, `[]`, `select(...)`, joined by `|` or `,`)"@,
    )
}

pub open spec fn founds_fn(e: Ex, fx: Facts) -> spec_fn(Found) -> Result<Seq<Found>, Er>
    decreases e, 1int, 0int, 0int,
{
    |f: Found| below_path(f.0, ex_founds(e, f.1, fx))
}

pub open spec fn nth_founds_fn(items: Seq<Ex>, v: Option<Val>, fx: Facts) -> spec_fn(int) -> Result<
    Seq<Found>,
    Er,
>
    decreases items, 1int, 0int, 0int,
{
    |i: int|
        if 0 <= i < items.len() {
            ex_founds(items[i], v, fx)
        } else {
            Ok(Seq::empty())
        }
}

/// The paths of positions.
pub open spec fn found_paths(fs: Seq<Found>) -> Seq<Seq<St>> {
    Seq::new(fs.len(), |i: int| fs[i].0)
}

/// The concrete paths a path expression selects in `v`, in document order.
pub open spec fn ex_paths(e: Ex, v: Val, fx: Facts) -> Result<Seq<Seq<St>>, Er>
    decreases e, 1int, 0int, 0int,
{
    match ex_founds(e, Some(v), fx) {
        Ok(fs) => Ok(found_paths(fs)),
        Err(x) => Err(x),
    }
}

/// Document order of steps: indices numerically, keys by name.
pub open spec fn step_rank(a: St, b: St) -> Rank {
    match (a, b) {
        (St::Index(i), St::Index(j)) => int_rank(i as int, j as int),
        (St::Field(k), St::Field(l)) => str_rank(k, l),
        (St::Index(_), _) => Rank::Below,
        (_, St::Index(_)) => Rank::Above,
        _ => Rank::Level,
    }
}

/// Document order of paths; a path comes before what lies below it.
pub open spec fn path_rank(a: Seq<St>, b: Seq<St>) -> Rank {
    lex_rank(a, b, |x: St, y: St| step_rank(x, y), 0)
}

/// The reverse of document order.
pub open spec fn last_first() -> spec_fn(Seq<St>, Seq<St>) -> Rank {
    |a: Seq<St>, b: Seq<St>| path_rank(b, a)
}

/// `s` without elements equal to the one before them.
pub open spec fn deduped<A>(s: Seq<A>) -> Seq<A>
    decreases s.len(),
{
    if s.len() == 0 {
        s
    } else if s.len() >= 2 && s.last() == s[s.len() - 2] {
        deduped(s.drop_last())
    } else {
        deduped(s.drop_last()).push(s.last())
    }
}

/// The order in which paths are deleted: back to front, each once.
pub open spec fn deletion_order(paths: Seq<Seq<St>>) -> Seq<Seq<St>> {
    deduped(sort_with(paths, last_first()))
}

/// `v` changed at each path in turn, or the first error.
pub open spec fn fold_paths(
    paths: Seq<Seq<St>>,
    v: Val,
    f: spec_fn(Val, Seq<St>) -> Result<Val, Er>,
) -> Result<Val, Er>
    decreases paths.len(),
{
    if paths.len() == 0 {
        Ok(v)
    } else {
        match fold_paths(paths.drop_last(), v, f) {
            Err(e) => Err(e),
            Ok(w) => f(w, paths.last()),
        }
    }
}

pub open spec fn set_each_fn(new: Val) -> spec_fn(Val, Seq<St>) -> Result<Val, Er> {
    |v: Val, p: Seq<St>| set_at(v, p, new)
}

pub open spec fn add_each_fn(new: Val, fx: Facts) -> spec_fn(Val, Seq<St>) -> Result<Val, Er> {
    |v: Val, p: Seq<St>| add_at(v, p, new, fx)
}

pub open spec fn del_each_fn() -> spec_fn(Val, Seq<St>) -> Result<Val, Er> {
    |v: Val, p: Seq<St>| del_at(v, p)
}

pub open spec fn update_each_fn(f: Ex, fx: Facts) -> spec_fn(Val, Seq<St>) -> Result<Val, Er>
    decreases f, 2int, 0int, 0int,
{
    |v: Val, p: Seq<St>| update_at(v, p, f, fx)
}

/// `v` with the value at `steps` replaced by `f` applied to it.
pub open spec fn update_at(v: Val, steps: Seq<St>, f: Ex, fx: Facts) -> Result<Val, Er>
    decreases f, 1int, steps.len(), 0int,
{
    if steps.len() == 0 {
        match ex_eval(f, v, fx) {
            Ok(s) => Ok(first_or_null(s)),
            Err(e) => Err(e),
        }
    } else {
        let rest = steps.drop_first();
        match steps[0] {
            St::Field(k) => match v {
                Val::Object(m) => {
                    let i = key_at(m, k);
                    if 0 <= i < m.len() {
                        match update_at(m[i].1, rest, f, fx) {
                            Ok(x) => Ok(Val::Object(m.update(i, (m[i].0, x)))),
                            Err(e) => Err(e),
                        }
                    } else {
                        Err(fail("no such key: \""@ + k + "\""@))
                    }
                },
                _ => Err(fail("cannot update field of "@ + type_text(v))),
            },
            St::Index(i) => match v {
                Val::Array(a) => match resolved(i as int, a.len() as int) {
                    Some(n) => match update_at(a[n], rest, f, fx) {
                        Ok(x) => Ok(Val::Array(a.update(n, x))),
                        Err(e) => Err(e),
                    },
                    None => Err(fail("array index out of range"@)),
                },
                _ => Err(not_indexable(v)),
            },
            St::Iterate => match v {
                Val::Array(a) => as_array(map_all(a, update_fn(rest, f, fx))),
                Val::Object(m) => as_object(map_all(m, update_member_fn(rest, f, fx))),
                _ => Err(not_iterable(v)),
            },
            St::Comment(_) => Err(comment_edit()),
        }
    }
}

pub open spec fn update_fn(steps: Seq<St>, f: Ex, fx: Facts) -> spec_fn(Val) -> Result<Val, Er>
    decreases f, 1int, steps.len(), 1int,
{
    |v: Val| update_at(v, steps, f, fx)
}

pub open spec fn update_member_fn(steps: Seq<St>, f: Ex, fx: Facts) -> spec_fn(
    (Seq<char>, Val),
) -> Result<(Seq<char>, Val), Er>
    decreases f, 1int, steps.len(), 1int,
{
    |p: (Seq<char>, Val)| keyed(p.0, update_at(p.1, steps, f, fx))
}

pub open spec fn neg_fn() -> spec_fn(Val) -> Result<Val, Er> {
    |v: Val| neg_val(v)
}

/// `a` against each of `rights`.
pub open spec fn bin_right_fn(op: BinOp, a: Val, fx: Facts) -> spec_fn(Val) -> Result<Val, Er> {
    |b: Val| bin_val(op, a, b, fx)
}

/// Each left side against all of `rights`.
pub open spec fn bin_fn(op: BinOp, rights: Seq<Val>, fx: Facts) -> spec_fn(Val) -> Result<
    Seq<Val>,
    Er,
> {
    |a: Val| map_all(rights, bin_right_fn(op, a, fx))
}

/// The truthy ones.
pub open spec fn truthy_only(s: Seq<Val>) -> Seq<Val>
    decreases s.len(),
{
    if s.len() == 0 {
        s
    } else if truthy(s.last()) {
        truthy_only(s.drop_last()).push(s.last())
    } else {
        truthy_only(s.drop_last())
    }
}

pub open spec fn eval_fn(e: Ex, fx: Facts) -> spec_fn(Val) -> Result<Seq<Val>, Er>
    decreases e, 1int, 0int, 0int,
{
    |v: Val| ex_eval(e, v, fx)
}

pub open spec fn nth_eval_fn(items: Seq<Ex>, v: Val, fx: Facts) -> spec_fn(int) -> Result<
    Seq<Val>,
    Er,
>
    decreases items, 1int, 0int, 0int,
{
    |i: int|
        if 0 <= i < items.len() {
            ex_eval(items[i], v, fx)
        } else {
            Ok(Seq::empty())
        }
}

pub open spec fn nth_member_fn(pairs: Seq<(Seq<char>, Ex)>, v: Val, fx: Facts) -> spec_fn(
    int,
) -> Result<(Seq<char>, Val), Er>
    decreases pairs, 1int, 0int, 0int,
{
    |i: int|
        if 0 <= i < pairs.len() {
            match ex_eval(pairs[i].1, v, fx) {
                Ok(s) => Ok((pairs[i].0, first_or_null(s))),
                Err(e) => Err(e),
            }
        } else {
            Ok((Seq::empty(), Val::Null))
        }
}

pub open spec fn assign_fn(v: Val, steps: Seq<St>) -> spec_fn(Val) -> Result<Val, Er> {
    |new: Val| set_at(v, steps, new)
}

pub open spec fn add_assign_fn(v: Val, steps: Seq<St>, fx: Facts) -> spec_fn(Val) -> Result<Val, Er> {
    |new: Val| add_at(v, steps, new, fx)
}

/// A single output.
pub open spec fn single(r: Result<Val, Er>) -> Result<Seq<Val>, Er> {
    match r {
        Ok(v) => Ok(seq![v]),
        Err(e) => Err(e),
    }
}

/// The right side of an assignment through a path expression: its first
/// output.
pub open spec fn one_value(r: Result<Seq<Val>, Er>) -> Result<Val, Er> {
    match r {
        Err(e) => Err(e),
        Ok(s) => if s.len() == 0 {
            Err(fail("right side of the assignment produced no value"@))
        } else {
            Ok(s[0])
        },
    }
}

/// The stream `e` yields for `v`.
pub open spec fn ex_eval(e: Ex, v: Val, fx: Facts) -> Result<Seq<Val>, Er>
    decreases e, 0int, 0int, 0int,
{
    match e {
        Ex::Path(steps) => path_outs(steps, v),
        Ex::Literal(x) => Ok(seq![x]),
        Ex::Neg(a) => match ex_eval(*a, v, fx) {
            Err(x) => Err(x),
            Ok(s) => map_all(s, neg_fn()),
        },
        Ex::Binary(op, l, r) => match ex_eval(*l, v, fx) {
            Err(x) => Err(x),
            Ok(lefts) => match ex_eval(*r, v, fx) {
                Err(x) => Err(x),
                Ok(rights) => bind_all(lefts, bin_fn(op, rights, fx)),
            },
        },
        Ex::Pipe(l, r) => match ex_eval(*l, v, fx) {
            Err(x) => Err(x),
            Ok(s) => bind_all(s, eval_fn(*r, fx)),
        },
        Ex::Alternative(l, r) => match ex_eval(*l, v, fx) {
            Err(x) => Err(x),
            Ok(s) => if truthy_only(s).len() == 0 {
                ex_eval(*r, v, fx)
            } else {
                Ok(truthy_only(s))
            },
        },
        Ex::Comma(items) => bind_all(upto(items.len()), nth_eval_fn(items, v, fx)),
        Ex::Call(name, args) => call_outs(name, args, v, fx),
        Ex::Collect(inner) => match inner {
            None => Ok(seq![Val::Array(Seq::empty())]),
            Some(a) => match ex_eval(*a, v, fx) {
                Err(x) => Err(x),
                Ok(s) => Ok(seq![Val::Array(s)]),
            },
        },
        Ex::ObjectConstruct(pairs) => single(
            as_object(map_all(upto(pairs.len()), nth_member_fn(pairs, v, fx))),
        ),
        Ex::Assign(l, r) => match *l {
            Ex::Path(steps) => match ex_eval(*r, v, fx) {
                Err(x) => Err(x),
                Ok(s) => map_all(s, assign_fn(v, steps)),
            },
            _ => match ex_paths(*l, v, fx) {
                Err(x) => Err(x),
                Ok(paths) => if paths.len() == 0 {
                    Ok(seq![v])
                } else {
                    match one_value(ex_eval(*r, v, fx)) {
                        Err(x) => Err(x),
                        Ok(new) => single(fold_paths(paths, v, set_each_fn(new))),
                    }
                },
            },
        },
        Ex::UpdateAssign(l, r) => match *l {
            Ex::Path(steps) => single(update_at(v, steps, *r, fx)),
            _ => match ex_paths(*l, v, fx) {
                Err(x) => Err(x),
                Ok(paths) => single(fold_paths(paths, v, update_each_fn(*r, fx))),
            },
        },
        Ex::AddAssign(l, r) => match *l {
            Ex::Path(steps) => match ex_eval(*r, v, fx) {
                Err(x) => Err(x),
                Ok(s) => map_all(s, add_assign_fn(v, steps, fx)),
            },
            _ => match ex_paths(*l, v, fx) {
                Err(x) => Err(x),
                Ok(paths) => if paths.len() == 0 {
                    Ok(seq![v])
                } else {
                    match one_value(ex_eval(*r, v, fx)) {
                        Err(x) => Err(x),
                        Ok(new) => single(fold_paths(paths, v, add_each_fn(new, fx))),
                    }
                },
            },
        },
        Ex::DocSelect(_, a) => ex_eval(*a, v, fx),
    }
}

/// The builtin functions.
#[derive(Clone, Copy, PartialEq, Eq, Structural)]
pub enum Builtin {
    Select,
    Length,
    Keys,
    Type,
    ToString,
    ToNumber,
    Upcase,
    Downcase,
    Has,
    Ltrimstr,
    Rtrimstr,
    StartsWith,
    EndsWith,
    Test,
    Match,
    Capture,
    Sub,
    Gsub,
    Split,
    Join,
    Del,
    Path,
    Unknown,
}

/// The builtin with a given name.
pub open spec fn builtin_of(name: Seq<char>) -> Builtin {
    if name == "select"@ {
        Builtin::Select
    } else if name == "length"@ {
        Builtin::Length
    } else if name == "keys"@ {
        Builtin::Keys
    } else if name == "type"@ {
        Builtin::Type
    } else if name == "tostring"@ {
        Builtin::ToString
    } else if name == "tonumber"@ {
        Builtin::ToNumber
    } else if name == "ascii_upcase"@ {
        Builtin::Upcase
    } else if name == "ascii_downcase"@ {
        Builtin::Downcase
    } else if name == "has"@ {
        Builtin::Has
    } else if name == "ltrimstr"@ {
        Builtin::Ltrimstr
    } else if name == "rtrimstr"@ {
        Builtin::Rtrimstr
    } else if name == "startswith"@ {
        Builtin::StartsWith
    } else if name == "endswith"@ {
        Builtin::EndsWith
    } else if name == "test"@ {
        Builtin::Test
    } else if name == "match"@ {
        Builtin::Match
    } else if name == "capture"@ {
        Builtin::Capture
    } else if name == "sub"@ {
        Builtin::Sub
    } else if name == "gsub"@ {
        Builtin::Gsub
    } else if name == "split"@ {
        Builtin::Split
    } else if name == "join"@ {
        Builtin::Join
    } else if name == "del"@ {
        Builtin::Del
    } else if name == "path"@ {
        Builtin::Path
    } else {
        Builtin::Unknown
    }
}

/// The least and the greatest number of arguments.
pub open spec fn arity_of(b: Builtin) -> (int, int) {
    match b {
        Builtin::Length => (0, 0),
        Builtin::Keys => (0, 0),
        Builtin::Type => (0, 0),
        Builtin::ToString => (0, 0),
        Builtin::ToNumber => (0, 0),
        Builtin::Upcase => (0, 0),
        Builtin::Downcase => (0, 0),
        Builtin::Test => (1, 2),
        Builtin::Match => (1, 2),
        Builtin::Capture => (1, 2),
        Builtin::Sub => (2, 3),
        Builtin::Gsub => (2, 3),
        Builtin::Split => (1, 2),
        _ => (1, 1),
    }
}

/// The refusal of a wrong number of arguments.
pub open spec fn arity_error(name: Seq<char>, lo: int, hi: int, got: nat) -> Er {
    if lo == hi {
        fail(name + " takes "@ + nat_digits(lo as nat) + " argument(s), got "@ + nat_digits(got))
    } else {
        fail(
            name + " takes "@ + nat_digits(lo as nat) + "-"@ + nat_digits(hi as nat)
                + " arguments, got "@ + nat_digits(got),
        )
    }
}

/// The number of characters, elements or members.
pub open spec fn length_val(v: Val) -> Result<Val, Er> {
    match v {
        Val::Null => Ok(Val::Int(0)),
        Val::Str(s) => Ok(Val::Int(s.len() as i64)),
        Val::Array(a) => Ok(Val::Int(a.len() as i64)),
        Val::Object(m) => Ok(Val::Int(m.len() as i64)),
        _ => Err(fail(type_text(v) + " has no length"@)),
    }
}

/// An object's sorted keys, or an array's indices.
pub open spec fn keys_val(v: Val) -> Result<Val, Er> {
    match v {
        Val::Object(m) => Ok(crate::strings::str_array(sorted_keys(m))),
        Val::Array(a) => Ok(Val::Array(Seq::new(a.len(), |i: int| Val::Int(i as i64)))),
        _ => Err(fail(type_text(v) + " has no keys"@)),
    }
}

/// A number, or the number a string spells (white space around it ignored).
pub open spec fn number_val(v: Val, fx: Facts) -> Result<Val, Er> {
    match v {
        Val::Int(_) => Ok(v),
        Val::Float(_) => Ok(v),
        Val::Str(s) => match parse_i64(trimmed(s)) {
            Some(i) => Ok(Val::Int(i)),
            None => match parsed(fx, trimmed(s)) {
                Err(n) => Err(wants(n)),
                Ok(Some(f)) => Ok(Val::Float(f)),
                Ok(None) => Err(fail("cannot parse \""@ + s + "\" as a number"@)),
            },
        },
        _ => Err(fail("cannot parse "@ + type_text(v) + " as a number"@)),
    }
}

/// "expected a string, got <type>".
pub open spec fn not_a_string(v: Val) -> Er {
    fail("expected a string, got "@ + type_text(v))
}

/// Is `key` among the object's keys, or a valid index of the array?
pub open spec fn has_val(v: Val, key: Val) -> Result<Val, Er> {
    match (v, key) {
        (Val::Object(m), Val::Str(k)) => Ok(Val::Bool(get_key(m, k) is Some)),
        (Val::Array(a), Val::Int(i)) => Ok(Val::Bool(0 <= i < a.len())),
        _ => Err(
            fail("cannot check membership of "@ + type_text(key) + " in "@ + type_text(v)),
        ),
    }
}

pub open spec fn has_fn(v: Val) -> spec_fn(Val) -> Result<Val, Er> {
    |key: Val| has_val(v, key)
}

/// Does `s` begin with `p`?
pub open spec fn starts(s: Seq<char>, p: Seq<char>) -> bool {
    p.len() <= s.len() && s.take(p.len() as int) == p
}

/// Does `s` end with `p`?
pub open spec fn ends(s: Seq<char>, p: Seq<char>) -> bool {
    p.len() <= s.len() && s.skip(s.len() - p.len()) == p
}

/// `s` without the affix, where it has it.
pub open spec fn trim_val(s: Seq<char>, affix: Val, left: bool) -> Result<Val, Er> {
    match affix {
        Val::Str(p) => Ok(
            Val::Str(
                if left {
                    if starts(s, p) {
                        s.skip(p.len() as int)
                    } else {
                        s
                    }
                } else {
                    if ends(s, p) {
                        s.take(s.len() - p.len())
                    } else {
                        s
                    }
                },
            ),
        ),
        _ => Err(fail("expected a string argument, got "@ + type_text(affix))),
    }
}

pub open spec fn trim_fn(s: Seq<char>, left: bool) -> spec_fn(Val) -> Result<Val, Er> {
    |affix: Val| trim_val(s, affix, left)
}

/// A concrete path as jq's path array: `.items[1].n` is `["items", 1, "n"]`.
pub open spec fn path_val(p: Seq<St>) -> Val {
    Val::Array(
        Seq::new(
            p.len(),
            |i: int|
                match p[i] {
                    St::Field(k) => Val::Str(k),
                    St::Index(n) => Val::Int(n),
                    _ => Val::Null,
                },
        ),
    )
}

/// `v` once for each truthy condition.
pub open spec fn selected(conds: Seq<Val>, v: Val) -> Seq<Val> {
    Seq::new(truthy_only(conds).len(), |i: int| v)
}

/// The input as a string, for string-only builtins.
pub open spec fn str_in(v: Val, name: Seq<char>) -> Result<Seq<char>, Er> {
    match v {
        Val::Str(s) => Ok(s),
        _ => Err(fail(name + " requires a string input, got "@ + type_text(v))),
    }
}

/// The first output, as a string.
pub open spec fn str_out(r: Result<Seq<Val>, Er>, what: Seq<char>) -> Result<Seq<char>, Er> {
    match r {
        Err(e) => Err(e),
        Ok(s) => if s.len() == 0 {
            Err(fail(what + " produced no value"@))
        } else {
            match s[0] {
                Val::Str(t) => Ok(t),
                _ => Err(fail(what + " must be a string, got "@ + type_text(s[0]))),
            }
        },
    }
}

/// An argument's first output, as a string.
pub open spec fn arg_text(args: Seq<Ex>, at: int, v: Val, what: Seq<char>, fx: Facts) -> Result<
    Seq<char>,
    Er,
>
    decreases args, 1int, 0int, 0int,
{
    if 0 <= at < args.len() {
        str_out(ex_eval(args[at], v, fx), what)
    } else {
        Ok(Seq::empty())
    }
}

/// The stream a call yields.
pub open spec fn call_outs(name: Seq<char>, args: Seq<Ex>, v: Val, fx: Facts) -> Result<
    Seq<Val>,
    Er,
>
    decreases args, 3int, 0int, 0int,
{
    let b = builtin_of(name);
    let (lo, hi) = arity_of(b);
    if b == Builtin::Unknown {
        Err(fail("unknown function `"@ + name + "`"@))
    } else if args.len() < lo || args.len() > hi {
        Err(arity_error(name, lo, hi, args.len()))
    } else if b == Builtin::Test || b == Builtin::Match || b == Builtin::Capture || b == Builtin::Sub
        || b == Builtin::Gsub || b == Builtin::Split {
        pattern_outs(b, name, args, v, fx)
    } else {
        plain_outs(b, name, args, v, fx)
    }
}

/// The stream of a builtin that takes a pattern or separator and flags.
pub open spec fn pattern_outs(b: Builtin, name: Seq<char>, args: Seq<Ex>, v: Val, fx: Facts) -> Result<
    Seq<Val>,
    Er,
>
    decreases args, 2int, 0int, 0int,
{
    match b {
        Builtin::Sub | Builtin::Gsub => match arg_text(args, 0, v, "the regex"@, fx) {
            Err(e) => Err(e),
            Ok(re) => match arg_text(args, 1, v, "the replacement"@, fx) {
                Err(e) => Err(e),
                Ok(repl) => match arg_text(args, 2, v, "flags"@, fx) {
                    Err(e) => Err(e),
                    Ok(flags) => match str_in(v, name) {
                        Err(e) => Err(e),
                        Ok(s) => single(
                            sub_val(
                                s,
                                re,
                                repl,
                                if b == Builtin::Gsub {
                                    flags.push('g')
                                } else {
                                    flags
                                },
                            ),
                        ),
                    },
                },
            },
        },
        Builtin::Split => match arg_text(args, 0, v, "the separator"@, fx) {
            Err(e) => Err(e),
            Ok(sep) => match arg_text(args, 1, v, "flags"@, fx) {
                Err(e) => Err(e),
                Ok(flags) => match str_in(v, name) {
                    Err(e) => Err(e),
                    Ok(s) => single(
                        split_val(
                            s,
                            sep,
                            if args.len() == 2 {
                                Some(flags)
                            } else {
                                None
                            },
                        ),
                    ),
                },
            },
        },
        _ => match arg_text(args, 0, v, "the regex"@, fx) {
            Err(e) => Err(e),
            Ok(re) => match str_in(v, name) {
                Err(e) => Err(e),
                Ok(s) => match arg_text(args, 1, v, "flags"@, fx) {
                    Err(e) => Err(e),
                    Ok(flags) => match b {
                        Builtin::Test => single(test_val(s, re, flags)),
                        Builtin::Match => find_val(s, re, flags),
                        _ => captures_val(s, re, flags),
                    },
                },
            },
        },
    }
}

/// The stream of any other builtin.
pub open spec fn plain_outs(b: Builtin, name: Seq<char>, args: Seq<Ex>, v: Val, fx: Facts) -> Result<
    Seq<Val>,
    Er,
>
    decreases args, 2int, 0int, 0int,
{
    match b {
        Builtin::Length => single(length_val(v)),
        Builtin::Keys => single(keys_val(v)),
        Builtin::Type => Ok(seq![Val::Str(type_text(v))]),
        Builtin::ToString => Ok(seq![Val::Str(raw_text(v))]),
        Builtin::ToNumber => single(number_val(v, fx)),
        Builtin::Upcase => match v {
            Val::Str(s) => Ok(seq![Val::Str(upper_text(s))]),
            _ => Err(not_a_string(v)),
        },
        Builtin::Downcase => match v {
            Val::Str(s) => Ok(seq![Val::Str(lower_text(s))]),
            _ => Err(not_a_string(v)),
        },
        _ => if args.len() == 0 {
            Ok(Seq::empty())
        } else {
            match b {
                Builtin::Select => match ex_eval(args[0], v, fx) {
                    Err(e) => Err(e),
                    Ok(s) => Ok(selected(s, v)),
                },
                Builtin::Has => match ex_eval(args[0], v, fx) {
                    Err(e) => Err(e),
                    Ok(s) => map_all(s, has_fn(v)),
                },
                Builtin::Ltrimstr | Builtin::Rtrimstr => match v {
                    Val::Str(t) => match ex_eval(args[0], v, fx) {
                        Err(e) => Err(e),
                        Ok(s) => map_all(s, trim_fn(t, b == Builtin::Ltrimstr)),
                    },
                    _ => Err(not_a_string(v)),
                },
                Builtin::StartsWith | Builtin::EndsWith => match str_in(v, name) {
                    Err(e) => Err(e),
                    Ok(s) => match str_out(ex_eval(args[0], v, fx), "the affix"@) {
                        Err(e) => Err(e),
                        Ok(p) => Ok(
                            seq![Val::Bool(
                                if b == Builtin::StartsWith {
                                    starts(s, p)
                                } else {
                                    ends(s, p)
                                },
                            )],
                        ),
                    },
                },
                Builtin::Join => match v {
                    Val::Array(items) => match str_out(
                        ex_eval(args[0], v, fx),
                        "the separator"@,
                    ) {
                        Err(e) => Err(e),
                        Ok(sep) => single(join_val(items, sep)),
                    },
                    _ => Err(fail("join requires an array input, got "@ + type_text(v))),
                },
                Builtin::Del => match args[0] {
                    Ex::Path(steps) => single(del_at(v, steps)),
                    _ => match ex_paths(args[0], v, fx) {
                        Err(e) => Err(e),
                        Ok(paths) => single(
                            fold_paths(deletion_order(paths), v, del_each_fn()),
                        ),
                    },
                },
                _ => match ex_paths(args[0], v, fx) {
                    Err(e) => Err(e),
                    Ok(paths) => Ok(paths.map_values(|p: Seq<St>| path_val(p))),
                },
            }
        },
    }
}

} // verus!
