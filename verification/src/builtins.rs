//! The builtin function registry (the value calculus' jq-named functions).
//!
//! `del` is handled at the value level here too: it defines what value
//! `del(path)` produces.
use crate::arith::out;
use crate::error::{fail, Er, EvalError};
use crate::eval::{
    cannot_index, cannot_iterate, comment_mutation_unsupported, eval, fold_step, fold_stop, just, keep_truthy,
    member_outs, tail_of,
};
use crate::float::FloatFacts;
use crate::index::resolve_index;
use crate::model::{
    exs, group_expr_views, group_value_views, members, paths_view, steps_of, vals, Expr, St, Step, Val, Value,
};
use crate::paths::{eval_paths, order_deletions, path_to_value};
use crate::semantics::{
    arg_text, arity_error, arity_of, builtin_of, call_outs, del_at, del_each_fn, del_fn, del_member_fn, ends, fold_paths,
    has_fn, has_val, keys_val, length_val, number_val, path_val, pattern_outs, plain_outs, remove_at, starts, str_in,
    str_out, trim_fn, trim_val, without_key, Builtin,
};
use crate::seqs::{map_all, map_step, map_stop};
use crate::strings;
use crate::strings::{outs, str_values};
use crate::strs::{chars_of, integer, nat_text, same, slice_text, trim};
use crate::value::{clone_members, clone_values, find_key, key_at_bounds, keys_sorted, type_text};
use vstd::prelude::*;
use vstd::string::*;

verus! {

broadcast use {group_value_views, group_expr_views};

/// `<prefix><type>`.
fn about(prefix: &str, v: &Value) -> (r: EvalError)
    ensures
        r@ == fail(prefix@ + type_text(v@)),
{
    let mut m = prefix.to_owned();
    m.append(v.type_label());
    EvalError::of(m)
}

/// The members whose key is not `k`.
fn drop_key(m: &Vec<(String, Value)>, k: &str) -> (r: Vec<(String, Value)>)
    ensures
        members(r@) == without_key(members(m@), k@),
{
    let mut kept: Vec<(String, Value)> = Vec::new();
    let ghost all = members(m@);
    let mut i: usize = 0;
    assert(members(kept@) =~= Seq::<(Seq<char>, Val)>::empty());
    assert(all.take(0) =~= Seq::<(Seq<char>, Val)>::empty());
    while i < m.len()
        invariant
            i <= m.len(),
            all == members(m@),
            members(kept@) == without_key(all.take(i as int), k@),
        decreases m.len() - i,
    {
        assert(all.take(i + 1).drop_last() =~= all.take(i as int));
        assert(all.take(i + 1).last() == all[i as int]);
        if !same(&m[i].0, k) {
            kept.push((m[i].0.clone(), m[i].1.clone()));
        }
        i = i + 1;
    }
    assert(all.take(i as int) =~= all);
    kept
}

/// Remove `step` from the container `v` (the leaf of a `del` path).
pub fn remove_step(v: &Value, step: &Step) -> (r: Result<Value, EvalError>)
    ensures
        out(r) == remove_at(v@, step@),
{
    match step {
        Step::Field(k) => match v {
            Value::Object(m) => Ok(Value::Object(drop_key(m, k))),
            Value::Null => Ok(Value::Null),
            _ => Err(about("cannot delete a field of ", v)),
        },
        Step::Index(i) => match v {
            Value::Array(a) => {
                let mut arr = clone_values(a);
                let ghost before = vals(arr@);
                match resolve_index(*i, arr.len()) {
                    Some(n) => {
                        arr.remove(n);
                        assert(vals(arr@) =~= before.remove(n as int));
                    },
                    None => {},
                }
                Ok(Value::Array(arr))
            },
            Value::Null => Ok(Value::Null),
            _ => Err(about("cannot delete an index of ", v)),
        },
        Step::Iterate => match v {
            Value::Array(_) => {
                let none: Vec<Value> = Vec::new();
                assert(vals(none@) =~= Seq::<Val>::empty());
                Ok(Value::Array(none))
            },
            Value::Object(_) => {
                let none: Vec<(String, Value)> = Vec::new();
                assert(members(none@) =~= Seq::<(Seq<char>, Val)>::empty());
                Ok(Value::Object(none))
            },
            _ => Err(cannot_iterate(v)),
        },
        Step::Comment(_) => Err(EvalError::new(comment_mutation_unsupported())),
    }
}

fn delete_elements(a: &Vec<Value>, steps: &Vec<Step>, from: usize) -> (r: Result<Vec<Value>, EvalError>)
    requires
        from < steps.len(),
    ensures
        outs(r) == map_all(vals(a@), del_fn(steps_of(steps@).skip(from as int))),
    decreases steps.len() - from, 1int,
{
    let mut done: Vec<Value> = Vec::new();
    let ghost all = vals(a@);
    let ghost f = del_fn(steps_of(steps@).skip(from as int));
    assert(vals(done@) =~= Seq::<Val>::empty());
    let mut i: usize = 0;
    while i < a.len()
        invariant
            i <= a.len(),
            from < steps.len(),
            all == vals(a@),
            f == del_fn(steps_of(steps@).skip(from as int)),
            map_all(all.take(i as int), f) == Ok::<Seq<Val>, Er>(vals(done@)),
        decreases a.len() - i,
    {
        proof {
            map_step(all, f, i as int);
        }
        match delete_from(&a[i], steps, from) {
            Err(e) => {
                proof {
                    map_stop(all, f, i + 1);
                }
                return Err(e);
            },
            Ok(x) => done.push(x),
        }
        i = i + 1;
    }
    assert(all.take(i as int) =~= all);
    Ok(done)
}

fn delete_members(m: &Vec<(String, Value)>, steps: &Vec<Step>, from: usize) -> (r: Result<
    Vec<(String, Value)>,
    EvalError,
>)
    requires
        from < steps.len(),
    ensures
        member_outs(r) == map_all(members(m@), del_member_fn(steps_of(steps@).skip(from as int))),
    decreases steps.len() - from, 1int,
{
    let mut done: Vec<(String, Value)> = Vec::new();
    let ghost all = members(m@);
    let ghost f = del_member_fn(steps_of(steps@).skip(from as int));
    assert(members(done@) =~= Seq::<(Seq<char>, Val)>::empty());
    let mut i: usize = 0;
    while i < m.len()
        invariant
            i <= m.len(),
            from < steps.len(),
            all == members(m@),
            f == del_member_fn(steps_of(steps@).skip(from as int)),
            map_all(all.take(i as int), f) == Ok::<Seq<(Seq<char>, Val)>, Er>(members(done@)),
        decreases m.len() - i,
    {
        proof {
            map_step(all, f, i as int);
        }
        match delete_from(&m[i].1, steps, from) {
            Err(e) => {
                proof {
                    map_stop(all, f, i + 1);
                }
                return Err(e);
            },
            Ok(x) => done.push((m[i].0.clone(), x)),
        }
        i = i + 1;
    }
    assert(all.take(i as int) =~= all);
    Ok(done)
}

fn delete_from(v: &Value, steps: &Vec<Step>, from: usize) -> (r: Result<Value, EvalError>)
    requires
        from < steps.len(),
    ensures
        out(r) == del_at(v@, steps_of(steps@).skip(from as int)),
    decreases steps.len() - from, 0int,
{
    proof {
        tail_of(steps_of(steps@), from as int);
    }
    if from == steps.len() - 1 {
        return remove_step(v, &steps[from]);
    }
    match &steps[from] {
        Step::Field(k) => match v {
            Value::Object(m) => {
                let i = find_key(m, k);
                let mut obj = clone_members(m);
                let ghost before = members(obj@);
                proof {
                    key_at_bounds(members(m@), k@);
                }
                assert(obj.len() == before.len());
                if i < obj.len() {
                    let x = delete_from(&m[i].1, steps, from + 1)?;
                    let ghost vx = x@;
                    let key = m[i].0.clone();
                    obj.set(i, (key, x));
                    assert(members(obj@) =~= before.update(i as int, (before[i as int].0, vx)));
                }
                Ok(Value::Object(obj))
            },
            Value::Null => Ok(Value::Null),
            _ => Err(about("cannot descend into ", v)),
        },
        Step::Index(i) => match v {
            Value::Array(a) => {
                let mut arr = clone_values(a);
                let ghost before = vals(arr@);
                assert(arr.len() == before.len());
                match resolve_index(*i, a.len()) {
                    Some(n) => {
                        let x = delete_from(&a[n], steps, from + 1)?;
                        let ghost vx = x@;
                        arr.set(n, x);
                        assert(vals(arr@) =~= before.update(n as int, vx));
                    },
                    None => {},
                }
                Ok(Value::Array(arr))
            },
            Value::Null => Ok(Value::Null),
            _ => Err(cannot_index(v)),
        },
        Step::Iterate => match v {
            Value::Array(a) => match delete_elements(a, steps, from + 1) {
                Ok(done) => Ok(Value::Array(done)),
                Err(e) => Err(e),
            },
            Value::Object(m) => match delete_members(m, steps, from + 1) {
                Ok(done) => Ok(Value::Object(done)),
                Err(e) => Err(e),
            },
            _ => Err(cannot_iterate(v)),
        },
        Step::Comment(_) => Err(EvalError::new(comment_mutation_unsupported())),
    }
}

/// A copy of `v` with the value at `steps` removed. A missing key or
/// out-of-range index is a no-op (jq semantics).
pub fn delete_path(v: &Value, steps: &Vec<Step>) -> (r: Result<Value, EvalError>)
    ensures
        out(r) == del_at(v@, steps_of(steps@)),
{
    if steps.len() == 0 {
        return Err(EvalError::new("del(.) is not allowed"));
    }
    assert(steps_of(steps@).skip(0) =~= steps_of(steps@));
    delete_from(v, steps, 0)
}

/// The builtin with a given name.
fn builtin(name: &str) -> (r: Builtin)
    ensures
        r == builtin_of(name@),
{
    if same(name, "select") {
        Builtin::Select
    } else if same(name, "length") {
        Builtin::Length
    } else if same(name, "keys") {
        Builtin::Keys
    } else if same(name, "type") {
        Builtin::Type
    } else if same(name, "tostring") {
        Builtin::ToString
    } else if same(name, "tonumber") {
        Builtin::ToNumber
    } else if same(name, "ascii_upcase") {
        Builtin::Upcase
    } else if same(name, "ascii_downcase") {
        Builtin::Downcase
    } else if same(name, "has") {
        Builtin::Has
    } else if same(name, "ltrimstr") {
        Builtin::Ltrimstr
    } else if same(name, "rtrimstr") {
        Builtin::Rtrimstr
    } else if same(name, "startswith") {
        Builtin::StartsWith
    } else if same(name, "endswith") {
        Builtin::EndsWith
    } else if same(name, "test") {
        Builtin::Test
    } else if same(name, "match") {
        Builtin::Match
    } else if same(name, "capture") {
        Builtin::Capture
    } else if same(name, "sub") {
        Builtin::Sub
    } else if same(name, "gsub") {
        Builtin::Gsub
    } else if same(name, "split") {
        Builtin::Split
    } else if same(name, "join") {
        Builtin::Join
    } else if same(name, "del") {
        Builtin::Del
    } else if same(name, "path") {
        Builtin::Path
    } else {
        Builtin::Unknown
    }
}

fn arity(b: Builtin) -> (r: (usize, usize))
    ensures
        (r.0 as int, r.1 as int) == arity_of(b),
{
    match b {
        Builtin::Length => (0, 0),
        Builtin::Keys => (0, 0),
        Builtin::Type => (0, 0),
        Builtin::ToString => (0, 0),
        Builtin::ToNumber => (0, 0),
        Builtin::Upcase => (0, 0),
        Builtin::Downcase => (0, 0),
        Builtin::Test => (1, 2),
        Builtin::Match => (1, 2),
        Builtin::Capture => (1, 2),
        Builtin::Sub => (2, 3),
        Builtin::Gsub => (2, 3),
        Builtin::Split => (1, 2),
        _ => (1, 1),
    }
}

fn wrong_arity(name: &str, lo: usize, hi: usize, got: usize) -> (r: EvalError)
    ensures
        r@ == arity_error(name@, lo as int, hi as int, got as nat),
{
    let mut m = name.to_owned();
    m.append(" takes ");
    m.append(&nat_text(lo as u64));
    if lo == hi {
        m.append(" argument(s), got ");
    } else {
        m.append("-");
        m.append(&nat_text(hi as u64));
        m.append(" arguments, got ");
    }
    m.append(&nat_text(got as u64));
    EvalError::of(m)
}

fn length(v: &Value) -> (r: Result<Value, EvalError>)
    ensures
        out(r) == length_val(v@),
{
    match v {
        Value::Null => Ok(Value::Int(0)),
        Value::Str(s) => Ok(Value::Int(s.as_str().unicode_len() as i64)),
        Value::Array(a) => Ok(Value::Int(a.len() as i64)),
        Value::Object(m) => Ok(Value::Int(m.len() as i64)),
        _ => {
            let mut t = v.type_label().to_owned();
            t.append(" has no length");
            Err(EvalError::of(t))
        },
    }
}

fn keys(v: &Value) -> (r: Result<Value, EvalError>)
    ensures
        out(r) == keys_val(v@),
{
    match v {
        Value::Object(m) => Ok(str_values(keys_sorted(m))),
        Value::Array(a) => {
            let mut ks: Vec<Value> = Vec::new();
            let ghost all = Seq::new(vals(a@).len(), |i: int| Val::Int(i as i64));
            assert(vals(ks@) =~= all.take(0));
            let mut i: usize = 0;
            while i < a.len()
                invariant
                    i <= a.len(),
                    all == Seq::new(vals(a@).len(), |i: int| Val::Int(i as i64)),
                    vals(ks@) == all.take(i as int),
                decreases a.len() - i,
            {
                ks.push(Value::Int(i as i64));
                assert(all.take(i + 1) =~= all.take(i as int).push(all[i as int]));
                i = i + 1;
            }
            assert(all.take(i as int) =~= all);
            Ok(Value::Array(ks))
        },
        _ => {
            let mut t = v.type_label().to_owned();
            t.append(" has no keys");
            Err(EvalError::of(t))
        },
    }
}

fn tonumber(v: &Value, facts: &FloatFacts) -> (r: Result<Value, EvalError>)
    ensures
        out(r) == number_val(v@, facts@),
{
    match v {
        Value::Int(_) => Ok(v.clone()),
        Value::Float(_) => Ok(v.clone()),
        Value::Str(s) => {
            let t = trim(s);
            let cs = chars_of(&t);
            if let Some(i) = integer(&cs) {
                return Ok(Value::Int(i));
            }
            match facts.parse(&t) {
                Err(n) => Err(EvalError::wanting(n)),
                Ok(Some(f)) => Ok(Value::Float(f)),
                Ok(None) => {
                    let mut m = "cannot parse \"".to_owned();
                    m.append(s);
                    m.append("\" as a number");
                    Err(EvalError::of(m))
                },
            }
        },
        _ => {
            let mut m = "cannot parse ".to_owned();
            m.append(v.type_label());
            m.append(" as a number");
            Err(EvalError::of(m))
        },
    }
}

/// The view of a text result.
pub open spec fn text_out(r: Result<String, EvalError>) -> Result<Seq<char>, Er> {
    match r {
        Ok(s) => Ok(s@),
        Err(e) => Err(e@),
    }
}

/// The input as a string, for string-only builtins.
fn str_input(input: &Value, name: &str) -> (r: Result<String, EvalError>)
    ensures
        text_out(r) == str_in(input@, name@),
{
    match input {
        Value::Str(s) => Ok(s.clone()),
        _ => {
            let mut m = name.to_owned();
            m.append(" requires a string input, got ");
            m.append(input.type_label());
            Err(EvalError::of(m))
        },
    }
}

/// A stream's first value, as a string.
fn first_text(s: Vec<Value>, what: &str) -> (r: Result<String, EvalError>)
    ensures
        text_out(r) == str_out(Ok::<Seq<Val>, Er>(vals(s@)), what@),
{
    if s.len() == 0 {
        let mut m = what.to_owned();
        m.append(" produced no value");
        return Err(EvalError::of(m));
    }
    assert(vals(s@)[0] == s@[0]@);
    match &s[0] {
        Value::Str(t) => Ok(t.clone()),
        other => {
            let mut m = what.to_owned();
            m.append(" must be a string, got ");
            m.append(other.type_label());
            Err(EvalError::of(m))
        },
    }
}

/// Evaluate an argument expression to a single string (its first value); an
/// argument that is not there is the empty string.
fn str_arg(args: &Vec<Expr>, at: usize, input: &Value, what: &str, facts: &FloatFacts) -> (r: Result<
    String,
    EvalError,
>)
    ensures
        text_out(r) == arg_text(exs(args@), at as int, input@, what@, facts@),
    decreases args, 1int, 0int, 0int,
{
    if at < args.len() {
        let s = eval(&args[at], input, facts)?;
        first_text(s, what)
    } else {
        Ok(String::new())
    }
}

fn has(v: &Value, key: &Value) -> (r: Result<Value, EvalError>)
    ensures
        out(r) == has_val(v@, key@),
{
    match (v, key) {
        (Value::Object(m), Value::Str(k)) => {
            let i = find_key(m, k);
            proof {
                key_at_bounds(members(m@), k@);
            }
            Ok(Value::Bool(i < m.len()))
        },
        (Value::Array(a), Value::Int(i)) => Ok(Value::Bool(*i >= 0 && (*i as u64) < a.len() as u64)),
        _ => {
            let mut m = "cannot check membership of ".to_owned();
            m.append(key.type_label());
            m.append(" in ");
            m.append(v.type_label());
            Err(EvalError::of(m))
        },
    }
}

fn has_each(v: &Value, ks: &Vec<Value>) -> (r: Result<Vec<Value>, EvalError>)
    ensures
        outs(r) == map_all(vals(ks@), has_fn(v@)),
{
    let mut hits: Vec<Value> = Vec::new();
    let ghost all = vals(ks@);
    let ghost f = has_fn(v@);
    assert(vals(hits@) =~= Seq::<Val>::empty());
    let mut i: usize = 0;
    while i < ks.len()
        invariant
            i <= ks.len(),
            all == vals(ks@),
            f == has_fn(v@),
            map_all(all.take(i as int), f) == Ok::<Seq<Val>, Er>(vals(hits@)),
        decreases ks.len() - i,
    {
        proof {
            map_step(all, f, i as int);
        }
        match has(v, &ks[i]) {
            Err(x) => {
                proof {
                    map_stop(all, f, i + 1);
                }
                return Err(x);
            },
            Ok(hit) => hits.push(hit),
        }
        i = i + 1;
    }
    assert(all.take(i as int) =~= all);
    Ok(hits)
}

/// Does `cs` begin with `p`?
pub fn begins(cs: &[char], p: &[char]) -> (r: bool)
    ensures
        r == starts(cs@, p@),
{
    if p.len() > cs.len() {
        return false;
    }
    let mut i: usize = 0;
    while i < p.len()
        invariant
            i <= p.len() <= cs.len(),
            forall|j: int| 0 <= j < i ==> cs@[j] == #[trigger] p@[j],
        decreases p.len() - i,
    {
        if cs[i] != p[i] {
            assert(cs@.take(p@.len() as int)[i as int] != p@[i as int]);
            return false;
        }
        i = i + 1;
    }
    assert(cs@.take(p@.len() as int) =~= p@);
    true
}

/// Does `cs` end with `p`?
pub fn finishes(cs: &[char], p: &[char]) -> (r: bool)
    ensures
        r == ends(cs@, p@),
{
    if p.len() > cs.len() {
        return false;
    }
    let at: usize = cs.len() - p.len();
    let mut i: usize = 0;
    while i < p.len()
        invariant
            i <= p.len() <= cs.len(),
            at == cs.len() - p.len(),
            forall|j: int| 0 <= j < i ==> cs@[at + j] == #[trigger] p@[j],
        decreases p.len() - i,
    {
        if cs[at + i] != p[i] {
            assert(cs@.skip(at as int)[i as int] != p@[i as int]);
            return false;
        }
        i = i + 1;
    }
    assert(cs@.skip(at as int) =~= p@);
    true
}

fn trim_one(cs: &[char], affix: &Value, left: bool) -> (r: Result<Value, EvalError>)
    ensures
        out(r) == trim_val(cs@, affix@, left),
{
    match affix {
        Value::Str(p) => {
            let ps = chars_of(p);
            let mut from: usize = 0;
            let mut to: usize = cs.len();
            if left {
                if begins(cs, &ps) {
                    from = ps.len();
                }
            } else if finishes(cs, &ps) {
                to = cs.len() - ps.len();
            }
            assert(cs@.subrange(from as int, to as int) =~= trim_val(cs@, affix@, left)->Ok_0->Str_0);
            Ok(Value::Str(slice_text(cs, from, to)))
        },
        _ => Err(about("expected a string argument, got ", affix)),
    }
}

fn trim_each(s: &str, affixes: &Vec<Value>, left: bool) -> (r: Result<Vec<Value>, EvalError>)
    ensures
        outs(r) == map_all(vals(affixes@), trim_fn(s@, left)),
{
    let cs = chars_of(s);
    let mut done: Vec<Value> = Vec::new();
    let ghost all = vals(affixes@);
    let ghost f = trim_fn(s@, left);
    assert(vals(done@) =~= Seq::<Val>::empty());
    let mut i: usize = 0;
    while i < affixes.len()
        invariant
            i <= affixes.len(),
            cs@ == s@,
            all == vals(affixes@),
            f == trim_fn(s@, left),
            map_all(all.take(i as int), f) == Ok::<Seq<Val>, Er>(vals(done@)),
        decreases affixes.len() - i,
    {
        proof {
            map_step(all, f, i as int);
        }
        match trim_one(&cs, &affixes[i], left) {
            Err(x) => {
                proof {
                    map_stop(all, f, i + 1);
                }
                return Err(x);
            },
            Ok(v) => done.push(v),
        }
        i = i + 1;
    }
    assert(all.take(i as int) =~= all);
    Ok(done)
}

fn repeat(v: &Value, n: usize) -> (r: Vec<Value>)
    ensures
        vals(r@) == Seq::new(n as nat, |i: int| v@),
{
    let mut out: Vec<Value> = Vec::new();
    assert(vals(out@) =~= Seq::new(0, |i: int| v@));
    let mut i: usize = 0;
    while i < n
        invariant
            i <= n,
            vals(out@) == Seq::new(i as nat, |i: int| v@),
        decreases n - i,
    {
        out.push(v.clone());
        assert(vals(out@) =~= Seq::new((i + 1) as nat, |i: int| v@));
        i = i + 1;
    }
    out
}

fn delete_each(input: &Value, paths: &Vec<Vec<Step>>) -> (r: Result<Value, EvalError>)
    ensures
        out(r) == fold_paths(paths_view(paths@), input@, del_each_fn()),
{
    let mut v = input.clone();
    let ghost all = paths_view(paths@);
    let ghost f = del_each_fn();
    let mut i: usize = 0;
    while i < paths.len()
        invariant
            i <= paths.len(),
            all == paths_view(paths@),
            f == del_each_fn(),
            fold_paths(all.take(i as int), input@, f) == Ok::<Val, Er>(v@),
        decreases paths.len() - i,
    {
        proof {
            fold_step(all, input@, f, i as int);
        }
        match delete_path(&v, &paths[i]) {
            Err(x) => {
                proof {
                    fold_stop(all, input@, f, i + 1);
                }
                return Err(x);
            },
            Ok(w) => {
                v = w;
            },
        }
        i = i + 1;
    }
    assert(all.take(i as int) =~= all);
    Ok(v)
}

fn paths_to_values(paths: &Vec<Vec<Step>>) -> (r: Vec<Value>)
    ensures
        vals(r@) == paths_view(paths@).map_values(|p: Seq<St>| path_val(p)),
{
    let mut out: Vec<Value> = Vec::new();
    let ghost all = paths_view(paths@).map_values(|p: Seq<St>| path_val(p));
    assert(vals(out@) =~= all.take(0));
    let mut i: usize = 0;
    while i < paths.len()
        invariant
            i <= paths.len(),
            all == paths_view(paths@).map_values(|p: Seq<St>| path_val(p)),
            vals(out@) == all.take(i as int),
        decreases paths.len() - i,
    {
        out.push(path_to_value(&paths[i]));
        assert(all.take(i + 1) =~= all.take(i as int).push(all[i as int]));
        i = i + 1;
    }
    assert(all.take(i as int) =~= all);
    out
}

/// A builtin that takes a pattern or separator and flags.
fn call_pattern(b: Builtin, name: &str, args: &Vec<Expr>, input: &Value, facts: &FloatFacts) -> (r: Result<
    Vec<Value>,
    EvalError,
>)
    ensures
        outs(r) == pattern_outs(b, name@, exs(args@), input@, facts@),
    decreases args, 2int, 0int, 0int,
{
    match b {
        Builtin::Sub | Builtin::Gsub => {
            let re = str_arg(args, 0, input, "the regex", facts)?;
            let repl = str_arg(args, 1, input, "the replacement", facts)?;
            let mut flags = str_arg(args, 2, input, "flags", facts)?;
            let s = str_input(input, name)?;
            if let Builtin::Gsub = b {
                flags.push('g');
            }
            let v = strings::substitute(&s, &re, &repl, &flags)?;
            Ok(just(v))
        },
        Builtin::Split => {
            let sep = str_arg(args, 0, input, "the separator", facts)?;
            // jq's shape: 1-arg splits on a literal, 2-arg on a regex.
            let flags = str_arg(args, 1, input, "flags", facts)?;
            let s = str_input(input, name)?;
            let v = if args.len() == 2 {
                strings::split(&s, &sep, Some(&flags))?
            } else {
                strings::split(&s, &sep, None)?
            };
            Ok(just(v))
        },
        _ => {
            let re = str_arg(args, 0, input, "the regex", facts)?;
            let s = str_input(input, name)?;
            let flags = str_arg(args, 1, input, "flags", facts)?;
            match b {
                Builtin::Test => {
                    let v = strings::test(&s, &re, &flags)?;
                    Ok(just(v))
                },
                Builtin::Match => strings::find(&s, &re, &flags),
                _ => strings::capture(&s, &re, &flags),
            }
        },
    }
}

/// Any other builtin.
fn call_plain(b: Builtin, name: &str, args: &Vec<Expr>, input: &Value, facts: &FloatFacts) -> (r: Result<
    Vec<Value>,
    EvalError,
>)
    ensures
        outs(r) == plain_outs(b, name@, exs(args@), input@, facts@),
    decreases args, 2int, 0int, 0int,
{
    match b {
        Builtin::Length => {
            let v = length(input)?;
            return Ok(just(v));
        },
        Builtin::Keys => {
            let v = keys(input)?;
            return Ok(just(v));
        },
        Builtin::Type => {
            return Ok(just(Value::Str(input.type_label().to_owned())));
        },
        Builtin::ToString => {
            return Ok(just(Value::Str(input.to_raw_string())));
        },
        Builtin::ToNumber => {
            let v = tonumber(input, facts)?;
            return Ok(just(v));
        },
        Builtin::Upcase => {
            if let Value::Str(s) = input {
                return Ok(just(Value::Str(s.as_str().to_uppercase())));
            }
            return Err(about("expected a string, got ", input));
        },
        Builtin::Downcase => {
            if let Value::Str(s) = input {
                return Ok(just(Value::Str(s.as_str().to_lowercase())));
            }
            return Err(about("expected a string, got ", input));
        },
        _ => {},
    }
    if args.len() == 0 {
        let none: Vec<Value> = Vec::new();
        assert(vals(none@) =~= Seq::<Val>::empty());
        return Ok(none);
    }
    match b {
        Builtin::Select => {
            let conds = eval(&args[0], input, facts)?;
            let kept = keep_truthy(conds);
            assert(kept.len() == vals(kept@).len());
            Ok(repeat(input, kept.len()))
        },
        Builtin::Has => {
            let ks = eval(&args[0], input, facts)?;
            has_each(input, &ks)
        },
        Builtin::Ltrimstr | Builtin::Rtrimstr => match input {
            Value::Str(s) => {
                let affixes = eval(&args[0], input, facts)?;
                trim_each(s, &affixes, matches!(b, Builtin::Ltrimstr))
            },
            _ => Err(about("expected a string, got ", input)),
        },
        Builtin::StartsWith | Builtin::EndsWith => {
            let s = str_input(input, name)?;
            let affix = eval(&args[0], input, facts)?;
            let p = first_text(affix, "the affix")?;
            let cs = chars_of(&s);
            let ps = chars_of(&p);
            let hit = match b {
                Builtin::StartsWith => begins(&cs, &ps),
                _ => finishes(&cs, &ps),
            };
            Ok(just(Value::Bool(hit)))
        },
        Builtin::Join => match input {
            Value::Array(items) => {
                let seps = eval(&args[0], input, facts)?;
                let sep = first_text(seps, "the separator")?;
                let v = strings::join(items, &sep)?;
                Ok(just(v))
            },
            _ => Err(about("join requires an array input, got ", input)),
        },
        Builtin::Del => {
            if let Some(steps) = args[0].as_path() {
                let v = delete_path(input, steps)?;
                return Ok(just(v));
            }
            let paths = eval_paths(&args[0], input, facts)?;
            let ordered = order_deletions(&paths);
            let v = delete_each(input, &ordered)?;
            Ok(just(v))
        },
        _ => {
            let paths = eval_paths(&args[0], input, facts)?;
            Ok(paths_to_values(&paths))
        },
    }
}

/// The stream a call yields.
pub fn eval_call(name: &str, args: &Vec<Expr>, input: &Value, facts: &FloatFacts) -> (r: Result<
    Vec<Value>,
    EvalError,
>)
    ensures
        outs(r) == call_outs(name@, exs(args@), input@, facts@),
    decreases args, 3int, 0int, 0int,
{
    let b = builtin(name);
    if let Builtin::Unknown = b {
        let mut m = "unknown function `".to_owned();
        m.append(name);
        m.append("`");
        return Err(EvalError::of(m));
    }
    let (lo, hi) = arity(b);
    assert(exs(args@).len() == args@.len());
    if args.len() < lo || args.len() > hi {
        return Err(wrong_arity(name, lo, hi, args.len()));
    }
    match b {
        Builtin::Test | Builtin::Match | Builtin::Capture | Builtin::Sub | Builtin::Gsub | Builtin::Split =>
            call_pattern(b, name, args, input, facts),
        _ => call_plain(b, name, args, input, facts),
    }
}

} // verus!
