//! The binary operators: arithmetic, comparison, and the overloaded `+`.
use crate::error::{fail, wants, Er, EvalError};
use crate::float::{computed, double_of, is_zero, negate_float, negated, nearest_double, zero, Arith, Facts, Float, FloatFacts, Flt};
use crate::model::{group_value_views, members, vals, BinOp, Val, Value};
use crate::seqs::Rank;
use crate::value::{clone_members, clone_values, find_key, key_at, key_at_bounds, num_bits, type_text, val_rank};
use vstd::prelude::*;
use vstd::string::*;

verus! {

broadcast use group_value_views;

/// The view of an evaluation's single result.
pub open spec fn out(r: Result<Value, EvalError>) -> Result<Val, Er> {
    match r {
        Ok(v) => Ok(v@),
        Err(e) => Err(e@),
    }
}

/// `2^63`, the magnitude of the least integer, as a double.
pub open spec fn past_max() -> Flt {
    Flt { bits: 0x43e0_0000_0000_0000, text: "9223372036854775808"@ }
}

/// Arithmetic negation; an integer whose negation does not fit becomes a
/// double.
pub open spec fn neg_val(v: Val) -> Result<Val, Er> {
    match v {
        Val::Int(i) => if i == i64::MIN {
            Ok(Val::Float(past_max()))
        } else {
            Ok(Val::Int((-i) as i64))
        },
        Val::Float(f) => Ok(Val::Float(negated(f))),
        _ => Err(fail("cannot negate "@ + type_text(v))),
    }
}

/// The double an operation yields.
pub open spec fn float_val(op: Arith, a: u64, b: u64, fx: Facts) -> Result<Val, Er> {
    match computed(fx, op, a, b) {
        Ok(f) => Ok(Val::Float(f)),
        Err(n) => Err(wants(n)),
    }
}

/// "cannot <verb> <type> and <type>".
pub open spec fn cannot(verb: Seq<char>, a: Val, b: Val) -> Er {
    fail("cannot "@ + verb + " "@ + type_text(a) + " and "@ + type_text(b))
}

/// The exact result of `+`, `-` or `*` on integers.
pub open spec fn exact(op: Arith, x: i64, y: i64) -> int {
    match op {
        Arith::Add => x + y,
        Arith::Sub => x - y,
        _ => x * y,
    }
}

/// `+`, `-` or `*` on numbers: integers stay integers while the result fits,
/// anything else is computed in doubles.
pub open spec fn arith_val(op: Arith, verb: Seq<char>, a: Val, b: Val, fx: Facts) -> Result<Val, Er> {
    match (a, b) {
        (Val::Int(x), Val::Int(y)) => {
            let r = exact(op, x, y);
            if i64::MIN <= r <= i64::MAX {
                Ok(Val::Int(r as i64))
            } else {
                float_val(op, nearest_double(x), nearest_double(y), fx)
            }
        },
        _ => match (num_bits(a), num_bits(b)) {
            (Some(x), Some(y)) => float_val(op, x, y, fx),
            _ => Err(cannot(verb, a, b)),
        },
    }
}

/// The members with `k` set to `v`: in its place when present, else at the
/// end.
pub open spec fn put_key(m: Seq<(Seq<char>, Val)>, k: Seq<char>, v: Val) -> Seq<(Seq<char>, Val)> {
    let i = key_at(m, k);
    if 0 <= i < m.len() {
        m.update(i, (k, v))
    } else {
        m.push((k, v))
    }
}

/// The members of `x` overridden and extended by those of `y`.
pub open spec fn merged(x: Seq<(Seq<char>, Val)>, y: Seq<(Seq<char>, Val)>) -> Seq<(Seq<char>, Val)>
    decreases y.len(),
{
    if y.len() == 0 {
        x
    } else {
        put_key(merged(x, y.drop_last()), y.last().0, y.last().1)
    }
}

/// `+` is overloaded: `null` is the identity, strings and arrays concatenate,
/// objects merge (the right side wins), numbers add.
pub open spec fn add_val(a: Val, b: Val, fx: Facts) -> Result<Val, Er> {
    match (a, b) {
        (Val::Null, _) => Ok(b),
        (_, Val::Null) => Ok(a),
        (Val::Str(x), Val::Str(y)) => Ok(Val::Str(x + y)),
        (Val::Array(x), Val::Array(y)) => Ok(Val::Array(x + y)),
        (Val::Object(x), Val::Object(y)) => Ok(Val::Object(merged(x, y))),
        _ => arith_val(Arith::Add, "add"@, a, b, fx),
    }
}

/// The truncated quotient, when it is whole and fits.
pub open spec fn whole_quotient(x: i64, y: i64) -> Option<int> {
    let q = if (x >= 0) == (y >= 0) {
        abs(x as int) / abs(y as int)
    } else {
        -(abs(x as int) / abs(y as int))
    };
    if abs(x as int) % abs(y as int) == 0 && q <= i64::MAX {
        Some(q)
    } else {
        None
    }
}

pub open spec fn abs(x: int) -> int {
    if x < 0 {
        -x
    } else {
        x
    }
}

/// The remainder with the sign of the dividend.
pub open spec fn remainder(x: i64, y: i64) -> int {
    if x < 0 {
        -(abs(x as int) % abs(y as int))
    } else {
        abs(x as int) % abs(y as int)
    }
}

/// `/`: an integer when both sides are integers and it divides evenly,
/// otherwise a double.
pub open spec fn div_val(a: Val, b: Val, fx: Facts) -> Result<Val, Er> {
    match (a, b) {
        (Val::Int(x), Val::Int(y)) => if y == 0 {
            Err(fail("division by zero"@))
        } else {
            match whole_quotient(x, y) {
                Some(q) => Ok(Val::Int(q as i64)),
                None => float_val(Arith::Div, nearest_double(x), nearest_double(y), fx),
            }
        },
        _ => match (num_bits(a), num_bits(b)) {
            (Some(x), Some(y)) => if is_zero(y) {
                Err(fail("division by zero"@))
            } else {
                float_val(Arith::Div, x, y, fx)
            },
            _ => Err(cannot("divide"@, a, b)),
        },
    }
}

/// `%`: on integers the remainder with the sign of the dividend, otherwise
/// computed in doubles.
pub open spec fn mod_val(a: Val, b: Val, fx: Facts) -> Result<Val, Er> {
    match (a, b) {
        (Val::Int(x), Val::Int(y)) => if y == 0 {
            Err(fail("division by zero"@))
        } else {
            Ok(Val::Int(remainder(x, y) as i64))
        },
        _ => match (num_bits(a), num_bits(b)) {
            (Some(x), Some(y)) => if is_zero(y) {
                Err(fail("division by zero"@))
            } else {
                float_val(Arith::Rem, x, y, fx)
            },
            _ => Err(cannot("mod"@, a, b)),
        },
    }
}

/// A binary operation.
pub open spec fn bin_val(op: BinOp, a: Val, b: Val, fx: Facts) -> Result<Val, Er> {
    match op {
        BinOp::Eq => Ok(Val::Bool(val_rank(a, b) == Rank::Level)),
        BinOp::Ne => Ok(Val::Bool(val_rank(a, b) != Rank::Level)),
        BinOp::Lt => Ok(Val::Bool(val_rank(a, b) == Rank::Below)),
        BinOp::Gt => Ok(Val::Bool(val_rank(a, b) == Rank::Above)),
        BinOp::Le => Ok(Val::Bool(val_rank(a, b) != Rank::Above)),
        BinOp::Ge => Ok(Val::Bool(val_rank(a, b) != Rank::Below)),
        BinOp::Add => add_val(a, b, fx),
        BinOp::Sub => arith_val(Arith::Sub, "subtract"@, a, b, fx),
        BinOp::Mul => arith_val(Arith::Mul, "multiply"@, a, b, fx),
        BinOp::Div => div_val(a, b, fx),
        BinOp::Mod => mod_val(a, b, fx),
    }
}

/// Arithmetic negation.
pub fn negate(v: &Value) -> (r: Result<Value, EvalError>)
    ensures
        out(r) == neg_val(v@),
{
    match v {
        Value::Int(i) => if *i == i64::MIN {
            Ok(
                Value::Float(
                    Float { bits: 0x43e0_0000_0000_0000, text: "9223372036854775808".to_owned() },
                ),
            )
        } else {
            Ok(Value::Int(-*i))
        },
        Value::Float(f) => Ok(Value::Float(negate_float(f))),
        _ => {
            let mut m = "cannot negate ".to_owned();
            m.append(v.type_label());
            Err(EvalError::of(m))
        },
    }
}

fn float_op(op: Arith, a: u64, b: u64, facts: &FloatFacts) -> (r: Result<Value, EvalError>)
    ensures
        out(r) == float_val(op, a, b, facts@),
{
    match facts.compute(op, a, b) {
        Ok(f) => Ok(Value::Float(f)),
        Err(n) => Err(EvalError::wanting(n)),
    }
}

fn refuse(verb: &str, a: &Value, b: &Value) -> (r: EvalError)
    ensures
        r@ == cannot(verb@, a@, b@),
{
    let mut m = "cannot ".to_owned();
    m.append(verb);
    m.append(" ");
    m.append(a.type_label());
    m.append(" and ");
    m.append(b.type_label());
    EvalError::of(m)
}

fn arith(op: Arith, verb: &str, a: &Value, b: &Value, facts: &FloatFacts) -> (r: Result<
    Value,
    EvalError,
>)
    requires
        op is Add || op is Sub || op is Mul,
    ensures
        out(r) == arith_val(op, verb@, a@, b@, facts@),
{
    if let (Value::Int(x), Value::Int(y)) = (a, b) {
        let checked = match op {
            Arith::Add => x.checked_add(*y),
            Arith::Sub => x.checked_sub(*y),
            _ => x.checked_mul(*y),
        };
        if let Some(n) = checked {
            return Ok(Value::Int(n));
        }
    }
    match (a.as_double(), b.as_double()) {
        (Some(x), Some(y)) => float_op(op, x, y, facts),
        _ => Err(refuse(verb, a, b)),
    }
}

/// Set `k` to `v` among the members: in its place when present, else at the
/// end.
pub fn put(m: &mut Vec<(String, Value)>, k: String, v: Value)
    ensures
        members(final(m)@) == put_key(members(old(m)@), k@, v@),
{
    let i = find_key(m, &k);
    let ghost before = members(m@);
    let ghost kv = (k@, v@);
    proof {
        key_at_bounds(before, k@);
    }
    if i < m.len() {
        m.set(i, (k, v));
        assert(members(m@) =~= before.update(i as int, kv));
    } else {
        m.push((k, v));
    }
}

fn merge(x: &Vec<(String, Value)>, y: &Vec<(String, Value)>) -> (r: Vec<(String, Value)>)
    ensures
        members(r@) == merged(members(x@), members(y@)),
{
    let mut m = clone_members(x);
    let ghost my = members(y@);
    let mut i: usize = 0;
    while i < y.len()
        invariant
            i <= y.len(),
            my == members(y@),
            members(m@) == merged(members(x@), my.take(i as int)),
        decreases y.len() - i,
    {
        put(&mut m, y[i].0.clone(), y[i].1.clone());
        assert(my.take(i + 1).drop_last() =~= my.take(i as int));
        i = i + 1;
    }
    assert(my.take(i as int) =~= my);
    m
}

/// `a` followed by `b`.
pub fn append_values(a: &Vec<Value>, b: &Vec<Value>) -> (r: Vec<Value>)
    ensures
        vals(r@) == vals(a@) + vals(b@),
{
    let mut x = clone_values(a);
    let mut y = clone_values(b);
    let ghost vx = vals(x@);
    let ghost vy = vals(y@);
    x.append(&mut y);
    assert(vals(x@) =~= vx + vy);
    x
}

/// `+`: `null` is the identity, strings and arrays concatenate, objects merge,
/// numbers add.
pub fn add(a: &Value, b: &Value, facts: &FloatFacts) -> (r: Result<Value, EvalError>)
    ensures
        out(r) == add_val(a@, b@, facts@),
{
    match (a, b) {
        (Value::Null, _) => Ok(b.clone()),
        (_, Value::Null) => Ok(a.clone()),
        (Value::Str(x), Value::Str(y)) => {
            let mut t = x.clone();
            t.append(y);
            Ok(Value::Str(t))
        },
        (Value::Array(x), Value::Array(y)) => Ok(Value::Array(append_values(x, y))),
        (Value::Object(x), Value::Object(y)) => Ok(Value::Object(merge(x, y))),
        _ => arith(Arith::Add, "add", a, b, facts),
    }
}

fn divide(a: &Value, b: &Value, facts: &FloatFacts) -> (r: Result<Value, EvalError>)
    ensures
        out(r) == div_val(a@, b@, facts@),
{
    if let (Value::Int(x), Value::Int(y)) = (a, b) {
        if *y == 0 {
            return Err(EvalError::new("division by zero"));
        }
        return match quotient(*x, *y) {
            Some(q) => Ok(Value::Int(q)),
            None => float_op(Arith::Div, double_of(*x), double_of(*y), facts),
        };
    }
    match (a.as_double(), b.as_double()) {
        (Some(x), Some(y)) => if zero(y) {
            Err(EvalError::new("division by zero"))
        } else {
            float_op(Arith::Div, x, y, facts)
        },
        _ => Err(refuse("divide", a, b)),
    }
}

fn unsigned(x: i64) -> (r: u64)
    ensures
        r == abs(x as int),
{
    if x == i64::MIN {
        0x8000_0000_0000_0000
    } else if x < 0 {
        (-x) as u64
    } else {
        x as u64
    }
}

fn quotient(x: i64, y: i64) -> (r: Option<i64>)
    requires
        y != 0,
    ensures
        r is Some <==> whole_quotient(x, y) is Some,
        r is Some ==> r->0 == whole_quotient(x, y)->0,
{
    let ux: u64 = unsigned(x);
    let uy: u64 = unsigned(y);
    if ux % uy != 0 {
        return None;
    }
    let q: u64 = ux / uy;
    proof {
        assert(q <= ux) by (nonlinear_arith)
            requires
                q == ux / uy,
                uy >= 1,
        ;
    }
    if (x >= 0) == (y >= 0) {
        if q > 0x7fff_ffff_ffff_ffff {
            None
        } else {
            Some(q as i64)
        }
    } else if q == 0x8000_0000_0000_0000 {
        Some(i64::MIN)
    } else {
        Some(-(q as i64))
    }
}

fn rest(x: i64, y: i64) -> (r: i64)
    requires
        y != 0,
    ensures
        r == remainder(x, y),
{
    let m: u64 = unsigned(x) % unsigned(y);
    if x < 0 {
        -(m as i64)
    } else {
        m as i64
    }
}

fn modulo(a: &Value, b: &Value, facts: &FloatFacts) -> (r: Result<Value, EvalError>)
    ensures
        out(r) == mod_val(a@, b@, facts@),
{
    if let (Value::Int(x), Value::Int(y)) = (a, b) {
        if *y == 0 {
            return Err(EvalError::new("division by zero"));
        }
        return Ok(Value::Int(rest(*x, *y)));
    }
    match (a.as_double(), b.as_double()) {
        (Some(x), Some(y)) => if zero(y) {
            Err(EvalError::new("division by zero"))
        } else {
            float_op(Arith::Rem, x, y, facts)
        },
        _ => Err(refuse("mod", a, b)),
    }
}

/// A binary operation.
pub fn binary(op: BinOp, a: &Value, b: &Value, facts: &FloatFacts) -> (r: Result<Value, EvalError>)
    ensures
        out(r) == bin_val(op, a@, b@, facts@),
{
    match op {
        BinOp::Eq => Ok(Value::Bool(a.rank(b) == Rank::Level)),
        BinOp::Ne => Ok(Value::Bool(a.rank(b) != Rank::Level)),
        BinOp::Lt => Ok(Value::Bool(a.rank(b) == Rank::Below)),
        BinOp::Gt => Ok(Value::Bool(a.rank(b) == Rank::Above)),
        BinOp::Le => Ok(Value::Bool(a.rank(b) != Rank::Above)),
        BinOp::Ge => Ok(Value::Bool(a.rank(b) != Rank::Below)),
        BinOp::Add => self::add(a, b, facts),
        BinOp::Sub => arith(Arith::Sub, "subtract", a, b, facts),
        BinOp::Mul => arith(Arith::Mul, "multiply", a, b, facts),
        BinOp::Div => divide(a, b, facts),
        BinOp::Mod => modulo(a, b, facts),
    }
}

} // verus!
