//! What holds of the comparison operators and of arithmetic.
use crate::arith::{bin_val, merged, neg_val, put_key};
use crate::error::Er;
use crate::eval_laws::{key_before, key_from_is, order_flips, pushed_place, text_level};
use crate::float::{
    computed, halve, is_nan, is_zero, magnitude, nearest_double, nearest_magnitude, order_key, widen,
    Arith, Facts, Flt,
};
use crate::model::{BinOp, Val};
use crate::seqs::{char_rank, lex_rank, str_rank, Rank};
use crate::value::{array_ranks, first_unlevel, get_key, key_at, key_at_bounds, val_rank};
use vstd::prelude::*;

verus! {

/// Is the outcome of the operator true?
pub open spec fn holds(op: BinOp, a: Val, b: Val, fx: Facts) -> bool {
    bin_val(op, a, b, fx) == Ok::<Val, Er>(Val::Bool(true))
}

/// Is the operator a comparison?
pub open spec fn compares(op: BinOp) -> bool {
    op is Eq || op is Ne || op is Lt || op is Gt || op is Le || op is Ge
}

/// Every comparison is true or false of any two values, and they fit together: exactly
/// one of `<`, `==` and `>` holds, `<=` is `<` or `==` and the opposite of `>`, `>=` is
/// `>` or `==` and the opposite of `<`, `!=` is the opposite of `==`; `a < b` is
/// `b > a`; and a value is equal to itself.
pub proof fn comparisons_agree(a: Val, b: Val, fx: Facts)
    ensures
        forall|op: BinOp|
            compares(op) ==> #[trigger] bin_val(op, a, b, fx) == Ok::<Val, Er>(
                Val::Bool(holds(op, a, b, fx)),
            ),
        holds(BinOp::Lt, a, b, fx) || holds(BinOp::Eq, a, b, fx) || holds(BinOp::Gt, a, b, fx),
        !(holds(BinOp::Lt, a, b, fx) && holds(BinOp::Eq, a, b, fx)),
        !(holds(BinOp::Lt, a, b, fx) && holds(BinOp::Gt, a, b, fx)),
        !(holds(BinOp::Eq, a, b, fx) && holds(BinOp::Gt, a, b, fx)),
        holds(BinOp::Le, a, b, fx) <==> holds(BinOp::Lt, a, b, fx) || holds(BinOp::Eq, a, b, fx),
        holds(BinOp::Le, a, b, fx) <==> !holds(BinOp::Gt, a, b, fx),
        holds(BinOp::Ge, a, b, fx) <==> holds(BinOp::Gt, a, b, fx) || holds(BinOp::Eq, a, b, fx),
        holds(BinOp::Ge, a, b, fx) <==> !holds(BinOp::Lt, a, b, fx),
        holds(BinOp::Ne, a, b, fx) <==> !holds(BinOp::Eq, a, b, fx),
        holds(BinOp::Lt, a, b, fx) <==> holds(BinOp::Gt, b, a, fx),
        holds(BinOp::Eq, a, b, fx) <==> holds(BinOp::Eq, b, a, fx),
        holds(BinOp::Le, a, b, fx) <==> holds(BinOp::Ge, b, a, fx),
        a == b ==> holds(BinOp::Eq, a, b, fx),
{
    order_flips(a, b);
}

proof fn halved_bounds(q: nat, rem: nat, unit: nat, e: nat)
    requires
        q >= 0x10_0000_0000_0000,
    ensures
        0x10_0000_0000_0000 <= halve(q, rem, unit, e).0 < 0x20_0000_0000_0000,
        halve(q, rem, unit, e).3 >= e,
        q >= 0x20_0000_0000_0000 ==> halve(q, rem, unit, e).3 > e,
    decreases q,
{
    if q >= 0x20_0000_0000_0000 {
        halved_bounds(q / 2, if q % 2 == 1 { rem + unit } else { rem }, 2 * unit, e + 1);
    }
}

/// The bits of a magnitude cut to 53 bits and rounded.
spec fn rounded(h: (nat, nat, nat, nat)) -> int {
    (1075 + h.3) * 0x10_0000_0000_0000 + (h.0 - 0x10_0000_0000_0000) + (if 2 * h.1 > h.2 || (2 * h.1
        == h.2 && h.0 % 2 == 1) {
        1int
    } else {
        0
    })
}

proof fn halving_keeps_order(q1: nat, r1: nat, q2: nat, r2: nat, unit: nat, e: nat)
    requires
        0x10_0000_0000_0000 <= q1,
        0x10_0000_0000_0000 <= q2,
        r1 < unit,
        r2 < unit,
        q1 < q2 || (q1 == q2 && r1 <= r2),
    ensures
        rounded(halve(q1, r1, unit, e)) <= rounded(halve(q2, r2, unit, e)),
    decreases q2,
{
    if q2 < 0x20_0000_0000_0000 {
    } else if q1 < 0x20_0000_0000_0000 {
        halved_bounds(q2, r2, unit, e);
        let h = halve(q2, r2, unit, e);
        assert((1075 + e + 1) * 0x10_0000_0000_0000 <= (1075 + h.3) * 0x10_0000_0000_0000)
            by (nonlinear_arith)
            requires
                e + 1 <= h.3,
        ;
        assert((1075 + e + 1) * 0x10_0000_0000_0000 == (1075 + e) * 0x10_0000_0000_0000
            + 0x10_0000_0000_0000) by (nonlinear_arith);
    } else {
        halving_keeps_order(
            q1 / 2,
            if q1 % 2 == 1 { r1 + unit } else { r1 },
            q2 / 2,
            if q2 % 2 == 1 { r2 + unit } else { r2 },
            2 * unit,
            e + 1,
        );
    }
}

/// The bits of a widened magnitude.
spec fn widened(w: (nat, int)) -> int {
    w.1 * 0x10_0000_0000_0000 + (w.0 - 0x10_0000_0000_0000)
}

proof fn widened_bounds(q: nat, e: int)
    requires
        0 < q < 0x20_0000_0000_0000,
    ensures
        0x10_0000_0000_0000 <= widen(q, e).0 < 0x20_0000_0000_0000,
        widen(q, e).1 <= e,
        q < 0x10_0000_0000_0000 ==> widen(q, e).1 < e,
    decreases 0x20_0000_0000_0000 - q,
{
    if q < 0x10_0000_0000_0000 {
        widened_bounds(2 * q, e - 1);
    }
}

proof fn widening_keeps_order(a: nat, b: nat, e: int)
    requires
        0 < a < b < 0x20_0000_0000_0000,
    ensures
        widened(widen(a, e)) < widened(widen(b, e)),
    decreases 0x20_0000_0000_0000 - b,
{
    if b < 0x10_0000_0000_0000 {
        widening_keeps_order(2 * a, 2 * b, e - 1);
    } else if a < 0x10_0000_0000_0000 {
        widened_bounds(a, e);
        let w = widen(a, e);
        assert((w.1 + 1) * 0x10_0000_0000_0000 <= e * 0x10_0000_0000_0000) by (nonlinear_arith)
            requires
                w.1 + 1 <= e,
        ;
        assert((w.1 + 1) * 0x10_0000_0000_0000 == w.1 * 0x10_0000_0000_0000 + 0x10_0000_0000_0000)
            by (nonlinear_arith);
    }
}

proof fn first_bit(m: nat, e: int, k: nat)
    requires
        0 < m < 0x20_0000_0000_0000,
        k <= 52,
        vstd::arithmetic::power2::pow2((52 - k) as nat) <= m,
    ensures
        widen(m, e).1 >= e - k,
    decreases k,
{
    vstd::arithmetic::power2::lemma2_to64();
    vstd::arithmetic::power2::lemma2_to64_rest();
    if m < 0x10_0000_0000_0000 {
        assert(k > 0);
        vstd::arithmetic::power2::lemma_pow2_unfold((53 - k) as nat);
        first_bit(2 * m, e - 1, (k - 1) as nat);
    }
}

/// The doubles of magnitudes are in the magnitudes' order.
proof fn magnitudes_in_order(a: nat, b: nat)
    requires
        a <= b <= 0x8000_0000_0000_0000,
    ensures
        0 <= nearest_magnitude(a) <= nearest_magnitude(b),
        a < b <= 0x20_0000_0000_0000 ==> nearest_magnitude(a) < nearest_magnitude(b),
        0 < a ==> 0 < nearest_magnitude(a),
{
    vstd::arithmetic::power2::lemma2_to64();
    vstd::arithmetic::power2::lemma2_to64_rest();
    if 0 < a < 0x20_0000_0000_0000 {
        widened_bounds(a, 1075);
        first_bit(a, 1075, 52);
        let w = widen(a, 1075);
        assert(w.1 * 0x10_0000_0000_0000 >= 1023 * 0x10_0000_0000_0000) by (nonlinear_arith)
            requires
                w.1 >= 1023,
        ;
        assert(w.1 * 0x10_0000_0000_0000 <= 1075 * 0x10_0000_0000_0000) by (nonlinear_arith)
            requires
                w.1 <= 1075,
        ;
    }
    if 0 < b < 0x20_0000_0000_0000 {
        widened_bounds(b, 1075);
        first_bit(b, 1075, 52);
        let w = widen(b, 1075);
        assert(w.1 * 0x10_0000_0000_0000 >= 1023 * 0x10_0000_0000_0000) by (nonlinear_arith)
            requires
                w.1 >= 1023,
        ;
    }
    if a >= 0x20_0000_0000_0000 {
        halved_bounds(a, 0, 1, 0);
        halving_keeps_order(a, 0, b, 0, 1, 0);
        let h = halve(a, 0, 1, 0);
        assert((1075 + h.3) * 0x10_0000_0000_0000 >= 0) by (nonlinear_arith)
            requires
                h.3 >= 0,
        ;
    } else if b >= 0x20_0000_0000_0000 {
        halved_bounds(b, 0, 1, 0);
        let h = halve(b, 0, 1, 0);
        assert((1075 + h.3) * 0x10_0000_0000_0000 >= 1076 * 0x10_0000_0000_0000)
            by (nonlinear_arith)
            requires
                h.3 >= 1,
        ;
    } else if 0 < a < b {
        widening_keeps_order(a, b, 1075);
    }
}

proof fn magnitude_fits(m: nat)
    requires
        m <= 0x8000_0000_0000_0000,
    ensures
        0 <= nearest_magnitude(m) < 0x7ff0_0000_0000_0000,
{
    magnitudes_in_order(m, 0x8000_0000_0000_0000);
    assert(nearest_magnitude(0x8000_0000_0000_0000) == 0x43e0_0000_0000_0000) by {
        reveal_with_fuel(halve, 13);
        assert(halve(0x8000_0000_0000_0000, 0, 1, 0) == (0x10_0000_0000_0000nat, 0nat, 0x800nat, 11nat));
    }
}

proof fn int_key(x: i64)
    ensures
        !is_nan(nearest_double(x)),
        x >= 0 ==> order_key(nearest_double(x)) == nearest_magnitude(x as nat),
        x < 0 ==> order_key(nearest_double(x)) == -nearest_magnitude((-x) as nat),
{
    let m: nat = if x < 0 {
        (-x) as nat
    } else {
        x as nat
    };
    magnitude_fits(m);
    let n = nearest_magnitude(m);
    if x < 0 {
        let b = (n + 0x8000_0000_0000_0000) as u64;
        assert(b as int == n + 0x8000_0000_0000_0000);
        assert(b as int % 0x8000_0000_0000_0000 == n) by (nonlinear_arith)
            requires
                b as int == n + 0x8000_0000_0000_0000,
                0 <= n < 0x8000_0000_0000_0000,
        ;
    } else {
        assert((n as u64) as int % 0x8000_0000_0000_0000 == n) by (nonlinear_arith)
            requires
                (n as u64) as int == n,
                0 <= n < 0x8000_0000_0000_0000,
        ;
    }
}

/// Integers compare as numbers: one that is at most another is never above it, and up to
/// two to the fifty-third, where every integer is a double, `<`, `<=`, `>`, `>=` and
/// `==` are what they are of numbers.
pub proof fn integers_compare(x: i64, y: i64, fx: Facts)
    ensures
        x <= y ==> holds(BinOp::Le, Val::Int(x), Val::Int(y), fx),
        x >= y ==> holds(BinOp::Ge, Val::Int(x), Val::Int(y), fx),
        x == y ==> holds(BinOp::Eq, Val::Int(x), Val::Int(y), fx),
        holds(BinOp::Lt, Val::Int(x), Val::Int(y), fx) ==> x < y,
        holds(BinOp::Gt, Val::Int(x), Val::Int(y), fx) ==> x > y,
        -0x20_0000_0000_0000 <= x <= 0x20_0000_0000_0000 && -0x20_0000_0000_0000 <= y
            <= 0x20_0000_0000_0000 ==> {
            &&& holds(BinOp::Lt, Val::Int(x), Val::Int(y), fx) <==> x < y
            &&& holds(BinOp::Le, Val::Int(x), Val::Int(y), fx) <==> x <= y
            &&& holds(BinOp::Gt, Val::Int(x), Val::Int(y), fx) <==> x > y
            &&& holds(BinOp::Ge, Val::Int(x), Val::Int(y), fx) <==> x >= y
            &&& holds(BinOp::Eq, Val::Int(x), Val::Int(y), fx) <==> x == y
            &&& holds(BinOp::Ne, Val::Int(x), Val::Int(y), fx) <==> x != y
        },
{
    int_key(x);
    int_key(y);
    let mx: nat = if x < 0 {
        (-x) as nat
    } else {
        x as nat
    };
    let my: nat = if y < 0 {
        (-y) as nat
    } else {
        y as nat
    };
    if mx <= my {
        magnitudes_in_order(mx, my);
    } else {
        magnitudes_in_order(my, mx);
    }
    magnitudes_in_order(mx, mx);
    magnitudes_in_order(my, my);
}

/// `false` is below `true`.
pub proof fn booleans_compare(x: bool, y: bool, fx: Facts)
    ensures
        holds(BinOp::Lt, Val::Bool(x), Val::Bool(y), fx) <==> !x && y,
        holds(BinOp::Eq, Val::Bool(x), Val::Bool(y), fx) <==> x == y,
{
}

/// Of values of two types, null is below booleans, these below numbers, these below
/// strings, these below arrays, and these below objects.
pub proof fn types_compare(a: Val, b: Val, fx: Facts)
    ensures
        a is Null && !(b is Null) ==> holds(BinOp::Lt, a, b, fx),
        a is Bool && (b is Int || b is Float || b is Str || b is Array || b is Object) ==> holds(
            BinOp::Lt,
            a,
            b,
            fx,
        ),
        (a is Int || a is Float) && (b is Str || b is Array || b is Object) ==> holds(
            BinOp::Lt,
            a,
            b,
            fx,
        ),
        a is Str && (b is Array || b is Object) ==> holds(BinOp::Lt, a, b, fx),
        a is Array && b is Object ==> holds(BinOp::Lt, a, b, fx),
{
}

proof fn lex_parts<A>(a: Seq<A>, b: Seq<A>, ord: spec_fn(A, A) -> Rank, n: int, i: int)
    requires
        0 <= i <= n,
        n < a.len(),
        n < b.len(),
        forall|j: int| 0 <= j < n ==> ord(#[trigger] a[j], b[j]) == Rank::Level,
        ord(a[n], b[n]) != Rank::Level,
    ensures
        lex_rank(a, b, ord, i) == ord(a[n], b[n]),
    decreases n - i,
{
    if i < n {
        assert(ord(a[i], b[i]) == Rank::Level);
        lex_parts(a, b, ord, n, i + 1);
    }
}

proof fn lex_runs_out<A>(a: Seq<A>, b: Seq<A>, ord: spec_fn(A, A) -> Rank, i: int)
    requires
        0 <= i <= a.len(),
        a.len() <= b.len(),
        forall|j: int| 0 <= j < a.len() ==> ord(#[trigger] a[j], b[j]) == Rank::Level,
    ensures
        lex_rank(a, b, ord, i) == (if a.len() < b.len() {
            Rank::Below
        } else {
            Rank::Level
        }),
    decreases a.len() - i,
{
    if i < a.len() {
        assert(ord(a[i], b[i]) == Rank::Level);
        lex_runs_out(a, b, ord, i + 1);
    }
}

/// Strings compare by the code points of the first characters that differ; a string is
/// below every longer one that starts with it; only the same strings are equal.
pub proof fn strings_compare(p: Seq<char>, a: char, s: Seq<char>, b: char, t: Seq<char>, fx: Facts)
    ensures
        (a as int) < (b as int) ==> holds(
            BinOp::Lt,
            Val::Str(p.push(a) + s),
            Val::Str(p.push(b) + t),
            fx,
        ),
        holds(BinOp::Lt, Val::Str(p), Val::Str(p.push(a) + s), fx),
        holds(BinOp::Eq, Val::Str(s), Val::Str(t), fx) <==> s == t,
{
    let x = p.push(a) + s;
    let y = p.push(b) + t;
    let n = p.len() as int;
    assert forall|j: int| 0 <= j < n implies char_rank()(#[trigger] x[j], y[j]) == Rank::Level by {
        assert(x[j] == p[j] && y[j] == p[j]);
    }
    assert(x[n] == a && y[n] == b);
    if (a as int) < (b as int) {
        lex_parts(x, y, char_rank(), n, 0);
    }
    assert forall|j: int| 0 <= j < n implies char_rank()(#[trigger] p[j], x[j]) == Rank::Level by {
        assert(x[j] == p[j]);
    }
    lex_runs_out(p, x, char_rank(), 0);
    if str_rank(s, t) == Rank::Level {
        text_level(s, t);
    }
    order_flips(Val::Str(s), Val::Str(t));
}

proof fn unlevel_at(r: Seq<Rank>, n: int, i: int)
    requires
        0 <= i <= n <= r.len(),
        forall|j: int| 0 <= j < n ==> #[trigger] r[j] == Rank::Level,
        n < r.len() ==> r[n] != Rank::Level,
    ensures
        first_unlevel(r, i) == (if n < r.len() {
            r[n]
        } else {
            Rank::Level
        }),
    decreases n - i,
{
    if i < n {
        assert(r[i] == Rank::Level);
        unlevel_at(r, n, i + 1);
    }
}

/// Arrays compare by the first elements that differ; an array is below every longer one
/// that starts with it.
pub proof fn arrays_compare(p: Seq<Val>, a: Val, s: Seq<Val>, b: Val, t: Seq<Val>, fx: Facts)
    ensures
        holds(BinOp::Lt, a, b, fx) ==> holds(
            BinOp::Lt,
            Val::Array(p.push(a) + s),
            Val::Array(p.push(b) + t),
            fx,
        ),
        holds(BinOp::Gt, a, b, fx) ==> holds(
            BinOp::Gt,
            Val::Array(p.push(a) + s),
            Val::Array(p.push(b) + t),
            fx,
        ),
        holds(BinOp::Lt, Val::Array(p), Val::Array(p.push(a) + s), fx),
{
    let x = p.push(a) + s;
    let y = p.push(b) + t;
    let n = p.len() as int;
    let r = array_ranks(x, y);
    assert forall|j: int| 0 <= j < n implies #[trigger] r[j] == Rank::Level by {
        assert(x[j] == p[j] && y[j] == p[j]);
        order_flips(p[j], p[j]);
    }
    assert(x[n] == a && y[n] == b);
    assert(r[n] == val_rank(a, b));
    if val_rank(a, b) != Rank::Level {
        unlevel_at(r, n, 0);
    }
    let q = array_ranks(p, x);
    assert forall|j: int| 0 <= j < n implies #[trigger] q[j] == Rank::Level by {
        assert(x[j] == p[j]);
        order_flips(p[j], p[j]);
    }
    unlevel_at(q, n, 0);
}

/// Of numbers that are none of them `NaN`, the negations compare the other way round, and
/// `NaN` is equal to every number.
pub proof fn negations_compare(a: Flt, b: Flt, fx: Facts)
    ensures
        !is_nan(a.bits) && !is_nan(b.bits) ==> (holds(
            BinOp::Lt,
            neg_val(Val::Float(a))->Ok_0,
            neg_val(Val::Float(b))->Ok_0,
            fx,
        ) <==> holds(BinOp::Gt, Val::Float(a), Val::Float(b), fx)),
        is_nan(a.bits) ==> holds(BinOp::Eq, Val::Float(a), Val::Float(b), fx),
{
    let na = (neg_val(Val::Float(a))->Ok_0)->Float_0;
    let nb = (neg_val(Val::Float(b))->Ok_0)->Float_0;
    negated_key(a.bits, na.bits);
    negated_key(b.bits, nb.bits);
}

proof fn negated_key(a: u64, n: u64)
    requires
        n == (if a as int >= 0x8000_0000_0000_0000 {
            (a - 0x8000_0000_0000_0000) as u64
        } else {
            (a + 0x8000_0000_0000_0000) as u64
        }),
    ensures
        order_key(n) == -order_key(a),
        is_nan(n) == is_nan(a),
{
}

/// Integers add, subtract and multiply exactly where the result is one that an integer
/// can hold, and are no integer otherwise.
pub proof fn integers_are_exact(x: i64, y: i64, fx: Facts)
    ensures
        i64::MIN <= x + y <= i64::MAX ==> bin_val(BinOp::Add, Val::Int(x), Val::Int(y), fx) == Ok::<
            Val,
            Er,
        >(Val::Int((x + y) as i64)),
        i64::MIN <= x - y <= i64::MAX ==> bin_val(BinOp::Sub, Val::Int(x), Val::Int(y), fx) == Ok::<
            Val,
            Er,
        >(Val::Int((x - y) as i64)),
        i64::MIN <= x * y <= i64::MAX ==> bin_val(BinOp::Mul, Val::Int(x), Val::Int(y), fx) == Ok::<
            Val,
            Er,
        >(Val::Int((x * y) as i64)),
        match bin_val(BinOp::Add, Val::Int(x), Val::Int(y), fx) {
            Ok(Val::Int(r)) => r == x + y,
            Ok(v) => v is Float,
            Err(e) => e.need is Some,
        },
        match bin_val(BinOp::Sub, Val::Int(x), Val::Int(y), fx) {
            Ok(Val::Int(r)) => r == x - y,
            Ok(v) => v is Float,
            Err(e) => e.need is Some,
        },
        match bin_val(BinOp::Mul, Val::Int(x), Val::Int(y), fx) {
            Ok(Val::Int(r)) => r == x * y,
            Ok(v) => v is Float,
            Err(e) => e.need is Some,
        },
        x != i64::MIN ==> neg_val(Val::Int(x)) == Ok::<Val, Er>(Val::Int((0 - x) as i64)),
{
}

proof fn whole(q: int, y: int, x: int)
    requires
        q * y == x,
        y != 0,
    ensures
        crate::arith::abs(x) == crate::arith::abs(q) * crate::arith::abs(y),
        crate::arith::abs(x) % crate::arith::abs(y) == 0,
        crate::arith::abs(x) / crate::arith::abs(y) == crate::arith::abs(q),
        x != 0 ==> ((x > 0) <==> ((q > 0) == (y > 0))),
        x == 0 ==> q == 0,
{
    let aq = crate::arith::abs(q);
    let ay = crate::arith::abs(y);
    assert(crate::arith::abs(x) == aq * ay && (x != 0 ==> ((x > 0) <==> ((q > 0) == (y > 0)))) && (x
        == 0 ==> q == 0)) by (nonlinear_arith)
        requires
            q * y == x,
            y != 0,
            aq == (if q < 0 {
                -q
            } else {
                q
            }),
            ay == (if y < 0 {
                -y
            } else {
                y
            }),
    ;
    vstd::arithmetic::div_mod::lemma_div_multiples_vanish(aq, ay);
    vstd::arithmetic::div_mod::lemma_mod_multiples_basic(aq, ay);
    assert(ay * aq == aq * ay) by (nonlinear_arith);
}

/// A quotient of integers is an integer exactly where multiplying it by the divisor gives
/// the dividend.
pub proof fn quotients_divide(x: i64, y: i64, q: i64, fx: Facts)
    requires
        y != 0,
    ensures
        q * y == x ==> bin_val(BinOp::Div, Val::Int(x), Val::Int(y), fx) == Ok::<Val, Er>(
            Val::Int(q),
        ),
        match bin_val(BinOp::Div, Val::Int(x), Val::Int(y), fx) {
            Ok(Val::Int(q)) => q * y == x,
            Ok(v) => v is Float,
            Err(e) => e.need is Some,
        },
{
    if q * y == x {
        whole(q as int, y as int, x as int);
    }
    if let Ok(Val::Int(q)) = bin_val(BinOp::Div, Val::Int(x), Val::Int(y), fx) {
        let ax = crate::arith::abs(x as int);
        let ay = crate::arith::abs(y as int);
        let d = ax / ay;
        vstd::arithmetic::div_mod::lemma_fundamental_div_mod(ax, ay);
        assert(0 <= d <= ax) by (nonlinear_arith)
            requires
                ay >= 1,
                ax >= 0,
                d == ax / ay,
        ;
        assert(q as int == (if (x >= 0) == (y >= 0) {
            d
        } else {
            -d
        }));
        assert(q * y == x) by (nonlinear_arith)
            requires
                ax == ay * d + 0,
                ax == (if x < 0 {
                    -(x as int)
                } else {
                    x as int
                }),
                ay == (if y < 0 {
                    -(y as int)
                } else {
                    y as int
                }),
                q as int == (if (x >= 0) == (y >= 0) {
                    d
                } else {
                    -d
                }),
        ;
    }
}

/// A remainder of integers is smaller than the divisor, has the sign of the dividend, and
/// is what a multiple of the divisor leaves of the dividend.
pub proof fn remainders_remain(x: i64, y: i64, fx: Facts)
    requires
        y != 0,
    ensures
        bin_val(BinOp::Mod, Val::Int(x), Val::Int(y), fx) is Ok,
        bin_val(BinOp::Mod, Val::Int(x), Val::Int(y), fx)->Ok_0 is Int,
        ({
            let r = (bin_val(BinOp::Mod, Val::Int(x), Val::Int(y), fx)->Ok_0)->Int_0;
            &&& r < 0 ==> x < 0
            &&& r > 0 ==> x > 0
            &&& -(if y < 0 {
                -(y as int)
            } else {
                y as int
            }) < r < (if y < 0 {
                -(y as int)
            } else {
                y as int
            })
            &&& exists|q: int| #[trigger] (q * y) + r == x
        }),
{
    let ax = crate::arith::abs(x as int);
    let ay = crate::arith::abs(y as int);
    let d = ax / ay;
    vstd::arithmetic::div_mod::lemma_fundamental_div_mod(ax, ay);
    vstd::arithmetic::div_mod::lemma_mod_bound(ax, ay);
    let m = ax % ay;
    let r = crate::arith::remainder(x, y);
    assert(r as i64 as int == r);
    let q = if (x < 0) == (y < 0) {
        d
    } else {
        -d
    };
    assert((q * y) + r == x) by (nonlinear_arith)
        requires
            ax == ay * d + m,
            ax == (if x < 0 {
                -(x as int)
            } else {
                x as int
            }),
            ay == (if y < 0 {
                -(y as int)
            } else {
                y as int
            }),
            q == (if (x < 0) == (y < 0) {
                d
            } else {
                -d
            }),
            r == (if x < 0 {
                -m
            } else {
                m
            }),
    ;
}

/// Dividing by zero is refused, of integers and of doubles, for the quotient and for the
/// remainder.
pub proof fn zero_divides_nothing(a: Val, b: Val, fx: Facts)
    requires
        a is Int || a is Float,
        b == Val::Int(0) || (b is Float && is_zero(b->Float_0.bits)),
    ensures
        bin_val(BinOp::Div, a, b, fx) == Err::<Val, Er>(crate::error::fail("division by zero"@)),
        bin_val(BinOp::Mod, a, b, fx) == Err::<Val, Er>(crate::error::fail("division by zero"@)),
{
}

/// On doubles each operator is that operation of the operands, in their order, as the
/// table has it.
pub proof fn doubles_compute(a: Flt, b: Flt, f: Flt, fx: Facts)
    ensures
        computed(fx, Arith::Add, a.bits, b.bits) == Ok::<Flt, crate::float::Need>(f) ==> bin_val(
            BinOp::Add,
            Val::Float(a),
            Val::Float(b),
            fx,
        ) == Ok::<Val, Er>(Val::Float(f)),
        computed(fx, Arith::Sub, a.bits, b.bits) == Ok::<Flt, crate::float::Need>(f) ==> bin_val(
            BinOp::Sub,
            Val::Float(a),
            Val::Float(b),
            fx,
        ) == Ok::<Val, Er>(Val::Float(f)),
        computed(fx, Arith::Mul, a.bits, b.bits) == Ok::<Flt, crate::float::Need>(f) ==> bin_val(
            BinOp::Mul,
            Val::Float(a),
            Val::Float(b),
            fx,
        ) == Ok::<Val, Er>(Val::Float(f)),
        !is_zero(b.bits) && computed(fx, Arith::Div, a.bits, b.bits) == Ok::<Flt, crate::float::Need>(
            f,
        ) ==> bin_val(BinOp::Div, Val::Float(a), Val::Float(b), fx) == Ok::<Val, Er>(Val::Float(f)),
        !is_zero(b.bits) && computed(fx, Arith::Rem, a.bits, b.bits) == Ok::<Flt, crate::float::Need>(
            f,
        ) ==> bin_val(BinOp::Mod, Val::Float(a), Val::Float(b), fx) == Ok::<Val, Er>(Val::Float(f)),
{
}

/// Null added on either side changes nothing; strings and arrays are put one behind the
/// other; the other operators take numbers alone.
pub proof fn addition_joins(a: Val, b: Val, fx: Facts)
    ensures
        bin_val(BinOp::Add, Val::Null, b, fx) == Ok::<Val, Er>(b),
        bin_val(BinOp::Add, a, Val::Null, fx) == Ok::<Val, Er>(a),
        a is Str && b is Str ==> {
            let r = bin_val(BinOp::Add, a, b, fx);
            &&& r is Ok && r->Ok_0 is Str
            &&& (r->Ok_0)->Str_0.len() == a->Str_0.len() + b->Str_0.len()
            &&& forall|i: int| 0 <= i < a->Str_0.len() ==> (r->Ok_0)->Str_0[i] == #[trigger] a->Str_0[i]
            &&& forall|i: int|
                0 <= i < b->Str_0.len() ==> (r->Ok_0)->Str_0[a->Str_0.len() + i] == #[trigger] b->Str_0[i]
        },
        a is Array && b is Array ==> {
            let r = bin_val(BinOp::Add, a, b, fx);
            &&& r is Ok && r->Ok_0 is Array
            &&& (r->Ok_0)->Array_0.len() == a->Array_0.len() + b->Array_0.len()
            &&& forall|i: int|
                0 <= i < a->Array_0.len() ==> (r->Ok_0)->Array_0[i] == #[trigger] a->Array_0[i]
            &&& forall|i: int|
                0 <= i < b->Array_0.len() ==> (r->Ok_0)->Array_0[a->Array_0.len() + i]
                    == #[trigger] b->Array_0[i]
        },
        !(a is Int || a is Float) || !(b is Int || b is Float) ==> bin_val(BinOp::Sub, a, b, fx) is Err
            && bin_val(BinOp::Mul, a, b, fx) is Err && bin_val(BinOp::Div, a, b, fx) is Err && bin_val(
            BinOp::Mod,
            a,
            b,
            fx,
        ) is Err,
{
}

proof fn put_reads(m: Seq<(Seq<char>, Val)>, k: Seq<char>, v: Val, other: Seq<char>)
    ensures
        get_key(put_key(m, k, v), k) == Some(v),
        other != k ==> get_key(put_key(m, k, v), other) == get_key(m, other),
        put_key(m, k, v).len() >= m.len(),
        forall|i: int| 0 <= i < m.len() ==> (#[trigger] put_key(m, k, v)[i]).0 == m[i].0,
{
    key_at_bounds(m, k);
    let i = key_at(m, k);
    let r = put_key(m, k, v);
    if i < m.len() {
        assert forall|j: int| 0 <= j < i implies (#[trigger] r[j]).0 != k by {
            key_before(m, k, 0, j);
        }
        key_from_is(r, k, 0, i);
        assert forall|j: int| 0 <= j < m.len() implies (#[trigger] r[j]).0 == m[j].0 by {}
        if other != k {
            crate::eval_laws::keys_place(r, m, other);
            key_at_bounds(m, other);
        }
    } else {
        pushed_place(m, k, v, other);
    }
}

proof fn merge_reads(x: Seq<(Seq<char>, Val)>, y: Seq<(Seq<char>, Val)>, k: Seq<char>)
    ensures
        (forall|i: int| 0 <= i < y.len() ==> (#[trigger] y[i]).0 != k) ==> get_key(merged(x, y), k)
            == get_key(x, k),
        forall|i: int|
            0 <= i < y.len() && (#[trigger] y[i]).0 == k && (forall|j: int|
                i < j < y.len() ==> (#[trigger] y[j]).0 != k) ==> get_key(merged(x, y), k) == Some(y[i].1),
        merged(x, y).len() >= x.len(),
        forall|i: int| 0 <= i < x.len() ==> (#[trigger] merged(x, y)[i]).0 == x[i].0,
    decreases y.len(),
{
    if y.len() > 0 {
        let init = y.drop_last();
        let e = y.last();
        merge_reads(x, init, k);
        put_reads(merged(x, init), e.0, e.1, k);
        if forall|i: int| 0 <= i < y.len() ==> (#[trigger] y[i]).0 != k {
            assert forall|i: int| 0 <= i < init.len() implies (#[trigger] init[i]).0 != k by {
                assert(init[i] == y[i]);
            }
            assert(y[y.len() - 1].0 != k);
        }
        assert forall|i: int|
            0 <= i < y.len() && (#[trigger] y[i]).0 == k && (forall|j: int|
                i < j < y.len() ==> (#[trigger] y[j]).0 != k) implies get_key(merged(x, y), k) == Some(
            y[i].1,
        ) by {
            if i < init.len() {
                assert(y[y.len() - 1].0 != k);
                assert(init[i] == y[i]);
                assert forall|j: int| i < j < init.len() implies (#[trigger] init[j]).0 != k by {
                    assert(init[j] == y[j]);
                }
            }
        }
        assert forall|i: int| 0 <= i < x.len() implies (#[trigger] merged(x, y)[i]).0 == x[i].0 by {
            assert(merged(x, init)[i].0 == x[i].0);
        }
    }
}

/// Adding objects merges them: a key of the right one has the value it has there, any
/// other key the value it has in the left one, whose keys come first and in their order.
pub proof fn objects_merge(x: Seq<(Seq<char>, Val)>, y: Seq<(Seq<char>, Val)>, k: Seq<char>, fx: Facts)
    ensures
        ({
            let r = bin_val(BinOp::Add, Val::Object(x), Val::Object(y), fx);
            &&& r is Ok && r->Ok_0 is Object
            &&& (forall|i: int| 0 <= i < y.len() ==> (#[trigger] y[i]).0 != k) ==> get_key(
                (r->Ok_0)->Object_0,
                k,
            ) == get_key(x, k)
            &&& forall|i: int|
                0 <= i < y.len() && (#[trigger] y[i]).0 == k && (forall|j: int|
                    i < j < y.len() ==> (#[trigger] y[j]).0 != k) ==> get_key((r->Ok_0)->Object_0, k)
                    == Some(y[i].1)
            &&& (r->Ok_0)->Object_0.len() >= x.len()
            &&& forall|i: int| 0 <= i < x.len() ==> (#[trigger] (r->Ok_0)->Object_0[i]).0 == x[i].0
        }),
{
    merge_reads(x, y, k);
}

} // verus!
