//! What holds of the order of values and of the order of deletions.
use crate::eval_laws::{
    ascending, flips, in_order, keys_level, lex_flips, lex_level, plain_path, sorting_orders,
    text_flips, text_level,
};
use crate::float::{halve, is_nan, nearest_double, nearest_magnitude, widen};
use crate::model::{St, Val};
use crate::semantics::{deduped, deletion_order, last_first, path_rank, step_rank};
use crate::seqs::{
    char_rank, int_rank, lex_rank, sort_is_permutation, sort_with, str_rank, Rank,
};
use crate::value::{
    array_ranks, by_text, first_unlevel, key_at, key_at_bounds, key_list, object_ranks,
    sorted_keys, type_rank, val_rank,
};
use vstd::prelude::*;

verus! {

/// Do three comparisons agree: of two in a row that are not above, the comparison
/// of the ends is level if both are, and below otherwise?
pub open spec fn chain(ab: Rank, bc: Rank, ac: Rank) -> bool {
    ab != Rank::Above && bc != Rank::Above ==> ac == (if ab == Rank::Level && bc == Rank::Level {
        Rank::Level
    } else {
        Rank::Below
    })
}

/// Does the order agree on three elements?
pub open spec fn chains<A>(ord: spec_fn(A, A) -> Rank, a: A, b: A, c: A) -> bool {
    chain(ord(a, b), ord(b, c), ord(a, c))
}

/// Lexicographic comparison agrees where the comparison of elements does.
proof fn lex_chain<A>(a: Seq<A>, b: Seq<A>, c: Seq<A>, ord: spec_fn(A, A) -> Rank, i: int)
    requires
        0 <= i,
        forall|j: int|
            0 <= j < a.len() && j < b.len() && j < c.len() ==> chains(ord, #[trigger] a[j], b[j], c[j]),
    ensures
        chain(lex_rank(a, b, ord, i), lex_rank(b, c, ord, i), lex_rank(a, c, ord, i)),
    decreases a.len() - i,
{
    if i < a.len() && i < b.len() && i < c.len() {
        assert(chains(ord, a[i], b[i], c[i]));
        lex_chain(a, b, c, ord, i + 1);
    }
}

proof fn text_chain(a: Seq<char>, b: Seq<char>, c: Seq<char>)
    ensures
        chain(str_rank(a, b), str_rank(b, c), str_rank(a, c)),
{
    assert forall|j: int| 0 <= j < a.len() && j < b.len() && j < c.len() implies chains(
        char_rank(),
        #[trigger] a[j],
        b[j],
        c[j],
    ) by {}
    lex_chain(a, b, c, char_rank(), 0);
}

proof fn keys_chain(a: Seq<Seq<char>>, b: Seq<Seq<char>>, c: Seq<Seq<char>>)
    ensures
        chain(
            lex_rank(a, b, by_text(), 0),
            lex_rank(b, c, by_text(), 0),
            lex_rank(a, c, by_text(), 0),
        ),
{
    assert forall|j: int| 0 <= j < a.len() && j < b.len() && j < c.len() implies chains(
        by_text(),
        #[trigger] a[j],
        b[j],
        c[j],
    ) by {
        text_chain(a[j], b[j], c[j]);
    }
    lex_chain(a, b, c, by_text(), 0);
}

/// Is there no `NaN` in the value?
pub open spec fn no_nan(v: Val) -> bool
    decreases v,
{
    match v {
        Val::Float(f) => !is_nan(f.bits),
        Val::Array(a) => forall|i: int| 0 <= i < a.len() ==> no_nan(#[trigger] a[i]),
        Val::Object(m) => forall|i: int| 0 <= i < m.len() ==> no_nan((#[trigger] m[i]).1),
        _ => true,
    }
}

proof fn halve_bounds(q: nat, rem: nat, unit: nat, e: nat, k: nat)
    requires
        q < vstd::arithmetic::power2::pow2(53 + k),
    ensures
        halve(q, rem, unit, e).0 < 0x20_0000_0000_0000,
        e <= halve(q, rem, unit, e).3 <= e + k,
    decreases k,
{
    vstd::arithmetic::power2::lemma2_to64();
    vstd::arithmetic::power2::lemma2_to64_rest();
    if q >= 0x20_0000_0000_0000 {
        assert(k > 0);
        vstd::arithmetic::power2::lemma_pow2_unfold(53 + k);
        halve_bounds(q / 2, if q % 2 == 1 { rem + unit } else { rem }, 2 * unit, e + 1, (k - 1) as nat);
    }
}

proof fn widen_bounds(q: nat, e: int, k: nat)
    requires
        q < 0x20_0000_0000_0000,
        k <= 52,
        vstd::arithmetic::power2::pow2((52 - k) as nat) <= q,
    ensures
        widen(q, e).0 < 0x20_0000_0000_0000,
        e - k <= widen(q, e).1 <= e,
    decreases k,
{
    vstd::arithmetic::power2::lemma2_to64();
    vstd::arithmetic::power2::lemma2_to64_rest();
    if q != 0 && q < 0x10_0000_0000_0000 {
        assert(k > 0);
        vstd::arithmetic::power2::lemma_pow2_unfold((53 - k) as nat);
        widen_bounds(2 * q, e - 1, (k - 1) as nat);
    }
}

/// The double nearest to an integer is a number.
proof fn integers_are_numbers(i: i64)
    ensures
        !is_nan(nearest_double(i)),
{
    let m: nat = if i < 0 {
        (-i) as nat
    } else {
        i as nat
    };
    let n = nearest_magnitude(m);
    vstd::arithmetic::power2::lemma2_to64();
    vstd::arithmetic::power2::lemma2_to64_rest();
    if 0 < m < 0x20_0000_0000_0000 {
        widen_bounds(m, 1075, 52);
        let (q, e) = widen(m, 1075);
        assert(1023 * 0x10_0000_0000_0000 <= e * 0x10_0000_0000_0000 <= 1075
            * 0x10_0000_0000_0000) by (nonlinear_arith)
            requires
                1023 <= e <= 1075,
        ;
    } else if m > 0 {
        halve_bounds(m, 0, 1, 0, 11);
        let (q, rem, unit, e) = halve(m, 0, 1, 0);
        assert(1075 * 0x10_0000_0000_0000 <= (1075 + e) * 0x10_0000_0000_0000 <= 1086
            * 0x10_0000_0000_0000) by (nonlinear_arith)
            requires
                0 <= e <= 11,
        ;
    }
    assert(0 <= n < 0x7ff0_0000_0000_0000);
}

/// The comparison of two values.
pub open spec fn by_value() -> spec_fn(Val, Val) -> Rank {
    |a: Val, b: Val| val_rank(a, b)
}

proof fn arrays_are_lexical(x: Seq<Val>, y: Seq<Val>, i: int)
    requires
        0 <= i,
    ensures
        (if first_unlevel(array_ranks(x, y), i) != Rank::Level {
            first_unlevel(array_ranks(x, y), i)
        } else {
            int_rank(x.len() as int, y.len() as int)
        }) == lex_rank(x, y, by_value(), i),
    decreases x.len() - i,
{
    let r = array_ranks(x, y);
    if i < r.len() {
        assert(r[i] == val_rank(x[i], y[i]));
        arrays_are_lexical(x, y, i + 1);
    }
}

proof fn unlevel_chain(r: Seq<Rank>, s: Seq<Rank>, t: Seq<Rank>, i: int)
    requires
        0 <= i,
        r.len() == s.len() == t.len(),
        forall|j: int| 0 <= j < r.len() ==> chain(#[trigger] r[j], s[j], t[j]),
    ensures
        chain(first_unlevel(r, i), first_unlevel(s, i), first_unlevel(t, i)),
    decreases r.len() - i,
{
    if i < r.len() {
        assert(chain(r[i], s[i], t[i]));
        unlevel_chain(r, s, t, i + 1);
    }
}

/// A sorted key is a key.
proof fn sorted_key_is_there(m: Seq<(Seq<char>, Val)>, i: int)
    requires
        0 <= i < sorted_keys(m).len(),
    ensures
        0 <= key_at(m, sorted_keys(m)[i]) < m.len(),
{
    broadcast use vstd::seq_lib::group_to_multiset_ensures;

    let ks = sorted_keys(m);
    sort_is_permutation(key_list(m), by_text());
    assert(ks.contains(ks[i]));
    assert(ks.to_multiset().count(ks[i]) > 0);
    assert(key_list(m).contains(ks[i]));
    let j = choose|j: int| 0 <= j < key_list(m).len() && key_list(m)[j] == ks[i];
    key_at_bounds(m, ks[i]);
    if key_at(m, ks[i]) >= m.len() {
        assert(m[j].0 == ks[i]);
    }
}

/// Of values without `NaN`, the order is transitive: of two comparisons in a row
/// that are not above, the comparison of the ends is not above either, and level
/// only if both are.
#[verifier::rlimit(60)]
#[verifier::spinoff_prover]
pub proof fn order_is_transitive(a: Val, b: Val, c: Val)
    requires
        no_nan(a),
        no_nan(b),
        no_nan(c),
    ensures
        chain(val_rank(a, b), val_rank(b, c), val_rank(a, c)),
    decreases a,
{
    if let Val::Int(i) = a {
        integers_are_numbers(i);
    }
    if let Val::Int(i) = b {
        integers_are_numbers(i);
    }
    if let Val::Int(i) = c {
        integers_are_numbers(i);
    }
    match (a, b, c) {
        (Val::Str(x), Val::Str(y), Val::Str(z)) => {
            text_chain(x, y, z);
        },
        (Val::Array(x), Val::Array(y), Val::Array(z)) => {
            arrays_are_lexical(x, y, 0);
            arrays_are_lexical(y, z, 0);
            arrays_are_lexical(x, z, 0);
            assert forall|j: int| 0 <= j < x.len() && j < y.len() && j < z.len() implies chains(
                by_value(),
                #[trigger] x[j],
                y[j],
                z[j],
            ) by {
                assert(decreases_to!(a => x[j]));
                order_is_transitive(x[j], y[j], z[j]);
            }
            lex_chain(x, y, z, by_value(), 0);
        },
        (Val::Object(x), Val::Object(y), Val::Object(z)) => {
            let ks = sorted_keys(x);
            let ls = sorted_keys(y);
            let ms = sorted_keys(z);
            keys_chain(ks, ls, ms);
            if lex_rank(ks, ls, by_text(), 0) == Rank::Level && lex_rank(ls, ms, by_text(), 0)
                == Rank::Level {
                keys_level(ks, ls);
                keys_level(ls, ms);
                let r = object_ranks(x, y);
                let s = object_ranks(y, z);
                let t = object_ranks(x, z);
                assert forall|j: int| 0 <= j < r.len() implies chain(#[trigger] r[j], s[j], t[j]) by {
                    let p = key_at(x, ks[j]);
                    let q = key_at(y, ks[j]);
                    let w = key_at(z, ks[j]);
                    sorted_key_is_there(x, j);
                    sorted_key_is_there(y, j);
                    sorted_key_is_there(z, j);
                    assert(decreases_to!(a => x[p]));
                    assert(decreases_to!(a => x[p].1));
                    order_is_transitive(x[p].1, y[q].1, z[w].1);
                }
                unlevel_chain(r, s, t, 0);
            }
        },
        _ => {},
    }
}

/// Values of different types are ordered by their types: null, booleans, numbers,
/// strings, arrays, objects.
pub proof fn types_are_ordered(a: Val, b: Val)
    requires
        type_rank(a) < type_rank(b),
    ensures
        val_rank(a, b) == Rank::Below,
        val_rank(b, a) == Rank::Above,
{
}

proof fn step_flips(a: St, b: St)
    ensures
        crate::eval_laws::flipped(step_rank(a, b)) == step_rank(b, a),
{
    if a is Field && b is Field {
        text_flips(a->Field_0, b->Field_0);
    }
}

/// The comparison of two steps.
spec fn by_step() -> spec_fn(St, St) -> Rank {
    |x: St, y: St| step_rank(x, y)
}

proof fn paths_flip(a: Seq<St>, b: Seq<St>)
    ensures
        flips(last_first(), a, b),
{
    assert forall|x: St, y: St| #[trigger] flips(by_step(), x, y) by {
        step_flips(x, y);
    }
    lex_flips(a, b, by_step(), 0);
}

/// Two plain paths that are level are one path.
proof fn paths_level(a: Seq<St>, b: Seq<St>)
    requires
        plain_path(a),
        plain_path(b),
        path_rank(a, b) == Rank::Level,
    ensures
        a == b,
{
    lex_level(a, b, by_step(), 0);
    assert forall|j: int| 0 <= j < a.len() implies a[j] == b[j] by {
        assert(by_step()(a[j], b[j]) == Rank::Level);
        assert(a[j] is Field || a[j] is Index);
        assert(b[j] is Field || b[j] is Index);
        if a[j] is Field && b[j] is Field {
            text_level(a[j]->Field_0, b[j]->Field_0);
        }
    }
    assert(a =~= b);
}

proof fn paths_chain(a: Seq<St>, b: Seq<St>, c: Seq<St>)
    requires
        plain_path(a),
        plain_path(b),
        plain_path(c),
    ensures
        chain(path_rank(a, b), path_rank(b, c), path_rank(a, c)),
{
    assert forall|j: int| 0 <= j < a.len() && j < b.len() && j < c.len() implies chains(
        by_step(),
        #[trigger] a[j],
        b[j],
        c[j],
    ) by {
        assert(a[j] is Field || a[j] is Index);
        assert(b[j] is Field || b[j] is Index);
        assert(c[j] is Field || c[j] is Index);
        if a[j] is Field && b[j] is Field && c[j] is Field {
            text_chain(a[j]->Field_0, b[j]->Field_0, c[j]->Field_0);
        }
    }
    lex_chain(a, b, c, by_step(), 0);
}

/// Is every path a plain one?
pub open spec fn all_plain(ps: Seq<Seq<St>>) -> bool {
    forall|i: int| 0 <= i < ps.len() ==> plain_path(#[trigger] ps[i])
}

/// Does each path come before the one in front of it in document order?
pub open spec fn back_to_front(q: Seq<Seq<St>>) -> bool {
    forall|i: int, j: int| 0 <= i < j < q.len() ==> path_rank(#[trigger] q[j], #[trigger] q[i]) == Rank::Below
}

proof fn deduped_descends(s: Seq<Seq<St>>)
    requires
        all_plain(s),
        ascending(s, last_first()),
    ensures
        back_to_front(deduped(s)),
        all_plain(deduped(s)),
        s.len() > 0 ==> deduped(s).len() > 0 && deduped(s).last() == s.last(),
        forall|x: Seq<St>| #[trigger] deduped(s).contains(x) <==> s.contains(x),
    decreases s.len(),
{
    if s.len() > 0 {
        let init = s.drop_last();
        let x = s.last();
        let n = s.len() as int;
        assert forall|i: int| 0 < i < init.len() implies #[trigger] in_order(init, last_first(), i) by {
            assert(in_order(s, last_first(), i));
        }
        assert forall|i: int| 0 <= i < init.len() implies plain_path(#[trigger] init[i]) by {
            assert(init[i] == s[i]);
        }
        deduped_descends(init);
        let d = deduped(init);
        let r = deduped(s);
        assert(plain_path(s[n - 1]));
        if n >= 2 && s[n - 1] == s[n - 2] {
            assert(r == d);
        } else {
            assert(r == d.push(x));
            if n >= 2 {
                assert(in_order(s, last_first(), n - 1));
                assert(d.last() == s[n - 2]);
                assert(plain_path(s[n - 2]));
                if path_rank(x, s[n - 2]) == Rank::Level {
                    paths_level(x, s[n - 2]);
                }
                assert(path_rank(x, d.last()) == Rank::Below);
            }
            assert forall|i: int, j: int| 0 <= i < j < r.len() implies path_rank(
                #[trigger] r[j],
                #[trigger] r[i],
            ) == Rank::Below by {
                if j < d.len() {
                    assert(r[j] == d[j] && r[i] == d[i]);
                } else if i < d.len() - 1 {
                    assert(r[i] == d[i]);
                    assert(path_rank(d[d.len() - 1], d[i]) == Rank::Below);
                    paths_chain(x, d.last(), d[i]);
                }
            }
            assert forall|i: int| 0 <= i < r.len() implies plain_path(#[trigger] r[i]) by {
                if i < d.len() {
                    assert(r[i] == d[i]);
                }
            }
        }
        assert forall|y: Seq<St>| r.contains(y) <==> s.contains(y) by {
            if r.contains(y) {
                let k = choose|k: int| 0 <= k < r.len() && r[k] == y;
                if k < d.len() {
                    assert(d[k] == y);
                    assert(d.contains(y));
                    let m = choose|m: int| 0 <= m < init.len() && init[m] == y;
                    assert(s[m] == y);
                } else {
                    assert(s[n - 1] == y);
                }
            }
            if s.contains(y) {
                let m = choose|m: int| 0 <= m < s.len() && s[m] == y;
                if m < n - 1 {
                    assert(init[m] == y);
                    assert(init.contains(y));
                    assert(d.contains(y));
                    let k = choose|k: int| 0 <= k < d.len() && d[k] == y;
                    assert(r[k] == y);
                } else {
                    assert(r[r.len() - 1] == y);
                }
            }
        }
    }
}

/// Paths are deleted strictly back to front, each of them once: the order of
/// deletion holds exactly the given paths, and each path comes before all in front
/// of it in document order.
pub proof fn deletions_run_back_to_front(paths: Seq<Seq<St>>)
    requires
        all_plain(paths),
    ensures
        back_to_front(deletion_order(paths)),
        deletion_order(paths).no_duplicates(),
        forall|x: Seq<St>| deletion_order(paths).contains(x) <==> paths.contains(x),
{
    broadcast use vstd::seq_lib::group_to_multiset_ensures;

    let s = sort_with(paths, last_first());
    assert forall|a: Seq<St>, b: Seq<St>| #[trigger] flips(last_first(), a, b) by {
        paths_flip(a, b);
    }
    sorting_orders(paths, last_first());
    sort_is_permutation(paths, last_first());
    assert forall|x: Seq<St>| s.contains(x) <==> paths.contains(x) by {
        assert(s.to_multiset().count(x) == paths.to_multiset().count(x));
    }
    assert forall|i: int| 0 <= i < s.len() implies plain_path(#[trigger] s[i]) by {
        assert(s.contains(s[i]));
        let k = choose|k: int| 0 <= k < paths.len() && paths[k] == s[i];
        assert(plain_path(paths[k]));
    }
    deduped_descends(s);
    let q = deletion_order(paths);
    assert forall|i: int, j: int| 0 <= i < q.len() && 0 <= j < q.len() && i != j implies q[i] != q[j] by {
        let (lo, hi) = if i < j {
            (i, j)
        } else {
            (j, i)
        };
        assert(path_rank(q[hi], q[lo]) == Rank::Below);
        paths_flip(q[i], q[i]);
        assert(path_rank(q[i], q[i]) == Rank::Level);
    }
}

} // verus!
