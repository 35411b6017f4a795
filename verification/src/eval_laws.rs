//! What holds of reading, assigning and deleting at a path, and of the order of
//! values.
use crate::index::{normalized, resolved};
use crate::model::{St, Val};
use crate::semantics::{del_at, null_filled, path_outs, set_at, step_fn, step_outs, without_key};
use crate::seqs::{bind_all, char_rank, insert_by, lex_rank, sort_with, str_rank, Rank};
use crate::error::Er;
use crate::value::{
    array_ranks, by_text, first_unlevel, get_key, key_at, key_at_bounds, key_from, object_ranks,
    sorted_keys, val_rank,
};
use vstd::prelude::*;

verus! {

/// Is every step a key or an index?
pub open spec fn plain_path(p: Seq<St>) -> bool {
    forall|i: int| 0 <= i < p.len() ==> (#[trigger] p[i]) is Field || p[i] is Index
}

proof fn bind_none(f: spec_fn(Val) -> Result<Seq<Val>, Er>)
    ensures
        bind_all(Seq::<Val>::empty(), f) == Ok::<Seq<Val>, Er>(Seq::empty()),
{
}

proof fn bind_one(v: Val, st: St)
    ensures
        bind_all(seq![v], step_fn(st)) == step_outs(st, v),
{
    let s = seq![v];
    assert(s.drop_last() =~= Seq::<Val>::empty());
    assert(s.drop_first() =~= Seq::<Val>::empty());
    bind_none(step_fn(st));
    match step_outs(st, v) {
        Ok(x) => {
            assert(Seq::<Val>::empty() + x =~= x);
            assert(x + Seq::<Val>::empty() =~= x);
        },
        Err(_) => {},
    }
}

/// What a path yields, from its first step on.
pub proof fn path_front(p: Seq<St>, v: Val)
    requires
        p.len() > 0,
        plain_path(p),
    ensures
        match step_outs(p[0], v) {
            Err(e) => path_outs(p, v) == Err::<Seq<Val>, Er>(e),
            Ok(s) => s.len() <= 1 && path_outs(p, v) == (if s.len() == 1 {
                path_outs(p.drop_first(), s[0])
            } else {
                Ok(Seq::empty())
            }),
        },
    decreases p.len(),
{
    let init = p.drop_last();
    assert(p[0] is Field || p[0] is Index);
    if p.len() == 1 {
        assert(init =~= Seq::<St>::empty());
        assert(path_outs(init, v) == Ok::<Seq<Val>, Er>(seq![v]));
        bind_one(v, p[0]);
        assert(p.drop_first() =~= Seq::<St>::empty());
        if let Ok(s) = step_outs(p[0], v) {
            if s.len() == 1 {
                assert(s =~= seq![s[0]]);
            } else {
                assert(s =~= Seq::<Val>::empty());
            }
        }
    } else {
        assert(plain_path(init)) by {
            assert forall|i: int| 0 <= i < init.len() implies (#[trigger] init[i]) is Field
                || init[i] is Index by {
                assert(init[i] == p[i]);
            }
        }
        path_front(init, v);
        assert(init[0] == p[0]);
        assert(p.drop_first().drop_last() =~= init.drop_first());
        assert(p.drop_first().last() == p.last());
        bind_none(step_fn(p.last()));
    }
}

pub proof fn rest_is_plain(p: Seq<St>)
    requires
        p.len() > 0,
        plain_path(p),
    ensures
        plain_path(p.drop_first()),
{
    let r = p.drop_first();
    assert forall|i: int| 0 <= i < r.len() implies (#[trigger] r[i]) is Field || r[i] is Index by {
        assert(r[i] == p[i + 1]);
    }
}

pub proof fn null_yields_nothing(p: Seq<St>)
    requires
        p.len() > 0,
        plain_path(p),
    ensures
        path_outs(p, Val::Null) == Ok::<Seq<Val>, Er>(Seq::empty()),
{
    path_front(p, Val::Null);
    assert(p[0] is Field || p[0] is Index);
}

pub proof fn key_from_is(m: Seq<(Seq<char>, Val)>, k: Seq<char>, i: int, r: int)
    requires
        0 <= i <= r <= m.len(),
        r < m.len() ==> m[r].0 == k,
        forall|j: int| i <= j < r ==> (#[trigger] m[j]).0 != k,
    ensures
        key_from(m, k, i) == r,
    decreases r - i,
{
    if i < r {
        key_from_is(m, k, i + 1, r);
    }
}

pub proof fn key_before(m: Seq<(Seq<char>, Val)>, k: Seq<char>, i: int, j: int)
    requires
        0 <= i <= j < key_from(m, k, i),
        j < m.len(),
    ensures
        m[j].0 != k,
    decreases j - i,
{
    if i < j && m[i].0 != k {
        key_before(m, k, i + 1, j);
    }
}

/// The place of a key depends on the keys alone.
pub proof fn keys_place(a: Seq<(Seq<char>, Val)>, b: Seq<(Seq<char>, Val)>, k: Seq<char>)
    requires
        a.len() == b.len(),
        forall|i: int| 0 <= i < a.len() ==> (#[trigger] a[i]).0 == b[i].0,
    ensures
        key_at(a, k) == key_at(b, k),
{
    key_at_bounds(a, k);
    let r = key_at(a, k);
    assert forall|j: int| 0 <= j < r implies (#[trigger] b[j]).0 != k by {
        key_before(a, k, 0, j);
        assert(a[j].0 == b[j].0);
    }
    if r < a.len() {
        assert(a[r].0 == b[r].0);
    }
    key_from_is(b, k, 0, r);
}

pub proof fn pushed_place(m: Seq<(Seq<char>, Val)>, k: Seq<char>, x: Val, other: Seq<char>)
    requires
        key_at(m, k) == m.len(),
    ensures
        key_at(m.push((k, x)), k) == m.len(),
        other != k ==> get_key(m.push((k, x)), other) == get_key(m, other),
{
    key_at_bounds(m, k);
    let n = m.push((k, x));
    assert forall|j: int| 0 <= j < m.len() implies (#[trigger] n[j]).0 != k by {
        assert(m[j].0 != k);
    }
    key_from_is(n, k, 0, m.len() as int);
    if other != k {
        key_at_bounds(m, other);
        let r = key_at(m, other);
        assert forall|j: int| 0 <= j < r implies (#[trigger] n[j]).0 != other by {
            key_before(m, other, 0, j);
            assert(n[j] == m[j]);
        }
        if r < m.len() {
            assert(n[r] == m[r]);
            key_from_is(n, other, 0, r);
        } else {
            assert forall|j: int| 0 <= j < n.len() implies (#[trigger] n[j]).0 != other by {
                if j < m.len() {
                    assert(n[j] == m[j]);
                    assert(m[j].0 != other);
                }
            }
            key_from_is(n, other, 0, n.len() as int);
        }
    }
}

/// What is assigned at a path is what the path then yields.
pub proof fn assigned_reads_back(v: Val, p: Seq<St>, new: Val)
    requires
        plain_path(p),
        set_at(v, p, new) is Ok,
    ensures
        path_outs(p, set_at(v, p, new)->Ok_0) == Ok::<Seq<Val>, Er>(seq![new]),
    decreases p.len(),
{
    if p.len() > 0 {
        let rest = p.drop_first();
        rest_is_plain(p);
        let w = set_at(v, p, new)->Ok_0;
        path_front(p, w);
        assert(p[0] is Field || p[0] is Index);
        match p[0] {
            St::Field(k) => {
                let m = match v {
                    Val::Object(m) => m,
                    _ => Seq::empty(),
                };
                key_at_bounds(m, k);
                let i = key_at(m, k);
                if i < m.len() {
                    assigned_reads_back(m[i].1, rest, new);
                    let x = set_at(m[i].1, rest, new)->Ok_0;
                    keys_place(m, m.update(i, (m[i].0, x)), k);
                } else {
                    assigned_reads_back(Val::Null, rest, new);
                    pushed_place(m, k, set_at(Val::Null, rest, new)->Ok_0, k);
                }
            },
            St::Index(i) => {
                let a = match v {
                    Val::Array(a) => a,
                    _ => Seq::empty(),
                };
                let n = normalized(i as int, a.len() as int)->0;
                let b = null_filled(a, n + 1);
                assigned_reads_back(b[n], rest, new);
            },
            _ => {},
        }
    }
}

/// Do the two paths part at a key?
pub open spec fn apart(p: Seq<St>, q: Seq<St>) -> bool
    decreases p.len(),
{
    p.len() > 0 && q.len() > 0 && ((p[0] is Field && q[0] is Field && p[0] != q[0]) || (p[0]
        == q[0] && apart(p.drop_first(), q.drop_first())))
}

/// An assignment leaves what stands under another key as it is.
pub proof fn assigning_leaves_the_rest(v: Val, p: Seq<St>, q: Seq<St>, new: Val)
    requires
        plain_path(p),
        plain_path(q),
        apart(p, q),
        set_at(v, p, new) is Ok,
    ensures
        path_outs(q, set_at(v, p, new)->Ok_0) == path_outs(q, v),
    decreases p.len(),
{
    let rest = p.drop_first();
    let qrest = q.drop_first();
    rest_is_plain(p);
    rest_is_plain(q);
    let w = set_at(v, p, new)->Ok_0;
    path_front(q, w);
    path_front(q, v);
    assert(p[0] is Field || p[0] is Index);
    match p[0] {
        St::Field(k) => {
            let m = match v {
                Val::Object(m) => m,
                _ => Seq::empty(),
            };
            let other = q[0]->Field_0;
            key_at_bounds(m, k);
            key_at_bounds(m, other);
            let i = key_at(m, k);
            if i < m.len() {
                let x = set_at(m[i].1, rest, new)->Ok_0;
                let n = m.update(i, (m[i].0, x));
                keys_place(m, n, other);
                if other == k {
                    assigning_leaves_the_rest(m[i].1, rest, qrest, new);
                } else {
                    let j = key_at(m, other);
                    if j < m.len() {
                        assert(n[j] == m[j]);
                    }
                }
            } else {
                let x = set_at(Val::Null, rest, new)->Ok_0;
                pushed_place(m, k, x, other);
                if other == k {
                    assert(apart(rest, qrest));
                    assigning_leaves_the_rest(Val::Null, rest, qrest, new);
                    null_yields_nothing(qrest);
                }
            }
        },
        St::Index(i) => {
            let a = match v {
                Val::Array(a) => a,
                _ => Seq::empty(),
            };
            let n = normalized(i as int, a.len() as int)->0;
            let b = null_filled(a, n + 1);
            assigning_leaves_the_rest(b[n], rest, qrest, new);
            if n >= a.len() {
                assert(b[n] == Val::Null);
                null_yields_nothing(qrest);
            }
        },
        _ => {},
    }
}

pub proof fn without_key_is(m: Seq<(Seq<char>, Val)>, k: Seq<char>)
    ensures
        forall|i: int| 0 <= i < without_key(m, k).len() ==> (#[trigger] without_key(m, k)[i]).0 != k,
        (forall|i: int| 0 <= i < m.len() ==> (#[trigger] m[i]).0 != k) ==> without_key(m, k) == m,
    decreases m.len(),
{
    if m.len() > 0 {
        without_key_is(m.drop_last(), k);
        let r = without_key(m, k);
        let init = without_key(m.drop_last(), k);
        assert forall|i: int| 0 <= i < r.len() implies (#[trigger] r[i]).0 != k by {
            if i < init.len() {
                assert(r[i] == init[i]);
            }
        }
        if forall|i: int| 0 <= i < m.len() ==> (#[trigger] m[i]).0 != k {
            assert forall|i: int| 0 <= i < m.drop_last().len() implies (#[trigger] m.drop_last()[i]).0
                != k by {
                assert(m[i].0 != k);
            }
            assert(m.last().0 != k);
            assert(r =~= m);
        }
    }
}

/// What was deleted under a key is gone: the path yields nothing.
pub proof fn deleted_is_gone(v: Val, p: Seq<St>)
    requires
        plain_path(p),
        p.len() > 0,
        p.last() is Field,
        del_at(v, p) is Ok,
    ensures
        path_outs(p, del_at(v, p)->Ok_0) == Ok::<Seq<Val>, Er>(Seq::empty()),
    decreases p.len(),
{
    let rest = p.drop_first();
    rest_is_plain(p);
    let w = del_at(v, p)->Ok_0;
    path_front(p, w);
    assert(p[0] is Field || p[0] is Index);
    if p.len() == 1 {
        let k = p[0]->Field_0;
        if let Val::Object(m) = v {
            without_key_is(m, k);
            key_at_bounds(without_key(m, k), k);
        }
    } else {
        assert(rest.last() == p.last());
        match p[0] {
            St::Field(k) => {
                if let Val::Object(m) = v {
                    key_at_bounds(m, k);
                    let i = key_at(m, k);
                    if i < m.len() {
                        deleted_is_gone(m[i].1, rest);
                        let x = del_at(m[i].1, rest)->Ok_0;
                        keys_place(m, m.update(i, (m[i].0, x)), k);
                    }
                }
            },
            St::Index(i) => {
                if let Val::Array(a) = v {
                    if let Some(n) = resolved(i as int, a.len() as int) {
                        deleted_is_gone(a[n], rest);
                    }
                }
            },
            _ => {},
        }
    }
}

/// Deleting what is not there changes nothing.
pub proof fn deleting_a_miss_is_a_no_op(v: Val, p: Seq<St>)
    requires
        plain_path(p),
        p.len() > 0,
        path_outs(p, v) == Ok::<Seq<Val>, Er>(Seq::empty()),
    ensures
        del_at(v, p) == Ok::<Val, Er>(v),
    decreases p.len(),
{
    let rest = p.drop_first();
    rest_is_plain(p);
    path_front(p, v);
    assert(p[0] is Field || p[0] is Index);
    if p.len() == 1 {
        assert(rest =~= Seq::<St>::empty());
        match p[0] {
            St::Field(k) => {
                if let Val::Object(m) = v {
                    key_at_bounds(m, k);
                    without_key_is(m, k);
                }
            },
            _ => {},
        }
    } else {
        match p[0] {
            St::Field(k) => {
                if let Val::Object(m) = v {
                    key_at_bounds(m, k);
                    let i = key_at(m, k);
                    if i < m.len() {
                        deleting_a_miss_is_a_no_op(m[i].1, rest);
                        assert(m.update(i, (m[i].0, m[i].1)) =~= m);
                    }
                }
            },
            St::Index(i) => {
                if let Val::Array(a) = v {
                    if let Some(n) = resolved(i as int, a.len() as int) {
                        deleting_a_miss_is_a_no_op(a[n], rest);
                        assert(a.update(n, a[n]) =~= a);
                    }
                }
            },
            _ => {},
        }
    }
}

/// The comparison the other way round.
pub open spec fn flipped(r: Rank) -> Rank {
    match r {
        Rank::Below => Rank::Above,
        Rank::Level => Rank::Level,
        Rank::Above => Rank::Below,
    }
}

pub proof fn lex_flips<A>(a: Seq<A>, b: Seq<A>, ord: spec_fn(A, A) -> Rank, i: int)
    requires
        forall|x: A, y: A| #[trigger] flips(ord, x, y),
    ensures
        lex_rank(b, a, ord, i) == flipped(lex_rank(a, b, ord, i)),
    decreases a.len() - i,
{
    if i < a.len() && i < b.len() {
        assert(flips(ord, a[i], b[i]));
        lex_flips(a, b, ord, i + 1);
    }
}

pub proof fn text_flips(a: Seq<char>, b: Seq<char>)
    ensures
        str_rank(b, a) == flipped(str_rank(a, b)),
{
    assert forall|x: char, y: char| #[trigger] flips(char_rank(), x, y) by {}
    lex_flips(a, b, char_rank(), 0);
}

pub proof fn lex_level<A>(a: Seq<A>, b: Seq<A>, ord: spec_fn(A, A) -> Rank, i: int)
    requires
        0 <= i,
        lex_rank(a, b, ord, i) == Rank::Level,
    ensures
        a.len() == b.len(),
        forall|j: int| i <= j < a.len() ==> ord(#[trigger] a[j], b[j]) == Rank::Level,
    decreases a.len() - i,
{
    if i < a.len() && i < b.len() {
        lex_level(a, b, ord, i + 1);
    }
}

pub proof fn text_level(a: Seq<char>, b: Seq<char>)
    requires
        str_rank(a, b) == Rank::Level,
    ensures
        a == b,
{
    lex_level(a, b, char_rank(), 0);
    assert forall|j: int| 0 <= j < a.len() implies a[j] == b[j] by {
        assert(char_rank()(a[j], b[j]) == Rank::Level);
    }
    assert(a =~= b);
}

pub proof fn keys_level(a: Seq<Seq<char>>, b: Seq<Seq<char>>)
    requires
        lex_rank(a, b, by_text(), 0) == Rank::Level,
    ensures
        a == b,
{
    lex_level(a, b, by_text(), 0);
    assert forall|j: int| 0 <= j < a.len() implies a[j] == b[j] by {
        assert(by_text()(a[j], b[j]) == Rank::Level);
        text_level(a[j], b[j]);
    }
    assert(a =~= b);
}

proof fn unlevel_flips(a: Seq<Rank>, b: Seq<Rank>, i: int)
    requires
        a.len() == b.len(),
        0 <= i,
        forall|j: int| 0 <= j < a.len() ==> #[trigger] b[j] == flipped(a[j]),
    ensures
        first_unlevel(b, i) == flipped(first_unlevel(a, i)),
    decreases a.len() - i,
{
    if i < a.len() {
        assert(b[i] == flipped(a[i]));
        unlevel_flips(a, b, i + 1);
    }
}

/// Comparing two values the other way round gives the opposite, so a value is
/// level with itself and at most one of two values is below the other.
pub proof fn order_flips(a: Val, b: Val)
    ensures
        val_rank(b, a) == flipped(val_rank(a, b)),
        a == b ==> val_rank(a, b) == Rank::Level,
    decreases a,
{
    match (a, b) {
        (Val::Str(x), Val::Str(y)) => {
            text_flips(x, y);
        },
        (Val::Array(x), Val::Array(y)) => {
            let r = array_ranks(x, y);
            let s = array_ranks(y, x);
            assert forall|i: int| 0 <= i < r.len() implies #[trigger] s[i] == flipped(r[i]) by {
                assert(decreases_to!(a => x[i]));
                order_flips(x[i], y[i]);
            }
            unlevel_flips(r, s, 0);
        },
        (Val::Object(x), Val::Object(y)) => {
            let ks = sorted_keys(x);
            let ls = sorted_keys(y);
            assert forall|p: Seq<char>, q: Seq<char>| #[trigger] flips(by_text(), p, q) by {
                text_flips(p, q);
            }
            lex_flips(ks, ls, by_text(), 0);
            if lex_rank(ks, ls, by_text(), 0) == Rank::Level {
                keys_level(ks, ls);
                let r = object_ranks(x, y);
                let s = object_ranks(y, x);
                assert forall|i: int| 0 <= i < r.len() implies #[trigger] s[i] == flipped(r[i]) by {
                    let p = key_at(x, ks[i]);
                    let q = key_at(y, ks[i]);
                    if 0 <= p < x.len() && 0 <= q < y.len() {
                        assert(decreases_to!(a => x[p]));
                        assert(decreases_to!(a => x[p].1));
                        order_flips(x[p].1, y[q].1);
                    }
                }
                unlevel_flips(r, s, 0);
            }
        },
        _ => {},
    }
}

/// Does comparing the other way round give the opposite?
pub open spec fn flips<A>(ord: spec_fn(A, A) -> Rank, a: A, b: A) -> bool {
    ord(b, a) == flipped(ord(a, b))
}

/// Is the element at `i` not below the one before it?
pub open spec fn in_order<A>(s: Seq<A>, ord: spec_fn(A, A) -> Rank, i: int) -> bool {
    ord(s[i - 1], s[i]) != Rank::Above
}

/// Is no element above the next one?
pub open spec fn ascending<A>(s: Seq<A>, ord: spec_fn(A, A) -> Rank) -> bool {
    forall|i: int| 0 < i < s.len() ==> #[trigger] in_order(s, ord, i)
}

proof fn insert_keeps_order<A>(s: Seq<A>, x: A, ord: spec_fn(A, A) -> Rank)
    requires
        ascending(s, ord),
        forall|a: A, b: A| #[trigger] flips(ord, a, b),
    ensures
        ascending(insert_by(s, x, ord), ord),
        insert_by(s, x, ord).len() == s.len() + 1,
        s.len() > 0 ==> insert_by(s, x, ord).last() == x || insert_by(s, x, ord).last()
            == s.last(),
        s.len() == 0 ==> insert_by(s, x, ord).last() == x,
    decreases s.len(),
{
    let r = insert_by(s, x, ord);
    if s.len() == 0 || ord(s.last(), x) != Rank::Above {
        assert forall|i: int| 0 < i < r.len() implies #[trigger] in_order(r, ord, i) by {
            if i < s.len() {
                assert(in_order(s, ord, i));
                assert(r[i] == s[i] && r[i - 1] == s[i - 1]);
            }
        }
    } else {
        let init = s.drop_last();
        assert forall|i: int| 0 < i < init.len() implies #[trigger] in_order(init, ord, i) by {
            assert(in_order(s, ord, i));
            assert(init[i] == s[i] && init[i - 1] == s[i - 1]);
        }
        insert_keeps_order(init, x, ord);
        let t = insert_by(init, x, ord);
        assert(flips(ord, s.last(), x));
        assert forall|i: int| 0 < i < r.len() implies #[trigger] in_order(r, ord, i) by {
            if i < t.len() {
                assert(in_order(t, ord, i));
                assert(r[i] == t[i] && r[i - 1] == t[i - 1]);
            } else {
                assert(r[i] == s.last() && r[i - 1] == t.last());
                if t.last() != x {
                    assert(t.last() == init.last());
                    assert(in_order(s, ord, s.len() - 1));
                }
            }
        }
    }
}

/// A sorted list is in ascending order.
pub proof fn sorting_orders<A>(s: Seq<A>, ord: spec_fn(A, A) -> Rank)
    requires
        forall|a: A, b: A| #[trigger] flips(ord, a, b),
    ensures
        ascending(sort_with(s, ord), ord),
    decreases s.len(),
{
    if s.len() > 0 {
        sorting_orders(s.drop_last(), ord);
        insert_keeps_order(sort_with(s.drop_last(), ord), s.last(), ord);
    }
}

/// The keys of an object come in ascending order.
pub proof fn keys_are_ascending(m: Seq<(Seq<char>, Val)>)
    ensures
        ascending(sorted_keys(m), by_text()),
{
    assert forall|p: Seq<char>, q: Seq<char>| #[trigger] flips(by_text(), p, q) by {
        text_flips(p, q);
    }
    sorting_orders(crate::value::key_list(m), by_text());
}

} // verus!
