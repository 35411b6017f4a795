//! What an edit of a TOML document touches: a deletion takes out what `del` takes out of
//! the value, and neither a deletion nor a replacement changes any other entry, its
//! spelling, layout or comments.
use crate::error::Er;
use crate::eval_laws::{plain_path, without_key_is};
use crate::index::resolved;
use crate::json_delete_laws::key_taken;
use crate::model::{St, Val};
use crate::semantics::{del_at, remove_at};
use crate::toml_change::{
    drop_walk, elem_drop, elem_walk, nd_drop, nd_set, set_walk, write_position,
};
use crate::toml_laws::{distinct_names, et_vals_at, keyed_indices, nd_vals_at, proper, slot_is_key};
use crate::toml_nodes::{et_vals, nd_val, nd_vals};
use crate::toml_spell::replacing;
use crate::toml_tree::{decor_in, formed, is_value, slot, slot_bounds, sound, Et, Nd};
use vstd::prelude::*;

verus! {

/// What `del` makes of a value; what it refuses is left as it is.
pub open spec fn value_without(v: Val, p: Seq<St>) -> Val {
    match del_at(v, p) {
        Ok(x) => x,
        Err(_) => v,
    }
}

proof fn entry_updated(es: Seq<Et>, j: int, node: Nd)
    requires
        0 <= j < es.len(),
    ensures
        ({
            let fs = es.update(j, Et { name: es[j].name, node });
            et_vals(fs, fs.len()) == et_vals(es, es.len()).update(j, (es[j].name.key, nd_val(node)))
        }),
{
    let fs = es.update(j, Et { name: es[j].name, node });
    et_vals_at(es, es.len());
    et_vals_at(fs, fs.len());
    assert(et_vals(fs, fs.len()) =~= et_vals(es, es.len()).update(
        j,
        (es[j].name.key, nd_val(node)),
    ));
}

proof fn element_updated(a: Seq<Nd>, at: int, node: Nd)
    requires
        0 <= at < a.len(),
    ensures
        nd_vals(a.update(at, node), a.len()) == nd_vals(a, a.len()).update(at, nd_val(node)),
{
    nd_vals_at(a, a.len());
    nd_vals_at(a.update(at, node), a.len());
    assert(nd_vals(a.update(at, node), a.len()) =~= nd_vals(a, a.len()).update(at, nd_val(node)));
}

proof fn element_removed(a: Seq<Nd>, at: int)
    requires
        0 <= at < a.len(),
    ensures
        nd_vals(a.remove(at), a.remove(at).len()) == nd_vals(a, a.len()).remove(at),
{
    let b = a.remove(at);
    nd_vals_at(a, a.len());
    nd_vals_at(b, b.len());
    assert(nd_vals(b, b.len()) =~= nd_vals(a, a.len()).remove(at));
}

proof fn same_update<A>(s: Seq<A>, i: int)
    requires
        0 <= i < s.len(),
    ensures
        s.update(i, s[i]) == s,
{
    assert(s.update(i, s[i]) =~= s);
}

proof fn one_step(p: Seq<St>, i: int)
    requires
        0 <= i < p.len(),
    ensures
        p.skip(i).len() == p.len() - i,
        p.skip(i)[0] == p[i],
        p.skip(i).drop_first() == p.skip(i + 1),
{
    assert(p.skip(i).drop_first() =~= p.skip(i + 1));
}

#[verifier::rlimit(60)]
#[verifier::spinoff_prover]
proof fn drop_agrees(t: Nd, p: Seq<St>, i: int, cut: int)
    requires
        t is Table,
        formed(t),
        proper(p, i, cut),
        keyed_indices(p),
        p[i] is Field,
    ensures
        nd_val(drop_walk(t, p, i, cut)) == value_without(nd_val(t), p.skip(i)),
    decreases cut - i, 1int,
{
    let es = t->Table_0;
    let f = t->Table_1;
    let d = t->Table_2;
    let m = et_vals(es, es.len());
    let k = p[i]->Field_0;
    let q = p.skip(i);
    one_step(p, i);
    slot_bounds(es, k);
    slot_is_key(es, k);
    et_vals_at(es, es.len());
    let j = slot(es, k);
    assert(distinct_names(m)) by {
        assert forall|x: int, y: int| 0 <= x < y < m.len() implies (#[trigger] m[x]).0 != (
        #[trigger] m[y]).0 by {
            assert(es[x].name.key != es[y].name.key);
        }
    }
    if j < es.len() {
        assert(m[j] == (es[j].name.key, nd_val(es[j].node)));
        assert(formed(es[j].node));
    }
    if i >= cut {
        if p.len() == cut + 1 {
            if j < es.len() {
                key_taken(m, j);
                let fs = es.remove(j);
                et_vals_at(fs, fs.len());
                assert(et_vals(fs, fs.len()) =~= m.remove(j));
            } else {
                assert forall|x: int| 0 <= x < m.len() implies (#[trigger] m[x]).0 != k by {
                    assert(es[x].name.key != k);
                }
                without_key_is(m, k);
            }
        } else {
            let x = p[cut + 1]->Index_0 as int;
            one_step(p, i + 1);
            if j < es.len() {
                let n = es[j].node;
                same_update(m, j);
                assert(p.skip(i + 1).len() == 1);
                assert(del_at(nd_val(n), p.skip(i + 1)) == remove_at(nd_val(n), p[i + 1]));
                match n {
                    Nd::Tables(a) => {
                        nd_vals_at(a, a.len());
                        if let Some(at) = resolved(x, a.len() as int) {
                            element_removed(a, at);
                            entry_updated(es, j, Nd::Tables(a.remove(at)));
                        }
                    },
                    Nd::Array(a, fl, ad) => {
                        nd_vals_at(a, a.len());
                        if let Some(at) = resolved(x, a.len() as int) {
                            element_removed(a, at);
                            entry_updated(es, j, Nd::Array(a.remove(at), fl, ad));
                        }
                    },
                    _ => {},
                }
            }
        }
    } else if j < es.len() {
        let n = es[j].node;
        same_update(m, j);
        one_step(p, i + 1);
        if i + 1 < cut && p[i + 1] is Index {
            elem_drop_agrees(n, p, i, cut);
            entry_updated(es, j, elem_drop(n, p[i + 1]->Index_0 as int, p, i, cut));
        } else {
            assert(p[i + 1] is Field) by {
                if i + 1 == cut {
                    assert(p[cut] is Field);
                } else {
                    assert(p[i + 1] is Field || p[i + 1] is Index);
                }
            }
            if n is Table {
                drop_agrees(n, p, i + 1, cut);
                entry_updated(es, j, drop_walk(n, p, i + 1, cut));
            }
        }
    }
}

#[verifier::rlimit(60)]
#[verifier::spinoff_prover]
proof fn elem_drop_agrees(n: Nd, p: Seq<St>, i: int, cut: int)
    requires
        formed(n),
        proper(p, i, cut),
        keyed_indices(p),
        i + 1 < cut,
        p[i] is Field,
        p[i + 1] is Index,
    ensures
        nd_val(elem_drop(n, p[i + 1]->Index_0 as int, p, i, cut)) == value_without(
            nd_val(n),
            p.skip(i + 1),
        ),
    decreases cut - i - 1, 0int,
{
    let x = p[i + 1]->Index_0 as int;
    one_step(p, i + 1);
    one_step(p, i + 2);
    assert(p[i + 2] is Field) by {
        assert(p[i + 2] is Field || p[i + 2] is Index);
        if p[i + 2] is Index {
            assert(p[i + 2 - 1] is Field);
        }
    }
    match n {
        Nd::Tables(a) => {
            nd_vals_at(a, a.len());
            if let Some(at) = resolved(x, a.len() as int) {
                assert(formed(a[at]));
                same_update(nd_vals(a, a.len()), at);
                drop_agrees(a[at], p, i + 2, cut);
                element_updated(a, at, drop_walk(a[at], p, i + 2, cut));
            }
        },
        Nd::Array(a, f, d) => {
            nd_vals_at(a, a.len());
            if let Some(at) = resolved(x, a.len() as int) {
                assert(formed(a[at]));
                same_update(nd_vals(a, a.len()), at);
                if a[at] is Table {
                    drop_agrees(a[at], p, i + 2, cut);
                    element_updated(a, at, drop_walk(a[at], p, i + 2, cut));
                }
            }
        },
        _ => {},
    }
}

/// Deleting a path from a TOML tree agrees with deleting it from the tree's value, where
/// the path ends in a key or in an index; what `del` refuses is left as it is. Every
/// index stands behind a key.
pub proof fn toml_delete_agrees(root: Nd, p: Seq<St>)
    requires
        root is Table,
        formed(root),
        plain_path(p),
        keyed_indices(p),
        p.len() > 0,
    ensures
        nd_drop(root, p) is Ok,
        nd_val(nd_drop(root, p)->Ok_0) == (match del_at(nd_val(root), p) {
            Ok(v) => v,
            Err(_) => nd_val(root),
        }),
{
    assert(p[p.len() - 1] == p.last());
    assert(p[0] is Field || p[0] is Index);
    assert(p.skip(0) =~= p);
    assert(p.last() is Field || p.last() is Index);
    if p.last() is Index {
        assert(p[p.len() - 1 - 1] is Field);
    }
    let cut = if p.last() is Field {
        p.len() - 1
    } else {
        p.len() - 2
    };
    drop_agrees(root, p, 0, cut);
}

/// The node at a path of keys and indices.
pub open spec fn nd_at(n: Nd, p: Seq<St>) -> Option<Nd>
    decreases p.len(),
{
    if p.len() == 0 {
        Some(n)
    } else {
        match (n, p[0]) {
            (Nd::Table(es, _, _), St::Field(k)) => {
                let j = slot(es, k);
                if 0 <= j < es.len() {
                    nd_at(es[j].node, p.drop_first())
                } else {
                    None
                }
            },
            (Nd::Array(a, _, _), St::Index(x)) => match resolved(x as int, a.len() as int) {
                Some(at) => nd_at(a[at], p.drop_first()),
                None => None,
            },
            (Nd::Tables(a), St::Index(x)) => match resolved(x as int, a.len() as int) {
                Some(at) => nd_at(a[at], p.drop_first()),
                None => None,
            },
            _ => None,
        }
    }
}

/// Are the lists the same but for what stands at one place?
pub open spec fn same_but<A>(a: Seq<A>, b: Seq<A>, j: int) -> bool {
    a.len() == b.len() && 0 <= j < a.len() && forall|i: int|
        0 <= i < a.len() && i != j ==> #[trigger] a[i] == b[i]
}

/// Do the trees differ at a path alone? Everything on the way to it and beside it is the
/// same: names, values, spelling, layout and comments.
pub open spec fn only_at(a: Nd, b: Nd, p: Seq<St>) -> bool
    decreases p.len(),
{
    if p.len() == 0 {
        true
    } else {
        match (a, b, p[0]) {
            (Nd::Table(es, f, d), Nd::Table(fs, g, e), St::Field(k)) => {
                let j = slot(es, k);
                f == g && d == e && same_but(es, fs, j) && es[j].name == fs[j].name && only_at(
                    es[j].node,
                    fs[j].node,
                    p.drop_first(),
                )
            },
            (Nd::Array(x, f, d), Nd::Array(y, g, e), St::Index(i)) => match resolved(
                i as int,
                x.len() as int,
            ) {
                Some(at) => f == g && d == e && same_but(x, y, at) && only_at(
                    x[at],
                    y[at],
                    p.drop_first(),
                ),
                None => false,
            },
            (Nd::Tables(x), Nd::Tables(y), St::Index(i)) => match resolved(i as int, x.len() as int) {
                Some(at) => same_but(x, y, at) && only_at(x[at], y[at], p.drop_first()),
                None => false,
            },
            _ => false,
        }
    }
}

/// The container without what a step names, everything else of it as it is.
pub open spec fn taken_out(n: Nd, st: St) -> Nd {
    match (n, st) {
        (Nd::Table(es, f, d), St::Field(k)) => Nd::Table(es.remove(slot(es, k)), f, d),
        (Nd::Array(a, f, d), St::Index(x)) => Nd::Array(
            a.remove(resolved(x as int, a.len() as int)->0),
            f,
            d,
        ),
        (Nd::Tables(a), St::Index(x)) => Nd::Tables(a.remove(resolved(x as int, a.len() as int)->0)),
        _ => n,
    }
}

pub proof fn slot_stays(es: Seq<Et>, fs: Seq<Et>, k: Seq<char>)
    requires
        es.len() == fs.len(),
        forall|i: int| 0 <= i < es.len() ==> (#[trigger] es[i]).name.key == fs[i].name.key,
    ensures
        slot(fs, k) == slot(es, k),
{
    slot_bounds(es, k);
    let j = slot(es, k);
    assert forall|i: int| 0 <= i < j implies (#[trigger] fs[i]).name.key != k by {
        assert(es[i].name.key != k);
    }
    if j < es.len() {
        assert(es[j].name.key == fs[j].name.key);
    }
    crate::toml_tree::slot_is(fs, k, j);
}

/// The path to the container: what is left of `p` from `i` on without its last step.
spec fn lead(p: Seq<St>, i: int) -> Seq<St> {
    p.subrange(i, p.len() - 1)
}

proof fn lead_step(p: Seq<St>, i: int)
    requires
        0 <= i < p.len() - 1,
    ensures
        lead(p, i).len() == p.len() - 1 - i,
        lead(p, i)[0] == p[i],
        lead(p, i).drop_first() == lead(p, i + 1),
{
    assert(lead(p, i).drop_first() =~= lead(p, i + 1));
}

#[verifier::rlimit(60)]
#[verifier::spinoff_prover]
proof fn drop_touches(t: Nd, p: Seq<St>, i: int, cut: int)
    requires
        t is Table,
        formed(t),
        proper(p, i, cut),
        keyed_indices(p),
        p[i] is Field,
        nd_at(t, p.skip(i)) is Some,
    ensures
        drop_walk(t, p, i, cut) is Table,
        only_at(t, drop_walk(t, p, i, cut), lead(p, i)),
        nd_at(t, lead(p, i)) is Some,
        nd_at(drop_walk(t, p, i, cut), lead(p, i)) == Some(
            taken_out(nd_at(t, lead(p, i))->0, p.last()),
        ),
    decreases cut - i, 1int,
{
    let es = t->Table_0;
    let k = p[i]->Field_0;
    one_step(p, i);
    slot_bounds(es, k);
    let j = slot(es, k);
    let r = drop_walk(t, p, i, cut);
    let fs = r->Table_0;
    assert(formed(es[j].node));
    if i >= cut && p.len() == cut + 1 {
        assert(lead(p, i) =~= Seq::<St>::empty());
    } else {
        lead_step(p, i);
        one_step(p, i + 1);
        assert forall|x: int| 0 <= x < es.len() && fs.len() == es.len() implies (#[trigger] es[x]).name.key
            == fs[x].name.key by {}
        if i >= cut {
            assert(lead(p, i + 1) =~= Seq::<St>::empty());
            assert(p.skip(i + 2) =~= Seq::<St>::empty());
            let n = es[j].node;
            assert(nd_at(n, p.skip(i + 1)) is Some);
            assert(only_at(n, fs[j].node, lead(p, i + 1)));
            assert(nd_at(n, lead(p, i + 1)) == Some(n));
            assert(nd_at(fs[j].node, lead(p, i + 1)) == Some(fs[j].node));
            assert(p.last() == p[i + 1]);
            slot_stays(es, fs, k);
            assert(nd_at(r, lead(p, i)) == nd_at(fs[j].node, lead(p, i + 1)));
        } else if i + 1 < cut && p[i + 1] is Index {
            elem_touches(es[j].node, p, i, cut);
            slot_stays(es, fs, k);
        } else {
            assert(p[i + 1] is Field) by {
                if i + 1 == cut {
                    assert(p[cut] is Field);
                } else {
                    assert(p[i + 1] is Field || p[i + 1] is Index);
                }
            }
            drop_touches(es[j].node, p, i + 1, cut);
            slot_stays(es, fs, k);
        }
    }
}

#[verifier::rlimit(60)]
#[verifier::spinoff_prover]
proof fn elem_touches(n: Nd, p: Seq<St>, i: int, cut: int)
    requires
        formed(n),
        proper(p, i, cut),
        keyed_indices(p),
        i + 1 < cut,
        p[i] is Field,
        p[i + 1] is Index,
        nd_at(n, p.skip(i + 1)) is Some,
    ensures
        only_at(n, elem_drop(n, p[i + 1]->Index_0 as int, p, i, cut), lead(p, i + 1)),
        nd_at(n, lead(p, i + 1)) is Some,
        nd_at(elem_drop(n, p[i + 1]->Index_0 as int, p, i, cut), lead(p, i + 1)) == Some(
            taken_out(nd_at(n, lead(p, i + 1))->0, p.last()),
        ),
    decreases cut - i - 1, 0int,
{
    one_step(p, i + 1);
    one_step(p, i + 2);
    lead_step(p, i + 1);
    assert(p[i + 2] is Field) by {
        assert(p[i + 2] is Field || p[i + 2] is Index);
        if p[i + 2] is Index {
            assert(p[i + 2 - 1] is Field);
        }
    }
    let x = p[i + 1]->Index_0 as int;
    match n {
        Nd::Tables(a) => {
            let at = resolved(x, a.len() as int)->0;
            assert(formed(a[at]));
            drop_touches(a[at], p, i + 2, cut);
        },
        Nd::Array(a, _, _) => {
            let at = resolved(x, a.len() as int)->0;
            assert(formed(a[at]));
            drop_touches(a[at], p, i + 2, cut);
        },
        _ => {},
    }
}

/// Deleting what is there takes that entry or element out of its container, and changes
/// nothing else: every other key, value, spelling, layout and comment of the document is
/// what it was, and in its place.
pub proof fn toml_delete_touches_one_place(root: Nd, p: Seq<St>)
    requires
        root is Table,
        formed(root),
        plain_path(p),
        keyed_indices(p),
        p.len() > 0,
        nd_at(root, p) is Some,
    ensures
        ({
            let now = nd_drop(root, p)->Ok_0;
            let to = p.drop_last();
            &&& nd_drop(root, p) is Ok
            &&& only_at(root, now, to)
            &&& nd_at(root, to) is Some
            &&& nd_at(now, to) == Some(taken_out(nd_at(root, to)->0, p.last()))
        }),
{
    assert(p[p.len() - 1] == p.last());
    assert(p[0] is Field || p[0] is Index);
    assert(p.skip(0) =~= p);
    assert(p.last() is Field || p.last() is Index);
    if p.last() is Index {
        assert(p[p.len() - 1 - 1] is Field);
    }
    let cut = if p.last() is Field {
        p.len() - 1
    } else {
        p.len() - 2
    };
    assert(lead(p, 0) =~= p.drop_last());
    drop_touches(root, p, 0, cut);
}

proof fn replaced_decor(old: Nd, v: Val)
    ensures
        decor_in(replacing(old, crate::toml_nodes::value_nd(v))) == decor_in(old),
{
}

#[verifier::rlimit(60)]
#[verifier::spinoff_prover]
proof fn set_touches(t: Nd, p: Seq<St>, i: int, cut: int, v: Val)
    requires
        t is Table,
        sound(t),
        proper(p, i, cut),
        p[i] is Field,
        nd_at(t, p.skip(i)) is Some,
        is_value(nd_at(t, p.skip(i))->0),
        set_walk(t, p, i, cut, v) is Ok,
    ensures
        ({
            let now = set_walk(t, p, i, cut, v)->Ok_0;
            let q = p.skip(i);
            &&& now is Table
            &&& only_at(t, now, q)
            &&& nd_at(now, q) is Some
            &&& p.last() is Field || !(v is Object) ==> decor_in(nd_at(now, q)->0) == decor_in(nd_at(t, q)->0)
        }),
    decreases cut - i, 1int,
{
    let es = t->Table_0;
    let k = p[i]->Field_0;
    one_step(p, i);
    slot_bounds(es, k);
    let j = slot(es, k);
    let now = set_walk(t, p, i, cut, v)->Ok_0;
    let fs = now->Table_0;
    assert(sound(es[j].node));
    if i >= cut {
        if p.len() == cut + 1 {
            assert(p.skip(i + 1) =~= Seq::<St>::empty());
            let q = p.skip(i);
            assert(nd_at(es[j].node, p.skip(i + 1)) == Some(es[j].node));
            replaced_decor(es[j].node, v);
            if now == t {
                assert(fs == es);
            } else {
                assert(fs == es.update(j, fs[j]));
            }
            slot_stays(es, fs, k);
            assert(nd_at(now, q) == nd_at(fs[j].node, p.skip(i + 1)));
            assert(only_at(es[j].node, fs[j].node, p.skip(i + 1)));
        } else {
            one_step(p, i + 1);
            assert(p.skip(i + 2) =~= Seq::<St>::empty());
            let x = p[cut + 1]->Index_0 as int;
            match es[j].node {
                Nd::Array(a, fl, ad) => {
                    assert(nd_at(es[j].node, p.skip(i + 1)) is Some);
                    let at = resolved(x, a.len() as int)->0;
                    assert(write_position(x, a.len() as int) == Ok::<int, Er>(at));
                    slot_stays(es, fs, k);
                    let b = fs[j].node->Array_0;
                    assert(nd_at(b[at], p.skip(i + 2)) == Some(b[at]));
                    assert(nd_at(a[at], p.skip(i + 2)) == Some(a[at]));
                    replaced_decor(a[at], v);
                    assert(only_at(a[at], b[at], p.skip(i + 2)));
                    assert(only_at(es[j].node, fs[j].node, p.skip(i + 1)));
                    assert(nd_at(fs[j].node, p.skip(i + 1)) is Some);
                },
                Nd::Tables(a) => {
                    assert(nd_at(es[j].node, p.skip(i + 1)) is Some);
                    let at = resolved(x, a.len() as int)->0;
                    assert(write_position(x, a.len() as int) == Ok::<int, Er>(at));
                    slot_stays(es, fs, k);
                    let b = fs[j].node->Tables_0;
                    assert(nd_at(b[at], p.skip(i + 2)) == Some(b[at]));
                    assert(nd_at(a[at], p.skip(i + 2)) == Some(a[at]));
                    replaced_decor(a[at], v);
                    assert(only_at(a[at], b[at], p.skip(i + 2)));
                    assert(only_at(es[j].node, fs[j].node, p.skip(i + 1)));
                    assert(nd_at(fs[j].node, p.skip(i + 1)) is Some);
                },
                _ => {},
            }
        }
    } else {
        one_step(p, i + 1);
        if i + 1 < cut && p[i + 1] is Index {
            elem_set_touches(es[j].node, k, p, i, cut, v);
            slot_stays(es, fs, k);
        } else {
            assert(p[i + 1] is Field) by {
                if i + 1 == cut {
                    assert(p[cut] is Field);
                } else {
                    assert(p[i + 1] is Field || p[i + 1] is Index);
                }
            }
            set_touches(es[j].node, p, i + 1, cut, v);
            slot_stays(es, fs, k);
        }
    }
}

#[verifier::rlimit(60)]
#[verifier::spinoff_prover]
proof fn elem_set_touches(n: Nd, k: Seq<char>, p: Seq<St>, i: int, cut: int, v: Val)
    requires
        sound(n),
        proper(p, i, cut),
        i + 1 < cut,
        p[i] is Field,
        p[i + 1] is Index,
        nd_at(n, p.skip(i + 1)) is Some,
        is_value(nd_at(n, p.skip(i + 1))->0),
        elem_walk(n, k, p[i + 1]->Index_0 as int, p, i, cut, v) is Ok,
    ensures
        ({
            let now = elem_walk(n, k, p[i + 1]->Index_0 as int, p, i, cut, v)->Ok_0;
            let q = p.skip(i + 1);
            &&& only_at(n, now, q)
            &&& nd_at(now, q) is Some
            &&& p.last() is Field || !(v is Object) ==> decor_in(nd_at(now, q)->0) == decor_in(nd_at(n, q)->0)
        }),
    decreases cut - i - 1, 0int,
{
    one_step(p, i + 1);
    let x = p[i + 1]->Index_0 as int;
    match n {
        Nd::Tables(a) => {
            let at = resolved(x, a.len() as int)->0;
            assert(write_position(x, a.len() as int) == Ok::<int, Er>(at));
            assert(sound(a[at]));
            assert(set_walk(a[at], p, i + 2, cut, v) is Ok);
            assert(p[i + 2] is Field);
            set_touches(a[at], p, i + 2, cut, v);
        },
        Nd::Array(a, _, _) => {
            let at = resolved(x, a.len() as int)->0;
            assert(write_position(x, a.len() as int) == Ok::<int, Er>(at));
            assert(sound(a[at]));
            assert(set_walk(a[at], p, i + 2, cut, v) is Ok);
            assert(p[i + 2] is Field);
            set_touches(a[at], p, i + 2, cut, v);
        },
        _ => {},
    }
}

/// Setting a value that is there changes that value alone: every other key, value,
/// spelling, layout and comment of the document is what it was, and in its place. The
/// white space and the comment around the value stay too, but for those of a block of an
/// array of tables.
pub proof fn toml_set_touches_one_place(root: Nd, p: Seq<St>, v: Val)
    requires
        root is Table,
        sound(root),
        plain_path(p),
        p.len() > 0,
        nd_at(root, p) is Some,
        is_value(nd_at(root, p)->0),
        nd_set(root, p, v) is Ok,
    ensures
        ({
            let now = nd_set(root, p, v)->Ok_0;
            &&& only_at(root, now, p)
            &&& nd_at(now, p) is Some
            &&& p.last() is Field || !(v is Object) ==> decor_in(nd_at(now, p)->0) == decor_in(nd_at(root, p)->0)
        }),
{
    assert(p[p.len() - 1] == p.last());
    assert(p[0] is Field || p[0] is Index);
    assert(p.skip(0) =~= p);
    assert(p.last() is Field || p.last() is Index);
    let cut = if p.last() is Field {
        p.len() - 1
    } else {
        p.len() - 2
    };
    assert(p[0] is Field) by {
        if p[0] is Index {
            assert(nd_at(root, p) is None);
        }
    }
    set_touches(root, p, 0, cut, v);
}

} // verus!
