//! What holds of edits of a TOML tree: a write reads back, and what it was not
//! about stays as it was.
use crate::error::Er;
use crate::eval_laws::{apart, key_from_is, order_flips, path_front, plain_path, rest_is_plain};
use crate::index::resolved;
use crate::model::{CommentKind, St, Val};
use crate::semantics::path_outs;
use crate::seqs::Rank;
use crate::toml_change::{
    elem_drop, elem_walk, drop_walk, field_set, field_val, fields_set, named, nd_drop, nd_set,
    new_table, set_element, set_walk, takes_blocks, wanted, without_key, write_position,
};
use crate::toml_nodes::{
    et_vals, nd_val, nd_vals, plain_header, table_ets, table_nd, value_ets, value_nd, value_nds,
};
use crate::toml_notes::note_walk;
use crate::toml_spell::{
    all_objects, extended, extended_tables, extends, pushed, replacing,
};
use crate::toml_tree::{
    fresh_name, no_decor, scalar, slot, slot_bounds, slot_is, sound, unique_tree, Dc, Et, Fl, Fm,
    Nd,
};
use crate::value::{first_unlevel, get_key, key_at, val_rank};
use vstd::prelude::*;

verus! {

/// Spelling a value the way another was spelled changes only the spelling.
pub proof fn replacing_keeps_the_value(old: Nd, new: Nd)
    ensures
        nd_val(replacing(old, new)) == nd_val(new),
{
}

pub proof fn et_vals_at(es: Seq<Et>, n: nat)
    requires
        n <= es.len(),
    ensures
        et_vals(es, n).len() == n,
        forall|i: int|
            0 <= i < n ==> #[trigger] et_vals(es, n)[i] == (es[i].name.key, nd_val(es[i].node)),
    decreases n,
{
    if n > 0 {
        et_vals_at(es, (n - 1) as nat);
    }
}

pub proof fn nd_vals_at(a: Seq<Nd>, n: nat)
    requires
        n <= a.len(),
    ensures
        nd_vals(a, n).len() == n,
        forall|i: int| 0 <= i < n ==> #[trigger] nd_vals(a, n)[i] == nd_val(a[i]),
    decreases n,
{
    if n > 0 {
        nd_vals_at(a, (n - 1) as nat);
    }
}

/// The place of a key in a table is its place in the table's value.
pub proof fn slot_is_key(es: Seq<Et>, k: Seq<char>)
    ensures
        key_at(et_vals(es, es.len()), k) == slot(es, k),
{
    et_vals_at(es, es.len());
    slot_bounds(es, k);
    let m = et_vals(es, es.len());
    let r = slot(es, k);
    assert forall|j: int| 0 <= j < r implies (#[trigger] m[j]).0 != k by {
        assert(es[j].name.key != k);
    }
    key_from_is(m, k, 0, r);
}

proof fn field_is_key(es: Seq<Et>, f: Fm, d: Dc, k: Seq<char>)
    ensures
        field_val(Nd::Table(es, f, d), k) == get_key(et_vals(es, es.len()), k),
{
    slot_is_key(es, k);
    et_vals_at(es, es.len());
    slot_bounds(es, k);
}

/// Does no object in the value have a key twice?
pub open spec fn unique_keys(v: Val) -> bool
    decreases v, 0int,
{
    match v {
        Val::Array(a) => forall|i: int| 0 <= i < a.len() ==> unique_keys(#[trigger] a[i]),
        Val::Object(m) => (forall|i: int| 0 <= i < m.len() ==> unique_keys((#[trigger] m[i]).1))
            && distinct_names(m),
        _ => true,
    }
}

/// Are the members' names distinct?
pub open spec fn distinct_names(m: Seq<(Seq<char>, Val)>) -> bool {
    forall|i: int, j: int| 0 <= i < j < m.len() ==> (#[trigger] m[i]).0 != (#[trigger] m[j]).0
}

proof fn value_ets_at(m: Seq<(Seq<char>, Val)>, n: nat)
    requires
        n <= m.len(),
        distinct_names(m),
    ensures
        value_ets(m, n).len() == n,
        forall|i: int|
            0 <= i < n ==> #[trigger] value_ets(m, n)[i] == (Et {
                name: fresh_name(m[i].0),
                node: value_nd(m[i].1),
            }),
    decreases n,
{
    if n > 0 {
        value_ets_at(m, (n - 1) as nat);
        let before = value_ets(m, (n - 1) as nat);
        assert forall|j: int| 0 <= j < before.len() implies (#[trigger] before[j]).name.key
            != m[n - 1].0 by {
            assert(m[j].0 != m[n - 1].0);
        }
        slot_is(before, m[n - 1].0, before.len() as int);
    }
}

proof fn table_ets_at(m: Seq<(Seq<char>, Val)>, n: nat)
    requires
        n <= m.len(),
        distinct_names(m),
    ensures
        table_ets(m, n).len() == n,
        forall|i: int|
            0 <= i < n ==> #[trigger] table_ets(m, n)[i] == (Et {
                name: fresh_name(m[i].0),
                node: table_nd(m[i].1),
            }),
    decreases n,
{
    if n > 0 {
        table_ets_at(m, (n - 1) as nat);
        let before = table_ets(m, (n - 1) as nat);
        assert forall|j: int| 0 <= j < before.len() implies (#[trigger] before[j]).name.key
            != m[n - 1].0 by {
            assert(m[j].0 != m[n - 1].0);
        }
        slot_is(before, m[n - 1].0, before.len() as int);
    }
}

proof fn value_nds_at(a: Seq<Val>, n: nat)
    requires
        n <= a.len(),
    ensures
        value_nds(a, n).len() == n,
        forall|i: int| 0 <= i < n ==> #[trigger] value_nds(a, n)[i] == value_nd(a[i]),
    decreases n,
{
    if n > 0 {
        value_nds_at(a, (n - 1) as nat);
    }
}

/// A node built from a value has that value.
pub proof fn built_reads_back(v: Val)
    requires
        unique_keys(v),
    ensures
        nd_val(value_nd(v)) == v,
    decreases v,
{
    match v {
        Val::Array(a) => {
            value_nds_at(a, a.len());
            let ns = value_nds(a, a.len());
            nd_vals_at(ns, ns.len());
            assert forall|i: int| 0 <= i < a.len() implies #[trigger] nd_vals(ns, ns.len())[i]
                == a[i] by {
                assert(unique_keys(a[i]));
                assert(decreases_to!(v => a[i]));
                built_reads_back(a[i]);
            }
            assert(nd_vals(ns, ns.len()) =~= a);
        },
        Val::Object(m) => {
            value_ets_at(m, m.len());
            let es = value_ets(m, m.len());
            et_vals_at(es, es.len());
            assert forall|i: int| 0 <= i < m.len() implies #[trigger] et_vals(es, es.len())[i]
                == m[i] by {
                assert(unique_keys(m[i].1));
                assert(decreases_to!(v => m[i]));
                built_reads_back(m[i].1);
                assert(es[i] == (Et { name: fresh_name(m[i].0), node: value_nd(m[i].1) }));
            }
            assert(et_vals(es, es.len()) =~= m);
        },
        _ => {},
    }
}

/// A table built from an object has that value.
pub proof fn built_table_reads_back(v: Val)
    requires
        unique_keys(v),
    ensures
        nd_val(table_nd(v)) == v,
    decreases v,
{
    match v {
        Val::Object(m) => {
            table_ets_at(m, m.len());
            let es = table_ets(m, m.len());
            et_vals_at(es, es.len());
            assert forall|i: int| 0 <= i < m.len() implies #[trigger] et_vals(es, es.len())[i]
                == m[i] by {
                assert(unique_keys(m[i].1));
                assert(decreases_to!(v => m[i]));
                built_table_reads_back(m[i].1);
                assert(es[i] == (Et { name: fresh_name(m[i].0), node: table_nd(m[i].1) }));
            }
            assert(et_vals(es, es.len()) =~= m);
        },
        _ => {
            built_reads_back(v);
        },
    }
}

/// Appending an element in an array's layout leaves the values of the others, and
/// every element before the last stays as it is spelled.
pub proof fn appending_keeps_the_elements(a: Seq<Nd>, f: Fl, v: Nd)
    ensures
        pushed(a, f, v).0.len() == a.len() + 1,
        nd_vals(pushed(a, f, v).0, a.len() + 1) == nd_vals(a, a.len()).push(nd_val(v)),
        forall|i: int| 0 <= i < a.len() - 1 ==> #[trigger] pushed(a, f, v).0[i] == a[i],
{
    let b = pushed(a, f, v).0;
    nd_vals_at(a, a.len());
    nd_vals_at(b, b.len());
    assert(nd_vals(b, b.len()) =~= nd_vals(a, a.len()).push(nd_val(v)));
}

proof fn extending_values(a: Seq<Nd>, f: Fl, new: Seq<Val>, n: nat)
    requires
        a.len() <= n <= new.len(),
        forall|i: int| 0 <= i < new.len() ==> unique_keys(#[trigger] new[i]),
    ensures
        extended(a, f, new, n).0.len() == n,
        nd_vals(extended(a, f, new, n).0, n) == nd_vals(a, a.len()) + new.subrange(
            a.len() as int,
            n as int,
        ),
    decreases n,
{
    if n > a.len() {
        extending_values(a, f, new, (n - 1) as nat);
        let (b, g) = extended(a, f, new, (n - 1) as nat);
        appending_keeps_the_elements(b, g, value_nd(new[n - 1]));
        assert(unique_keys(new[n - 1]));
        built_reads_back(new[n - 1]);
        assert(new.subrange(a.len() as int, n as int) =~= new.subrange(
            a.len() as int,
            n - 1,
        ).push(new[n - 1]));
        assert(nd_vals(extended(a, f, new, n).0, n) =~= nd_vals(a, a.len()) + new.subrange(
            a.len() as int,
            n as int,
        ));
    } else {
        assert(nd_vals(a, a.len()) + new.subrange(n as int, n as int) =~= nd_vals(a, a.len()));
    }
}

proof fn extending_tables(a: Seq<Nd>, new: Seq<Val>, n: nat)
    requires
        a.len() <= n <= new.len(),
        forall|i: int| 0 <= i < new.len() ==> unique_keys(#[trigger] new[i]),
    ensures
        extended_tables(a, new, n).len() == n,
        nd_vals(extended_tables(a, new, n), n) == nd_vals(a, a.len()) + new.subrange(
            a.len() as int,
            n as int,
        ),
    decreases n,
{
    if n > a.len() {
        extending_tables(a, new, (n - 1) as nat);
        let b = extended_tables(a, new, (n - 1) as nat);
        let c = extended_tables(a, new, n);
        nd_vals_at(b, b.len());
        nd_vals_at(c, c.len());
        assert(unique_keys(new[n - 1]));
        built_table_reads_back(new[n - 1]);
        assert forall|i: int| 0 <= i < n implies #[trigger] nd_vals(c, n)[i] == (nd_vals(
            a,
            a.len(),
        ) + new.subrange(a.len() as int, n as int))[i] by {
            if i < n - 1 {
                assert(c[i] == b[i]);
                assert(nd_vals(b, (n - 1) as nat)[i] == nd_val(b[i]));
            }
        }
        nd_vals_at(a, a.len());
        assert(nd_vals(c, n) =~= nd_vals(a, a.len()) + new.subrange(a.len() as int, n as int));
    } else {
        assert(nd_vals(a, a.len()) + new.subrange(n as int, n as int) =~= nd_vals(a, a.len()));
    }
}

/// Does a value stand for what was written? The two are level, or they are objects
/// with the same keys, whatever their order, whose values stand for each other.
pub open spec fn agrees(w: Val, v: Val) -> bool
    decreases v,
{
    val_rank(w, v) == Rank::Level || match (w, v) {
        (Val::Object(x), Val::Object(m)) => (forall|i: int|
            0 <= i < m.len() ==> get_key(x, (#[trigger] m[i]).0) is Some && agrees(
                get_key(x, m[i].0)->0,
                m[i].1,
            )) && (forall|j: int| 0 <= j < x.len() ==> named(m, (#[trigger] x[j]).0, m.len())),
        _ => false,
    }
}

proof fn level_with_itself(v: Val)
    ensures
        agrees(v, v),
{
    order_flips(v, v);
}

proof fn all_level(x: Seq<Rank>, i: int)
    requires
        0 <= i,
        forall|j: int| 0 <= j < x.len() ==> #[trigger] x[j] == Rank::Level,
    ensures
        first_unlevel(x, i) == Rank::Level,
    decreases x.len() - i,
{
    if i < x.len() {
        all_level(x, i + 1);
    }
}

proof fn extension_agrees(a: Seq<Nd>, new: Seq<Val>)
    requires
        extends(a, new),
    ensures
        agrees(
            Val::Array(nd_vals(a, a.len()) + new.subrange(a.len() as int, new.len() as int)),
            Val::Array(new),
        ),
{
    nd_vals_at(a, a.len());
    let w = nd_vals(a, a.len()) + new.subrange(a.len() as int, new.len() as int);
    let r = crate::value::array_ranks(w, new);
    assert forall|i: int| 0 <= i < r.len() implies #[trigger] r[i] == Rank::Level by {
        if i < a.len() {
            assert(val_rank(nd_val(a[i]), new[i]) == Rank::Level);
        } else {
            order_flips(new[i], new[i]);
        }
    }
    all_level(r, 0);
}

proof fn named_iff(m: Seq<(Seq<char>, Val)>, k: Seq<char>, n: nat)
    requires
        n <= m.len(),
    ensures
        named(m, k, n) <==> exists|i: int| 0 <= i < n && (#[trigger] m[i]).0 == k,
    decreases n,
{
    if n > 0 {
        named_iff(m, k, (n - 1) as nat);
    }
}

proof fn wanted_are_named(es: Seq<Et>, m: Seq<(Seq<char>, Val)>, n: nat)
    requires
        n <= es.len(),
    ensures
        forall|i: int|
            0 <= i < wanted(es, m, n).len() ==> named(
                m,
                (#[trigger] wanted(es, m, n)[i]).name.key,
                m.len(),
            ),
    decreases n,
{
    if n > 0 {
        wanted_are_named(es, m, (n - 1) as nat);
    }
}

/// Setting a key gives the table that value under that key, and leaves what stands
/// under any other key as it is.
pub proof fn field_reads_back(t: Nd, k: Seq<char>, v: Val)
    requires
        t is Table,
        unique_keys(v),
    ensures
        field_set(t, k, v) is Table,
        field_val(field_set(t, k, v), k) is Some,
        agrees(field_val(field_set(t, k, v), k)->0, v),
        forall|other: Seq<char>|
            other != k ==> #[trigger] field_val(field_set(t, k, v), other) == field_val(t, other),
        field_set(t, k, v)->Table_1 == t->Table_1,
        forall|i: int|
            0 <= i < field_set(t, k, v)->Table_0.len() ==> ((#[trigger] field_set(
                t,
                k,
                v,
            )->Table_0[i]).name.key == k || i < t->Table_0.len() && field_set(t, k, v)->Table_0[i]
                == t->Table_0[i]),
    decreases v, 0int, 0int,
{
    let es = t->Table_0;
    let r = field_set(t, k, v);
    let fs = r->Table_0;
    slot_bounds(es, k);
    let j = slot(es, k);
    level_with_itself(v);
    built_reads_back(v);
    if j >= es.len() {
        assert forall|i: int| 0 <= i < es.len() implies (#[trigger] fs[i]).name.key != k by {
            assert(fs[i] == es[i]);
        }
        slot_is(fs, k, j);
    } else {
        let e = es[j];
        assert(fs == es.update(j, fs[j]));
        if nd_val(e.node) != v {
            match (e.node, v) {
                (Nd::Table(sub, Fm::Header { implicit, dotted, position }, sd), Val::Object(m)) => {
                    let form = Fm::Header { implicit, dotted, position };
                    let kept = Nd::Table(wanted(sub, m, sub.len()), form, sd);
                    wanted_are_named(sub, m, sub.len());
                    fields_read_back(kept, m, m.len());
                    let n = fields_set(kept, m, m.len());
                    let x = et_vals(n->Table_0, n->Table_0.len());
                    et_vals_at(n->Table_0, n->Table_0.len());
                    assert(nd_val(n) == Val::Object(x));
                    assert forall|i: int| 0 <= i < m.len() implies get_key(x, (#[trigger] m[i]).0)
                        is Some && agrees(get_key(x, m[i].0)->0, m[i].1) by {
                        field_is_key(n->Table_0, n->Table_1, n->Table_2, m[i].0);
                    }
                    assert forall|i: int| 0 <= i < x.len() implies named(
                        m,
                        (#[trigger] x[i]).0,
                        m.len(),
                    ) by {
                        assert(x[i].0 == n->Table_0[i].name.key);
                    }
                    assert(agrees(nd_val(n), v));
                },
                (Nd::Array(a, fl, ad), Val::Array(new)) => {
                    if extends(a, new) {
                        extending_values(a, fl, new, new.len());
                        extension_agrees(a, new);
                    } else {
                        replacing_keeps_the_value(e.node, value_nd(v));
                    }
                },
                (Nd::Tables(a), Val::Array(new)) => {
                    if extends(a, new) && all_objects(new, a.len() as int) {
                        extending_tables(a, new, new.len());
                        extension_agrees(a, new);
                    }
                },
                _ => {
                    replacing_keeps_the_value(e.node, value_nd(v));
                },
            }
        }
        assert(fs[j].name.key == k);
        assert(agrees(nd_val(fs[j].node), v));
        assert forall|i: int| 0 <= i < j implies (#[trigger] fs[i]).name.key != k by {
            assert(fs[i] == es[i]);
        }
        slot_is(fs, k, j);
    }
    assert forall|other: Seq<char>| other != k implies #[trigger] field_val(r, other) == field_val(
        t,
        other,
    ) by {
        slot_bounds(es, other);
        let s = slot(es, other);
        assert forall|i: int| 0 <= i < s implies (#[trigger] fs[i]).name.key != other by {
            if i != j {
                assert(fs[i] == es[i]);
            }
        }
        if s < es.len() {
            assert(fs[s] == es[s]);
            slot_is(fs, other, s);
        } else {
            assert forall|i: int| 0 <= i < fs.len() implies (#[trigger] fs[i]).name.key != other by {
                if i < es.len() && i != j {
                    assert(fs[i] == es[i]);
                    assert(es[i].name.key != other);
                }
            }
            slot_is(fs, other, fs.len() as int);
        }
    }
}

proof fn fields_read_back(t: Nd, m: Seq<(Seq<char>, Val)>, n: nat)
    requires
        t is Table,
        n <= m.len(),
        distinct_names(m),
        forall|i: int| 0 <= i < m.len() ==> unique_keys((#[trigger] m[i]).1),
        forall|i: int|
            0 <= i < t->Table_0.len() ==> named(m, (#[trigger] t->Table_0[i]).name.key, m.len()),
    ensures
        fields_set(t, m, n) is Table,
        forall|i: int|
            0 <= i < n ==> field_val(fields_set(t, m, n), (#[trigger] m[i]).0) is Some && agrees(
                field_val(fields_set(t, m, n), m[i].0)->0,
                m[i].1,
            ),
        forall|i: int|
            0 <= i < fields_set(t, m, n)->Table_0.len() ==> named(
                m,
                (#[trigger] fields_set(t, m, n)->Table_0[i]).name.key,
                m.len(),
            ),
    decreases m, 1int, n,
{
    if n > 0 {
        fields_read_back(t, m, (n - 1) as nat);
        let before = fields_set(t, m, (n - 1) as nat);
        let r = fields_set(t, m, n);
        assert(decreases_to!(m => m[n - 1]));
        field_reads_back(before, m[n - 1].0, m[n - 1].1);
        assert forall|i: int| 0 <= i < n implies field_val(r, (#[trigger] m[i]).0) is Some
            && agrees(field_val(r, m[i].0)->0, m[i].1) by {
            if i < n - 1 {
                assert(m[i].0 != m[n - 1].0);
                assert(field_val(r, m[i].0) == field_val(before, m[i].0));
            }
        }
        named_iff(m, m[n - 1].0, m.len());
        assert forall|i: int| 0 <= i < r->Table_0.len() implies named(
            m,
            (#[trigger] r->Table_0[i]).name.key,
            m.len(),
        ) by {
            if r->Table_0[i].name.key != m[n - 1].0 {
                assert(r->Table_0[i] == before->Table_0[i]);
            }
        }
    }
}

/// Does the path yield one value, which stands for `v`?
pub open spec fn yields(n: Val, p: Seq<St>, v: Val) -> bool {
    path_outs(p, n) is Ok && path_outs(p, n)->Ok_0.len() == 1 && agrees(
        path_outs(p, n)->Ok_0[0],
        v,
    )
}

proof fn placed_field(es: Seq<Et>, fs: Seq<Et>, f: Fm, d: Dc, k: Seq<char>, node: Nd)
    requires
        ({
            let j = slot(es, k);
            if 0 <= j < es.len() {
                fs.len() == es.len() && fs == es.update(j, fs[j]) && fs[j].name.key == k
                    && fs[j].node == node
            } else {
                fs.len() == es.len() + 1 && fs == es.push(fs.last()) && fs.last().name.key == k
                    && fs.last().node == node
            }
        }),
    ensures
        field_val(Nd::Table(fs, f, d), k) == Some(nd_val(node)),
        forall|other: Seq<char>|
            other != k ==> #[trigger] field_val(Nd::Table(fs, f, d), other) == field_val(
                Nd::Table(es, f, d),
                other,
            ),
{
    slot_bounds(es, k);
    let j = slot(es, k);
    assert forall|i: int| 0 <= i < j implies (#[trigger] fs[i]).name.key != k by {
        assert(fs[i] == es[i]);
    }
    slot_is(fs, k, j);
    assert forall|other: Seq<char>| other != k implies #[trigger] field_val(
        Nd::Table(fs, f, d),
        other,
    ) == field_val(Nd::Table(es, f, d), other) by {
        slot_bounds(es, other);
        let s = slot(es, other);
        assert forall|i: int| 0 <= i < s implies (#[trigger] fs[i]).name.key != other by {
            if i != j {
                assert(fs[i] == es[i]);
            }
        }
        if s < es.len() {
            assert(fs[s] == es[s]);
            slot_is(fs, other, s);
        } else {
            assert forall|i: int| 0 <= i < fs.len() implies (#[trigger] fs[i]).name.key != other by {
                if i < es.len() && i != j {
                    assert(fs[i] == es[i]);
                    assert(es[i].name.key != other);
                }
            }
            slot_is(fs, other, fs.len() as int);
        }
    }
}

/// What a path that starts with a key yields of a table.
proof fn key_front(t: Nd, p: Seq<St>)
    requires
        t is Table,
        p.len() > 0,
        plain_path(p),
        p[0] is Field,
    ensures
        path_outs(p, nd_val(t)) == (match field_val(t, p[0]->Field_0) {
            Some(x) => path_outs(p.drop_first(), x),
            None => Ok(Seq::empty()),
        }),
{
    path_front(p, nd_val(t));
    field_is_key(t->Table_0, t->Table_1, t->Table_2, p[0]->Field_0);
}

/// What a path that starts with an index yields of a list of nodes.
proof fn index_front(n: Nd, a: Seq<Nd>, p: Seq<St>)
    requires
        n == Nd::Tables(a) || (n is Array && n->Array_0 == a),
        p.len() > 0,
        plain_path(p),
        p[0] is Index,
    ensures
        path_outs(p, nd_val(n)) == (match resolved(p[0]->Index_0 as int, a.len() as int) {
            Some(at) => path_outs(p.drop_first(), nd_val(a[at])),
            None => Ok(Seq::empty()),
        }),
{
    nd_vals_at(a, a.len());
    path_front(p, nd_val(n));
}

pub proof fn skip_parts(p: Seq<St>, i: int)
    requires
        0 <= i < p.len(),
        plain_path(p),
    ensures
        plain_path(p.skip(i)),
        p.skip(i).len() > 0,
        p.skip(i)[0] == p[i],
        p.skip(i).drop_first() == p.skip(i + 1),
        plain_path(p.skip(i + 1)),
{
    assert(p.skip(i).drop_first() =~= p.skip(i + 1));
    assert forall|j: int| 0 <= j < p.skip(i).len() implies (#[trigger] p.skip(i)[j]) is Field
        || p.skip(i)[j] is Index by {
        assert(p.skip(i)[j] == p[i + j]);
    }
    assert forall|j: int| 0 <= j < p.skip(i + 1).len() implies (#[trigger] p.skip(i + 1)[j])
        is Field || p.skip(i + 1)[j] is Index by {
        assert(p.skip(i + 1)[j] == p[i + 1 + j]);
    }
}

pub proof fn position_resolves(x: int, len: int)
    requires
        write_position(x, len) is Ok,
        len >= 0,
        len < usize::MAX,
    ensures
        0 <= write_position(x, len)->Ok_0 <= len,
        write_position(x, len)->Ok_0 < len ==> resolved(x, len) == Some(
            write_position(x, len)->Ok_0,
        ),
        write_position(x, len)->Ok_0 == len ==> resolved(x, len + 1) == Some(len) && resolved(
            x,
            len,
        ) is None,
{
}

proof fn scalar_has_no_keys(v: Val, q: Seq<St>)
    requires
        scalar(v),
        q.len() > 0,
        plain_path(q),
        q[0] is Field,
    ensures
        yields_nothing(v, q),
{
    path_front(q, v);
}

proof fn scalar_has_no_items(v: Val, q: Seq<St>)
    requires
        scalar(v),
        q.len() > 0,
        plain_path(q),
        q[0] is Index,
    ensures
        yields_nothing(v, q),
{
    path_front(q, v);
}

/// Is the split of a path into walked steps and a written target a proper one?
pub open spec fn proper(p: Seq<St>, i: int, cut: int) -> bool {
    0 <= i <= cut < p.len() && plain_path(p) && p[cut] is Field && (p.len() == cut + 1 || (p.len()
        == cut + 2 && p[cut + 1] is Index))
}

proof fn element_reads_back(t: Nd, k: Seq<char>, x: i64, v: Val)
    requires
        t is Table,
        sound(t),
        unique_keys(v),
        set_element(t, k, x as int, v) is Ok,
    ensures
        set_element(t, k, x as int, v)->Ok_0 is Table,
        yields(
            nd_val(set_element(t, k, x as int, v)->Ok_0),
            seq![St::Field(k), St::Index(x)],
            v,
        ),
        forall|other: Seq<char>|
            other != k ==> #[trigger] field_val(set_element(t, k, x as int, v)->Ok_0, other)
                == field_val(t, other),
{
    let es = t->Table_0;
    let f = t->Table_1;
    let d = t->Table_2;
    let r = set_element(t, k, x as int, v)->Ok_0;
    let fs = r->Table_0;
    let p = seq![St::Field(k), St::Index(x)];
    slot_bounds(es, k);
    let j = slot(es, k);
    level_with_itself(v);
    built_reads_back(v);
    built_table_reads_back(v);
    if j < es.len() {
        assert(sound(es[j].node));
    }
    let node = if j < es.len() {
        fs[j].node
    } else {
        fs.last().node
    };
    let before: Seq<Nd> = if j < es.len() {
        match es[j].node {
            Nd::Tables(a) => a,
            Nd::Array(a, _, _) => if v is Object && takes_blocks(es, j) {
                Seq::empty()
            } else {
                a
            },
            _ => Seq::empty(),
        }
    } else {
        Seq::empty()
    };
    let after = match node {
        Nd::Tables(a) => a,
        Nd::Array(a, _, _) => a,
        _ => Seq::empty(),
    };
    position_resolves(x as int, before.len() as int);
    let at = write_position(x as int, before.len() as int)->Ok_0;
    placed_field(es, fs, f, d, k, node);
    assert(plain_path(p));
    key_front(r, p);
    assert(p.drop_first() =~= seq![St::Index(x)]);
    index_front(node, after, p.drop_first());
    assert(p.drop_first().drop_first() =~= Seq::<St>::empty());
    if node is Array && at < before.len() {
        replacing_keeps_the_value(before[at], value_nd(v));
    }
    assert(nd_val(after[at]) == v);
    assert(resolved(x as int, after.len() as int) == Some(at));
}

proof fn walk_reads_back(t: Nd, p: Seq<St>, i: int, cut: int, v: Val)
    requires
        t is Table,
        sound(t),
        proper(p, i, cut),
        unique_keys(v),
        set_walk(t, p, i, cut, v) is Ok,
    ensures
        set_walk(t, p, i, cut, v)->Ok_0 is Table,
        yields(nd_val(set_walk(t, p, i, cut, v)->Ok_0), p.skip(i), v),
    decreases cut - i, 1int,
{
    let r = set_walk(t, p, i, cut, v)->Ok_0;
    let q = p.skip(i);
    skip_parts(p, i);
    let es = t->Table_0;
    let f = t->Table_1;
    let d = t->Table_2;
    if i >= cut {
        let k = p[cut]->Field_0;
        if p.len() == cut + 1 {
            assert(p.skip(i + 1) =~= Seq::<St>::empty());
            if field_val(t, k) == Some(v) {
                level_with_itself(v);
                key_front(t, q);
            } else {
                field_reads_back(t, k, v);
                key_front(r, q);
            }
        } else {
            let x = p[cut + 1]->Index_0;
            element_reads_back(t, k, x, v);
            assert(q =~= seq![St::Field(k), St::Index(x)]);
        }
    } else {
        let k = p[i]->Field_0;
        let j = slot(es, k);
        slot_bounds(es, k);
        let fs = r->Table_0;
        if i + 1 < cut && p[i + 1] is Index {
            assert(sound(es[j].node));
            let x = p[i + 1]->Index_0 as int;
            let n = elem_walk(es[j].node, k, x, p, i, cut, v)->Ok_0;
            elem_reads_back(es[j].node, k, p, i, cut, v);
            placed_field(es, fs, f, d, k, n);
            key_front(r, q);
        } else {
            let sub = if j < es.len() {
                es[j].node
            } else {
                new_table(es, f)
            };
            if j < es.len() {
                assert(sound(es[j].node));
            }
            let n = set_walk(sub, p, i + 1, cut, v)->Ok_0;
            walk_reads_back(sub, p, i + 1, cut, v);
            placed_field(es, fs, f, d, k, n);
            key_front(r, q);
        }
    }
}

proof fn elem_reads_back(n: Nd, k: Seq<char>, p: Seq<St>, i: int, cut: int, v: Val)
    requires
        sound(n),
        proper(p, i, cut),
        i + 1 < cut,
        p[i + 1] is Index,
        unique_keys(v),
        elem_walk(n, k, p[i + 1]->Index_0 as int, p, i, cut, v) is Ok,
    ensures
        yields(
            nd_val(elem_walk(n, k, p[i + 1]->Index_0 as int, p, i, cut, v)->Ok_0),
            p.skip(i + 1),
            v,
        ),
    decreases cut - i, 0int,
{
    let x = p[i + 1]->Index_0 as int;
    let r = elem_walk(n, k, x, p, i, cut, v)->Ok_0;
    skip_parts(p, i + 1);
    let a = match n {
        Nd::Tables(a) => a,
        Nd::Array(a, _, _) => a,
        _ => Seq::empty(),
    };
    position_resolves(x, a.len() as int);
    let at = write_position(x, a.len() as int)->Ok_0;
    let sub = if at == a.len() {
        Nd::Table(Seq::empty(), plain_header(), no_decor())
    } else {
        a[at]
    };
    if at < a.len() {
        assert(sound(a[at]));
    }
    walk_reads_back(sub, p, i + 2, cut, v);
    let b = match r {
        Nd::Tables(b) => b,
        Nd::Array(b, _, _) => b,
        _ => Seq::empty(),
    };
    index_front(r, b, p.skip(i + 1));
}

/// What is set at a path is what the path then yields.
pub proof fn toml_set_reads_back(root: Nd, p: Seq<St>, v: Val)
    requires
        root is Table,
        sound(root),
        plain_path(p),
        unique_keys(v),
        nd_set(root, p, v) is Ok,
    ensures
        yields(nd_val(nd_set(root, p, v)->Ok_0), p, v),
{
    let last = p.last();
    assert(p[p.len() - 1] == last);
    let cut = if last is Field {
        p.len() - 1
    } else {
        p.len() - 2
    };
    walk_reads_back(root, p, 0, cut, v);
    assert(p.skip(0) =~= p);
}

proof fn empty_table_yields_nothing(t: Nd, q: Seq<St>)
    requires
        t is Table,
        t->Table_0.len() == 0,
        q.len() > 0,
        plain_path(q),
        q[0] is Field,
    ensures
        path_outs(q, nd_val(t)) == Ok::<Seq<Val>, Er>(Seq::empty()),
{
    key_front(t, q);
    slot_bounds(t->Table_0, q[0]->Field_0);
}

proof fn walk_leaves(t: Nd, p: Seq<St>, i: int, cut: int, v: Val, q: Seq<St>)
    requires
        t is Table,
        sound(t),
        proper(p, i, cut),
        plain_path(q),
        apart(p.skip(i), q),
        unique_keys(v),
        set_walk(t, p, i, cut, v) is Ok,
    ensures
        set_walk(t, p, i, cut, v)->Ok_0 is Table,
        path_outs(q, nd_val(set_walk(t, p, i, cut, v)->Ok_0)) == path_outs(q, nd_val(t)),
    decreases cut - i, 1int,
{
    walk_reads_back(t, p, i, cut, v);
    let r = set_walk(t, p, i, cut, v)->Ok_0;
    skip_parts(p, i);
    rest_is_plain(q);
    let es = t->Table_0;
    let f = t->Table_1;
    let d = t->Table_2;
    let k = p[i]->Field_0;
    if i >= cut {
        if p.len() == cut + 1 {
            assert(p.skip(i + 1) =~= Seq::<St>::empty());
            assert(!apart(p.skip(i + 1), q.drop_first()));
            if field_val(t, k) != Some(v) {
                field_reads_back(t, k, v);
                key_front(r, q);
                key_front(t, q);
            }
        } else {
            let x = p[cut + 1]->Index_0;
            element_reads_back(t, k, x, v);
            skip_parts(p, i + 1);
            assert(p.skip(i + 2) =~= Seq::<St>::empty());
            assert(!apart(p.skip(i + 1).drop_first(), q.drop_first().drop_first()));
            assert(!apart(p.skip(i + 1), q.drop_first()));
            key_front(r, q);
            key_front(t, q);
        }
    } else {
        let j = slot(es, k);
        slot_bounds(es, k);
        let fs = r->Table_0;
        let indexed = i + 1 < cut && p[i + 1] is Index;
        if j < es.len() {
            assert(sound(es[j].node));
        }
        let sub = if j < es.len() {
            es[j].node
        } else {
            new_table(es, f)
        };
        let n = if indexed {
            elem_walk(es[j].node, k, p[i + 1]->Index_0 as int, p, i, cut, v)->Ok_0
        } else {
            set_walk(sub, p, i + 1, cut, v)->Ok_0
        };
        placed_field(es, fs, f, d, k, n);
        key_front(r, q);
        key_front(t, q);
        if q[0] == p[i] {
            assert(apart(p.skip(i + 1), q.drop_first()));
            if indexed {
                elem_leaves(es[j].node, k, p, i, cut, v, q.drop_first());
            } else {
                walk_leaves(sub, p, i + 1, cut, v, q.drop_first());
                if j >= es.len() {
                    skip_parts(p, i + 1);
                    if i + 1 < cut {
                        assert(p[i + 1] is Field);
                    }
                    empty_table_yields_nothing(sub, q.drop_first());
                }
            }
        }
    }
}

proof fn elem_leaves(n: Nd, k: Seq<char>, p: Seq<St>, i: int, cut: int, v: Val, q: Seq<St>)
    requires
        sound(n),
        proper(p, i, cut),
        i + 1 < cut,
        p[i + 1] is Index,
        plain_path(q),
        apart(p.skip(i + 1), q),
        unique_keys(v),
        elem_walk(n, k, p[i + 1]->Index_0 as int, p, i, cut, v) is Ok,
    ensures
        path_outs(q, nd_val(elem_walk(n, k, p[i + 1]->Index_0 as int, p, i, cut, v)->Ok_0))
            == path_outs(q, nd_val(n)),
    decreases cut - i, 0int,
{
    let x = p[i + 1]->Index_0 as int;
    let r = elem_walk(n, k, x, p, i, cut, v)->Ok_0;
    skip_parts(p, i + 1);
    rest_is_plain(q);
    let a = match n {
        Nd::Tables(a) => a,
        Nd::Array(a, _, _) => a,
        _ => Seq::empty(),
    };
    position_resolves(x, a.len() as int);
    let at = write_position(x, a.len() as int)->Ok_0;
    let sub = if at == a.len() {
        Nd::Table(Seq::empty(), plain_header(), no_decor())
    } else {
        a[at]
    };
    if at < a.len() {
        assert(sound(a[at]));
    }
    let b = match r {
        Nd::Tables(b) => b,
        Nd::Array(b, _, _) => b,
        _ => Seq::empty(),
    };
    assert(q[0] == p[i + 1]);
    index_front(r, b, q);
    index_front(n, a, q);
    walk_leaves(sub, p, i + 2, cut, v, q.drop_first());
    if at == a.len() {
        assert(p[i + 2] is Field);
        skip_parts(p, i + 2);
        assert(apart(p.skip(i + 2), q.drop_first()));
        assert(q.drop_first()[0] is Field);
        empty_table_yields_nothing(sub, q.drop_first());
    }
}

/// Setting a path leaves what stands under another key as it is.
pub proof fn toml_set_leaves_the_rest(root: Nd, p: Seq<St>, v: Val, q: Seq<St>)
    requires
        root is Table,
        sound(root),
        plain_path(p),
        plain_path(q),
        apart(p, q),
        unique_keys(v),
        nd_set(root, p, v) is Ok,
    ensures
        path_outs(q, nd_val(nd_set(root, p, v)->Ok_0)) == path_outs(q, nd_val(root)),
{
    let last = p.last();
    assert(p[p.len() - 1] == last);
    let cut = if last is Field {
        p.len() - 1
    } else {
        p.len() - 2
    };
    assert(p.skip(0) =~= p);
    walk_leaves(root, p, 0, cut, v, q);
}

/// Is every index behind a key?
pub open spec fn keyed_indices(p: Seq<St>) -> bool {
    forall|i: int| 0 <= i < p.len() && (#[trigger] p[i]) is Index ==> i > 0 && p[i - 1] is Field
}

/// Does the path yield no value?
pub open spec fn yields_nothing(v: Val, p: Seq<St>) -> bool {
    path_outs(p, v) is Err || path_outs(p, v)->Ok_0.len() == 0
}

proof fn removed_field(es: Seq<Et>, f: Fm, d: Dc, k: Seq<char>)
    requires
        unique_tree(Nd::Table(es, f, d)),
    ensures
        field_val(without_key(Nd::Table(es, f, d), k), k) is None,
        forall|other: Seq<char>|
            other != k ==> #[trigger] field_val(without_key(Nd::Table(es, f, d), k), other)
                == field_val(Nd::Table(es, f, d), other),
{
    slot_bounds(es, k);
    let j = slot(es, k);
    if j < es.len() {
        let fs = es.remove(j);
        assert forall|i: int| 0 <= i < fs.len() implies (#[trigger] fs[i]).name.key != k by {
            if i < j {
                assert(fs[i] == es[i]);
            } else {
                assert(fs[i] == es[i + 1]);
                assert(es[j].name.key != es[i + 1].name.key);
            }
        }
        slot_is(fs, k, fs.len() as int);
        assert forall|other: Seq<char>| other != k implies #[trigger] field_val(
            without_key(Nd::Table(es, f, d), k),
            other,
        ) == field_val(Nd::Table(es, f, d), other) by {
            slot_bounds(es, other);
            let s = slot(es, other);
            let u = if s < j {
                s
            } else {
                s - 1
            };
            assert forall|i: int| 0 <= i < u implies (#[trigger] fs[i]).name.key != other by {
                if i < j {
                    assert(fs[i] == es[i]);
                } else {
                    assert(fs[i] == es[i + 1]);
                }
            }
            if s < es.len() {
                assert(fs[u] == es[s]);
            }
            slot_is(fs, other, u);
        }
    }
}

proof fn drop_is_gone(t: Nd, p: Seq<St>, i: int, cut: int)
    requires
        t is Table,
        unique_tree(t),
        sound(t),
        proper(p, i, cut),
        p.len() == cut + 1,
        keyed_indices(p),
        i > 0 ==> i < p.len(),
        p[i] is Field,
    ensures
        drop_walk(t, p, i, cut) is Table,
        yields_nothing(nd_val(drop_walk(t, p, i, cut)), p.skip(i)),
    decreases cut - i, 1int,
{
    let r = drop_walk(t, p, i, cut);
    let q = p.skip(i);
    skip_parts(p, i);
    let es = t->Table_0;
    let f = t->Table_1;
    let d = t->Table_2;
    let k = p[i]->Field_0;
    slot_bounds(es, k);
    let j = slot(es, k);
    if i >= cut {
        removed_field(es, f, d, k);
        key_front(r, q);
    } else if j >= es.len() {
        key_front(r, q);
    } else {
        assert(unique_tree(es[j].node));
        assert(sound(es[j].node));
        let fs = r->Table_0;
        if i + 1 < cut && p[i + 1] is Index {
            let n = elem_drop(es[j].node, p[i + 1]->Index_0 as int, p, i, cut);
            placed_field(es, fs, f, d, k, n);
            key_front(r, q);
            elem_is_gone(es[j].node, p, i, cut);
        } else if es[j].node is Table {
            let n = drop_walk(es[j].node, p, i + 1, cut);
            placed_field(es, fs, f, d, k, n);
            key_front(r, q);
            if p[i + 1] is Index {
                assert(i + 1 >= cut);
                assert(p[cut] is Field);
            }
            drop_is_gone(es[j].node, p, i + 1, cut);
        } else {
            // What is no table has nothing under a key.
            key_front(r, q);
            skip_parts(p, i + 1);
            let n = es[j].node;
            if p[i + 1] is Index {
                assert(p[cut] is Field);
            }
            path_front(p.skip(i + 1), nd_val(n));
            if let Nd::Scalar(v, _, _) = n {
                scalar_has_no_keys(v, p.skip(i + 1));
            }
        }
    }
}

proof fn elem_is_gone(n: Nd, p: Seq<St>, i: int, cut: int)
    requires
        unique_tree(n),
        sound(n),
        proper(p, i, cut),
        i + 1 < cut,
        p.len() == cut + 1,
        p[i + 1] is Index,
        keyed_indices(p),
    ensures
        yields_nothing(nd_val(elem_drop(n, p[i + 1]->Index_0 as int, p, i, cut)), p.skip(i + 1)),
    decreases cut - i, 0int,
{
    let x = p[i + 1]->Index_0 as int;
    let r = elem_drop(n, x, p, i, cut);
    skip_parts(p, i + 1);
    assert(p[i + 2] is Field) by {
        assert(p[i + 2] is Field || p[i + 2] is Index);
        if p[i + 2] is Index {
            assert(p[i + 1] is Field);
        }
    }
    let a = match n {
        Nd::Tables(a) => a,
        Nd::Array(a, _, _) => a,
        _ => Seq::empty(),
    };
    if n is Tables || n is Array {
        let b = match r {
            Nd::Tables(b) => b,
            Nd::Array(b, _, _) => b,
            _ => Seq::empty(),
        };
        index_front(r, b, p.skip(i + 1));
        if let Some(at) = resolved(x, a.len() as int) {
            assert(unique_tree(a[at]));
            assert(sound(a[at]));
            if a[at] is Table {
                drop_is_gone(a[at], p, i + 2, cut);
            } else {
                skip_parts(p, i + 2);
                path_front(p.skip(i + 2), nd_val(a[at]));
                if let Nd::Scalar(v, _, _) = a[at] {
                    scalar_has_no_keys(v, p.skip(i + 2));
                }
            }
        }
    } else {
        path_front(p.skip(i + 1), nd_val(n));
        if let Nd::Scalar(v, _, _) = n {
            scalar_has_no_items(v, p.skip(i + 1));
        }
    }
}

/// What was deleted under a key is gone: the path yields nothing.
pub proof fn toml_deleted_is_gone(root: Nd, p: Seq<St>)
    requires
        root is Table,
        unique_tree(root),
        sound(root),
        plain_path(p),
        keyed_indices(p),
        p.len() > 0,
        p.last() is Field,
    ensures
        nd_drop(root, p) is Ok,
        yields_nothing(nd_val(nd_drop(root, p)->Ok_0), p),
{
    assert(p[p.len() - 1] == p.last());
    assert(p[0] is Field || p[0] is Index);
    assert(p.skip(0) =~= p);
    drop_is_gone(root, p, 0, p.len() - 1);
}

proof fn drop_leaves(t: Nd, p: Seq<St>, i: int, cut: int, q: Seq<St>)
    requires
        t is Table,
        unique_tree(t),
        sound(t),
        proper(p, i, cut),
        plain_path(q),
        apart(p.skip(i), q),
    ensures
        drop_walk(t, p, i, cut) is Table,
        path_outs(q, nd_val(drop_walk(t, p, i, cut))) == path_outs(q, nd_val(t)),
    decreases cut - i, 1int,
{
    let r = drop_walk(t, p, i, cut);
    skip_parts(p, i);
    rest_is_plain(q);
    let es = t->Table_0;
    let f = t->Table_1;
    let d = t->Table_2;
    if p[i] is Field && q[0] is Field {
        let k = p[i]->Field_0;
        slot_bounds(es, k);
        let j = slot(es, k);
        key_front(r, q);
        key_front(t, q);
        if i >= cut {
            removed_field(es, f, d, k);
            if p.len() == cut + 1 {
                assert(p.skip(i + 1) =~= Seq::<St>::empty());
                assert(!apart(p.skip(i + 1), q.drop_first()));
            } else {
                skip_parts(p, i + 1);
                assert(p.skip(i + 2) =~= Seq::<St>::empty());
                assert(!apart(p.skip(i + 1).drop_first(), q.drop_first().drop_first()));
                assert(!apart(p.skip(i + 1), q.drop_first()));
                if j < es.len() {
                    let fs = r->Table_0;
                    if fs != es {
                        placed_field(es, fs, f, d, k, fs[j].node);
                    }
                }
            }
        } else if j < es.len() {
            assert(unique_tree(es[j].node));
            assert(sound(es[j].node));
            let fs = r->Table_0;
            if i + 1 < cut && p[i + 1] is Index {
                let n = elem_drop(es[j].node, p[i + 1]->Index_0 as int, p, i, cut);
                placed_field(es, fs, f, d, k, n);
                if q[0] == p[i] {
                    elem_drop_leaves(es[j].node, p, i, cut, q.drop_first());
                }
            } else if es[j].node is Table {
                let n = drop_walk(es[j].node, p, i + 1, cut);
                placed_field(es, fs, f, d, k, n);
                if q[0] == p[i] {
                    drop_leaves(es[j].node, p, i + 1, cut, q.drop_first());
                }
            }
        }
    }
}

proof fn elem_drop_leaves(n: Nd, p: Seq<St>, i: int, cut: int, q: Seq<St>)
    requires
        unique_tree(n),
        sound(n),
        proper(p, i, cut),
        i + 1 < cut,
        p[i + 1] is Index,
        plain_path(q),
        apart(p.skip(i + 1), q),
    ensures
        path_outs(q, nd_val(elem_drop(n, p[i + 1]->Index_0 as int, p, i, cut))) == path_outs(
            q,
            nd_val(n),
        ),
    decreases cut - i, 0int,
{
    let x = p[i + 1]->Index_0 as int;
    let r = elem_drop(n, x, p, i, cut);
    skip_parts(p, i + 1);
    rest_is_plain(q);
    let a = match n {
        Nd::Tables(a) => a,
        Nd::Array(a, _, _) => a,
        _ => Seq::empty(),
    };
    if n is Tables || n is Array {
        let b = match r {
            Nd::Tables(b) => b,
            Nd::Array(b, _, _) => b,
            _ => Seq::empty(),
        };
        assert(q[0] == p[i + 1]);
        index_front(r, b, q);
        index_front(n, a, q);
        if let Some(at) = resolved(x, a.len() as int) {
            assert(unique_tree(a[at]));
            assert(sound(a[at]));
            if a[at] is Table {
                drop_leaves(a[at], p, i + 2, cut, q.drop_first());
            }
        }
    }
}

/// Deleting a path leaves what stands under another key as it is.
pub proof fn toml_delete_leaves_the_rest(root: Nd, p: Seq<St>, q: Seq<St>)
    requires
        root is Table,
        unique_tree(root),
        sound(root),
        plain_path(p),
        plain_path(q),
        apart(p, q),
    ensures
        nd_drop(root, p) is Ok,
        path_outs(q, nd_val(nd_drop(root, p)->Ok_0)) == path_outs(q, nd_val(root)),
{
    let last = p.last();
    assert(p[p.len() - 1] == last);
    assert(p.skip(0) =~= p);
    if last is Field {
        drop_leaves(root, p, 0, p.len() - 1, q);
    } else if p.len() >= 2 && p[p.len() - 2] is Field {
        drop_leaves(root, p, 0, p.len() - 2, q);
    }
}

proof fn same_entries(es: Seq<Et>, fs: Seq<Et>)
    requires
        es.len() == fs.len(),
        forall|i: int|
            0 <= i < es.len() ==> (#[trigger] fs[i]).name.key == es[i].name.key && nd_val(fs[i].node)
                == nd_val(es[i].node),
    ensures
        et_vals(fs, fs.len()) == et_vals(es, es.len()),
{
    et_vals_at(es, es.len());
    et_vals_at(fs, fs.len());
    assert forall|i: int| 0 <= i < es.len() implies #[trigger] et_vals(fs, fs.len())[i] == et_vals(
        es,
        es.len(),
    )[i] by {
        assert(fs[i].name.key == es[i].name.key);
    }
    assert(et_vals(fs, fs.len()) =~= et_vals(es, es.len()));
}

/// Writing or removing a comment changes no value.
pub proof fn toml_notes_keep_the_value(
    t: Nd,
    p: Seq<St>,
    i: int,
    kind: CommentKind,
    lines: Seq<Seq<char>>,
    suffix: Seq<char>,
)
    requires
        0 <= i < p.len(),
        note_walk(t, p, i, kind, lines, suffix) is Ok,
    ensures
        nd_val(note_walk(t, p, i, kind, lines, suffix)->Ok_0) == nd_val(t),
    decreases p.len() - i,
{
    let r = note_walk(t, p, i, kind, lines, suffix)->Ok_0;
    let es = t->Table_0;
    let k = p[i]->Field_0;
    slot_bounds(es, k);
    let j = slot(es, k);
    let fs = r->Table_0;
    if i + 1 < p.len() {
        toml_notes_keep_the_value(es[j].node, p, i + 1, kind, lines, suffix);
    }
    assert(fs == es.update(j, fs[j]));
    same_entries(es, fs);
}

} // verus!
