//! Edits of a TOML document leave a tree that a document can have.
use crate::index::resolved;
use crate::model::{St, Val};
use crate::toml::{toml_drop, toml_ok, toml_set, TomlDoc};
use crate::toml_change::{
    block_set, drop_walk, elem_drop, elem_walk, field_set, fields_set, item_set, new_table,
    overwritten, set_element, set_walk, wanted, without_element, without_key, write_position,
};
use crate::toml_nodes::{
    plain_header, table_ets, table_nd, value_ets, value_nd, value_nds,
};
use crate::toml_spell::{extended, extended_tables, pushed};
use crate::toml_tree::{
    distinct, formed, put, sized, slot, slot_bounds, sound, unique_tree, Et, Fl, Fm, Nd,
};
use vstd::prelude::*;

verus! {

/// A tree of a proper form and of a size that a machine can hold is sound, and has no
/// key twice in a table.
pub proof fn formed_is_sound(n: Nd)
    requires
        formed(n),
        sized(n),
    ensures
        sound(n),
        unique_tree(n),
    decreases n,
{
    match n {
        Nd::Array(a, _, _) => {
            assert forall|i: int| 0 <= i < a.len() implies sound(#[trigger] a[i]) && unique_tree(a[i]) by {
                assert(formed(a[i]) && sized(a[i]));
                assert(decreases_to!(n => a[i]));
                formed_is_sound(a[i]);
            }
        },
        Nd::Tables(a) => {
            assert forall|i: int| 0 <= i < a.len() implies sound(#[trigger] a[i]) && unique_tree(a[i]) by {
                assert(formed(a[i]) && sized(a[i]));
                assert(decreases_to!(n => a[i]));
                formed_is_sound(a[i]);
            }
        },
        Nd::Table(es, _, _) => {
            assert forall|i: int| 0 <= i < es.len() implies sound((#[trigger] es[i]).node) && unique_tree(
                es[i].node,
            ) by {
                assert(formed(es[i].node) && sized(es[i].node));
                assert(decreases_to!(n => es[i]));
                assert(decreases_to!(n => es[i].node));
                formed_is_sound(es[i].node);
            }
        },
        Nd::Scalar(_, _, _) => {},
    }
}

/// A sound tree without a key twice in a table is of a proper form.
pub proof fn sound_is_formed(n: Nd)
    requires
        sound(n),
        unique_tree(n),
    ensures
        formed(n),
    decreases n,
{
    match n {
        Nd::Array(a, _, _) => {
            assert forall|i: int| 0 <= i < a.len() implies formed(#[trigger] a[i]) by {
                assert(sound(a[i]) && unique_tree(a[i]));
                assert(decreases_to!(n => a[i]));
                sound_is_formed(a[i]);
            }
        },
        Nd::Tables(a) => {
            assert forall|i: int| 0 <= i < a.len() implies formed(#[trigger] a[i]) by {
                assert(sound(a[i]) && unique_tree(a[i]));
                assert(decreases_to!(n => a[i]));
                sound_is_formed(a[i]);
            }
        },
        Nd::Table(es, _, _) => {
            assert forall|i: int| 0 <= i < es.len() implies formed((#[trigger] es[i]).node) by {
                assert(sound(es[i].node) && unique_tree(es[i].node));
                assert(decreases_to!(n => es[i]));
                assert(decreases_to!(n => es[i].node));
                sound_is_formed(es[i].node);
            }
        },
        Nd::Scalar(_, _, _) => {},
    }
}

/// Entries of a proper form.
spec fn entries_formed(es: Seq<Et>) -> bool {
    (forall|i: int| 0 <= i < es.len() ==> formed((#[trigger] es[i]).node)) && distinct(es)
}

/// Nodes of a proper form.
spec fn all_formed(a: Seq<Nd>) -> bool {
    forall|i: int| 0 <= i < a.len() ==> formed(#[trigger] a[i])
}

proof fn updated(es: Seq<Et>, j: int, e: Et)
    requires
        entries_formed(es),
        0 <= j < es.len(),
        e.name.key == es[j].name.key,
        formed(e.node),
    ensures
        entries_formed(es.update(j, e)),
{
    let fs = es.update(j, e);
    assert forall|x: int, y: int| 0 <= x < y < fs.len() implies (#[trigger] fs[x]).name.key != (
    #[trigger] fs[y]).name.key by {
        assert(es[x].name.key != es[y].name.key);
    }
    assert forall|i: int| 0 <= i < fs.len() implies formed((#[trigger] fs[i]).node) by {
        if i != j {
            assert(fs[i] == es[i]);
        }
    }
}

proof fn added(es: Seq<Et>, e: Et)
    requires
        entries_formed(es),
        !(0 <= slot(es, e.name.key) < es.len()),
        formed(e.node),
    ensures
        entries_formed(es.push(e)),
{
    slot_bounds(es, e.name.key);
    let fs = es.push(e);
    assert forall|x: int, y: int| 0 <= x < y < fs.len() implies (#[trigger] fs[x]).name.key != (
    #[trigger] fs[y]).name.key by {
        assert(fs[x] == es[x]);
        if y < es.len() {
            assert(fs[y] == es[y]);
        }
    }
    assert forall|i: int| 0 <= i < fs.len() implies formed((#[trigger] fs[i]).node) by {
        if i < es.len() {
            assert(fs[i] == es[i]);
        }
    }
}

proof fn removed(es: Seq<Et>, j: int)
    requires
        entries_formed(es),
        0 <= j < es.len(),
    ensures
        entries_formed(es.remove(j)),
{
    let fs = es.remove(j);
    assert forall|x: int, y: int| 0 <= x < y < fs.len() implies (#[trigger] fs[x]).name.key != (
    #[trigger] fs[y]).name.key by {
        let u = if x < j {
            x
        } else {
            x + 1
        };
        let w = if y < j {
            y
        } else {
            y + 1
        };
        assert(fs[x] == es[u] && fs[y] == es[w]);
    }
    assert forall|i: int| 0 <= i < fs.len() implies formed((#[trigger] fs[i]).node) by {
        let u = if i < j {
            i
        } else {
            i + 1
        };
        assert(fs[i] == es[u]);
    }
}

proof fn placed(es: Seq<Et>, e: Et)
    requires
        entries_formed(es),
        formed(e.node),
    ensures
        entries_formed(put(es, e)),
{
    slot_bounds(es, e.name.key);
    let j = slot(es, e.name.key);
    if 0 <= j < es.len() {
        updated(es, j, put(es, e)[j]);
        assert(put(es, e) =~= es.update(j, put(es, e)[j]));
    } else {
        added(es, e);
    }
}

/// A value's tree is of a proper form.
proof fn value_formed(v: Val)
    ensures
        formed(value_nd(v)),
    decreases v, 0int, 0int,
{
    match v {
        Val::Array(a) => {
            values_formed(a, a.len());
        },
        Val::Object(m) => {
            members_formed(m, m.len());
        },
        _ => {},
    }
}

proof fn values_formed(a: Seq<Val>, n: nat)
    requires
        n <= a.len(),
    ensures
        all_formed(value_nds(a, n)),
    decreases a, 1int, n,
{
    if n > 0 {
        values_formed(a, (n - 1) as nat);
        value_formed(a[n - 1]);
    }
}

proof fn members_formed(m: Seq<(Seq<char>, Val)>, n: nat)
    requires
        n <= m.len(),
    ensures
        entries_formed(value_ets(m, n)),
    decreases m, 1int, n,
{
    if n > 0 {
        members_formed(m, (n - 1) as nat);
        value_formed(m[n - 1].1);
        placed(
            value_ets(m, (n - 1) as nat),
            Et { name: crate::toml_tree::fresh_name(m[n - 1].0), node: value_nd(m[n - 1].1) },
        );
    }
}

/// A value's tree in a table's place is of a proper form.
proof fn table_formed(v: Val)
    ensures
        formed(table_nd(v)),
        v is Object ==> table_nd(v) is Table,
    decreases v, 0int, 0int,
{
    match v {
        Val::Object(m) => {
            table_members_formed(m, m.len());
        },
        _ => {
            value_formed(v);
        },
    }
}

proof fn table_members_formed(m: Seq<(Seq<char>, Val)>, n: nat)
    requires
        n <= m.len(),
    ensures
        entries_formed(table_ets(m, n)),
    decreases m, 1int, n,
{
    if n > 0 {
        table_members_formed(m, (n - 1) as nat);
        table_formed(m[n - 1].1);
        placed(
            table_ets(m, (n - 1) as nat),
            Et { name: crate::toml_tree::fresh_name(m[n - 1].0), node: table_nd(m[n - 1].1) },
        );
    }
}

proof fn pushed_formed(a: Seq<Nd>, f: Fl, v: Nd)
    requires
        all_formed(a),
        formed(v),
    ensures
        all_formed(pushed(a, f, v).0),
{
    let r = pushed(a, f, v).0;
    assert forall|i: int| 0 <= i < r.len() implies formed(#[trigger] r[i]) by {
        if i < a.len() {
            assert(formed(a[i]));
        }
    }
}

proof fn extended_formed(a: Seq<Nd>, f: Fl, new: Seq<Val>, n: nat)
    requires
        all_formed(a),
    ensures
        all_formed(extended(a, f, new, n).0),
    decreases n,
{
    if n > a.len() && n <= new.len() {
        extended_formed(a, f, new, (n - 1) as nat);
        value_formed(new[n - 1]);
        let (b, g) = extended(a, f, new, (n - 1) as nat);
        pushed_formed(b, g, value_nd(new[n - 1]));
    }
}

proof fn extended_tables_formed(a: Seq<Nd>, new: Seq<Val>, n: nat)
    requires
        formed(Nd::Tables(a)),
        forall|i: int| a.len() <= i < new.len() ==> (#[trigger] new[i]) is Object,
    ensures
        formed(Nd::Tables(extended_tables(a, new, n))),
    decreases n,
{
    if n > a.len() && n <= new.len() {
        extended_tables_formed(a, new, (n - 1) as nat);
        table_formed(new[n - 1]);
    }
}

proof fn wanted_formed(es: Seq<Et>, m: Seq<(Seq<char>, Val)>, n: nat)
    requires
        entries_formed(es),
        n <= es.len(),
    ensures
        entries_formed(wanted(es, m, n)),
        forall|i: int|
            0 <= i < wanted(es, m, n).len() ==> exists|j: int|
                0 <= j < n && #[trigger] wanted(es, m, n)[i] == #[trigger] es[j],
    decreases n,
{
    if n > 0 {
        wanted_formed(es, m, (n - 1) as nat);
        let a = wanted(es, m, (n - 1) as nat);
        let r = wanted(es, m, n);
        assert forall|i: int| 0 <= i < r.len() implies exists|j: int|
            0 <= j < n && #[trigger] r[i] == #[trigger] es[j] by {
            if i < a.len() {
                let j = choose|j: int| 0 <= j < n - 1 && a[i] == es[j];
                assert(r[i] == es[j]);
            } else {
                assert(r[i] == es[n - 1]);
            }
        }
        if r.len() > a.len() {
            assert forall|x: int, y: int| 0 <= x < y < r.len() implies (#[trigger] r[x]).name.key != (
            #[trigger] r[y]).name.key by {
                assert(r[x] == a[x]);
                if y < a.len() {
                    assert(r[y] == a[y]);
                } else {
                    let j = choose|j: int| 0 <= j < n - 1 && a[x] == es[j];
                    assert(es[j].name.key != es[n - 1].name.key);
                }
            }
            assert forall|i: int| 0 <= i < r.len() implies formed((#[trigger] r[i]).node) by {
                if i < a.len() {
                    assert(r[i] == a[i]);
                } else {
                    assert(r[i] == es[n - 1]);
                }
            }
        }
    }
}

proof fn overwritten_formed(e: Et, v: Val)
    ensures
        formed(overwritten(e, v).node),
        overwritten(e, v).name.key == e.name.key,
{
    value_formed(v);
}

proof fn field_formed(t: Nd, k: Seq<char>, v: Val)
    requires
        formed(t),
    ensures
        formed(field_set(t, k, v)),
        t is Table ==> field_set(t, k, v) is Table && field_set(t, k, v)->Table_1 == t->Table_1,
    decreases v, 0int, 0int,
{
    if let Nd::Table(es, f, d) = t {
        assert(entries_formed(es));
        slot_bounds(es, k);
        let j = slot(es, k);
        value_formed(v);
        if !(0 <= j < es.len()) {
            added(es, Et { name: crate::toml_tree::fresh_name(k), node: value_nd(v) });
        } else {
            let e = es[j];
            assert(formed(e.node));
            overwritten_formed(e, v);
            match (e.node, v) {
                (Nd::Table(sub, Fm::Header { implicit, dotted, position }, sd), Val::Object(m)) => {
                    assert(entries_formed(sub));
                    wanted_formed(sub, m, sub.len());
                    let kept = Nd::Table(
                        wanted(sub, m, sub.len()),
                        Fm::Header { implicit, dotted, position },
                        sd,
                    );
                    assert(formed(kept));
                    fields_formed(kept, m, m.len());
                },
                (Nd::Array(a, fl, ad), Val::Array(new)) => {
                    extended_formed(a, fl, new, new.len());
                },
                (Nd::Tables(a), Val::Array(new)) => {
                    if crate::toml_spell::all_objects(new, a.len() as int) {
                        extended_tables_formed(a, new, new.len());
                    }
                },
                _ => {},
            }
            let now = field_set(t, k, v)->Table_0;
            updated(es, j, now[j]);
            assert(now =~= es.update(j, now[j]));
        }
    }
}

proof fn fields_formed(t: Nd, m: Seq<(Seq<char>, Val)>, n: nat)
    requires
        formed(t),
        n <= m.len(),
    ensures
        formed(fields_set(t, m, n)),
    decreases m, 1int, n,
{
    if n > 0 {
        fields_formed(t, m, (n - 1) as nat);
        field_formed(fields_set(t, m, (n - 1) as nat), m[n - 1].0, m[n - 1].1);
    }
}

proof fn block_formed(a: Seq<Nd>, i: int, v: Val)
    requires
        formed(Nd::Tables(a)),
        v is Object,
        block_set(a, i, v) is Ok,
    ensures
        formed(Nd::Tables(block_set(a, i, v)->Ok_0)),
{
    table_formed(v);
    let b = block_set(a, i, v)->Ok_0;
    assert forall|x: int| 0 <= x < b.len() implies formed(#[trigger] b[x]) && b[x] is Table by {
        if x < a.len() {
            assert(formed(a[x]) && a[x] is Table);
        }
    }
}

proof fn item_formed(a: Seq<Nd>, f: Fl, i: int, v: Val)
    requires
        all_formed(a),
        item_set(a, f, i, v) is Ok,
    ensures
        all_formed(item_set(a, f, i, v)->Ok_0.0),
{
    value_formed(v);
    pushed_formed(a, f, value_nd(v));
    let b = item_set(a, f, i, v)->Ok_0.0;
    let at = write_position(i, a.len() as int)->Ok_0;
    if at < a.len() {
        assert forall|x: int| 0 <= x < b.len() implies formed(#[trigger] b[x]) by {
            assert(formed(a[x]));
        }
    }
}

proof fn element_formed(t: Nd, k: Seq<char>, i: int, v: Val)
    requires
        formed(t),
        set_element(t, k, i, v) is Ok,
    ensures
        formed(set_element(t, k, i, v)->Ok_0),
        t is Table ==> set_element(t, k, i, v)->Ok_0 is Table && set_element(t, k, i, v)->Ok_0->Table_1
            == t->Table_1,
{
    if let Nd::Table(es, f, d) = t {
        assert(entries_formed(es));
        slot_bounds(es, k);
        let j = slot(es, k);
        let there = 0 <= j < es.len();
        let none = Seq::<Nd>::empty();
        assert(formed(Nd::Tables(none)));
        if there {
            assert(formed(es[j].node));
            if es[j].node is Tables && v is Object {
                block_formed(es[j].node->Tables_0, i, v);
            } else if v is Object && crate::toml_change::takes_blocks(es, j) {
                block_formed(none, i, v);
            } else if es[j].node is Array {
                assert(all_formed(es[j].node->Array_0));
                item_formed(es[j].node->Array_0, es[j].node->Array_1, i, v);
            }
            let now = set_element(t, k, i, v)->Ok_0->Table_0;
            updated(es, j, now[j]);
            assert(now =~= es.update(j, now[j]));
        } else {
            if v is Object {
                block_formed(none, i, v);
            } else {
                item_formed(none, crate::toml_tree::no_fill(), i, v);
            }
            let now = set_element(t, k, i, v)->Ok_0->Table_0;
            added(es, now.last());
            assert(now =~= es.push(now.last()));
        }
    }
}

proof fn walk_formed(t: Nd, p: Seq<St>, i: int, cut: int, v: Val)
    requires
        formed(t),
        0 <= i <= cut < p.len(),
        set_walk(t, p, i, cut, v) is Ok,
    ensures
        formed(set_walk(t, p, i, cut, v)->Ok_0),
        t is Table ==> set_walk(t, p, i, cut, v)->Ok_0 is Table && set_walk(
            t,
            p,
            i,
            cut,
            v,
        )->Ok_0->Table_1 == t->Table_1,
    decreases cut - i,
{
    if i >= cut {
        if let St::Field(k) = p[cut] {
            if p.len() == cut + 1 {
                field_formed(t, k, v);
            } else if let St::Index(x) = p[cut + 1] {
                element_formed(t, k, x as int, v);
            }
        }
    } else if let (St::Field(k), Nd::Table(es, f, d)) = (p[i], t) {
        assert(entries_formed(es));
        slot_bounds(es, k);
        let j = slot(es, k);
        let there = 0 <= j < es.len();
        if there {
            assert(formed(es[j].node));
        }
        if i + 1 < cut && p[i + 1] is Index {
            let x = p[i + 1]->Index_0 as int;
            elem_formed(es[j].node, k, x, p, i, cut, v);
            let now = set_walk(t, p, i, cut, v)->Ok_0->Table_0;
            updated(es, j, now[j]);
            assert(now =~= es.update(j, now[j]));
        } else {
            let sub = if there {
                es[j].node
            } else {
                new_table(es, f)
            };
            assert(formed(sub));
            walk_formed(sub, p, i + 1, cut, v);
            let now = set_walk(t, p, i, cut, v)->Ok_0->Table_0;
            if there {
                updated(es, j, now[j]);
                assert(now =~= es.update(j, now[j]));
            } else {
                added(es, now.last());
                assert(now =~= es.push(now.last()));
            }
        }
    }
}

proof fn elem_formed(n: Nd, k: Seq<char>, x: int, p: Seq<St>, i: int, cut: int, v: Val)
    requires
        formed(n),
        0 <= i < cut < p.len(),
        elem_walk(n, k, x, p, i, cut, v) is Ok,
    ensures
        formed(elem_walk(n, k, x, p, i, cut, v)->Ok_0),
    decreases cut - i - 1,
{
    match n {
        Nd::Tables(a) => {
            let at = write_position(x, a.len() as int)->Ok_0;
            let sub = if at == a.len() {
                Nd::Table(Seq::empty(), plain_header(), crate::toml_tree::no_decor())
            } else {
                a[at]
            };
            assert(formed(sub) && sub is Table);
            walk_formed(sub, p, i + 2, cut, v);
            let b = elem_walk(n, k, x, p, i, cut, v)->Ok_0->Tables_0;
            assert forall|y: int| 0 <= y < b.len() implies formed(#[trigger] b[y]) && b[y] is Table by {
                if y < a.len() {
                    assert(formed(a[y]) && a[y] is Table);
                }
            }
        },
        Nd::Array(a, f, d) => {
            let at = write_position(x, a.len() as int)->Ok_0;
            assert(formed(a[at]));
            walk_formed(a[at], p, i + 2, cut, v);
            let b = elem_walk(n, k, x, p, i, cut, v)->Ok_0->Array_0;
            assert forall|y: int| 0 <= y < b.len() implies formed(#[trigger] b[y]) by {
                assert(formed(a[y]));
            }
        },
        _ => {},
    }
}

/// Setting a path leaves a document that can be edited on: its root is a standard
/// table, and its tree is of a proper form.
pub proof fn toml_set_keeps_form(d: TomlDoc, path: Seq<St>, v: Val)
    requires
        toml_ok(d),
        toml_set(d, path, v) is Ok,
    ensures
        toml_ok(toml_set(d, path, v)->Ok_0),
{
    if path.last() is Field {
        walk_formed(d.root, path, 0, path.len() - 1, v);
    } else {
        walk_formed(d.root, path, 0, path.len() - 2, v);
    }
}

proof fn taken_formed(a: Seq<Nd>, at: int)
    requires
        0 <= at < a.len(),
    ensures
        all_formed(a) ==> all_formed(a.remove(at)),
        formed(Nd::Tables(a)) ==> formed(Nd::Tables(a.remove(at))),
{
    let b = a.remove(at);
    assert forall|x: int| 0 <= x < b.len() implies #[trigger] b[x] == a[if x < at {
        x
    } else {
        x + 1
    }] by {}
}

proof fn key_gone_formed(t: Nd, k: Seq<char>)
    requires
        formed(t),
    ensures
        formed(without_key(t, k)),
        t is Table ==> without_key(t, k) is Table && without_key(t, k)->Table_1 == t->Table_1,
{
    if let Nd::Table(es, f, d) = t {
        assert(entries_formed(es));
        let j = slot(es, k);
        if 0 <= j < es.len() {
            removed(es, j);
        }
    }
}

proof fn element_gone_formed(t: Nd, k: Seq<char>, i: int)
    requires
        formed(t),
    ensures
        formed(without_element(t, k, i)),
        t is Table ==> without_element(t, k, i) is Table && without_element(t, k, i)->Table_1
            == t->Table_1,
{
    if let Nd::Table(es, f, d) = t {
        assert(entries_formed(es));
        let j = slot(es, k);
        if 0 <= j < es.len() {
            assert(formed(es[j].node));
            match es[j].node {
                Nd::Tables(a) => {
                    if let Some(at) = resolved(i, a.len() as int) {
                        taken_formed(a, at);
                        updated(es, j, Et { name: es[j].name, node: Nd::Tables(a.remove(at)) });
                    }
                },
                Nd::Array(a, fl, ad) => {
                    if let Some(at) = resolved(i, a.len() as int) {
                        assert(all_formed(a));
                        taken_formed(a, at);
                        updated(es, j, Et { name: es[j].name, node: Nd::Array(a.remove(at), fl, ad) });
                    }
                },
                _ => {},
            }
        }
    }
}

proof fn drop_formed(t: Nd, p: Seq<St>, i: int, cut: int)
    requires
        formed(t),
        0 <= i <= cut < p.len(),
    ensures
        formed(drop_walk(t, p, i, cut)),
        t is Table ==> drop_walk(t, p, i, cut) is Table && drop_walk(t, p, i, cut)->Table_1
            == t->Table_1,
    decreases cut - i,
{
    if i >= cut {
        if let St::Field(k) = p[cut] {
            key_gone_formed(t, k);
            if p.len() > cut + 1 {
                if let St::Index(x) = p[cut + 1] {
                    element_gone_formed(t, k, x as int);
                }
            }
        }
    } else if let (St::Field(k), Nd::Table(es, f, d)) = (p[i], t) {
        assert(entries_formed(es));
        let j = slot(es, k);
        if 0 <= j < es.len() {
            assert(formed(es[j].node));
            if i + 1 < cut && p[i + 1] is Index {
                let x = p[i + 1]->Index_0 as int;
                elem_drop_formed(es[j].node, x, p, i, cut);
                updated(es, j, Et { name: es[j].name, node: elem_drop(es[j].node, x, p, i, cut) });
            } else if es[j].node is Table {
                drop_formed(es[j].node, p, i + 1, cut);
                updated(es, j, Et { name: es[j].name, node: drop_walk(es[j].node, p, i + 1, cut) });
            }
        }
    }
}

proof fn elem_drop_formed(n: Nd, x: int, p: Seq<St>, i: int, cut: int)
    requires
        formed(n),
        0 <= i < cut < p.len(),
    ensures
        formed(elem_drop(n, x, p, i, cut)),
    decreases cut - i - 1,
{
    match n {
        Nd::Tables(a) => {
            if let Some(at) = resolved(x, a.len() as int) {
                if i + 1 < cut {
                    assert(formed(a[at]) && a[at] is Table);
                    drop_formed(a[at], p, i + 2, cut);
                    let b = a.update(at, drop_walk(a[at], p, i + 2, cut));
                    assert forall|y: int| 0 <= y < b.len() implies formed(#[trigger] b[y]) && b[y] is Table by {
                        assert(formed(a[y]) && a[y] is Table);
                    }
                }
            }
        },
        Nd::Array(a, f, d) => {
            if let Some(at) = resolved(x, a.len() as int) {
                if a[at] is Table && i + 1 < cut {
                    assert(formed(a[at]));
                    drop_formed(a[at], p, i + 2, cut);
                    let b = a.update(at, drop_walk(a[at], p, i + 2, cut));
                    assert forall|y: int| 0 <= y < b.len() implies formed(#[trigger] b[y]) by {
                        assert(formed(a[y]));
                    }
                }
            }
        },
        _ => {},
    }
}

/// Deleting a path leaves a document that can be edited on.
pub proof fn toml_drop_keeps_form(d: TomlDoc, path: Seq<St>)
    requires
        toml_ok(d),
        toml_drop(d, path) is Ok,
    ensures
        toml_ok(toml_drop(d, path)->Ok_0),
{
    if path.len() > 0 {
        if path.last() is Field {
            drop_formed(d.root, path, 0, path.len() - 1);
        } else if path.len() >= 2 && path[path.len() - 2] is Field && path.last() is Index {
            drop_formed(d.root, path, 0, path.len() - 2);
        }
    }
}

} // verus!
