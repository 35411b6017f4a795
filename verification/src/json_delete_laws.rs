//! Deleting from a JSON document agrees with deleting from its value.
use crate::eval_laws::{key_from_is, plain_path, rest_is_plain, without_key_is};
use crate::index::resolved;
use crate::json_edit::{
    child_bounds, entries_of, js_delete, named_entry, named_entry_bounds, with_value_at,
    without_child, without_element, without_member,
};
use crate::json_laws::{
    deleting_removes_the_element, deleting_removes_the_member, members_are, same_entry, vals_are,
};
use crate::json_nodes::{es_members, es_vals, js_val, literal_val};
use crate::json_tree::{En, Js};
use crate::jsonc::{jsonc_delete, JsoncDoc};
use crate::model::{St, Val};
use crate::semantics::{del_at, remove_at, without_key};
use crate::toml_laws::{distinct_names, unique_keys};
use crate::value::{key_at, key_at_bounds};
use vstd::prelude::*;

verus! {

/// Is the node one that a document can have: every member has a key, an element has
/// none, and a literal is no list?
pub open spec fn js_ok(n: Js) -> bool
    decreases n,
{
    match n {
        Js::Scalar(l) => !(literal_val(l) is Array) && !(literal_val(l) is Object),
        Js::Object(_, es) => forall|i: int|
            0 <= i < es.len() ==> (#[trigger] es[i]).key is Some && js_ok(es[i].value),
        Js::Array(_, es) => forall|i: int|
            0 <= i < es.len() ==> (#[trigger] es[i]).key is None && js_ok(es[i].value),
    }
}

/// The entry of a name is the member of that key.
pub proof fn entry_is_member(es: Seq<En>, k: Seq<char>)
    requires
        forall|i: int| 0 <= i < es.len() ==> (#[trigger] es[i]).key is Some,
    ensures
        named_entry(es, k, 0) == key_at(es_members(es, es.len()), k),
        0 <= named_entry(es, k, 0) <= es.len(),
{
    let m = es_members(es, es.len());
    members_are(es, es.len());
    named_entry_bounds(es, k, 0);
    let i = named_entry(es, k, 0);
    assert forall|j: int| 0 <= j < i implies (#[trigger] m[j]).0 != k by {
        assert(es[j].key is Some);
    }
    key_from_is(m, k, 0, i);
}

/// Of members with distinct names, taking a name away takes one member away.
pub proof fn key_taken(m: Seq<(Seq<char>, Val)>, i: int)
    requires
        0 <= i < m.len(),
        distinct_names(m),
    ensures
        without_key(m, m[i].0) == m.remove(i),
    decreases m.len(),
{
    let k = m[i].0;
    let init = m.drop_last();
    if i == m.len() - 1 {
        assert forall|j: int| 0 <= j < init.len() implies (#[trigger] init[j]).0 != k by {
            assert(m[j].0 != m[i].0);
        }
        without_key_is(init, k);
        assert(m.remove(i) =~= init);
    } else {
        assert(m[i].0 != m[m.len() - 1].0);
        assert forall|a: int, b: int| 0 <= a < b < init.len() implies (#[trigger] init[a]).0 != (
        #[trigger] init[b]).0 by {
            assert(m[a].0 != m[b].0);
        }
        key_taken(init, i);
        assert(m.remove(i) =~= init.remove(i).push(m.last()));
    }
}

proof fn value_replaced(n: Js, i: int, x: Js)
    requires
        js_ok(n),
        js_ok(x),
        0 <= i < entries_of(n).len(),
    ensures
        js_ok(with_value_at(n, i, x)),
        match n {
            Js::Object(_, es) => js_val(with_value_at(n, i, x)) == Val::Object(
                es_members(es, es.len()).update(i, (es_members(es, es.len())[i].0, js_val(x))),
            ),
            Js::Array(_, es) => js_val(with_value_at(n, i, x)) == Val::Array(
                es_vals(es, es.len()).update(i, js_val(x)),
            ),
            _ => true,
        },
{
    let es = entries_of(n);
    let now = entries_of(with_value_at(n, i, x));
    assert forall|j: int| 0 <= j < now.len() implies (#[trigger] now[j]).key == es[j].key && js_ok(
        now[j].value,
    ) by {
        assert(js_ok(es[j].value));
    }
    members_are(es, es.len());
    members_are(now, now.len());
    vals_are(es, es.len());
    vals_are(now, now.len());
    assert(es_members(now, now.len()) =~= es_members(es, es.len()).update(
        i,
        (es_members(es, es.len())[i].0, js_val(x)),
    ));
    assert(es_vals(now, now.len()) =~= es_vals(es, es.len()).update(i, js_val(x)));
}

proof fn child_removed(n: Js, st: St)
    requires
        js_ok(n),
        unique_keys(js_val(n)),
        st is Field || st is Index,
        remove_at(js_val(n), st) is Ok,
    ensures
        without_child(n, st) is Ok,
        js_val(without_child(n, st)->Ok_0) == remove_at(js_val(n), st)->Ok_0,
        js_ok(without_child(n, st)->Ok_0),
{
    child_bounds(n, st);
    match (n, st) {
        (Js::Object(pre, es), St::Field(k)) => {
            let m = es_members(es, es.len());
            members_are(es, es.len());
            entry_is_member(es, k);
            key_at_bounds(m, k);
            let i = named_entry(es, k, 0);
            if i < es.len() {
                deleting_removes_the_member(pre, es, i);
                assert(distinct_names(m));
                key_taken(m, i);
                let now = without_member(pre, es, i).1;
                kept_ok(es, now, i);
            } else {
                without_key_is(m, k);
            }
        },
        (Js::Array(pre, es), St::Index(x)) => {
            vals_are(es, es.len());
            if let Some(i) = resolved(x as int, es.len() as int) {
                deleting_removes_the_element(pre, es, i);
                let now = without_element(pre, es, i).1;
                kept_ok(es, now, i);
            }
        },
        _ => {},
    }
}

/// The entries that stay are those that were there.
proof fn kept_ok(es: Seq<En>, now: Seq<En>, i: int)
    requires
        0 <= i < es.len(),
        now.len() == es.len() - 1,
        forall|k: int|
            0 <= k < now.len() ==> same_entry(
                #[trigger] now[k],
                es[if k < i {
                    k
                } else {
                    k + 1
                }],
            ),
    ensures
        (forall|k: int| 0 <= k < es.len() ==> (#[trigger] es[k]).key is Some && js_ok(es[k].value)) ==> (
        forall|k: int| 0 <= k < now.len() ==> (#[trigger] now[k]).key is Some && js_ok(now[k].value)),
        (forall|k: int| 0 <= k < es.len() ==> (#[trigger] es[k]).key is None && js_ok(es[k].value)) ==> (
        forall|k: int| 0 <= k < now.len() ==> (#[trigger] now[k]).key is None && js_ok(now[k].value)),
{
    assert forall|k: int| 0 <= k < now.len() implies (exists|j: int|
        0 <= j < es.len() && same_entry(#[trigger] now[k], #[trigger] es[j])) by {
        let j = if k < i {
            k
        } else {
            k + 1
        };
        assert(same_entry(now[k], es[j]));
    }
}

/// Deleting a path from a node agrees with deleting it from the node's value. It is
/// stated of values in which no object has a key twice.
pub proof fn deleting_agrees(n: Js, path: Seq<St>)
    requires
        js_ok(n),
        unique_keys(js_val(n)),
        plain_path(path),
        path.len() > 0,
        del_at(js_val(n), path) is Ok,
    ensures
        js_delete(n, path) is Ok,
        js_val(js_delete(n, path)->Ok_0) == del_at(js_val(n), path)->Ok_0,
        js_ok(js_delete(n, path)->Ok_0),
    decreases path.len(),
{
    assert(path[0] is Field || path[0] is Index);
    if path.len() == 1 {
        child_removed(n, path[0]);
    } else {
        let rest = path.drop_first();
        rest_is_plain(path);
        child_bounds(n, path[0]);
        match (n, path[0]) {
            (Js::Object(pre, es), St::Field(k)) => {
                let m = es_members(es, es.len());
                members_are(es, es.len());
                entry_is_member(es, k);
                key_at_bounds(m, k);
                let i = named_entry(es, k, 0);
                if i < es.len() {
                    assert(m[i].1 == js_val(es[i].value));
                    assert(unique_keys(m[i].1));
                    deleting_agrees(es[i].value, rest);
                    value_replaced(n, i, js_delete(es[i].value, rest)->Ok_0);
                }
            },
            (Js::Array(pre, es), St::Index(x)) => {
                let a = es_vals(es, es.len());
                vals_are(es, es.len());
                if let Some(i) = resolved(x as int, es.len() as int) {
                    assert(a[i] == js_val(es[i].value));
                    assert(unique_keys(a[i]));
                    deleting_agrees(es[i].value, rest);
                    value_replaced(n, i, js_delete(es[i].value, rest)->Ok_0);
                }
            },
            _ => {},
        }
    }
}

/// Deleting a path from a document agrees with `del` on its value.
pub proof fn jsonc_delete_agrees(d: JsoncDoc, path: Seq<St>)
    requires
        js_ok(d.value),
        unique_keys(js_val(d.value)),
        plain_path(path),
        path.len() > 0,
        del_at(js_val(d.value), path) is Ok,
    ensures
        jsonc_delete(d, path).1 is Ok,
        js_val(jsonc_delete(d, path).0.value) == del_at(js_val(d.value), path)->Ok_0,
        js_ok(jsonc_delete(d, path).0.value),
{
    deleting_agrees(d.value, path);
    assert(!crate::mutate::iterates(path)) by {
        if crate::mutate::iterates(path) {
            let i = choose|i: int| 0 <= i < path.len() && path[i] == St::Iterate;
            assert(path[i] is Field || path[i] is Index);
        }
    }
}

} // verus!
