//! What holds of edits of a KDL tree.
use crate::kdl_change::{
    arg_slots, arg_slots_bounds, kv_same, occurrences, occurrences_bounds, prop_slot, props_only,
    row_extends, row_pushed, row_replaced, row_updated,
};
use crate::kdl_edit::{
    brace_line, doc_drop, led, nodes_dropped, nodes_removed, within_drop, without_prop,
};
use crate::kdl_nodes::{
    arg_member, arg_vals, args_key, doc_members, doc_val, group_from, groups, node_val, one_or_all,
    prop_vals, scalar_val,
};
use crate::kdl_notes::{note_below, note_walk};
use crate::kdl_tree::{Ka, Kd, Kn, Kv};
use crate::eval_laws::{key_before, key_from_is, path_front, plain_path};
use crate::model::{CommentKind, St, Val};
use crate::toml_laws::yields_nothing;
use crate::value::{get_key, key_at, key_at_bounds};
use vstd::prelude::*;

verus! {

/// The scalars of the arguments among the first `n` entries.
pub open spec fn arg_scalars(es: Seq<Ka>, n: nat) -> Seq<Kv>
    decreases n,
{
    if n == 0 || n > es.len() {
        Seq::empty()
    } else if es[n - 1].name is None {
        arg_scalars(es, (n - 1) as nat).push(es[n - 1].value)
    } else {
        arg_scalars(es, (n - 1) as nat)
    }
}

pub proof fn scalars_at_slots(es: Seq<Ka>, n: nat)
    requires
        n <= es.len(),
    ensures
        arg_scalars(es, n).len() == arg_slots(es, n).len(),
        forall|i: int|
            0 <= i < arg_slots(es, n).len() ==> #[trigger] arg_scalars(es, n)[i]
                == es[arg_slots(es, n)[i]].value,
    decreases n,
{
    arg_slots_bounds(es, n);
    if n > 0 {
        arg_slots_bounds(es, (n - 1) as nat);
        scalars_at_slots(es, (n - 1) as nat);
    }
}

pub proof fn front_alike(a: Seq<Ka>, b: Seq<Ka>, n: nat)
    requires
        n <= a.len(),
        n <= b.len(),
        forall|i: int| 0 <= i < n ==> (#[trigger] a[i]).name == b[i].name,
    ensures
        arg_slots(a, n) == arg_slots(b, n),
    decreases n,
{
    if n > 0 {
        front_alike(a, b, (n - 1) as nat);
        assert(a[n - 1].name == b[n - 1].name);
    }
}

proof fn scalars_of_front(a: Seq<Ka>, b: Seq<Ka>, n: nat)
    requires
        n <= a.len(),
        n <= b.len(),
        forall|i: int| 0 <= i < n ==> #[trigger] a[i] == b[i],
    ensures
        arg_scalars(a, n) == arg_scalars(b, n),
        prop_vals(a, n) == prop_vals(b, n),
    decreases n,
{
    if n > 0 {
        scalars_of_front(a, b, (n - 1) as nat);
        assert(a[n - 1] == b[n - 1]);
    }
}

proof fn pushed_row(es: Seq<Ka>, new: Seq<Kv>, from: int, n: int)
    requires
        0 <= from <= n <= new.len(),
    ensures
        row_pushed(es, new, from, n).len() == es.len() + (n - from),
        arg_scalars(row_pushed(es, new, from, n), row_pushed(es, new, from, n).len())
            == arg_scalars(es, es.len()) + new.subrange(from, n),
        prop_vals(row_pushed(es, new, from, n), row_pushed(es, new, from, n).len()) == prop_vals(
            es,
            es.len(),
        ),
    decreases n - from,
{
    if n > from {
        pushed_row(es, new, from, n - 1);
        let a = row_pushed(es, new, from, n - 1);
        let b = row_pushed(es, new, from, n);
        scalars_of_front(a, b, a.len());
        assert(new.subrange(from, n) =~= new.subrange(from, n - 1).push(new[n - 1]));
        assert(arg_scalars(b, b.len()) =~= arg_scalars(es, es.len()) + new.subrange(from, n));
    } else {
        assert(arg_scalars(es, es.len()) + new.subrange(from, n) =~= arg_scalars(es, es.len()));
    }
}

proof fn updated_row(es: Seq<Ka>, new: Seq<Kv>, n: nat)
    requires
        n <= arg_slots(es, es.len()).len(),
        arg_slots(es, es.len()).len() == new.len(),
    ensures
        ({
            let slots = arg_slots(es, es.len());
            let r = row_updated(es, slots, new, n);
            &&& r.len() == es.len()
            &&& forall|i: int| 0 <= i < es.len() ==> (#[trigger] r[i]).name == es[i].name
            &&& forall|i: int| 0 <= i < n ==> r[#[trigger] slots[i]].value == new[i]
            &&& forall|i: int| 0 <= i < es.len() && es[i].name is Some ==> #[trigger] r[i] == es[i]
        }),
    decreases n,
{
    arg_slots_bounds(es, es.len());
    if n > 0 {
        updated_row(es, new, (n - 1) as nat);
        let slots = arg_slots(es, es.len());
        let before = row_updated(es, slots, new, (n - 1) as nat);
        let r = row_updated(es, slots, new, n);
        let at = slots[n - 1];
        assert(es[at].name is None);
        assert forall|i: int| 0 <= i < n implies r[#[trigger] slots[i]].value == new[i] by {
            if i < n - 1 {
                assert(slots[i] < slots[n - 1]);
            }
        }
    }
}

pub proof fn props_alike(a: Seq<Ka>, b: Seq<Ka>, n: nat)
    requires
        n <= a.len(),
        n <= b.len(),
        forall|i: int| 0 <= i < n ==> (#[trigger] a[i]).name == b[i].name,
        forall|i: int| 0 <= i < n && b[i].name is Some ==> #[trigger] a[i] == b[i],
    ensures
        prop_vals(a, n) == prop_vals(b, n),
    decreases n,
{
    if n > 0 {
        props_alike(a, b, (n - 1) as nat);
        assert(a[n - 1].name == b[n - 1].name);
    }
}

proof fn props_only_are(es: Seq<Ka>, n: nat)
    requires
        n <= es.len(),
    ensures
        arg_scalars(props_only(es, n), props_only(es, n).len()).len() == 0,
        prop_vals(props_only(es, n), props_only(es, n).len()) == prop_vals(es, n),
    decreases n,
{
    if n > 0 {
        props_only_are(es, (n - 1) as nat);
        let a = props_only(es, (n - 1) as nat);
        let b = props_only(es, n);
        if es[n - 1].name is Some {
            scalars_of_front(a, b, a.len());
        }
    }
}

/// After a row of arguments is replaced, the arguments are the new ones (as far as
/// KDL tells numbers apart), and the properties are what they were.
pub proof fn kdl_row_reads_back(es: Seq<Ka>, new: Seq<Kv>)
    ensures
        ({
            let r = row_replaced(es, new);
            let got = arg_scalars(r, r.len());
            &&& got.len() == new.len()
            &&& forall|i: int| 0 <= i < new.len() ==> kv_same(#[trigger] got[i], new[i])
            &&& prop_vals(r, r.len()) == prop_vals(es, es.len())
        }),
{
    let slots = arg_slots(es, es.len());
    let r = row_replaced(es, new);
    let got = arg_scalars(r, r.len());
    arg_slots_bounds(es, es.len());
    scalars_at_slots(es, es.len());
    if row_extends(es, slots, new) {
        pushed_row(es, new, slots.len() as int, new.len() as int);
        assert forall|i: int| 0 <= i < new.len() implies kv_same(#[trigger] got[i], new[i]) by {
            if i < slots.len() {
                assert(got[i] == arg_scalars(es, es.len())[i]);
                assert(kv_same(es[slots[i]].value, new[i]));
            }
        }
    } else if slots.len() == new.len() {
        updated_row(es, new, slots.len());
        front_alike(es, r, es.len());
        scalars_at_slots(r, r.len());
        assert forall|i: int| 0 <= i < new.len() implies kv_same(#[trigger] got[i], new[i]) by {
            assert(got[i] == r[slots[i]].value);
        }
        props_alike(r, es, es.len());
    } else {
        props_only_are(es, es.len());
        pushed_row(props_only(es, es.len()), new, 0, new.len() as int);
        assert(got =~= new.subrange(0, new.len() as int));
        assert(got =~= new);
    }
}

/// A node is what it was for every reader of values when only its layout changed.
pub proof fn layout_keeps_value(n: Kn, m: Kn)
    requires
        m.args == n.args,
        m.children == n.children,
    ensures
        node_val(m) == node_val(n),
{
}

pub proof fn groups_alike(a: Seq<Kn>, b: Seq<Kn>, n: nat)
    requires
        n <= a.len(),
        a.len() == b.len(),
        forall|i: int|
            0 <= i < a.len() ==> (#[trigger] a[i]).name.value == b[i].name.value && node_val(a[i])
                == node_val(b[i]),
    ensures
        groups(a, n) == groups(b, n),
    decreases n,
{
    if n > 0 {
        groups_alike(a, b, (n - 1) as nat);
        assert(a[n - 1].name.value == b[n - 1].name.value);
    }
}

proof fn replaced_keeps_value(d: Kd, i: int, k: Kn)
    requires
        0 <= i < d.nodes.len(),
        k.name.value == d.nodes[i].name.value,
        node_val(k) == node_val(d.nodes[i]),
    ensures
        doc_members(Kd { nodes: d.nodes.update(i, k), form: d.form }) == doc_members(d),
{
    let e = Kd { nodes: d.nodes.update(i, k), form: d.form };
    groups_alike(e.nodes, d.nodes, d.nodes.len());
    assert(doc_members(e) =~= doc_members(d));
}

/// Writing or removing a comment changes no value.
pub proof fn kdl_notes_keep_the_value(
    d: Kd,
    p: Seq<St>,
    i: int,
    kind: CommentKind,
    text: Option<Seq<char>>,
    width: int,
)
    requires
        0 <= i,
        note_walk(d, p, i, kind, text, width) is Ok,
    ensures
        doc_val(note_walk(d, p, i, kind, text, width)->Ok_0) == doc_val(d),
    decreases p.len() - i, 0int,
{
    let name = p[i]->Field_0;
    let occ = occurrences(d.nodes, name, d.nodes.len());
    occurrences_bounds(d.nodes, name, d.nodes.len());
    let indexed = i + 1 < p.len() && p[i + 1] is Index;
    let at = if indexed {
        crate::index::resolved(p[i + 1]->Index_0 as int, occ.len() as int)->0
    } else {
        0
    };
    let next = if indexed {
        i + 2
    } else {
        i + 1
    };
    let n = d.nodes[occ[at]];
    below_keeps_value(n, name, p, next, kind, text, width);
    replaced_keeps_value(d, occ[at], note_below(n, name, p, next, kind, text, width)->Ok_0);
}

proof fn below_keeps_value(
    n: Kn,
    name: Seq<char>,
    p: Seq<St>,
    i: int,
    kind: CommentKind,
    text: Option<Seq<char>>,
    width: int,
)
    requires
        0 <= i,
        note_below(n, name, p, i, kind, text, width) is Ok,
    ensures
        note_below(n, name, p, i, kind, text, width)->Ok_0.name == n.name,
        node_val(note_below(n, name, p, i, kind, text, width)->Ok_0) == node_val(n),
    decreases p.len() - i, 1int,
{
    let r = note_below(n, name, p, i, kind, text, width)->Ok_0;
    if i >= p.len() {
        layout_keeps_value(n, r);
    } else {
        let c = n.children->0;
        kdl_notes_keep_the_value(c, p, i, kind, text, width);
        assert(doc_members(r.children->0) == doc_members(c));
    }
}

proof fn group_from_bounds<A>(gs: Seq<(Seq<char>, A)>, name: Seq<char>, i: int)
    requires
        0 <= i <= gs.len(),
    ensures
        i <= group_from(gs, name, i) <= gs.len(),
        group_from(gs, name, i) < gs.len() ==> gs[group_from(gs, name, i)].0 == name,
        forall|j: int| i <= j < group_from(gs, name, i) ==> (#[trigger] gs[j]).0 != name,
    decreases gs.len() - i,
{
    if i < gs.len() && gs[i].0 != name {
        group_from_bounds(gs, name, i + 1);
    }
}

pub proof fn group_from_is<A>(gs: Seq<(Seq<char>, A)>, name: Seq<char>, i: int, r: int)
    requires
        0 <= i <= r <= gs.len(),
        r < gs.len() ==> gs[r].0 == name,
        forall|j: int| i <= j < r ==> (#[trigger] gs[j]).0 != name,
    ensures
        group_from(gs, name, i) == r,
    decreases r - i,
{
    if i < r {
        group_from_is(gs, name, i + 1, r);
    }
}

/// The values of the nodes at some positions.
pub open spec fn vals_at(ns: Seq<Kn>, at: Seq<int>) -> Seq<Val> {
    Seq::new(at.len(), |i: int| node_val(ns[at[i]]))
}

proof fn group_holds(ns: Seq<Kn>, name: Seq<char>, n: nat)
    requires
        n <= ns.len(),
    ensures
        ({
            let gs = groups(ns, n);
            let occ = occurrences(ns, name, n);
            let g = group_from(gs, name, 0);
            if occ.len() == 0 {
                g == gs.len()
            } else {
                0 <= g < gs.len() && gs[g].1 == vals_at(ns, occ)
            }
        }),
    decreases n,
{
    let gs = groups(ns, n);
    group_from_bounds(gs, name, 0);
    if n > 0 {
        group_holds(ns, name, (n - 1) as nat);
        let hs = groups(ns, (n - 1) as nat);
        let k = ns[n - 1];
        let occ = occurrences(ns, name, n);
        let before = occurrences(ns, name, (n - 1) as nat);
        occurrences_bounds(ns, name, n);
        group_from_bounds(hs, name, 0);
        group_from_bounds(hs, k.name.value, 0);
        let g = group_from(hs, k.name.value, 0);
        let h = group_from(hs, name, 0);
        if k.name.value == name {
            assert(occ == before.push(n - 1));
            assert(vals_at(ns, occ) =~= vals_at(ns, before).push(node_val(k)));
            assert forall|j: int| 0 <= j < g implies (#[trigger] gs[j]).0 != name by {
                assert(gs[j] == hs[j]);
            }
            group_from_is(gs, name, 0, g);
            if before.len() == 0 {
                assert(vals_at(ns, occ) =~= seq![node_val(k)]);
            }
        } else {
            assert(occ == before);
            if h < hs.len() {
                assert forall|j: int| 0 <= j < h implies (#[trigger] gs[j]).0 != name by {
                    assert(gs[j].0 == hs[j].0);
                }
                assert(gs[h].0 == hs[h].0);
                group_from_is(gs, name, 0, h);
                assert(gs[h] == hs[h]);
            } else {
                assert forall|j: int| 0 <= j < gs.len() implies (#[trigger] gs[j]).0 != name by {
                    if j < hs.len() {
                        assert(hs[j].0 != name);
                        assert(gs[j].0 == hs[j].0);
                    }
                }
                group_from_is(gs, name, 0, gs.len() as int);
            }
        }
    }
}

/// The value under a name that one node has is that node's.
pub proof fn one_node_value(d: Kd, name: Seq<char>)
    requires
        occurrences(d.nodes, name, d.nodes.len()).len() == 1,
    ensures
        get_key(doc_members(d), name) == Some(
            node_val(d.nodes[occurrences(d.nodes, name, d.nodes.len())[0]]),
        ),
{
    group_holds(d.nodes, name, d.nodes.len());
    let gs = groups(d.nodes, d.nodes.len());
    group_from_bounds(gs, name, 0);
    let g = group_from(gs, name, 0);
    let m = doc_members(d);
    assert forall|j: int| 0 <= j < g implies (#[trigger] m[j]).0 != name by {
        assert(gs[j].0 != name);
    }
    key_from_is(m, name, 0, g);
}

pub proof fn same_names(a: Seq<Kn>, b: Seq<Kn>, name: Seq<char>, n: nat)
    requires
        n <= a.len(),
        n <= b.len(),
        forall|i: int| 0 <= i < n ==> (#[trigger] a[i]).name.value == b[i].name.value,
    ensures
        occurrences(a, name, n) == occurrences(b, name, n),
    decreases n,
{
    if n > 0 {
        same_names(a, b, name, (n - 1) as nat);
        assert(a[n - 1].name.value == b[n - 1].name.value);
    }
}

proof fn key_in_sum(a: Seq<(Seq<char>, Val)>, b: Seq<(Seq<char>, Val)>, k: Seq<char>)
    ensures
        get_key(a + b, k) == (match get_key(a, k) {
            Some(x) => Some(x),
            None => get_key(b, k),
        }),
{
    key_at_bounds(a, k);
    key_at_bounds(b, k);
    let c = a + b;
    let i = key_at(a, k);
    let j = key_at(b, k);
    if i < a.len() {
        assert forall|x: int| 0 <= x < i implies (#[trigger] c[x]).0 != k by {
            key_before(a, k, 0, x);
            assert(c[x] == a[x]);
        }
        assert(c[i] == a[i]);
        key_from_is(c, k, 0, i);
    } else {
        assert forall|x: int| 0 <= x < a.len() + j implies (#[trigger] c[x]).0 != k by {
            if x < a.len() {
                assert(a[x].0 != k);
                assert(c[x] == a[x]);
            } else {
                key_before(b, k, 0, x - a.len());
                assert(c[x] == b[x - a.len()]);
            }
        }
        if j < b.len() {
            assert(c[a.len() + j] == b[j]);
        }
        key_from_is(c, k, 0, a.len() + j);
    }
}

/// Is the property `k` there once at most?
pub open spec fn once(es: Seq<Ka>, k: Seq<char>) -> bool {
    forall|i: int, j: int|
        0 <= i < j < es.len() && (#[trigger] es[i]).name is Some && (#[trigger] es[j]).name is Some
            ==> es[i].name->0.value != k || es[j].name->0.value != k
}

pub proof fn prop_slot_bounds(es: Seq<Ka>, k: Seq<char>, n: nat)
    requires
        n <= es.len(),
    ensures
        -1 <= prop_slot(es, k, n) < n,
        prop_slot(es, k, n) >= 0 ==> es[prop_slot(es, k, n)].name is Some && es[prop_slot(
            es,
            k,
            n,
        )].name->0.value == k,
        forall|i: int|
            prop_slot(es, k, n) < i < n ==> !((#[trigger] es[i]).name is Some && es[i].name->0.value
                == k),
    decreases n,
{
    if n > 0 {
        prop_slot_bounds(es, k, (n - 1) as nat);
    }
}

/// The value of a property that no other one has the name of.
proof fn prop_value(es: Seq<Ka>, k: Seq<char>, n: nat)
    requires
        n <= es.len(),
        once(es, k),
    ensures
        get_key(prop_vals(es, n), k) == (if prop_slot(es, k, n) >= 0 {
            Some(scalar_val(es[prop_slot(es, k, n)].value))
        } else {
            None
        }),
    decreases n,
{
    prop_slot_bounds(es, k, n);
    if n > 0 {
        prop_value(es, k, (n - 1) as nat);
        prop_slot_bounds(es, k, (n - 1) as nat);
        let a = prop_vals(es, (n - 1) as nat);
        let e = es[n - 1];
        if let Some(name) = e.name {
            let one = seq![(name.value, scalar_val(e.value))];
            assert(prop_vals(es, n) =~= a + one);
            key_in_sum(a, one, k);
            key_at_bounds(one, k);
            if name.value == k {
                let s = prop_slot(es, k, (n - 1) as nat);
                if s >= 0 {
                    assert(es[s].name->0.value == k && es[n - 1].name->0.value == k);
                }
                key_from_is(one, k, 0, 0);
            } else {
                key_from_is(one, k, 0, 1);
            }
        }
    } else {
        assert(prop_vals(es, 0) =~= Seq::<(Seq<char>, Val)>::empty());
        key_from_is(prop_vals(es, 0), k, 0, 0);
    }
}

/// Is every step a key, and none the one that stands for arguments?
pub open spec fn keys_only(p: Seq<St>) -> bool {
    forall|i: int| 0 <= i < p.len() ==> (#[trigger] p[i]) is Field && p[i]->Field_0 != args_key()
}

pub proof fn vals_of_scalars(es: Seq<Ka>, n: nat)
    requires
        n <= es.len(),
    ensures
        arg_vals(es, n).len() == arg_scalars(es, n).len(),
        forall|i: int|
            0 <= i < arg_vals(es, n).len() ==> #[trigger] arg_vals(es, n)[i] == scalar_val(
                arg_scalars(es, n)[i],
            ),
    decreases n,
{
    if n > 0 {
        vals_of_scalars(es, (n - 1) as nat);
    }
}

pub proof fn leaf_has_no_props(es: Seq<Ka>, n: nat)
    requires
        n <= es.len(),
        forall|i: int| 0 <= i < es.len() ==> (#[trigger] es[i]).name is None,
    ensures
        prop_vals(es, n).len() == 0,
    decreases n,
{
    if n > 0 {
        leaf_has_no_props(es, (n - 1) as nat);
    }
}

pub proof fn member_of_node(n: Kn, k: Seq<char>)
    requires
        k != args_key(),
        once(n.args, k),
        n.children is Some || prop_slot(n.args, k, n.args.len()) >= 0,
    ensures
        node_val(n) is Object,
        get_key(node_val(n)->Object_0, k) == (if prop_slot(n.args, k, n.args.len()) >= 0 {
            Some(scalar_val(n.args[prop_slot(n.args, k, n.args.len())].value))
        } else {
            get_key(doc_members(n.children->0), k)
        }),
{
    let args = arg_member(arg_vals(n.args, n.args.len()));
    let props = prop_vals(n.args, n.args.len());
    prop_value(n.args, k, n.args.len());
    key_from_is(args, k, 0, args.len() as int);
    key_in_sum(args, props, k);
    if let Some(d) = n.children {
        key_in_sum(args + props, doc_members(d), k);
    } else {
        key_at_bounds(props, k);
    }
}

proof fn keys_are_plain(p: Seq<St>, i: int)
    requires
        keys_only(p),
        0 <= i < p.len(),
    ensures
        plain_path(p.skip(i)),
        p.skip(i).len() > 0,
        p.skip(i)[0] == p[i],
        p[i] is Field,
        p[i]->Field_0 != args_key(),
        p.skip(i).drop_first() == p.skip(i + 1),
{
    assert(p.skip(i).drop_first() =~= p.skip(i + 1));
    assert forall|j: int| 0 <= j < p.skip(i).len() implies (#[trigger] p.skip(i)[j]) is Field
        || p.skip(i)[j] is Index by {
        assert(p.skip(i)[j] == p[i + j]);
    }
}

/// The values of the nodes of a name among the first `n`.
pub open spec fn named_vals(ns: Seq<Kn>, name: Seq<char>, n: nat) -> Seq<Val>
    decreases n,
{
    if n == 0 || n > ns.len() {
        Seq::empty()
    } else if ns[n - 1].name.value == name {
        named_vals(ns, name, (n - 1) as nat).push(node_val(ns[n - 1]))
    } else {
        named_vals(ns, name, (n - 1) as nat)
    }
}

pub proof fn vals_are_named(ns: Seq<Kn>, name: Seq<char>, n: nat)
    requires
        n <= ns.len(),
    ensures
        vals_at(ns, occurrences(ns, name, n)) == named_vals(ns, name, n),
    decreases n,
{
    if n > 0 {
        vals_are_named(ns, name, (n - 1) as nat);
    }
    assert(vals_at(ns, occurrences(ns, name, n)) =~= named_vals(ns, name, n));
}

/// The value under a name is made of the values of the nodes of that name.
pub proof fn name_value(d: Kd, name: Seq<char>)
    ensures
        ({
            let vs = named_vals(d.nodes, name, d.nodes.len());
            get_key(doc_members(d), name) == (if vs.len() == 0 {
                None
            } else {
                Some(one_or_all(vs))
            })
        }),
{
    vals_are_named(d.nodes, name, d.nodes.len());
    group_holds(d.nodes, name, d.nodes.len());
    let gs = groups(d.nodes, d.nodes.len());
    group_from_bounds(gs, name, 0);
    let g = group_from(gs, name, 0);
    let m = doc_members(d);
    assert forall|j: int| 0 <= j < g implies (#[trigger] m[j]).0 != name by {
        assert(gs[j].0 != name);
    }
    key_from_is(m, name, 0, g);
}

proof fn removing_another(ns: Seq<Kn>, j: int, name: Seq<char>, n: nat)
    requires
        0 <= j < ns.len(),
        ns[j].name.value != name,
        n <= ns.len() - 1,
    ensures
        named_vals(ns.remove(j), name, n) == named_vals(
            ns,
            name,
            if n <= j {
                n
            } else {
                n + 1
            },
        ),
    decreases n,
{
    if n > 0 {
        removing_another(ns, j, name, (n - 1) as nat);
        if n == j + 1 {
            assert(named_vals(ns, name, n) == named_vals(ns, name, (n - 1) as nat));
        }
    }
}

/// Every node of a name is among its occurrences.
pub proof fn occurs(ns: Seq<Kn>, name: Seq<char>, n: nat, i: int) -> (j: int)
    requires
        0 <= i < n <= ns.len(),
        ns[i].name.value == name,
    ensures
        0 <= j < occurrences(ns, name, n).len(),
        occurrences(ns, name, n)[j] == i,
    decreases n,
{
    if i == n - 1 {
        (occurrences(ns, name, n).len() - 1) as int
    } else {
        occurs(ns, name, (n - 1) as nat, i)
    }
}

/// Where the nodes in front of occurrence `n` end.
spec fn settled(at: Seq<int>, n: nat) -> int {
    if n == 0 {
        0
    } else {
        at[n - 1] + 1
    }
}

proof fn dropping_all(ns: Seq<Kn>, name: Seq<char>, other: Seq<char>, n: nat)
    requires
        n <= occurrences(ns, name, ns.len()).len(),
        other != name,
    ensures
        ({
            let at = occurrences(ns, name, ns.len());
            let r = nodes_dropped(ns, at, n);
            &&& settled(at, n) <= r.len()
            &&& forall|i: int| 0 <= i < settled(at, n) ==> #[trigger] r[i] == ns[i]
            &&& forall|i: int|
                settled(at, n) <= i < r.len() ==> (#[trigger] r[i]).name.value != name
            &&& named_vals(r, other, r.len()) == named_vals(ns, other, ns.len())
        }),
    decreases occurrences(ns, name, ns.len()).len() - n,
{
    let at = occurrences(ns, name, ns.len());
    occurrences_bounds(ns, name, ns.len());
    assert forall|i: int|
        settled(at, n) <= i < ns.len() && (n < at.len() ==> i < at[n as int]) implies (
    #[trigger] ns[i]).name.value != name by {
        if ns[i].name.value == name {
            let j = occurs(ns, name, ns.len(), i);
            assert(at[j] == i);
            if j < n {
                assert(at[j] <= at[n - 1]);
            } else {
                assert(n < at.len());
                assert(at[n as int] <= at[j]);
            }
        }
    }
    if n < at.len() {
        dropping_all(ns, name, other, n + 1);
        let rest = nodes_dropped(ns, at, n + 1);
        let a = at[n as int];
        assert(rest[a] == ns[a]);
        removing_another(rest, a, other, (rest.len() - 1) as nat);
        let r = nodes_dropped(ns, at, n);
        assert(r == rest.remove(a));
        if n > 0 {
            assert(at[n - 1] < at[n as int]);
        }
        assert forall|i: int| settled(at, n) <= i < r.len() implies (#[trigger] r[i]).name.value
            != name by {
            if i < a {
                assert(r[i] == ns[i]);
            } else {
                assert(r[i] == rest[i + 1]);
            }
        }
    }
}

proof fn none_left(ns: Seq<Kn>, name: Seq<char>, n: nat)
    requires
        n <= ns.len(),
        forall|i: int| 0 <= i < ns.len() ==> (#[trigger] ns[i]).name.value != name,
    ensures
        named_vals(ns, name, n).len() == 0,
    decreases n,
{
    if n > 0 {
        none_left(ns, name, (n - 1) as nat);
    }
}

/// Deleting a name from a document deletes every node that has it, and leaves
/// what the other names stand for as it was.
pub proof fn kdl_deleted_is_gone(d: Kd, name: Seq<char>, other: Seq<char>)
    requires
        other != name,
    ensures
        doc_drop(d, seq![St::Field(name)], 0, false) is Ok,
        get_key(doc_members(doc_drop(d, seq![St::Field(name)], 0, false)->Ok_0), name) is None,
        get_key(doc_members(doc_drop(d, seq![St::Field(name)], 0, false)->Ok_0), other) == get_key(
            doc_members(d),
            other,
        ),
{
    let p = seq![St::Field(name)];
    let out = doc_drop(d, p, 0, false)->Ok_0;
    let occ = occurrences(d.nodes, name, d.nodes.len());
    dropping_all(d.nodes, name, other, 0);
    assert(out.nodes == nodes_dropped(d.nodes, occ, 0));
    none_left(out.nodes, name, out.nodes.len());
    name_value(out, name);
    name_value(out, other);
    name_value(d, other);
}

/// Does no node have a child of the name of one of its properties?
pub open spec fn unshadowed(d: Kd) -> bool
    decreases d, 0int,
{
    forall|i: int|
        0 <= i < d.nodes.len() && (#[trigger] d.nodes[i]).children is Some ==> apart_names(
            d.nodes[i].args,
            d.nodes[i].children->0,
        ) && unshadowed(d.nodes[i].children->0)
}

/// Is no property's name a node's?
pub open spec fn apart_names(es: Seq<Ka>, d: Kd) -> bool {
    forall|a: int|
        0 <= a < es.len() && (#[trigger] es[a]).name is Some ==> occurrences(
            d.nodes,
            es[a].name->0.value,
            d.nodes.len(),
        ).len() == 0
}

proof fn no_prop_no_key(es: Seq<Ka>, k: Seq<char>, n: nat)
    requires
        n <= es.len(),
        forall|i: int| 0 <= i < n ==> !((#[trigger] es[i]).name is Some && es[i].name->0.value == k),
    ensures
        get_key(prop_vals(es, n), k) is None,
        forall|j: int| 0 <= j < prop_vals(es, n).len() ==> (#[trigger] prop_vals(es, n)[j]).0 != k,
    decreases n,
{
    if n > 0 {
        no_prop_no_key(es, k, (n - 1) as nat);
        let a = prop_vals(es, (n - 1) as nat);
        let e = es[n - 1];
        if let Some(name) = e.name {
            let r = prop_vals(es, n);
            assert(r =~= a + seq![(name.value, scalar_val(e.value))]);
            assert forall|j: int| 0 <= j < r.len() implies (#[trigger] r[j]).0 != k by {
                if j < a.len() {
                    assert(r[j] == a[j]);
                }
            }
        }
    }
    let r = prop_vals(es, n);
    key_from_is(r, k, 0, r.len() as int);
}

proof fn without_prop_lacks(es: Seq<Ka>, k: Seq<char>, n: nat)
    requires
        n <= es.len(),
    ensures
        forall|i: int|
            0 <= i < without_prop(es, k, n).len() ==> !((#[trigger] without_prop(es, k, n)[i]).name is Some
                && without_prop(es, k, n)[i].name->0.value == k),
    decreases n,
{
    if n > 0 {
        without_prop_lacks(es, k, (n - 1) as nat);
    }
}

/// A node without a property of the name has, under that name, what its children have.
proof fn member_below(n: Kn, k: Seq<char>, q: Seq<St>)
    requires
        k != args_key(),
        forall|i: int|
            0 <= i < n.args.len() ==> !((#[trigger] n.args[i]).name is Some && n.args[i].name->0.value == k),
        plain_path(q),
        q.len() > 0,
        q[0] == St::Field(k),
        n.children is Some ==> yields_nothing(doc_val(n.children->0), q),
    ensures
        yields_nothing(node_val(n), q),
{
    let args = arg_member(arg_vals(n.args, n.args.len()));
    let props = prop_vals(n.args, n.args.len());
    no_prop_no_key(n.args, k, n.args.len());
    key_from_is(args, k, 0, args.len() as int);
    key_in_sum(args, props, k);
    path_front(q, node_val(n));
    if let Some(d) = n.children {
        key_in_sum(args + props, doc_members(d), k);
        path_front(q, doc_val(d));
    }
}

proof fn led_names(ns: Seq<Kn>, prefix: Seq<char>)
    ensures
        led(ns, prefix).len() == ns.len(),
        forall|i: int| 0 <= i < ns.len() ==> (#[trigger] led(ns, prefix)[i]).name == ns[i].name,
{
}

proof fn dropped_gone(d: Kd, name: Seq<char>, in_children: bool)
    ensures
        get_key(
            doc_members(
                nodes_removed(d, occurrences(d.nodes, name, d.nodes.len()), in_children),
            ),
            name,
        ) is None,
{
    let occ = occurrences(d.nodes, name, d.nodes.len());
    let other = name.push('x');
    assert(other.len() != name.len());
    dropping_all(d.nodes, name, other, 0);
    let left = nodes_dropped(d.nodes, occ, 0);
    let out = nodes_removed(d, occ, in_children);
    if d.nodes.len() > 0 {
        led_names(left, brace_line(d.nodes[0]));
    }
    assert forall|i: int| 0 <= i < out.nodes.len() implies (#[trigger] out.nodes[i]).name.value != name by {
        assert(left[i].name.value != name);
    }
    none_left(out.nodes, name, out.nodes.len());
    name_value(out, name);
}

proof fn doc_path_gone(d: Kd, p: Seq<St>, i: int, in_children: bool)
    requires
        keys_only(p),
        0 <= i < p.len(),
        unshadowed(d),
        doc_drop(d, p, i, in_children) is Ok,
    ensures
        yields_nothing(doc_val(doc_drop(d, p, i, in_children)->Ok_0), p.skip(i)),
    decreases p.len() - i, 0int,
{
    let r = doc_drop(d, p, i, in_children)->Ok_0;
    keys_are_plain(p, i);
    let name = p[i]->Field_0;
    let occ = occurrences(d.nodes, name, d.nodes.len());
    occurrences_bounds(d.nodes, name, d.nodes.len());
    path_front(p.skip(i), doc_val(r));
    if i + 1 < p.len() {
        keys_are_plain(p, i + 1);
    }
    if occ.len() == 0 {
        group_holds(d.nodes, name, d.nodes.len());
        vals_are_named(d.nodes, name, d.nodes.len());
        name_value(d, name);
    } else if i + 1 == p.len() {
        dropped_gone(d, name, in_children);
    } else if occ.len() == 1 {
        let at = occ[0];
        let n = d.nodes[at];
        node_path_gone(n, p, i + 1);
        let m = r.nodes[at];
        assert(m.name == n.name);
        same_names(r.nodes, d.nodes, name, d.nodes.len());
        one_node_value(r, name);
    }
}

proof fn node_path_gone(n: Kn, p: Seq<St>, i: int)
    requires
        keys_only(p),
        0 <= i < p.len(),
        n.children is Some ==> apart_names(n.args, n.children->0) && unshadowed(n.children->0),
        within_drop(n, p, i) is Ok,
    ensures
        within_drop(n, p, i)->Ok_0.name == n.name,
        yields_nothing(node_val(within_drop(n, p, i)->Ok_0), p.skip(i)),
    decreases p.len() - i, 1int,
{
    let r = within_drop(n, p, i)->Ok_0;
    keys_are_plain(p, i);
    let q = p.skip(i);
    let k = p[i]->Field_0;
    let at = prop_slot(n.args, k, n.args.len());
    prop_slot_bounds(n.args, k, n.args.len());
    if at >= 0 {
        without_prop_lacks(n.args, k, n.args.len());
        if let Some(d) = n.children {
            assert(n.args[at].name is Some);
            group_holds(d.nodes, k, d.nodes.len());
            vals_are_named(d.nodes, k, d.nodes.len());
            name_value(d, k);
            path_front(q, doc_val(d));
        }
        member_below(r, k, q);
    } else {
        if let Some(d) = n.children {
            doc_path_gone(d, p, i, true);
        }
        member_below(r, k, q);
    }
}

/// What a path of keys leads to is gone once it is deleted, where no node has a child
/// of the name of one of its properties.
pub proof fn kdl_deleted_path_is_gone(d: Kd, p: Seq<St>)
    requires
        keys_only(p),
        p.len() > 0,
        unshadowed(d),
        doc_drop(d, p, 0, false) is Ok,
    ensures
        yields_nothing(doc_val(doc_drop(d, p, 0, false)->Ok_0), p),
{
    doc_path_gone(d, p, 0, false);
    assert(p.skip(0) =~= p);
}

} // verus!
