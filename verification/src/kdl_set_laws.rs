//! A value set in a KDL document is what the path then yields.
use crate::error::Er;
use crate::eval_laws::{key_from_is, path_front, plain_path};
use crate::index::resolved;
use crate::kdl_change::{
    arg_set, arg_slots, arg_slots_bounds, args_replaced, dressed, first_indent, inserted, is_leaf,
    kv_same, node_put, node_set, nodes_put, occurrences, occurrences_bounds, prop_slot, row_of,
    scalars_of,
};
use crate::kdl_edit::{doc_set, extra_nodes, opened, run_extended, within};
use crate::kdl_items::double_read;
use crate::kdl_laws::{
    arg_scalars, front_alike, kdl_row_reads_back, layout_keeps_value,
    leaf_has_no_props, member_of_node, name_value, named_vals, occurs, once, one_node_value,
    prop_slot_bounds, props_alike, same_names, scalars_at_slots, vals_are_named, vals_of_scalars,
};
use crate::kdl_nodes::{
    arg_member, arg_vals, args_key, doc_members, doc_val, node_val, one_or_all, prop_vals,
    scalar_val, to_scalar, value_nodes,
};
use crate::kdl_tree::{Ka, Kd, Kn, Kv};
use crate::kdl_value_laws::{kdl_nodes_read_back, node_vals, reread, reread_all, row, shaped};
use crate::model::{St, Val};
use crate::semantics::path_outs;
use crate::seqs::Rank;
use crate::value::{get_key, val_rank};
use vstd::prelude::*;

verus! {

/// Is `w` the value `v`, but for its floats? A float may be another that KDL does not
/// tell from it, or the one that its text reads as.
pub open spec fn alike(v: Val, w: Val) -> bool
    decreases v,
{
    match v {
        Val::Float(f) => w is Float && (kv_same(Kv::Float(w->Float_0), Kv::Float(f)) || w->Float_0
            == double_read(f.text)),
        Val::Array(a) => w is Array && w->Array_0.len() == a.len() && forall|i: int|
            0 <= i < a.len() ==> alike(#[trigger] a[i], w->Array_0[i]),
        Val::Object(m) => w is Object && w->Object_0.len() == m.len() && forall|i: int|
            0 <= i < m.len() ==> (#[trigger] m[i]).0 == w->Object_0[i].0 && alike(
                m[i].1,
                w->Object_0[i].1,
            ),
        _ => w == v,
    }
}

/// Does the value hold no float?
pub open spec fn floatless(v: Val) -> bool
    decreases v,
{
    match v {
        Val::Float(_) => false,
        Val::Array(a) => forall|i: int| 0 <= i < a.len() ==> floatless(#[trigger] a[i]),
        Val::Object(m) => forall|i: int| 0 <= i < m.len() ==> floatless((#[trigger] m[i]).1),
        _ => true,
    }
}

/// A value without floats is alike to itself alone.
pub proof fn alike_is_same(v: Val, w: Val)
    requires
        alike(v, w),
        floatless(v),
    ensures
        w == v,
    decreases v,
{
    match v {
        Val::Array(a) => {
            assert forall|i: int| 0 <= i < a.len() implies #[trigger] w->Array_0[i] == a[i] by {
                alike_is_same(a[i], w->Array_0[i]);
            }
            assert(w->Array_0 =~= a);
        },
        Val::Object(m) => {
            assert forall|i: int| 0 <= i < m.len() implies #[trigger] w->Object_0[i] == m[i] by {
                assert(m[i].0 == w->Object_0[i].0);
                alike_is_same(m[i].1, w->Object_0[i].1);
            }
            assert(w->Object_0 =~= m);
        },
        _ => {},
    }
}

/// A value is alike to what it is reread as.
proof fn reread_alike(v: Val)
    ensures
        alike(v, reread(v)),
    decreases v,
{
    match v {
        Val::Array(a) => {
            let w = reread(v)->Array_0;
            assert forall|i: int| 0 <= i < a.len() implies alike(#[trigger] a[i], w[i]) by {
                reread_alike(a[i]);
            }
        },
        Val::Object(m) => {
            let w = reread(v)->Object_0;
            assert forall|i: int| 0 <= i < m.len() implies (#[trigger] m[i]).0 == w[i].0 && alike(
                m[i].1,
                w[i].1,
            ) by {
                reread_alike(m[i].1);
            }
        },
        _ => {},
    }
}

/// Is the outcome one value, and alike to `v`?
pub open spec fn yields_alike(o: Result<Seq<Val>, Er>, v: Val) -> bool {
    o is Ok && o->Ok_0.len() == 1 && alike(v, o->Ok_0[0])
}

/// Does the value of the node have its arguments under a key of their own?
pub open spec fn mixed(n: Kn) -> bool {
    n.children is Some || exists|i: int| 0 <= i < n.args.len() && (#[trigger] n.args[i]).name is Some
}

/// Does the path, read in the document, go where it goes when set? The exceptions: an
/// array set at a name that several nodes share extends them; an index or the key of
/// the arguments leads to the arguments of a node whose value does not show them so;
/// and of a property that is there twice the last is set and the first read.
pub open spec fn doc_leads(d: Kd, p: Seq<St>, i: int, v: Val) -> bool
    decreases p.len() - i, 0int,
{
    if i < 0 || i >= p.len() || !(p[i] is Field) {
        false
    } else {
        let occ = occurrences(d.nodes, p[i]->Field_0, d.nodes.len());
        if occ.len() == 0 {
            true
        } else if i + 1 == p.len() {
            v is Array ==> occ.len() == 1
        } else if occ.len() == 1 {
            node_leads(d.nodes[occ[0]], p, i + 1, v)
        } else if p[i + 1] is Index && resolved(p[i + 1]->Index_0 as int, occ.len() as int) is Some {
            i + 2 == p.len() || node_leads(
                d.nodes[occ[resolved(p[i + 1]->Index_0 as int, occ.len() as int)->0]],
                p,
                i + 2,
                v,
            )
        } else {
            true
        }
    }
}

/// Does the path, read in the node's value, go where it goes when set?
pub open spec fn node_leads(n: Kn, p: Seq<St>, i: int, v: Val) -> bool
    decreases p.len() - i, 1int,
{
    let count = arg_slots(n.args, n.args.len()).len();
    if i < 0 || i >= p.len() {
        false
    } else {
        match p[i] {
            St::Field(k) => if k == args_key() {
                mixed(n) && (i + 1 == p.len() || count >= 2)
            } else if prop_slot(n.args, k, n.args.len()) >= 0 {
                once(n.args, k)
            } else if n.children is None {
                true
            } else {
                doc_leads(n.children->0, p, i, v)
            },
            St::Index(_) => i + 1 == p.len() && is_leaf(n) && count >= 2,
            _ => false,
        }
    }
}

/// Scalars that KDL does not tell apart have values that are alike.
proof fn same_is_alike(v: Val, got: Kv)
    requires
        to_scalar(v) is Some,
        kv_same(got, to_scalar(v)->0),
    ensures
        alike(v, scalar_val(got)),
{
}

proof fn scalars_are(a: Seq<Val>, n: nat)
    requires
        n <= a.len(),
        scalars_of(a, n) is Ok,
    ensures
        scalars_of(a, n)->Ok_0.len() == n,
        forall|i: int|
            0 <= i < n ==> to_scalar(#[trigger] a[i]) is Some && scalars_of(a, n)->Ok_0[i]
                == to_scalar(a[i])->0,
    decreases n,
{
    if n > 0 {
        scalars_are(a, (n - 1) as nat);
    }
}

/// The arguments of a node after they are replaced are the value.
proof fn row_reads_back(n: Kn, v: Val)
    requires
        shaped(v),
        args_replaced(n, v) is Ok,
    ensures
        ({
            let r = args_replaced(n, v)->Ok_0;
            let vs = arg_vals(r.args, r.args.len());
            &&& r.name == n.name
            &&& r.children == n.children
            &&& vs.len() > 0
            &&& alike(v, one_or_all(vs))
            &&& prop_vals(r.args, r.args.len()) == prop_vals(n.args, n.args.len())
        }),
{
    let a = match v {
        Val::Array(a) => a,
        _ => seq![v],
    };
    scalars_are(a, a.len());
    let new = scalars_of(a, a.len())->Ok_0;
    assert(row_of(v) == Ok::<Seq<Kv>, Er>(new));
    let r = args_replaced(n, v)->Ok_0;
    kdl_row_reads_back(n.args, new);
    vals_of_scalars(r.args, r.args.len());
    let got = arg_scalars(r.args, r.args.len());
    let vs = arg_vals(r.args, r.args.len());
    assert forall|i: int| 0 <= i < a.len() implies alike(#[trigger] a[i], vs[i]) by {
        assert(kv_same(got[i], new[i]));
        assert(vs[i] == scalar_val(got[i]));
        same_is_alike(a[i], got[i]);
    }
    if !(v is Array) {
        assert(alike(a[0], vs[0]));
    }
}

proof fn props_of_mixed(es: Seq<Ka>, n: nat)
    requires
        n <= es.len(),
    ensures
        (exists|i: int| 0 <= i < n && (#[trigger] es[i]).name is Some) <==> prop_vals(es, n).len()
            > 0,
    decreases n,
{
    if n > 0 {
        props_of_mixed(es, (n - 1) as nat);
        if es[n - 1].name is Some {
            assert(0 <= n - 1 < n);
        } else {
            assert forall|i: int| 0 <= i < n && (#[trigger] es[i]).name is Some implies i < n - 1 by {}
        }
    }
}

/// The arguments of a mixed node are what the key of the arguments yields.
proof fn mixed_args(n: Kn)
    requires
        n.children is Some || prop_vals(n.args, n.args.len()).len() > 0,
        arg_vals(n.args, n.args.len()).len() > 0,
    ensures
        node_val(n) is Object,
        get_key(node_val(n)->Object_0, args_key()) == Some(
            one_or_all(arg_vals(n.args, n.args.len())),
        ),
{
    let m = node_val(n)->Object_0;
    let first = arg_member(arg_vals(n.args, n.args.len()));
    assert(m[0] == first[0]);
    key_from_is(m, args_key(), 0, 0);
}

/// A leaf node set to scalars has that value.
proof fn leaf_reads_back(n: Kn, v: Val)
    requires
        shaped(v),
        node_set(n, v) is Ok,
    ensures
        alike(v, node_val(node_set(n, v)->Ok_0)),
        node_set(n, v)->Ok_0.name == n.name,
{
    row_reads_back(n, v);
    leaf_has_no_props(n.args, n.args.len());
}

/// An argument set in place is the value at its index; the others and the properties
/// are what they were.
proof fn arg_reads_back(n: Kn, x: int, v: Val)
    requires
        arg_set(n, x, v) is Ok,
    ensures
        ({
            let r = arg_set(n, x, v)->Ok_0;
            let count = arg_slots(n.args, n.args.len()).len() as int;
            let vs = arg_vals(r.args, r.args.len());
            &&& r.name == n.name
            &&& r.children == n.children
            &&& vs.len() == count
            &&& resolved(x, count) is Some
            &&& 0 <= resolved(x, count)->0 < count
            &&& vs[resolved(x, count)->0] == v
            &&& to_scalar(v) is Some
            &&& prop_vals(r.args, r.args.len()) == prop_vals(n.args, n.args.len())
        }),
{
    let r = arg_set(n, x, v)->Ok_0;
    let slots = arg_slots(n.args, n.args.len());
    let at = resolved(x, slots.len() as int)->0;
    arg_slots_bounds(n.args, n.args.len());
    assert forall|i: int| 0 <= i < n.args.len() implies (#[trigger] r.args[i]).name
        == n.args[i].name by {}
    front_alike(r.args, n.args, n.args.len());
    scalars_at_slots(r.args, r.args.len());
    vals_of_scalars(r.args, r.args.len());
    assert(n.args[slots[at]].name is None);
    props_alike(r.args, n.args, n.args.len());
    assert(arg_scalars(r.args, r.args.len())[at] == r.args[slots[at]].value);
}

proof fn named_alike(a: Seq<Kn>, b: Seq<Kn>, name: Seq<char>, n: nat)
    requires
        n <= a.len(),
        n <= b.len(),
        forall|i: int|
            0 <= i < n ==> (#[trigger] a[i]).name.value == b[i].name.value && node_val(a[i])
                == node_val(b[i]),
    ensures
        named_vals(a, name, n) == named_vals(b, name, n),
    decreases n,
{
    if n > 0 {
        named_alike(a, b, name, (n - 1) as nat);
        assert(a[n - 1].name.value == b[n - 1].name.value);
    }
}

proof fn none_named(ns: Seq<Kn>, name: Seq<char>, from: nat, n: nat)
    requires
        from <= n <= ns.len(),
        forall|i: int| from <= i < n ==> (#[trigger] ns[i]).name.value != name,
    ensures
        named_vals(ns, name, n) == named_vals(ns, name, from),
    decreases n,
{
    if n > from {
        none_named(ns, name, from, (n - 1) as nat);
        assert(ns[n - 1].name.value != name);
    }
}

/// A node put in behind the last of its name is the last of its name.
proof fn put_behind(ns: Seq<Kn>, k: Kn, at: int, indent: Option<Seq<char>>, name: Seq<char>)
    requires
        0 <= at <= ns.len(),
        k.name.value == name,
        forall|i: int| at <= i < ns.len() ==> (#[trigger] ns[i]).name.value != name,
    ensures
        ({
            let r = node_put(ns, k, at, indent);
            &&& r.len() == ns.len() + 1
            &&& named_vals(r, name, r.len()) == named_vals(ns, name, ns.len()).push(node_val(k))
            &&& forall|i: int| at < i < r.len() ==> (#[trigger] r[i]).name.value != name
        }),
{
    let r = node_put(ns, k, at, indent);
    assert forall|i: int| 0 <= i < at implies (#[trigger] r[i]).name.value == ns[i].name.value
        && node_val(r[i]) == node_val(ns[i]) by {
        layout_keeps_value(ns[i], r[i]);
    }
    layout_keeps_value(k, r[at]);
    assert forall|i: int| at < i < r.len() implies (#[trigger] r[i]).name.value != name by {
        assert(r[i] == ns[i - 1]);
    }
    named_alike(r, ns, name, at as nat);
    none_named(ns, name, at as nat, ns.len());
    none_named(r, name, (at + 1) as nat, r.len());
}

proof fn all_put_behind(
    ns: Seq<Kn>,
    ks: Seq<Kn>,
    at: int,
    depth: nat,
    unit: Seq<char>,
    indent: Option<Seq<char>>,
    name: Seq<char>,
    vs: Seq<Val>,
    n: nat,
)
    requires
        0 <= at <= ns.len(),
        n <= ks.len(),
        vs.len() == ks.len(),
        forall|i: int| at <= i < ns.len() ==> (#[trigger] ns[i]).name.value != name,
        forall|i: int|
            0 <= i < ks.len() ==> dressed(#[trigger] ks[i], depth, unit).name.value == name
                && node_val(dressed(ks[i], depth, unit)) == vs[i],
    ensures
        ({
            let r = nodes_put(ns, ks, at, depth, unit, indent, n);
            &&& r.len() == ns.len() + n
            &&& named_vals(r, name, r.len()) == named_vals(ns, name, ns.len()) + vs.take(n as int)
            &&& forall|i: int| at + n <= i < r.len() ==> (#[trigger] r[i]).name.value != name
        }),
    decreases n,
{
    let had = named_vals(ns, name, ns.len());
    if n == 0 {
        assert(had + vs.take(0) =~= had);
    } else {
        all_put_behind(ns, ks, at, depth, unit, indent, name, vs, (n - 1) as nat);
        let q = nodes_put(ns, ks, at, depth, unit, indent, (n - 1) as nat);
        let k = dressed(ks[n - 1], depth, unit);
        put_behind(q, k, at + n - 1, indent, name);
        assert((had + vs.take(n - 1)).push(vs[n - 1]) =~= had + vs.take(n as int));
    }
}

/// A value put in under a name that no node has is what the name then yields.
proof fn appended_reads_back(d: Kd, name: Seq<char>, v: Val, depth: nat, unit: Seq<char>)
    requires
        shaped(v),
        occurrences(d.nodes, name, d.nodes.len()).len() == 0,
    ensures
        value_nodes(name, v) is Ok,
        get_key(
            doc_members(
                inserted(d, value_nodes(name, v)->Ok_0, d.nodes.len() as int, depth, unit),
            ),
            name,
        ) == Some(reread(v)),
{
    kdl_nodes_read_back(name, v, depth, unit);
    let ks = value_nodes(name, v)->Ok_0;
    let ds = Seq::new(ks.len(), |i: int| dressed(ks[i], depth, unit));
    let vs = node_vals(ds);
    let n = d.nodes.len();
    assert forall|i: int| 0 <= i < ks.len() implies dressed(#[trigger] ks[i], depth, unit).name.value
        == name && node_val(dressed(ks[i], depth, unit)) == vs[i] by {
        assert(ds[i].name.value == name);
    }
    all_put_behind(
        d.nodes,
        ks,
        n as int,
        depth,
        unit,
        first_indent(d.nodes),
        name,
        vs,
        ks.len(),
    );
    vals_are_named(d.nodes, name, n);
    assert(named_vals(d.nodes, name, n) =~= Seq::<Val>::empty());
    assert(Seq::<Val>::empty() + vs.take(ks.len() as int) =~= vs);
    name_value(inserted(d, ks, n as int, depth, unit), name);
}

proof fn plain_from(p: Seq<St>, i: int)
    requires
        plain_path(p),
        0 <= i < p.len(),
    ensures
        plain_path(p.skip(i)),
        p.skip(i).len() > 0,
        p.skip(i)[0] == p[i],
        p.skip(i).drop_first() == p.skip(i + 1),
{
    assert(p.skip(i).drop_first() =~= p.skip(i + 1));
    assert forall|j: int| 0 <= j < p.skip(i).len() implies (#[trigger] p.skip(i)[j]) is Field
        || p.skip(i)[j] is Index by {
        assert(p.skip(i)[j] == p[i + j]);
    }
}

proof fn ends_here(p: Seq<St>, v: Val)
    ensures
        path_outs(p.skip(p.len() as int), v) == Ok::<Seq<Val>, Er>(seq![v]),
{
    assert(p.skip(p.len() as int) =~= Seq::<St>::empty());
}

#[verifier::rlimit(40)]
#[verifier::spinoff_prover]
proof fn doc_reads_back(d: Kd, p: Seq<St>, i: int, v: Val, depth: nat, unit: Seq<char>)
    requires
        shaped(v),
        plain_path(p),
        0 <= i < p.len(),
        doc_leads(d, p, i, v),
        doc_set(d, p, i, v, depth, unit) is Ok,
    ensures
        yields_alike(path_outs(p.skip(i), doc_val(doc_set(d, p, i, v, depth, unit)->Ok_0)), v),
    decreases p.len() - i, 0int,
{
    let r = doc_set(d, p, i, v, depth, unit)->Ok_0;
    plain_from(p, i);
    let name = p[i]->Field_0;
    let occ = occurrences(d.nodes, name, d.nodes.len());
    occurrences_bounds(d.nodes, name, d.nodes.len());
    path_front(p.skip(i), doc_val(r));
    if i + 1 < p.len() {
        plain_from(p, i + 1);
    }
    if occ.len() == 0 {
        appended_reads_back(d, name, v, depth, unit);
        reread_alike(v);
        ends_here(p, reread(v));
    } else if occ.len() == 1 {
        let at = occ[0];
        let n = d.nodes[at];
        let m = r.nodes[at];
        if i + 1 == p.len() {
            leaf_reads_back(n, v);
            ends_here(p, node_val(m));
        } else {
            node_reads_back(n, p, i + 1, v, depth + 1, unit);
        }
        assert(m.name == n.name);
        same_names(r.nodes, d.nodes, name, d.nodes.len());
        one_node_value(r, name);
    } else if i + 1 < p.len() {
        let x = p[i + 1]->Index_0 as int;
        let k = resolved(x, occ.len() as int)->0;
        let at = occ[k];
        let n = d.nodes[at];
        let m = r.nodes[at];
        if i + 2 == p.len() {
            leaf_reads_back(n, v);
            ends_here(p, node_val(m));
        } else {
            node_reads_back(n, p, i + 2, v, depth + 1, unit);
        }
        assert(m.name == n.name);
        same_names(r.nodes, d.nodes, name, d.nodes.len());
        vals_are_named(r.nodes, name, r.nodes.len());
        name_value(r, name);
        let vs = named_vals(r.nodes, name, r.nodes.len());
        assert(vs.len() == occ.len());
        assert(vs[k] == node_val(m));
        path_front(p.skip(i + 1), Val::Array(vs));
    }
}

#[verifier::rlimit(40)]
#[verifier::spinoff_prover]
proof fn node_reads_back(n: Kn, p: Seq<St>, i: int, v: Val, depth: nat, unit: Seq<char>)
    requires
        shaped(v),
        plain_path(p),
        0 <= i < p.len(),
        node_leads(n, p, i, v),
        within(n, p, i, v, depth, unit) is Ok,
    ensures
        within(n, p, i, v, depth, unit)->Ok_0.name == n.name,
        yields_alike(path_outs(p.skip(i), node_val(within(n, p, i, v, depth, unit)->Ok_0)), v),
    decreases p.len() - i, 1int,
{
    let r = within(n, p, i, v, depth, unit)->Ok_0;
    plain_from(p, i);
    path_front(p.skip(i), node_val(r));
    if p[i] is Index {
        arg_reads_back(n, p[i]->Index_0 as int, v);
        leaf_has_no_props(n.args, n.args.len());
        ends_here(p, v);
    } else if p[i]->Field_0 == args_key() {
        props_of_mixed(n.args, n.args.len());
        if i + 1 == p.len() {
            row_reads_back(n, v);
            mixed_args(r);
            ends_here(p, one_or_all(arg_vals(r.args, r.args.len())));
        } else {
            plain_from(p, i + 1);
            arg_reads_back(n, p[i + 1]->Index_0 as int, v);
            mixed_args(r);
            path_front(p.skip(i + 1), Val::Array(arg_vals(r.args, r.args.len())));
            ends_here(p, v);
        }
    } else {
        let k = p[i]->Field_0;
        let at = prop_slot(n.args, k, n.args.len());
        prop_slot_bounds(n.args, k, n.args.len());
        if at >= 0 {
            assert(r.args == n.args.update(at, r.args[at]));
            assert(r.args[at].name == n.args[at].name);
            assert forall|a: int, b: int|
                0 <= a < b < r.args.len() && (#[trigger] r.args[a]).name is Some && (
                #[trigger] r.args[b]).name is Some implies r.args[a].name->0.value != k
                || r.args[b].name->0.value != k by {
                assert(r.args[a].name == n.args[a].name && r.args[b].name == n.args[b].name);
            }
            prop_slot_bounds(r.args, k, r.args.len());
            let bt = prop_slot(r.args, k, r.args.len());
            if bt != at {
                assert(r.args[at].name is Some);
                if bt > at {
                    assert(n.args[bt].name == r.args[bt].name);
                }
            }
            member_of_node(r, k);
            ends_here(p, v);
        } else {
            let d = match n.children {
                Some(d) => d,
                None => opened(n, unit, (depth - 1) as nat).children->0,
            };
            if n.children is None {
                assert(occurrences(d.nodes, k, 0).len() == 0);
            }
            doc_reads_back(d, p, i, v, depth, unit);
            let e = doc_set(d, p, i, v, depth, unit)->Ok_0;
            assert(r.children == Some(e));
            assert(r.args == n.args);
            member_of_node(r, k);
            path_front(p.skip(i), doc_val(e));
        }
    }
}

/// A value that has a form in KDL, set at a path of keys and indices, is what the path
/// then yields, but for how KDL holds floats, where the path goes, when read, where it
/// goes when set.
pub proof fn kdl_set_reads_back(d: Kd, p: Seq<St>, v: Val, unit: Seq<char>)
    requires
        shaped(v),
        plain_path(p),
        doc_leads(d, p, 0, v),
        doc_set(d, p, 0, v, 0, unit) is Ok,
    ensures
        ({
            let o = path_outs(p, doc_val(doc_set(d, p, 0, v, 0, unit)->Ok_0));
            &&& yields_alike(o, v)
            &&& floatless(v) ==> o == Ok::<Seq<Val>, Er>(seq![v])
        }),
{
    doc_reads_back(d, p, 0, v, 0, unit);
    assert(p.skip(0) =~= p);
    let o = path_outs(p, doc_val(doc_set(d, p, 0, v, 0, unit)->Ok_0));
    if floatless(v) {
        alike_is_same(v, o->Ok_0[0]);
        assert(o->Ok_0 =~= seq![v]);
    }
}

proof fn extra_nodes_are(
    name: Seq<char>,
    items: Seq<Val>,
    from: int,
    n: int,
    depth: nat,
    unit: Seq<char>,
)
    requires
        0 <= from <= n <= items.len(),
        forall|i: int|
            from <= i < items.len() ==> shaped(#[trigger] items[i]) && (items[i] is Array ==> row(
                items[i],
            )),
    ensures
        extra_nodes(name, items, from, n) is Ok,
        extra_nodes(name, items, from, n)->Ok_0.len() == n - from,
        forall|i: int|
            0 <= i < n - from ==> {
                let k = dressed(#[trigger] extra_nodes(name, items, from, n)->Ok_0[i], depth, unit);
                k.name.value == name && node_val(k) == reread(items[from + i])
            },
    decreases n - from,
{
    if n > from {
        extra_nodes_are(name, items, from, n - 1, depth, unit);
        assert(shaped(items[n - 1]));
        kdl_nodes_read_back(name, items[n - 1], depth, unit);
        let ks = value_nodes(name, items[n - 1])->Ok_0;
        let ds = Seq::new(ks.len(), |i: int| dressed(ks[i], depth, unit));
        assert(ds[0].name.value == name && node_vals(ds)[0] == reread(items[n - 1]));
        let a = extra_nodes(name, items, from, n - 1)->Ok_0;
        let r = extra_nodes(name, items, from, n)->Ok_0;
        assert forall|i: int| 0 <= i < n - from implies ({
            let k = dressed(#[trigger] r[i], depth, unit);
            k.name.value == name && node_val(k) == reread(items[from + i])
        }) by {
            if i < n - 1 - from {
                assert(r[i] == a[i]);
            }
        }
    }
}

/// Nodes of one name set to an array keep their values, each level with the
/// element at its place, and the elements behind them follow, each float as its text
/// reads.
pub proof fn kdl_run_reads_back(
    d: Kd,
    name: Seq<char>,
    items: Seq<Val>,
    depth: nat,
    unit: Seq<char>,
)
    requires
        occurrences(d.nodes, name, d.nodes.len()).len() > 1,
        run_extended(d, name, Val::Array(items), depth, unit) is Ok,
        forall|i: int|
            occurrences(d.nodes, name, d.nodes.len()).len() <= i < items.len() ==> shaped(
                #[trigger] items[i],
            ) && (items[i] is Array ==> row(items[i])),
    ensures
        ({
            let had = named_vals(d.nodes, name, d.nodes.len());
            let r = run_extended(d, name, Val::Array(items), depth, unit)->Ok_0;
            &&& had.len() <= items.len()
            &&& forall|i: int|
                0 <= i < had.len() ==> val_rank(#[trigger] had[i], items[i]) == Rank::Level
            &&& get_key(doc_members(r), name) == Some(
                Val::Array(had + reread_all(items.skip(had.len() as int))),
            )
        }),
{
    let ns = d.nodes;
    let occ = occurrences(ns, name, ns.len());
    let had = named_vals(ns, name, ns.len());
    let r = run_extended(d, name, Val::Array(items), depth, unit)->Ok_0;
    occurrences_bounds(ns, name, ns.len());
    vals_are_named(ns, name, ns.len());
    assert(had.len() == occ.len());
    assert forall|i: int| 0 <= i < had.len() implies val_rank(#[trigger] had[i], items[i])
        == Rank::Level by {
        assert(had[i] == node_val(ns[occ[i]]));
    }
    let at = occ.last() + 1;
    assert forall|i: int| at <= i < ns.len() implies (#[trigger] ns[i]).name.value != name by {
        if ns[i].name.value == name {
            let j = occurs(ns, name, ns.len(), i);
        }
    }
    let from = occ.len() as int;
    let vs = reread_all(items.skip(from));
    extra_nodes_are(name, items, from, items.len() as int, depth, unit);
    let ks = extra_nodes(name, items, from, items.len() as int)->Ok_0;
    all_put_behind(ns, ks, at, depth, unit, first_indent(ns), name, vs, ks.len());
    assert(vs.take(ks.len() as int) =~= vs);
    name_value(r, name);
}

} // verus!
