//! What a value written as KDL nodes reads back as.
use crate::kdl_change::{closed, closed_all, dressed};
use crate::kdl_items::{
    double_read, formatted, laid_out, laid_out_all, written, written_node, written_nodes,
};
use crate::kdl_laws::group_from_is;
use crate::kdl_nodes::{
    arg_member, arg_vals, args_key, bare_node, doc_members, doc_val, each_node, group_from, groups,
    holds_container, members_node, new_arg, node_val, one_node, one_or_all, prop_vals, scalar_val,
    to_scalar, value_nodes, with_args,
};
use crate::kdl_notes::{built_document, built_nodes};
use crate::kdl_tree::{Ka, Kd, Kn};
use crate::model::Val;
use vstd::prelude::*;

verus! {

/// The value with each float as the double that its text reads as.
pub open spec fn reread(v: Val) -> Val
    decreases v,
{
    match v {
        Val::Float(f) => Val::Float(double_read(f.text)),
        Val::Array(a) => Val::Array(
            Seq::new(
                a.len(),
                |i: int|
                    if 0 <= i < a.len() {
                        reread(a[i])
                    } else {
                        Val::Null
                    },
            ),
        ),
        Val::Object(m) => Val::Object(
            Seq::new(
                m.len(),
                |i: int|
                    if 0 <= i < m.len() {
                        (m[i].0, reread(m[i].1))
                    } else {
                        (Seq::empty(), Val::Null)
                    },
            ),
        ),
        _ => v,
    }
}

/// Each of the values reread.
pub open spec fn reread_all(vs: Seq<Val>) -> Seq<Val> {
    Seq::new(vs.len(), |i: int| reread(vs[i]))
}

/// Each of the members with its value reread.
pub open spec fn reread_members(m: Seq<(Seq<char>, Val)>) -> Seq<(Seq<char>, Val)> {
    Seq::new(m.len(), |i: int| (m[i].0, reread(m[i].1)))
}

proof fn reread_parts()
    ensures
        forall|a: Seq<Val>| #[trigger] reread(Val::Array(a)) == Val::Array(reread_all(a)),
        forall|m: Seq<(Seq<char>, Val)>| #[trigger]
            reread(Val::Object(m)) == Val::Object(reread_members(m)),
{
    assert forall|a: Seq<Val>| #[trigger]
        reread(Val::Array(a)) == Val::Array(reread_all(a)) by {
        assert(reread(Val::Array(a))->Array_0 =~= reread_all(a));
    }
    assert forall|m: Seq<(Seq<char>, Val)>| #[trigger]
        reread(Val::Object(m)) == Val::Object(reread_members(m)) by {
        assert(reread(Val::Object(m))->Object_0 =~= reread_members(m));
    }
}

/// A scalar, or an array of two or more: what the arguments of a node stand for.
pub open spec fn row(v: Val) -> bool {
    match v {
        Val::Array(a) => a.len() >= 2 && !holds_container(a),
        Val::Object(_) => false,
        _ => true,
    }
}

/// Is no key twice in the object?
pub open spec fn apart(m: Seq<(Seq<char>, Val)>) -> bool {
    forall|i: int, j: int| 0 <= i < j < m.len() ==> (#[trigger] m[i]).0 != (#[trigger] m[j]).0
}

/// Has the value a form in KDL that reads as it? A scalar has, and so has an array of
/// two or more such values in which only rows stand as arrays, and an object of such
/// values without a key twice, whose arguments, if any, stand first and not alone.
pub open spec fn shaped(v: Val) -> bool
    decreases v,
{
    match v {
        Val::Array(a) => a.len() >= 2 && forall|i: int|
            0 <= i < a.len() ==> shaped(#[trigger] a[i]) && (a[i] is Array ==> row(a[i])),
        Val::Object(m) => {
            &&& m.len() > 0
            &&& apart(m)
            &&& m[0].0 == args_key() ==> m.len() > 1 && row(m[0].1)
            &&& forall|i: int| 0 < i < m.len() ==> (#[trigger] m[i]).0 != args_key()
            &&& forall|i: int| 0 <= i < m.len() ==> shaped((#[trigger] m[i]).1)
        },
        _ => true,
    }
}

/// The values of some nodes.
pub open spec fn node_vals(ns: Seq<Kn>) -> Seq<Val> {
    Seq::new(ns.len(), |i: int| node_val(ns[i]))
}

/// Is no scalar of the node an integer beyond 64 bits?
spec fn narrow(n: Kn) -> bool
    decreases n,
{
    (forall|i: int| 0 <= i < n.args.len() ==> !((#[trigger] n.args[i]).value is Wide)) && match n.children {
        None => true,
        Some(d) => forall|i: int| 0 <= i < d.nodes.len() ==> narrow(#[trigger] d.nodes[i]),
    }
}

/// Nodes whose names and values agree make the same groups.
proof fn same_groups(a: Seq<Kn>, b: Seq<Kn>, n: nat)
    requires
        n <= a.len(),
        n <= b.len(),
        forall|i: int|
            0 <= i < n ==> (#[trigger] a[i]).name.value == b[i].name.value && node_val(a[i])
                == node_val(b[i]),
    ensures
        groups(a, n) == groups(b, n),
    decreases n,
{
    if n > 0 {
        same_groups(a, b, (n - 1) as nat);
        assert(a[n - 1].name.value == b[n - 1].name.value);
    }
}

/// Entries whose names and values agree stand for the same values.
proof fn same_entries(a: Seq<Ka>, b: Seq<Ka>, n: nat)
    requires
        n <= a.len(),
        n <= b.len(),
        forall|i: int|
            0 <= i < n ==> (#[trigger] a[i]).name == b[i].name && a[i].value == b[i].value,
    ensures
        arg_vals(a, n) == arg_vals(b, n),
        prop_vals(a, n) == prop_vals(b, n),
    decreases n,
{
    if n > 0 {
        same_entries(a, b, (n - 1) as nat);
        assert(a[n - 1].name == b[n - 1].name);
    }
}

proof fn laid_out_all_at(ns: Seq<Kn>, level: nat, unit: Seq<char>, n: nat)
    requires
        n <= ns.len(),
    ensures
        laid_out_all(ns, level, unit, n).len() == n,
        forall|i: int|
            0 <= i < n ==> #[trigger] laid_out_all(ns, level, unit, n)[i] == laid_out(
                ns[i],
                level,
                unit,
            ),
    decreases n,
{
    if n > 0 {
        laid_out_all_at(ns, level, unit, (n - 1) as nat);
    }
}

proof fn closed_all_at(ns: Seq<Kn>, unit: Seq<char>, level: nat, n: nat)
    requires
        n <= ns.len(),
    ensures
        closed_all(ns, unit, level, n).len() == n,
        forall|i: int|
            0 <= i < n ==> #[trigger] closed_all(ns, unit, level, n)[i] == closed(
                ns[i],
                unit,
                level,
            ),
    decreases n,
{
    if n > 0 {
        closed_all_at(ns, unit, level, (n - 1) as nat);
    }
}

proof fn written_nodes_at(ns: Seq<Kn>, n: nat)
    requires
        n <= ns.len(),
    ensures
        written_nodes(ns, n).len() == n,
        forall|i: int| 0 <= i < n ==> #[trigger] written_nodes(ns, n)[i] == written_node(ns[i]),
    decreases n,
{
    if n > 0 {
        written_nodes_at(ns, (n - 1) as nat);
    }
}

/// Laying a node out keeps its value.
proof fn laying_out_keeps(n: Kn, level: nat, unit: Seq<char>)
    ensures
        node_val(laid_out(n, level, unit)) == node_val(n),
        laid_out(n, level, unit).name == n.name,
    decreases n,
{
    let r = laid_out(n, level, unit);
    same_entries(r.args, n.args, n.args.len());
    if let Some(d) = n.children {
        let e = r.children->0;
        laid_out_all_at(d.nodes, level + 1, unit, d.nodes.len());
        assert forall|i: int| 0 <= i < d.nodes.len() implies (#[trigger] e.nodes[i]).name.value
            == d.nodes[i].name.value && node_val(e.nodes[i]) == node_val(d.nodes[i]) by {
            assert(decreases_to!(n => n.children->0.nodes[i]));
            laying_out_keeps(d.nodes[i], level + 1, unit);
        }
        same_groups(e.nodes, d.nodes, d.nodes.len());
        assert(doc_members(e) =~= doc_members(d));
    }
}

/// Closing a node's blocks keeps its value.
proof fn closing_keeps(n: Kn, unit: Seq<char>, level: nat)
    ensures
        node_val(closed(n, unit, level)) == node_val(n),
        closed(n, unit, level).name == n.name,
    decreases n,
{
    let r = closed(n, unit, level);
    if let Some(d) = n.children {
        let e = r.children->0;
        closed_all_at(d.nodes, unit, level + 1, d.nodes.len());
        assert forall|i: int| 0 <= i < d.nodes.len() implies (#[trigger] e.nodes[i]).name.value
            == d.nodes[i].name.value && node_val(e.nodes[i]) == node_val(d.nodes[i]) by {
            assert(decreases_to!(n => n.children->0.nodes[i]));
            closing_keeps(d.nodes[i], unit, level + 1);
        }
        same_groups(e.nodes, d.nodes, d.nodes.len());
        assert(doc_members(e) =~= doc_members(d));
    }
}

proof fn written_entries(a: Seq<Ka>, b: Seq<Ka>, n: nat)
    requires
        n <= a.len(),
        n <= b.len(),
        forall|i: int|
            0 <= i < n ==> (#[trigger] a[i]).name == b[i].name && a[i].value == written(b[i].value)
                && !(b[i].value is Wide),
    ensures
        arg_vals(a, n) == reread_all(arg_vals(b, n)),
        prop_vals(a, n) == reread_members(prop_vals(b, n)),
    decreases n,
{
    if n > 0 {
        written_entries(a, b, (n - 1) as nat);
        assert(a[n - 1].name == b[n - 1].name);
        assert(scalar_val(a[n - 1].value) == reread(scalar_val(b[n - 1].value)));
    }
    assert(arg_vals(a, n) =~= reread_all(arg_vals(b, n)));
    assert(prop_vals(a, n) =~= reread_members(prop_vals(b, n)));
}

/// The groups with each value reread.
spec fn reread_groups(gs: Seq<(Seq<char>, Seq<Val>)>) -> Seq<(Seq<char>, Seq<Val>)> {
    Seq::new(gs.len(), |i: int| (gs[i].0, reread_all(gs[i].1)))
}

proof fn same_group_from(gs: Seq<(Seq<char>, Seq<Val>)>, name: Seq<char>, i: int)
    requires
        0 <= i <= gs.len(),
    ensures
        group_from(reread_groups(gs), name, i) == group_from(gs, name, i),
        i <= group_from(gs, name, i) <= gs.len(),
        group_from(gs, name, i) < gs.len() ==> gs[group_from(gs, name, i)].0 == name,
    decreases gs.len() - i,
{
    if i < gs.len() {
        assert(reread_groups(gs)[i].0 == gs[i].0);
        same_group_from(gs, name, i + 1);
    }
}

proof fn written_groups(a: Seq<Kn>, b: Seq<Kn>, n: nat)
    requires
        n <= a.len(),
        n <= b.len(),
        forall|i: int|
            0 <= i < n ==> (#[trigger] a[i]).name.value == b[i].name.value && node_val(a[i])
                == reread(node_val(b[i])),
    ensures
        groups(a, n) == reread_groups(groups(b, n)),
    decreases n,
{
    if n > 0 {
        written_groups(a, b, (n - 1) as nat);
        assert(a[n - 1].name.value == b[n - 1].name.value);
        let gs = groups(b, (n - 1) as nat);
        let name = b[n - 1].name.value;
        let x = node_val(b[n - 1]);
        same_group_from(gs, name, 0);
        let i = group_from(gs, name, 0);
        if i < gs.len() {
            assert(reread_all(gs[i].1.push(x)) =~= reread_all(gs[i].1).push(reread(x)));
        } else {
            assert(reread_all(seq![x]) =~= seq![reread(x)]);
        }
    }
    assert(groups(a, n) =~= reread_groups(groups(b, n)));
}

proof fn reread_one_or_all(vs: Seq<Val>)
    ensures
        one_or_all(reread_all(vs)) == reread(one_or_all(vs)),
{
    reread_parts();
}

/// What is written for a node has the node's value, reread.
proof fn writing_rereads(n: Kn)
    requires
        narrow(n),
    ensures
        node_val(written_node(n)) == reread(node_val(n)),
        written_node(n).name == n.name,
    decreases n,
{
    let r = written_node(n);
    reread_parts();
    written_entries(r.args, n.args, n.args.len());
    let args = arg_vals(n.args, n.args.len());
    let props = prop_vals(n.args, n.args.len());
    reread_one_or_all(args);
    assert(arg_member(reread_all(args)) =~= reread_members(arg_member(args)));
    assert(reread_members(arg_member(args)) + reread_members(props) =~= reread_members(
        arg_member(args) + props,
    ));
    if let Some(d) = n.children {
        let e = r.children->0;
        written_nodes_at(d.nodes, d.nodes.len());
        assert forall|i: int| 0 <= i < d.nodes.len() implies (#[trigger] e.nodes[i]).name.value
            == d.nodes[i].name.value && node_val(e.nodes[i]) == reread(node_val(d.nodes[i])) by {
            assert(decreases_to!(n => n.children->0.nodes[i]));
            assert(narrow(d.nodes[i]));
            writing_rereads(d.nodes[i]);
        }
        written_groups(e.nodes, d.nodes, d.nodes.len());
        let gs = groups(d.nodes, d.nodes.len());
        assert forall|i: int| 0 <= i < gs.len() implies #[trigger] doc_members(e)[i]
            == reread_members(doc_members(d))[i] by {
            reread_one_or_all(gs[i].1);
        }
        assert(doc_members(e) =~= reread_members(doc_members(d)));
        assert(reread_members(arg_member(args) + props) + reread_members(doc_members(d))
            =~= reread_members(arg_member(args) + props + doc_members(d)));
    }
}

/// Are the entries arguments, and none an integer beyond 64 bits?
spec fn nameless(es: Seq<Ka>) -> bool {
    forall|i: int| 0 <= i < es.len() ==> (#[trigger] es[i]).name is None && !(es[i].value is Wide)
}

proof fn nameless_entries(es: Seq<Ka>, n: nat)
    requires
        n <= es.len(),
        nameless(es),
    ensures
        arg_vals(es, n).len() == n,
        forall|i: int| 0 <= i < n ==> #[trigger] arg_vals(es, n)[i] == scalar_val(es[i].value),
        prop_vals(es, n).len() == 0,
    decreases n,
{
    if n > 0 {
        nameless_entries(es, (n - 1) as nat);
        assert(es[n - 1].name is None);
    }
}

/// Scalars behind a node's arguments.
proof fn args_added(node: Kn, a: Seq<Val>, n: nat)
    requires
        n <= a.len(),
        !holds_container(a),
        nameless(node.args),
    ensures
        with_args(node, a, n) is Ok,
        ({
            let r = with_args(node, a, n)->Ok_0;
            &&& r.name == node.name
            &&& r.children == node.children
            &&& r.args.len() == node.args.len() + n
            &&& nameless(r.args)
            &&& forall|i: int| 0 <= i < node.args.len() ==> #[trigger] r.args[i] == node.args[i]
            &&& forall|i: int|
                0 <= i < n ==> scalar_val((#[trigger] r.args[node.args.len() + i]).value) == a[i]
        }),
    decreases n,
{
    if n > 0 {
        args_added(node, a, (n - 1) as nat);
        let q = with_args(node, a, (n - 1) as nat)->Ok_0;
        assert(!(a[n - 1] is Object) && !(a[n - 1] is Array));
        let r = with_args(node, a, n)->Ok_0;
        assert(r.args == q.args.push(new_arg(to_scalar(a[n - 1])->0)));
        assert forall|i: int| 0 <= i < n implies scalar_val(
            (#[trigger] r.args[node.args.len() + i]).value,
        ) == a[i] by {
            if i < n - 1 {
                assert(r.args[node.args.len() + i] == q.args[node.args.len() + i]);
            }
        }
    }
}

/// The scalars of a row.
spec fn row_vals(v: Val) -> Seq<Val> {
    match v {
        Val::Array(a) => a,
        _ => seq![v],
    }
}

proof fn row_added(node: Kn, v: Val)
    requires
        row(v),
        node.args.len() == 0,
    ensures
        !holds_container(row_vals(v)),
        one_or_all(row_vals(v)) == v,
        row_vals(v).len() > 0,
        with_args(node, row_vals(v), row_vals(v).len()) is Ok,
        ({
            let r = with_args(node, row_vals(v), row_vals(v).len())->Ok_0;
            &&& r.name == node.name
            &&& r.children == node.children
            &&& nameless(r.args)
            &&& arg_vals(r.args, r.args.len()) == row_vals(v)
            &&& prop_vals(r.args, r.args.len()).len() == 0
        }),
{
    let vs = row_vals(v);
    assert(!holds_container(vs));
    args_added(node, vs, vs.len());
    let r = with_args(node, vs, vs.len())->Ok_0;
    nameless_entries(r.args, r.args.len());
    assert forall|i: int| 0 <= i < vs.len() implies #[trigger] arg_vals(r.args, r.args.len())[i]
        == vs[i] by {
        assert(r.args[node.args.len() + i] == r.args[i]);
    }
    assert(arg_vals(r.args, r.args.len()) =~= vs);
}

/// Nodes of a new name behind others make a group of their own.
proof fn run_grouped(a: Seq<Kn>, kids: Seq<Kn>, name: Seq<char>, n: nat)
    requires
        n <= kids.len(),
        forall|i: int| 0 <= i < kids.len() ==> (#[trigger] kids[i]).name.value == name,
        forall|j: int| 0 <= j < groups(a, a.len()).len() ==> (#[trigger] groups(a, a.len())[j]).0 != name,
    ensures
        groups(a + kids, a.len() + n) == (if n == 0 {
            groups(a, a.len())
        } else {
            groups(a, a.len()).push((name, node_vals(kids).take(n as int)))
        }),
    decreases n,
{
    let ns = a + kids;
    let gs = groups(a, a.len());
    if n == 0 {
        same_groups(ns, a, a.len());
    } else {
        run_grouped(a, kids, name, (n - 1) as nat);
        let hs = groups(ns, (a.len() + n - 1) as nat);
        let k = kids[n - 1];
        assert(ns[a.len() + n - 1] == k);
        assert(k.name.value == name);
        let vs = node_vals(kids);
        group_from_is(hs, name, 0, gs.len() as int);
        if n == 1 {
            assert(vs.take(1) =~= seq![node_val(k)]);
        } else {
            assert(vs.take(n - 1).push(node_val(k)) =~= vs.take(n as int));
            assert(hs.update(gs.len() as int, (name, vs.take(n as int))) =~= gs.push(
                (name, vs.take(n as int)),
            ));
        }
    }
}

/// Where an object's members other than its arguments start.
spec fn keyed_from(m: Seq<(Seq<char>, Val)>) -> int {
    if m.len() > 0 && m[0].0 == args_key() {
        1
    } else {
        0
    }
}

/// The document with the nodes of one more member.
proof fn member_added(d: Kd, kids: Seq<Kn>, key: Seq<char>, v: Val)
    requires
        kids.len() > 0,
        forall|i: int| 0 <= i < kids.len() ==> (#[trigger] kids[i]).name.value == key,
        one_or_all(node_vals(kids)) == v,
        forall|j: int| 0 <= j < doc_members(d).len() ==> (#[trigger] doc_members(d)[j]).0 != key,
    ensures
        doc_members(Kd { nodes: d.nodes + kids, form: d.form }) == doc_members(d).push((key, v)),
{
    let gs = groups(d.nodes, d.nodes.len());
    assert forall|j: int| 0 <= j < gs.len() implies (#[trigger] gs[j]).0 != key by {
        assert(doc_members(d)[j].0 == gs[j].0);
    }
    run_grouped(d.nodes, kids, key, kids.len());
    assert(node_vals(kids).take(kids.len() as int) =~= node_vals(kids));
    assert((d.nodes + kids).len() == d.nodes.len() + kids.len());
    assert(doc_members(Kd { nodes: d.nodes + kids, form: d.form }) =~= doc_members(d).push(
        (key, v),
    ));
}

proof fn members_read_back(name: Seq<char>, m: Seq<(Seq<char>, Val)>, n: nat)
    requires
        n <= m.len(),
        shaped(Val::Object(m)),
    ensures
        members_node(bare_node(name), m, n) is Ok,
        ({
            let k = members_node(bare_node(name), m, n)->Ok_0;
            let off = keyed_from(m);
            &&& k.name.value == name
            &&& nameless(k.args)
            &&& narrow(k)
            &&& prop_vals(k.args, k.args.len()).len() == 0
            &&& n > 0 && off == 1 ==> arg_member(arg_vals(k.args, k.args.len())) == m.take(1)
            &&& n == 0 || off == 0 ==> k.args.len() == 0
            &&& n <= off ==> k.children is None
            &&& n > off ==> k.children is Some && doc_members(k.children->0) == m.subrange(
                off,
                n as int,
            )
        }),
    decreases m, 1int, n,
{
    let off = keyed_from(m);
    if n == 0 {
        let k = bare_node(name);
        assert(prop_vals(k.args, 0).len() == 0);
    } else {
        members_read_back(name, m, (n - 1) as nat);
        let q = members_node(bare_node(name), m, (n - 1) as nat)->Ok_0;
        let k = members_node(bare_node(name), m, n)->Ok_0;
        let (key, v) = m[n - 1];
        assert(shaped(m[n - 1].1));
        if key == args_key() {
            assert(n == 1);
            row_added(q, v);
            let vs = row_vals(v);
            assert(k == with_args(q, vs, vs.len())->Ok_0);
            assert(arg_member(vs) =~= m.take(1));
        } else {
            value_nodes_read_back(key, v);
            let kids = value_nodes(key, v)->Ok_0;
            let d = match q.children {
                Some(d) => d,
                None => Kd { nodes: Seq::empty(), form: None },
            };
            if n - 1 <= off {
                assert(groups(d.nodes, 0) == Seq::<(Seq<char>, Seq<Val>)>::empty());
                assert(doc_members(d) =~= m.subrange(off, n - 1));
            }
            assert forall|j: int| 0 <= j < doc_members(d).len() implies (#[trigger] doc_members(
                d,
            )[j]).0 != key by {
                assert(doc_members(d)[j] == m[off + j]);
                assert(m[off + j].0 != m[n - 1].0);
            }
            member_added(d, kids, key, v);
            assert(m.subrange(off, n - 1).push((key, v)) =~= m.subrange(off, n as int));
            let e = k.children->0;
            assert forall|i: int| 0 <= i < e.nodes.len() implies narrow(#[trigger] e.nodes[i]) by {
                if i < d.nodes.len() {
                    assert(e.nodes[i] == d.nodes[i]);
                } else {
                    assert(e.nodes[i] == kids[i - d.nodes.len()]);
                }
            }
        }
    }
}

proof fn one_node_reads_back(name: Seq<char>, v: Val)
    requires
        shaped(v),
        v is Array ==> row(v),
    ensures
        one_node(name, v) is Ok,
        one_node(name, v)->Ok_0.name.value == name,
        narrow(one_node(name, v)->Ok_0),
        node_val(one_node(name, v)->Ok_0) == v,
    decreases v, 1int, 0nat,
{
    let k = one_node(name, v)->Ok_0;
    match v {
        Val::Object(m) => {
            members_read_back(name, m, m.len());
            let off = keyed_from(m);
            assert(m.len() > off);
            let d = k.children->0;
            let args = arg_vals(k.args, k.args.len());
            let props = prop_vals(k.args, k.args.len());
            if off == 0 {
                assert(arg_member(args) =~= m.take(0));
            }
            assert(arg_member(args) + props + doc_members(d) =~= m);
        },
        Val::Null => {
            assert(arg_vals(k.args, 0).len() == 0);
            assert(prop_vals(k.args, 0).len() == 0);
        },
        _ => {
            row_added(bare_node(name), v);
        },
    }
}

proof fn each_node_reads_back(name: Seq<char>, a: Seq<Val>, n: nat)
    requires
        n <= a.len(),
        shaped(Val::Array(a)),
    ensures
        each_node(name, a, n) is Ok,
        ({
            let ks = each_node(name, a, n)->Ok_0;
            &&& node_vals(ks) == a.take(n as int)
            &&& forall|i: int|
                0 <= i < ks.len() ==> (#[trigger] ks[i]).name.value == name && narrow(ks[i])
        }),
    decreases a, 2int, n,
{
    if n > 0 {
        each_node_reads_back(name, a, (n - 1) as nat);
        assert(shaped(a[n - 1]));
        one_node_reads_back(name, a[n - 1]);
        let q = each_node(name, a, (n - 1) as nat)->Ok_0;
        let ks = each_node(name, a, n)->Ok_0;
        assert(node_vals(ks) =~= node_vals(q).push(a[n - 1]));
        assert(a.take(n - 1).push(a[n - 1]) =~= a.take(n as int));
    } else {
        assert(node_vals(each_node(name, a, n)->Ok_0) =~= a.take(0));
    }
}

proof fn value_nodes_read_back(name: Seq<char>, v: Val)
    requires
        shaped(v),
    ensures
        value_nodes(name, v) is Ok,
        ({
            let ks = value_nodes(name, v)->Ok_0;
            &&& ks.len() > 0
            &&& v is Array ==> row(v) ==> ks.len() == 1
            &&& !(v is Array) ==> ks.len() == 1
            &&& one_or_all(node_vals(ks)) == v
            &&& forall|i: int|
                0 <= i < ks.len() ==> (#[trigger] ks[i]).name.value == name && narrow(ks[i])
        }),
    decreases v, 3int, 0nat,
{
    let ks = value_nodes(name, v)->Ok_0;
    if v is Array && holds_container(v->Array_0) {
        let a = v->Array_0;
        each_node_reads_back(name, a, a.len());
        assert(a.take(a.len() as int) =~= a);
        assert(node_vals(ks).len() == ks.len());
    } else {
        one_node_reads_back(name, v);
        assert(ks =~= seq![one_node(name, v)->Ok_0]);
        assert(node_vals(ks)[0] == v);
    }
}

/// A value as nodes of a name reads back as it, each float as its text reads: the
/// nodes have the name, and their values together are the value.
pub proof fn kdl_nodes_read_back(name: Seq<char>, v: Val, depth: nat, unit: Seq<char>)
    requires
        shaped(v),
    ensures
        value_nodes(name, v) is Ok,
        ({
            let ks = value_nodes(name, v)->Ok_0;
            let ds = Seq::new(ks.len(), |i: int| dressed(ks[i], depth, unit));
            let fs = Seq::new(ks.len(), |i: int| formatted(ks[i], depth, unit));
            &&& ks.len() > 0
            &&& !(v is Array) || row(v) ==> ks.len() == 1
            &&& one_or_all(node_vals(ds)) == reread(v)
            &&& one_or_all(node_vals(fs)) == reread(v)
            &&& forall|i: int| 0 <= i < ks.len() ==> (#[trigger] ds[i]).name.value == name
            &&& forall|i: int| 0 <= i < ks.len() ==> (#[trigger] fs[i]).name.value == name
        }),
{
    value_nodes_read_back(name, v);
    let ks = value_nodes(name, v)->Ok_0;
    let ds = Seq::new(ks.len(), |i: int| dressed(ks[i], depth, unit));
    let fs = Seq::new(ks.len(), |i: int| formatted(ks[i], depth, unit));
    let vs = node_vals(ks);
    assert forall|i: int| 0 <= i < ks.len() implies node_val(#[trigger] ds[i]) == reread(vs[i])
        && ds[i].name.value == name && node_val(fs[i]) == reread(vs[i]) && fs[i].name.value
        == name by {
        writing_rereads(ks[i]);
        laying_out_keeps(written_node(ks[i]), depth, unit);
        closing_keeps(formatted(ks[i], depth, unit), unit, depth);
    }
    assert forall|i: int| 0 <= i < ks.len() implies (#[trigger] fs[i]).name.value == name by {
        assert(ds[i].name.value == name);
    }
    assert(node_vals(ds) =~= reread_all(vs));
    assert(node_vals(fs) =~= reread_all(vs)) by {
        assert forall|i: int| 0 <= i < ks.len() implies node_vals(fs)[i] == reread_all(vs)[i] by {
            assert(node_val(ds[i]) == reread(vs[i]));
        }
    }
    reread_one_or_all(vs);
}

proof fn built_reads_back(m: Seq<(Seq<char>, Val)>, n: nat)
    requires
        n <= m.len(),
        apart(m),
        forall|i: int| 0 <= i < m.len() ==> shaped((#[trigger] m[i]).1),
    ensures
        built_nodes(m, n) is Ok,
        doc_members(Kd { nodes: built_nodes(m, n)->Ok_0, form: None }) == reread_members(m).take(
            n as int,
        ),
    decreases n,
{
    let all = reread_members(m);
    if n == 0 {
        let d = Kd { nodes: built_nodes(m, n)->Ok_0, form: None };
        assert(groups(d.nodes, 0) == Seq::<(Seq<char>, Seq<Val>)>::empty());
        assert(doc_members(d) =~= all.take(0));
    } else {
        built_reads_back(m, (n - 1) as nat);
        let d = Kd { nodes: built_nodes(m, (n - 1) as nat)->Ok_0, form: None };
        let (key, v) = m[n - 1];
        assert(shaped(m[n - 1].1));
        kdl_nodes_read_back(key, v, 0, "    "@);
        let ks = value_nodes(key, v)->Ok_0;
        let kids = Seq::new(ks.len(), |i: int| formatted(ks[i], 0, "    "@));
        assert forall|j: int| 0 <= j < doc_members(d).len() implies (#[trigger] doc_members(d)[j]).0
            != key by {
            assert(doc_members(d)[j] == all[j]);
            assert(m[j].0 != m[n - 1].0);
        }
        member_added(d, kids, key, reread(v));
        assert(all.take(n - 1).push(all[n - 1]) =~= all.take(n as int));
    }
}

/// The document that is written for an object has the object's value, each float as
/// its text reads, where no key is there twice and each member has a form in KDL.
pub proof fn kdl_emission_reads_back(m: Seq<(Seq<char>, Val)>)
    requires
        apart(m),
        forall|i: int| 0 <= i < m.len() ==> shaped((#[trigger] m[i]).1),
    ensures
        built_document(Val::Object(m)) is Ok,
        doc_val(built_document(Val::Object(m))->Ok_0) == reread(Val::Object(m)),
{
    reread_parts();
    built_reads_back(m, m.len());
    assert(reread_members(m).take(m.len() as int) =~= reread_members(m));
}

} // verus!
