//! What a slice of a JSON document's source holds.
use crate::json_delete_laws::{entry_is_member, js_ok};
use crate::json_edit::{child, child_bounds, entries_of};
use crate::json_laws::{container_text, members_are, vals_are};
use crate::json_nodes::js_val;
use crate::json_tree::{js_text, Js};
use crate::jsonc_comments::{node_texts, nodes_along, nodes_below, nodes_step};
use crate::model::{St, Val};
use crate::semantics::{path_outs, step_fn, step_outs};
use crate::seqs::bind_all;
use vstd::prelude::*;

verus! {

/// Does the part stand in the text, in one piece?
pub open spec fn stands_in(part: Seq<char>, text: Seq<char>) -> bool {
    exists|i: int, j: int| 0 <= i <= j <= text.len() && part == #[trigger] text.subrange(i, j)
}

/// The values of nodes.
pub open spec fn node_values(ns: Seq<Js>) -> Seq<Val> {
    Seq::new(ns.len(), |i: int| js_val(ns[i]))
}

/// Are the nodes ones that a document can have, with their text in the source?
pub open spec fn from_source(ns: Seq<Js>, source: Seq<char>) -> bool {
    forall|i: int| 0 <= i < ns.len() ==> js_ok(#[trigger] ns[i]) && stands_in(js_text(ns[i]), source)
}

proof fn entry_stands(n: Js, i: int, source: Seq<char>)
    requires
        0 <= i < entries_of(n).len(),
        stands_in(js_text(n), source),
    ensures
        stands_in(js_text(entries_of(n)[i].value), source),
{
    container_text(n, i);
    let t = js_text(n);
    let e = entries_of(n)[i];
    let x = js_text(e.value);
    let es = entries_of(n);
    let before = crate::json_edit::opening(n) + crate::json_tree::es_text(es, i as nat)
        + crate::json_tree::key_source(e.key);
    assert(t.subrange(before.len() as int, (before.len() + x.len()) as int) =~= x);
    let (p, q) = choose|p: int, q: int|
        0 <= p <= q <= source.len() && t == #[trigger] source.subrange(p, q);
    let (a, b) = (before.len() as int, (before.len() + x.len()) as int);
    assert(b <= t.len());
    assert(source.subrange(p + a, p + b) =~= t.subrange(a, b));
}

proof fn below_agrees(n: Js, st: St, source: Seq<char>)
    requires
        js_ok(n),
        stands_in(js_text(n), source),
        step_outs(st, js_val(n)) is Ok,
    ensures
        node_values(nodes_below(n, st)) == step_outs(st, js_val(n))->Ok_0,
        from_source(nodes_below(n, st), source),
{
    let es = entries_of(n);
    let below = nodes_below(n, st);
    members_are(es, es.len());
    vals_are(es, es.len());
    child_bounds(n, st);
    match st {
        St::Field(k) => {
            if n is Object {
                entry_is_member(es, k);
            }
        },
        _ => {},
    }
    assert(node_values(below) =~= step_outs(st, js_val(n))->Ok_0);
    assert forall|i: int| 0 <= i < below.len() implies js_ok(#[trigger] below[i]) && stands_in(
        js_text(below[i]),
        source,
    ) by {
        let at = if st is Iterate {
            i
        } else {
            child(n, st)->0
        };
        assert(below[i] == es[at].value);
        entry_stands(n, at, source);
    }
}

proof fn step_agrees(ns: Seq<Js>, st: St, k: nat, source: Seq<char>)
    requires
        k <= ns.len(),
        from_source(ns, source),
        bind_all(node_values(ns).take(k as int), step_fn(st)) is Ok,
    ensures
        node_values(nodes_step(ns, st, k)) == bind_all(
            node_values(ns).take(k as int),
            step_fn(st),
        )->Ok_0,
        from_source(nodes_step(ns, st, k), source),
    decreases k,
{
    let vs = node_values(ns).take(k as int);
    if k == 0 {
        assert(node_values(nodes_step(ns, st, k)) =~= Seq::empty());
    } else {
        assert(vs.drop_last() =~= node_values(ns).take(k - 1));
        assert(vs.last() == js_val(ns[k - 1]));
        step_agrees(ns, st, (k - 1) as nat, source);
        below_agrees(ns[k - 1], st, source);
        let a = nodes_step(ns, st, (k - 1) as nat);
        let b = nodes_below(ns[k - 1], st);
        assert(node_values(a + b) =~= node_values(a) + node_values(b));
        assert forall|i: int| 0 <= i < (a + b).len() implies js_ok(#[trigger] (a + b)[i]) && stands_in(
            js_text((a + b)[i]),
            source,
        ) by {
            if i < a.len() {
                assert((a + b)[i] == a[i]);
            } else {
                assert((a + b)[i] == b[i - a.len()]);
            }
        }
    }
}

proof fn along_agrees(n: Js, path: Seq<St>)
    requires
        js_ok(n),
        path_outs(path, js_val(n)) is Ok,
    ensures
        node_values(nodes_along(seq![n], path)) == path_outs(path, js_val(n))->Ok_0,
        from_source(nodes_along(seq![n], path), js_text(n)),
    decreases path.len(),
{
    let source = js_text(n);
    if path.len() == 0 {
        assert(node_values(seq![n]) =~= seq![js_val(n)]);
        assert(source.subrange(0, source.len() as int) =~= source);
    } else {
        let before = nodes_along(seq![n], path.drop_last());
        along_agrees(n, path.drop_last());
        assert(node_values(before).take(before.len() as int) =~= node_values(before));
        step_agrees(before, path.last(), before.len(), source);
    }
}

/// The slices that a path selects are pieces of the document's own text, one for each value
/// that the path yields of the document's value, in that order, and each the text of that
/// value.
pub proof fn slices_are_the_source(n: Js, path: Seq<St>)
    requires
        js_ok(n),
        path_outs(path, js_val(n)) is Ok,
    ensures
        ({
            let ns = nodes_along(seq![n], path);
            let vs = path_outs(path, js_val(n))->Ok_0;
            let slices = node_texts(ns);
            &&& slices.len() == vs.len()
            &&& forall|i: int|
                0 <= i < vs.len() ==> stands_in(#[trigger] slices[i], js_text(n)) && slices[i]
                    == js_text(ns[i]) && js_val(ns[i]) == vs[i]
        }),
{
    along_agrees(n, path);
    let ns = nodes_along(seq![n], path);
    let vs = path_outs(path, js_val(n))->Ok_0;
    assert(vs.len() == ns.len());
    assert forall|i: int| 0 <= i < vs.len() implies stands_in(
        #[trigger] node_texts(ns)[i],
        js_text(n),
    ) && node_texts(ns)[i] == js_text(ns[i]) && js_val(ns[i]) == vs[i] by {
        assert(node_values(ns)[i] == vs[i]);
        assert(js_ok(ns[i]));
    }
}

} // verus!
