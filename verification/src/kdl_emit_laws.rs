//! What is written as KDL has the value it was written for, with the comments on its nodes.
use crate::comment::plain;
use crate::kdl_laws::groups_alike;
use crate::kdl_items::printed;
use crate::kdl_nodes::{doc_members, doc_val, node_val};
use crate::kdl_notes::{
    built_document, captioned, decorated, decorated_nodes, decorated_run, foot_lines,
    kdl_emitted_commented, later, safe_lines, slash_lines,
};
use crate::kdl_tree::{Kd, Kn};
use crate::line_comment::one_line;
use crate::model::{Cmt, CmtNode, Notes};
use crate::slice_laws::stands_in;
use vstd::prelude::*;
use vstd::string::*;

verus! {

/// Have the nodes the same names and values?
pub open spec fn nodes_match(a: Seq<Kn>, b: Seq<Kn>) -> bool {
    &&& a.len() == b.len()
    &&& forall|i: int|
        0 <= i < a.len() ==> (#[trigger] a[i]).name == b[i].name && a[i].args == b[i].args && node_val(a[i])
            == node_val(b[i])
}

proof fn later_bounds(ns: Seq<Kn>, name: Seq<char>, from: int, n: int)
    requires
        0 <= from,
    ensures
        forall|j: int|
            0 <= j < later(ns, name, from, n).len() ==> from <= #[trigger] later(ns, name, from, n)[j]
                < ns.len() && ns[later(ns, name, from, n)[j]].name.value == name,
    decreases n - from,
{
    if !(n <= from || n > ns.len()) {
        later_bounds(ns, name, from, n - 1);
    }
}

proof fn match_is_carried(a: Seq<Kn>, b: Seq<Kn>, c: Seq<Kn>)
    requires
        nodes_match(a, b),
        nodes_match(b, c),
    ensures
        nodes_match(a, c),
{
    assert forall|i: int| 0 <= i < a.len() implies (#[trigger] a[i]).name == c[i].name && a[i].args
        == c[i].args && node_val(a[i]) == node_val(c[i]) by {
        assert(b[i].name == c[i].name);
    }
}

/// Comments on a node and on those in it change neither its name, its arguments nor its
/// value.
pub proof fn comments_keep_the_node(n: Kn, c: Cmt)
    ensures
        decorated(n, c).name == n.name,
        decorated(n, c).args == n.args,
        node_val(decorated(n, c)) == node_val(n),
    decreases c, 1int, 0nat,
{
    let k = captioned(n, c.notes);
    assert(node_val(k) == node_val(n));
    match (c.node, k.children) {
        (CmtNode::Object(m), Some(d)) => {
            comments_keep_the_nodes(d.nodes, m, m.len());
            same_members(decorated_nodes(d.nodes, m, m.len()).0, d);
        },
        _ => {},
    }
}

proof fn same_members(ns: Seq<Kn>, d: Kd)
    requires
        nodes_match(ns, d.nodes),
    ensures
        doc_members(Kd { nodes: ns, form: d.form }) == doc_members(d),
{
    let e = Kd { nodes: ns, form: d.form };
    groups_alike(ns, d.nodes, d.nodes.len());
    assert(doc_members(e) =~= doc_members(d));
}

proof fn run_matches(ns: Seq<Kn>, at: Seq<int>, items: Seq<Cmt>, n: nat)
    requires
        forall|j: int| 0 <= j < at.len() ==> 0 <= #[trigger] at[j] < ns.len(),
    ensures
        nodes_match(decorated_run(ns, at, items, n), ns),
    decreases items, 0int, n,
{
    if !(n == 0 || n > at.len() || n > items.len()) {
        run_matches(ns, at, items, (n - 1) as nat);
        let so_far = decorated_run(ns, at, items, (n - 1) as nat);
        let i = at[n - 1];
        comments_keep_the_node(so_far[i], items[n - 1]);
        assert(nodes_match(so_far.update(i, decorated(so_far[i], items[n - 1])), so_far));
        match_is_carried(so_far.update(i, decorated(so_far[i], items[n - 1])), so_far, ns);
    }
}

proof fn comments_keep_the_nodes(ns: Seq<Kn>, m: Seq<(Seq<char>, Cmt)>, n: nat)
    ensures
        nodes_match(decorated_nodes(ns, m, n).0, ns),
        decorated_nodes(ns, m, n).1 >= 0,
    decreases m, 0int, n,
{
    if !(n == 0 || n > m.len()) {
        comments_keep_the_nodes(ns, m, (n - 1) as nat);
        let (so_far, cursor) = decorated_nodes(ns, m, (n - 1) as nat);
        let (name, c) = m[n - 1];
        let occ = later(so_far, name, cursor, so_far.len() as int);
        later_bounds(so_far, name, cursor, so_far.len() as int);
        match c.node {
            CmtNode::Array(items) => {
                let k = if occ.len() < items.len() {
                    occ.len()
                } else {
                    items.len()
                };
                run_matches(so_far, occ, items, k);
                match_is_carried(decorated_run(so_far, occ, items, k), so_far, ns);
                if occ.len() > 0 {
                    assert(occ[occ.len() - 1] >= cursor);
                }
            },
            _ => {
                if occ.len() > 0 {
                    let i = occ[0];
                    comments_keep_the_node(so_far[i], c);
                    let now = so_far.update(i, decorated(so_far[i], c));
                    assert(nodes_match(now, so_far));
                    match_is_carried(now, so_far, ns);
                }
            },
        }
    }
}

/// A comment as KDL writes it.
pub open spec fn slashed_line(x: Seq<char>) -> Seq<char> {
    "// "@ + one_line(x)
}

proof fn lines_say(indent: Seq<char>, lines: Seq<Seq<char>>, n: nat, i: int)
    requires
        0 <= i < n <= lines.len(),
    ensures
        stands_in("// "@ + lines[i], slash_lines(indent, lines, n)),
    decreases n,
{
    let w = "// "@ + lines[i];
    let before = slash_lines(indent, lines, (n - 1) as nat);
    let last = indent + "// "@ + lines[n - 1] + "\n"@;
    let t = before + last;
    if i == n - 1 {
        let a = before.len() + indent.len();
        assert(t.subrange(a as int, (a + w.len()) as int) =~= w);
    } else {
        lines_say(indent, lines, (n - 1) as nat, i);
        let (p, q) = choose|p: int, q: int|
            0 <= p <= q <= before.len() && w == #[trigger] before.subrange(p, q);
        assert(t.subrange(p, q) =~= w);
    }
}

/// A node with comments has each of its head comments above it, and its inline comment
/// behind it on a line that then ends; without an inline comment the line ends as it did.
pub proof fn comments_are_on_the_node(n: Kn, c: Notes, i: int)
    requires
        n.form is Some,
        0 <= i < c.head.len(),
    ensures
        captioned(n, c).form is Some,
        stands_in(slashed_line(c.head[i]), captioned(n, c).form->0.leading),
        match c.inline {
            Some(t) => captioned(n, c).form->0.terminator == " "@ + slashed_line(t) + "\n"@,
            None => captioned(n, c).form->0.terminator == n.form->0.terminator,
        },
{
    let f = n.form->0;
    let indent = crate::kdl_notes::indent_of(f.leading);
    let lines = safe_lines(c.head);
    lines_say(indent, lines, lines.len(), i);
    let w = slashed_line(c.head[i]);
    assert(lines[i] == one_line(c.head[i]));
    let a = slash_lines(indent, lines, lines.len());
    let (p, q) = choose|p: int, q: int|
        0 <= p <= q <= a.len() && w == #[trigger] a.subrange(p, q);
    assert((a + indent).subrange(p, q) =~= w);
    if let Some(t) = c.inline {
        reveal_strlit(" // ");
        reveal_strlit("// ");
        reveal_strlit(" ");
        assert(" // "@ + one_line(t) + "\n"@ =~= " "@ + slashed_line(t) + "\n"@);
    }
}

/// A commented value that is written as KDL is printed as a document that has the value the
/// plain one would have, with the root's foot comments, each on a line of its own, behind
/// it.
pub proof fn kdl_emission_keeps_the_value(c: Cmt)
    requires
        kdl_emitted_commented(c) is Ok,
    ensures
        built_document(plain(c)) is Ok,
        exists|d: Kd, tail: Seq<char>|
            {
                &&& kdl_emitted_commented(c)->Ok_0.0 == #[trigger] printed(d) + #[trigger] tail.skip(0)
                &&& doc_val(d) == doc_val(built_document(plain(c))->Ok_0)
                &&& forall|i: int|
                    0 <= i < c.notes.foot.len() ==> stands_in(
                        slashed_line(#[trigger] c.notes.foot[i]),
                        tail,
                    )
            },
{
    let m = c.node->Object_0;
    let b = built_document(plain(c))->Ok_0;
    comments_keep_the_nodes(b.nodes, m, m.len());
    let d = Kd { nodes: decorated_nodes(b.nodes, m, m.len()).0, form: b.form };
    same_members(d.nodes, b);
    let tail = foot_lines(c.notes.foot, c.notes.foot.len());
    let lines = safe_lines(c.notes.foot);
    assert forall|i: int| 0 <= i < c.notes.foot.len() implies stands_in(
        slashed_line(#[trigger] c.notes.foot[i]),
        tail,
    ) by {
        lines_say(Seq::empty(), lines, lines.len(), i);
        assert(lines[i] == one_line(c.notes.foot[i]));
    }
    assert(tail.skip(0) =~= tail);
    assert(kdl_emitted_commented(c)->Ok_0.0 == printed(d) + tail.skip(0));
}

} // verus!
