//! What holds of comments and values together: the commented projection of a
//! document has the shape and the values of its plain one.
use crate::comment::{plain, plain_all, plain_members, with_foot, wrapping_round_trips};
use crate::env::{env_commented, env_style, env_whole, scheme, EnvDoc};
use crate::ini::{header_from, ini_commented, ini_style, ini_whole, section_members, walked_sections, IniDoc};
use crate::json_nodes::{en_val, entry_name, es_members, es_vals, js_val};
use crate::json_lexer::Jt;
use crate::json_tree::{En, Js};
use crate::jsonc::JsoncDoc;
use crate::jsonc_comments::{
    en_commented, js_commented, jsonc_commented, walk_entries, walk_token, walk_tokens, walked_out,
    Wk,
};
use crate::kdl_comments::{bare_pairs, cmt_groups, doc_cmts, kdl_commented, node_cmt};
use crate::kdl_nodes::{
    arg_member, arg_vals, doc_members, doc_val, group_from, grouped_with, groups, node_val,
    one_or_all, prop_vals,
};
use crate::kdl_tree::{Kd, Kn};
use crate::line_comment::Style;
use crate::model::{no_notes, Cmt, CmtNode, Notes, Val};
use crate::rows::{entry_members, walked, Scheme};
use crate::toml_comments::{
    block_cmts, element_cmts, entry_cmts, last_inline, nd_cmt, toml_commented, under_head,
    value_cmt,
};
use crate::toml_nodes::{et_vals, nd_val, nd_vals};
use crate::toml_tree::{Et, Nd};
use vstd::prelude::*;

verus! {

proof fn members_push(m: Seq<(Seq<char>, Cmt)>, x: (Seq<char>, Cmt))
    ensures
        plain_members(m.push(x)) == plain_members(m).push((x.0, plain(x.1))),
{
    assert(plain_members(m.push(x)) =~= plain_members(m).push((x.0, plain(x.1))));
}

proof fn all_push(a: Seq<Cmt>, x: Cmt)
    ensures
        plain_all(a.push(x)) == plain_all(a).push(plain(x)),
{
    assert(plain_all(a.push(x)) =~= plain_all(a).push(plain(x)));
}

/// A comment behind the last entry changes no value.
pub proof fn foot_keeps_the_value(c: Cmt, lines: Seq<Seq<char>>)
    ensures
        plain(with_foot(c, lines)) == plain(c),
    decreases c,
{
    match c.node {
        CmtNode::Object(m) => {
            if m.len() > 0 {
                let last = m[m.len() - 1];
                foot_keeps_the_value(last.1, lines);
                let n = m.update(m.len() - 1, (last.0, with_foot(last.1, lines)));
                assert(plain_members(n) =~= plain_members(m));
            }
        },
        CmtNode::Array(a) => {
            if a.len() > 0 {
                let last = a[a.len() - 1];
                foot_keeps_the_value(last, lines);
                let n = a.update(a.len() - 1, with_foot(last, lines));
                assert(plain_all(n) =~= plain_all(a));
            }
        },
        CmtNode::Scalar(_) => {},
    }
}

proof fn walked_keeps(
    st: Style,
    lines: Seq<Seq<char>>,
    g: Scheme,
    from: int,
    to: int,
    out: Seq<(Seq<char>, Cmt)>,
    pending: Seq<Seq<char>>,
)
    ensures
        plain_members(walked(st, lines, g, from, to, out, pending).0) == plain_members(out)
            + entry_members(lines, g, from, to),
    decreases to - from,
{
    let base = plain_members(out);
    if from < to {
        walked_keeps(st, lines, g, from, to - 1, out, pending);
        let (o, p) = walked(st, lines, g, from, to - 1, out, pending);
        let (o2, p2) = walked(st, lines, g, from, to, out, pending);
        if o2 != o {
            members_push(o, o2.last());
            assert(o2 =~= o.push(o2.last()));
        }
        assert(plain_members(o2) =~= base + entry_members(lines, g, from, to));
    } else {
        assert(base + Seq::<(Seq<char>, Val)>::empty() =~= base);
    }
}

/// A flat file with its comments has the file's value.
pub proof fn env_comments_keep_the_value(d: EnvDoc)
    ensures
        plain(env_commented(d)) == env_whole(d),
{
    let g = scheme(d.dialect);
    let (entries, pending) = walked(
        env_style(),
        d.lines,
        g,
        0,
        d.lines.len() as int,
        Seq::empty(),
        Seq::empty(),
    );
    walked_keeps(
        env_style(),
        d.lines,
        g,
        0,
        d.lines.len() as int,
        Seq::empty(),
        Seq::empty(),
    );
    let root = Cmt { notes: no_notes(), node: CmtNode::Object(entries) };
    assert(plain_members(entries) =~= entry_members(d.lines, g, 0, d.lines.len() as int));
    foot_keeps_the_value(root, pending);
}

proof fn sections_keep(
    lines: Seq<Seq<char>>,
    h: int,
    top: Seq<(Seq<char>, Cmt)>,
    pending: Seq<Seq<char>>,
)
    ensures
        plain_members(walked_sections(lines, h, top, pending).0) == plain_members(top)
            + section_members(lines, h),
    decreases lines.len() - h,
{
    if h < lines.len() {
        let next = header_from(lines, h + 1);
        let (entries, rest) = walked(
            ini_style(),
            lines,
            Scheme::Sections,
            h + 1,
            next,
            Seq::empty(),
            Seq::empty(),
        );
        walked_keeps(
            ini_style(),
            lines,
            Scheme::Sections,
            h + 1,
            next,
            Seq::empty(),
            Seq::empty(),
        );
        assert(plain_members(entries) =~= entry_members(lines, Scheme::Sections, h + 1, next));
        let section = Cmt {
            notes: Notes {
                head: pending,
                inline: crate::rows::stripped_inline(ini_style(), lines[h], Scheme::Sections),
                foot: Seq::empty(),
            },
            node: CmtNode::Object(entries),
        };
        let x = (crate::rows::header_name(lines[h]), section);
        let now = top.push(x);
        members_push(top, x);
        let one = (x.0, plain(section));
        if h < next <= lines.len() {
            sections_keep(lines, next, now, rest);
            assert(plain_members(now) + section_members(lines, next) =~= plain_members(top) + (
            seq![one] + section_members(lines, next)));
        } else {
            assert(plain_members(now) =~= plain_members(top) + seq![one]);
        }
    } else {
        assert(plain_members(top) + Seq::<(Seq<char>, Val)>::empty() =~= plain_members(top));
    }
}

/// An INI file with its comments has the file's value.
pub proof fn ini_comments_keep_the_value(d: IniDoc)
    ensures
        plain(ini_commented(d)) == ini_whole(d),
{
    let h = header_from(d.lines, 0);
    let (top, waiting) = walked(
        ini_style(),
        d.lines,
        Scheme::Sections,
        0,
        h,
        Seq::empty(),
        Seq::empty(),
    );
    walked_keeps(ini_style(), d.lines, Scheme::Sections, 0, h, Seq::empty(), Seq::empty());
    let (all, pending) = walked_sections(d.lines, h, top, waiting);
    sections_keep(d.lines, h, top, waiting);
    assert(plain_members(top) =~= entry_members(d.lines, Scheme::Sections, 0, h));
    let root = Cmt { notes: no_notes(), node: CmtNode::Object(all) };
    foot_keeps_the_value(root, pending);
}

proof fn token_keeps(w: Wk, t: Jt)
    ensures
        plain_members(walk_token(w, t).out) == plain_members(w.out),
        walk_token(w, t).out.len() == w.out.len(),
{
    assert(plain_members(walk_token(w, t).out) =~= plain_members(w.out));
}

proof fn tokens_keep(w: Wk, ts: Seq<Jt>, n: nat)
    requires
        n <= ts.len(),
    ensures
        plain_members(walk_tokens(w, ts, n).out) == plain_members(w.out),
    decreases n,
{
    if n > 0 {
        tokens_keep(w, ts, (n - 1) as nat);
        token_keeps(walk_tokens(w, ts, (n - 1) as nat), ts[n - 1]);
    }
}

proof fn walk_keeps(w: Wk, es: Seq<En>, n: nat)
    requires
        n <= es.len(),
    ensures
        plain_members(walk_entries(w, es, n).out) == plain_members(w.out) + es_members(es, n),
    decreases es, 1int, n,
{
    let base = plain_members(w.out);
    if n > 0 {
        walk_keeps(w, es, (n - 1) as nat);
        let v = walk_entries(w, es, (n - 1) as nat);
        let e = es[n - 1];
        assert(decreases_to!(es => es[n - 1]));
        js_keeps(e.value);
        let c = en_commented(e);
        let with = Cmt { notes: Notes { head: v.pending + c.notes.head, ..c.notes }, ..c };
        assert(plain(with) == js_val(e.value));
        members_push(v.out, (entry_name(e), with));
        let now = Wk {
            out: v.out.push((entry_name(e), with)),
            pending: Seq::empty(),
            same: true,
        };
        let between = match (e.key, e.comma) {
            (None, Some(ts)) => walk_tokens(now, ts, ts.len()),
            _ => now,
        };
        if let Some(ts) = e.comma {
            tokens_keep(now, ts, ts.len());
        }
        tokens_keep(between, e.after, e.after.len());
        assert(en_val(e) == js_val(e.value));
        assert(es_members(es, n) == es_members(es, (n - 1) as nat).push((entry_name(e), en_val(e))));
        assert(walk_entries(w, es, n) == walk_tokens(between, e.after, e.after.len()));
        assert(plain_members(walk_entries(w, es, n).out) =~= base + es_members(es, n));
    } else {
        assert(base + es_members(es, 0) =~= base);
    }
}

proof fn vals_of_members(es: Seq<En>, n: nat)
    requires
        n <= es.len(),
    ensures
        es_members(es, n).len() == n,
        es_vals(es, n).len() == n,
        forall|i: int| 0 <= i < n ==> (#[trigger] es_members(es, n)[i]).1 == es_vals(es, n)[i],
    decreases n,
{
    if n > 0 {
        vals_of_members(es, (n - 1) as nat);
    }
}

proof fn js_keeps(n: Js)
    ensures
        plain(js_commented(n)) == js_val(n),
    decreases n, 0int, 0int,
{
    match n {
        Js::Scalar(_) => {},
        Js::Object(p, es) => {
            let w0 = Wk { out: Seq::empty(), pending: Seq::empty(), same: true };
            let w1 = walk_tokens(w0, p, p.len());
            tokens_keep(w0, p, p.len());
            walk_keeps(w1, es, es.len());
            let w = walk_entries(w1, es, es.len());
            assert(plain_members(w0.out) =~= Seq::<(Seq<char>, Val)>::empty());
            assert(plain_members(w.out) =~= es_members(es, es.len()));
            let r = walked_out(w, true);
            assert(plain_members(r.node->Object_0) =~= plain_members(w.out));
        },
        Js::Array(p, es) => {
            let w0 = Wk { out: Seq::empty(), pending: Seq::empty(), same: true };
            let w1 = walk_tokens(w0, p, p.len());
            tokens_keep(w0, p, p.len());
            walk_keeps(w1, es, es.len());
            let w = walk_entries(w1, es, es.len());
            assert(plain_members(w0.out) =~= Seq::<(Seq<char>, Val)>::empty());
            assert(plain_members(w.out) =~= es_members(es, es.len()));
            vals_of_members(es, es.len());
            let r = walked_out(w, false);
            let items = r.node->Array_0;
            let m = es_members(es, es.len());
            assert(items.len() == w.out.len());
            assert forall|i: int| 0 <= i < items.len() implies plain(#[trigger] items[i]) == m[i].1 by {
                assert(plain_members(w.out)[i].1 == plain(w.out[i].1));
                assert(items[i].node == w.out[i].1.node);
            }
            assert(plain_all(items) =~= es_vals(es, es.len()));
        },
    }
}

/// A JSONC file with its comments has the file's value.
pub proof fn jsonc_comments_keep_the_value(d: JsoncDoc)
    ensures
        plain(jsonc_commented(d)) == js_val(d.value),
{
    js_keeps(d.value);
}

proof fn value_keeps(n: Nd)
    ensures
        plain(value_cmt(n)) == nd_val(n),
    decreases n, 1int, 0int,
{
    match n {
        Nd::Scalar(_, _, _) => {},
        Nd::Array(a, f, _) => {
            elements_keep(a, a.len());
            let s = element_cmts(a, a.len());
            let out = value_cmt(n).node->Array_0;
            assert(plain_all(out) =~= plain_all(s));
        },
        Nd::Tables(a) => {
            blocks_keep(a, a.len());
        },
        Nd::Table(es, f, _) => {
            entries_keep(es, f is Header, es.len());
        },
    }
}

proof fn node_keeps(n: Nd)
    ensures
        plain(nd_cmt(n)) == nd_val(n),
    decreases n, 2int, 0int,
{
    value_keeps(n);
}

proof fn elements_keep(a: Seq<Nd>, n: nat)
    requires
        n <= a.len(),
    ensures
        plain_all(element_cmts(a, n)) == nd_vals(a, n),
    decreases a, 0int, n,
{
    if n > 0 {
        elements_keep(a, (n - 1) as nat);
        assert(decreases_to!(a => a[n - 1]));
        value_keeps(a[n - 1]);
        let before = element_cmts(a, (n - 1) as nat);
        let p = crate::toml_spell::text_in(crate::toml_tree::decor_in(a[n - 1]).prefix);
        let noted = last_inline(before, crate::toml_comments::same_line(p));
        assert(plain_all(noted) =~= plain_all(before));
        let x = under_head(value_cmt(a[n - 1]), crate::toml_comments::later_lines(p));
        all_push(noted, x);
    } else {
        assert(plain_all(element_cmts(a, 0)) =~= nd_vals(a, 0));
    }
}

proof fn blocks_keep(a: Seq<Nd>, n: nat)
    requires
        n <= a.len(),
    ensures
        plain_all(block_cmts(a, n)) == nd_vals(a, n),
    decreases a, 0int, n,
{
    if n > 0 {
        blocks_keep(a, (n - 1) as nat);
        assert(decreases_to!(a => a[n - 1]));
        node_keeps(a[n - 1]);
        all_push(block_cmts(a, (n - 1) as nat), nd_cmt(a[n - 1]));
    } else {
        assert(plain_all(block_cmts(a, 0)) =~= nd_vals(a, 0));
    }
}

proof fn entries_keep(es: Seq<Et>, on: bool, n: nat)
    requires
        n <= es.len(),
    ensures
        plain_members(entry_cmts(es, on, n)) == et_vals(es, n),
    decreases es, 0int, n,
{
    if n > 0 {
        entries_keep(es, on, (n - 1) as nat);
        let e = es[n - 1];
        assert(decreases_to!(es => es[n - 1]));
        node_keeps(e.node);
        value_keeps(e.node);
        let before = entry_cmts(es, on, (n - 1) as nat);
        members_push(before, entry_cmts(es, on, n).last());
    } else {
        assert(plain_members(entry_cmts(es, on, 0)) =~= et_vals(es, 0));
    }
}

/// A TOML file with its comments has the file's value.
pub proof fn toml_comments_keep_the_value(root: Nd, trailing: Seq<char>)
    ensures
        plain(toml_commented(root, trailing)) == nd_val(root),
{
    value_keeps(root);
    foot_keeps_the_value(value_cmt(root), crate::toml_comments::own_lines(trailing));
}

/// Groups of nodes whose values are those of other groups.
spec fn agree(a: Seq<(Seq<char>, Seq<Cmt>)>, b: Seq<(Seq<char>, Seq<Val>)>) -> bool {
    a.len() == b.len() && forall|i: int|
        0 <= i < a.len() ==> (#[trigger] a[i]).0 == b[i].0 && plain_all(a[i].1) == b[i].1
}

proof fn same_group(
    a: Seq<(Seq<char>, Seq<Cmt>)>,
    b: Seq<(Seq<char>, Seq<Val>)>,
    name: Seq<char>,
    i: int,
)
    requires
        agree(a, b),
        0 <= i <= a.len(),
    ensures
        group_from(a, name, i) == group_from(b, name, i),
        i <= group_from(a, name, i) <= a.len(),
        group_from(a, name, i) < a.len() ==> a[group_from(a, name, i)].0 == name,
    decreases a.len() - i,
{
    if i < a.len() {
        assert(a[i].0 == b[i].0);
        same_group(a, b, name, i + 1);
    }
}

proof fn grouping_keeps(ns: Seq<Kn>, n: nat)
    requires
        n <= ns.len(),
    ensures
        agree(cmt_groups(ns, n), groups(ns, n)),
    decreases ns, 2int, n,
{
    if n > 0 {
        grouping_keeps(ns, (n - 1) as nat);
        let a = cmt_groups(ns, (n - 1) as nat);
        let b = groups(ns, (n - 1) as nat);
        let k = ns[n - 1];
        assert(decreases_to!(ns => ns[n - 1]));
        kdl_node_keeps(k);
        same_group(a, b, k.name.value, 0);
        let i = group_from(a, k.name.value, 0);
        let a2 = grouped_with(a, k.name.value, node_cmt(k));
        let b2 = grouped_with(b, k.name.value, node_val(k));
        assert forall|j: int| 0 <= j < a2.len() implies (#[trigger] a2[j]).0 == b2[j].0
            && plain_all(a2[j].1) == b2[j].1 by {
            if i < a.len() {
                if j == i {
                    all_push(a[i].1, node_cmt(k));
                } else {
                    assert(a2[j] == a[j]);
                }
            } else if j < a.len() {
                assert(a2[j] == a[j]);
            } else {
                assert(plain_all(seq![node_cmt(k)]) =~= seq![node_val(k)]);
            }
        }
    }
}

proof fn kdl_doc_keeps(d: Kd)
    ensures
        plain_members(doc_cmts(d)) == doc_members(d),
    decreases d, 3int, 0int,
{
    grouping_keeps(d.nodes, d.nodes.len());
    let a = cmt_groups(d.nodes, d.nodes.len());
    let b = groups(d.nodes, d.nodes.len());
    let m = doc_cmts(d);
    assert forall|i: int| 0 <= i < m.len() implies plain((#[trigger] m[i]).1) == one_or_all(b[i].1) by {
        assert(a[i].0 == b[i].0);
        assert(plain_all(a[i].1).len() == a[i].1.len());
        if a[i].1.len() == 1 {
            assert(plain_all(a[i].1)[0] == plain(a[i].1[0]));
        }
    }
    assert(plain_members(m) =~= doc_members(d));
}

proof fn kdl_node_keeps(n: Kn)
    ensures
        plain(node_cmt(n)) == node_val(n),
    decreases n, 1int, 0int,
{
    match n.children {
        None => {
            wrapping_round_trips(node_val(n));
        },
        Some(d) => {
            kdl_doc_keeps(d);
            let front = arg_member(arg_vals(n.args, n.args.len())) + prop_vals(
                n.args,
                n.args.len(),
            );
            let m = bare_pairs(front) + doc_cmts(d);
            assert forall|i: int| 0 <= i < front.len() implies plain((#[trigger] m[i]).1)
                == front[i].1 by {
                wrapping_round_trips(front[i].1);
            }
            assert forall|i: int| front.len() <= i < m.len() implies plain((#[trigger] m[i]).1)
                == doc_members(d)[i - front.len()].1 by {
                assert(m[i] == doc_cmts(d)[i - front.len()]);
                assert(plain_members(doc_cmts(d))[i - front.len()].1 == plain(m[i].1));
            }
            assert forall|i: int| front.len() <= i < m.len() implies (#[trigger] m[i]).0
                == doc_members(d)[i - front.len()].0 by {
                assert(plain_members(doc_cmts(d))[i - front.len()].0 == doc_cmts(
                    d,
                )[i - front.len()].0);
            }
            assert(plain_members(doc_cmts(d)).len() == doc_cmts(d).len());
            assert(plain_members(m) =~= front + doc_members(d));
        },
    }
}

/// A KDL file with its comments has the file's value.
pub proof fn kdl_comments_keep_the_value(d: Kd)
    ensures
        plain(kdl_commented(d)) == doc_val(d),
{
    kdl_doc_keeps(d);
    let c = Cmt { notes: no_notes(), node: CmtNode::Object(doc_cmts(d)) };
    if let Some(f) = d.form {
        foot_keeps_the_value(c, crate::kdl_comments::decor_notes(f.trailing));
    }
}

} // verus!
