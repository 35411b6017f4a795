//! What is written as TOML has the value and the comments it was written for.
use crate::comment::{opt_line, plain, plain_members};
use crate::jsonc_emit_laws::{all_comments, element_comments, inner_comments, member_comments};
use crate::line_comment::one_line;
use crate::model::{Cmt, CmtNode, Val};
use crate::slice_laws::stands_in;
use crate::toml_emit::{
    any_noted, array_lines, built_items, built_value, carried, carry_before, collected,
    collected_items, collected_members, element_head, hash_block, head_prefix, inline_suffix,
    note_suffix, root_form, spread, table_body, tables_filled, toml_emitted_commented, value_entry,
    values_filled, Body,
};
use crate::toml_items::printed;
use crate::toml_laws::{built_reads_back, distinct_names, et_vals_at, nd_vals_at, unique_keys};
use crate::toml_nodes::{et_vals, nd_val, nd_vals, plain_header};
use crate::toml_tree::{decor_in, fresh_name, no_decor, put, slot_is, with_decor, Dc, Et, Fm, Nd};
use vstd::prelude::*;
use vstd::string::*;

verus! {

/// A member that is no object.
pub open spec fn is_value() -> spec_fn((Seq<char>, Val)) -> bool {
    |x: (Seq<char>, Val)| !(x.1 is Object)
}

/// A member that is an object.
pub open spec fn is_object() -> spec_fn((Seq<char>, Val)) -> bool {
    |x: (Seq<char>, Val)| x.1 is Object
}

/// A value in the order TOML writes it in: in each object that is a table the other members
/// come first, then the objects; among themselves they keep their order.
pub open spec fn in_toml_order(v: Val) -> Val
    decreases v, 1int,
{
    match v {
        Val::Object(m) => Val::Object(
            ordered_members(m).filter(is_value()) + ordered_members(m).filter(is_object()),
        ),
        _ => v,
    }
}

pub open spec fn ordered_members(m: Seq<(Seq<char>, Val)>) -> Seq<(Seq<char>, Val)>
    decreases m, 0int,
{
    Seq::new(
        m.len(),
        |i: int|
            if 0 <= i < m.len() {
                (m[i].0, in_toml_order(m[i].1))
            } else {
                (Seq::empty(), Val::Null)
            },
    )
}

/// Is no object among the scalars of the tables?
pub open spec fn solid(c: Cmt) -> bool
    decreases c,
{
    match c.node {
        CmtNode::Scalar(v) => !(v is Object),
        CmtNode::Array(_) => true,
        CmtNode::Object(m) => forall|i: int| 0 <= i < m.len() ==> solid((#[trigger] m[i]).1),
    }
}

proof fn value_node_reads(c: Cmt)
    requires
        unique_keys(plain(c)),
    ensures
        nd_val(built_value(c).node) == plain(c),
        decor_in(built_value(c).node) == no_decor(),
        !(built_value(c).node is Tables),
    decreases c,
{
    match c.node {
        CmtNode::Scalar(v) => {
            built_reads_back(v);
        },
        CmtNode::Object(_) => {
            built_reads_back(plain(c));
        },
        CmtNode::Array(a) => {
            let vs = plain(c)->Array_0;
            let n = a.len();
            items_are(a, n);
            nd_vals_at(spread(a, n), n);
            nd_vals_at(built_items(a, n), n);
            assert forall|i: int| 0 <= i < n implies nd_val(#[trigger] spread(a, n)[i]) == vs[i]
                && nd_val(built_items(a, n)[i]) == vs[i] by {
                assert(unique_keys(vs[i]));
                value_node_reads(a[i]);
                assert(spread_item(a, i) == spread(a, n)[i]);
                assert(nd_val(spread_item(a, i)) == nd_val(built_value(a[i]).node));
            }
            assert(nd_vals(spread(a, n), n) =~= vs);
            assert forall|i: int| 0 <= i < n implies nd_val(#[trigger] built_items(a, n)[i]) == vs[i] by {
                assert(nd_val(spread(a, n)[i]) == vs[i]);
            }
            assert(nd_vals(built_items(a, n), n) =~= vs);
        },
    }
}

/// An element on a line of its own.
spec fn spread_item(a: Seq<Cmt>, i: int) -> Nd {
    let head = element_head(a[i]);
    with_decor(
        built_value(a[i]).node,
        Dc {
            prefix: Some(carry_before(a, i) + array_lines(head, head.len()) + "\n  "@),
            suffix: Some(Seq::empty()),
        },
    )
}

proof fn items_are(a: Seq<Cmt>, n: nat)
    requires
        n <= a.len(),
    ensures
        spread(a, n).len() == n,
        built_items(a, n).len() == n,
        forall|i: int| 0 <= i < n ==> #[trigger] spread(a, n)[i] == spread_item(a, i),
        forall|i: int| 0 <= i < n ==> #[trigger] built_items(a, n)[i] == built_value(a[i]).node,
    decreases n,
{
    if n > 0 {
        items_are(a, (n - 1) as nat);
    }
}

proof fn filter_takes_some(s: Seq<(Seq<char>, Val)>, p: spec_fn((Seq<char>, Val)) -> bool, j: int) -> (i: int)
    requires
        0 <= j < s.filter(p).len(),
    ensures
        0 <= i < s.len(),
        s[i] == s.filter(p)[j],
        p(s[i]),
    decreases s.len(),
{
    reveal(Seq::filter);
    if p(s.last()) && j == s.filter(p).len() - 1 {
        s.len() - 1
    } else {
        let i = filter_takes_some(s.drop_last(), p, j);
        assert(s.drop_last()[i] == s[i]);
        i
    }
}

proof fn filter_step(s: Seq<(Seq<char>, Val)>, p: spec_fn((Seq<char>, Val)) -> bool, n: int)
    requires
        0 < n <= s.len(),
    ensures
        s.take(n).filter(p) == (if p(s[n - 1]) {
            s.take(n - 1).filter(p).push(s[n - 1])
        } else {
            s.take(n - 1).filter(p)
        }),
        s.take(0).filter(p).len() == 0,
{
    reveal(Seq::filter);
    assert(s.take(n).drop_last() =~= s.take(n - 1));
    assert(s.take(n).last() == s[n - 1]);
}

proof fn new_name_is_put_last(es: Seq<Et>, e: Et)
    requires
        forall|j: int|
            0 <= j < es.len() ==> (#[trigger] et_vals(es, es.len())[j]).0 != e.name.key,
    ensures
        put(es, e) == es.push(e),
        et_vals(es.push(e), es.len() + 1) == et_vals(es, es.len()).push((e.name.key, nd_val(e.node))),
{
    et_vals_at(es, es.len());
    assert forall|j: int| 0 <= j < es.len() implies (#[trigger] es[j]).name.key != e.name.key by {
        assert(et_vals(es, es.len())[j].0 != e.name.key);
    }
    slot_is(es, e.name.key, es.len() as int);
    et_vals_at(es.push(e), es.len() + 1);
    assert(et_vals(es.push(e), es.len() + 1) =~= et_vals(es, es.len()).push(
        (e.name.key, nd_val(e.node)),
    ));
}

/// Members that TOML can hold.
spec fn tabled(m: Seq<(Seq<char>, Cmt)>) -> bool {
    &&& unique_keys(Val::Object(plain_members(m)))
    &&& forall|i: int| 0 <= i < m.len() ==> solid((#[trigger] m[i]).1)
}

/// The members as they are written.
spec fn written(m: Seq<(Seq<char>, Cmt)>) -> Seq<(Seq<char>, Val)> {
    ordered_members(plain_members(m))
}

proof fn member_facts(m: Seq<(Seq<char>, Cmt)>, i: int)
    requires
        tabled(m),
        0 <= i < m.len(),
    ensures
        written(m).len() == m.len(),
        written(m)[i] == (m[i].0, in_toml_order(plain(m[i].1))),
        unique_keys(plain(m[i].1)),
        solid(m[i].1),
        written(m)[i].1 is Object <==> m[i].1.node is Object,
        forall|j: int| 0 <= j < m.len() && j != i ==> (#[trigger] m[j]).0 != m[i].0,
{
    let p = plain_members(m);
    let v = Val::Object(p);
    assert(v->Object_0[i] == p[i]);
    assert(p[i] == (m[i].0, plain(m[i].1)));
    assert(distinct_names(p));
    assert forall|j: int| 0 <= j < m.len() && j != i implies (#[trigger] m[j]).0 != m[i].0 by {
        assert(p[j].0 == m[j].0);
        if j < i {
            assert(p[j].0 != p[i].0);
        } else {
            assert(p[i].0 != p[j].0);
        }
    }
}

#[verifier::rlimit(40)]
#[verifier::spinoff_prover]
proof fn values_read(m: Seq<(Seq<char>, Cmt)>, start: Body, n: nat)
    requires
        n <= m.len(),
        tabled(m),
        start.entries.len() == 0,
    ensures
        ({
            let es = values_filled(m, start, n).entries;
            &&& et_vals(es, es.len()) == written(m).take(n as int).filter(is_value())
            &&& n > 0 && !(m[n - 1].1.node is Object) ==> es == values_filled(
                m,
                start,
                (n - 1) as nat,
            ).entries.push(value_entry(m[n - 1].0, m[n - 1].1, values_filled(m, start, (n - 1) as nat).pending))
        }),
    decreases n,
{
    let w = written(m);
    reveal(Seq::filter);
    if n == 0 {
        assert(w.take(0).filter(is_value()) =~= et_vals(start.entries, 0));
    } else {
        values_read(m, start, (n - 1) as nat);
        member_facts(m, n - 1);
        filter_step(w, is_value(), n as int);
        let so_far = values_filled(m, start, (n - 1) as nat);
        let es = so_far.entries;
        let (k, c) = m[n - 1];
        if !(c.node is Object) {
            let e = value_entry(k, c, so_far.pending);
            et_vals_at(es, es.len());
            assert forall|j: int| 0 <= j < es.len() implies (#[trigger] et_vals(es, es.len())[j]).0
                != e.name.key by {
                let i = filter_takes_some(w.take(n - 1), is_value(), j);
                member_facts(m, i);
                assert(m[i].0 != m[n - 1].0);
            }
            new_name_is_put_last(es, e);
            value_node_reads(c);
            assert(nd_val(e.node) == plain(c));
            assert(in_toml_order(plain(c)) == plain(c));
        }
    }
}

/// The entry of a table among members.
spec fn table_entry(k: Seq<char>, c: Cmt, so_far: Body) -> Et {
    let sub = table_body(c.node->Object_0, Seq::empty(), so_far.displaced);
    Et {
        name: fresh_name(k),
        node: Nd::Table(
            sub.entries,
            plain_header(),
            Dc {
                prefix: head_prefix(so_far.pending + c.notes.head),
                suffix: note_suffix(no_decor(), c.notes.inline),
            },
        ),
    }
}

#[verifier::rlimit(40)]
#[verifier::spinoff_prover]
proof fn tables_read(m: Seq<(Seq<char>, Cmt)>, start: Body, n: nat)
    requires
        n <= m.len(),
        tabled(m),
        et_vals(start.entries, start.entries.len()) == written(m).filter(is_value()),
    ensures
        ({
            let es = tables_filled(m, start, n).entries;
            &&& et_vals(es, es.len()) == written(m).filter(is_value()) + written(m).take(
                n as int,
            ).filter(is_object())
            &&& n > 0 && m[n - 1].1.node is Object ==> es == tables_filled(
                m,
                start,
                (n - 1) as nat,
            ).entries.push(table_entry(m[n - 1].0, m[n - 1].1, tables_filled(m, start, (n - 1) as nat)))
        }),
    decreases m, 0int, n,
{
    let w = written(m);
    let vs = w.filter(is_value());
    reveal(Seq::filter);
    if n == 0 {
        assert(w.take(0).filter(is_object()).len() == 0);
        assert(vs + w.take(0).filter(is_object()) =~= vs);
    } else {
        tables_read(m, start, (n - 1) as nat);
        member_facts(m, n - 1);
        filter_step(w, is_object(), n as int);
        let so_far = tables_filled(m, start, (n - 1) as nat);
        let es = so_far.entries;
        let (k, c) = m[n - 1];
        if c.node is Object {
            let inner = c.node->Object_0;
            let e = table_entry(k, c, so_far);
            et_vals_at(es, es.len());
            let os = w.take(n - 1).filter(is_object());
            assert forall|j: int| 0 <= j < es.len() implies (#[trigger] et_vals(es, es.len())[j]).0
                != e.name.key by {
                if j < vs.len() {
                    let i = filter_takes_some(w, is_value(), j);
                    member_facts(m, i);
                    assert(i != n - 1);
                    assert(m[i].0 != m[n - 1].0);
                } else {
                    let i = filter_takes_some(w.take(n - 1), is_object(), j - vs.len());
                    member_facts(m, i);
                    assert(m[i].0 != m[n - 1].0);
                }
            }
            new_name_is_put_last(es, e);
            assert(plain(c) == Val::Object(plain_members(inner)));
            assert(tabled(inner));
            body_reads(inner, Seq::empty(), so_far.displaced);
            assert(nd_val(e.node) == in_toml_order(plain(c)));
            assert((vs + os).push(w[n - 1]) =~= vs + os.push(w[n - 1]));
        }
    }
}

proof fn body_reads(m: Seq<(Seq<char>, Cmt)>, pending: Seq<Seq<char>>, displaced: bool)
    requires
        tabled(m),
    ensures
        ({
            let es = table_body(m, pending, displaced).entries;
            Val::Object(et_vals(es, es.len())) == in_toml_order(Val::Object(plain_members(m)))
        }),
    decreases m, 1int, 0nat,
{
    let start = Body { entries: Seq::empty(), pending, displaced };
    let w = written(m);
    values_read(m, start, m.len());
    assert(w.len() == m.len());
    assert(w.take(m.len() as int) =~= w);
    tables_read(m, values_filled(m, start, m.len()), m.len());
}

/// The tree that a commented value is written as has its value, in the order TOML writes it
/// in.
pub proof fn written_toml_has_the_value(c: Cmt, pending: Seq<Seq<char>>, form: Fm, d: Dc)
    requires
        c.node is Object,
        unique_keys(plain(c)),
        solid(c),
    ensures
        nd_val(Nd::Table(table_body(c.node->Object_0, pending, false).entries, form, d)) == in_toml_order(
            plain(c),
        ),
{
    body_reads(c.node->Object_0, pending, false);
}

/// A comment as TOML writes it.
pub open spec fn hashed_line(x: Seq<char>) -> Seq<char> {
    "# "@ + one_line(x)
}

/// Does the decor hold the text?
pub open spec fn decor_says(d: Dc, w: Seq<char>) -> bool {
    (d.prefix is Some && stands_in(w, d.prefix->0)) || (d.suffix is Some && stands_in(w, d.suffix->0))
}

/// Does the layout of a node, or of a node in it, hold the text?
pub open spec fn tree_says(n: Nd, w: Seq<char>) -> bool
    decreases n, 1int,
{
    match n {
        Nd::Scalar(_, _, d) => decor_says(d, w),
        Nd::Array(a, f, d) => decor_says(d, w) || stands_in(w, f.trailing) || nodes_say(a, w),
        Nd::Table(es, _, d) => decor_says(d, w) || entries_say(es, w),
        Nd::Tables(a) => nodes_say(a, w),
    }
}

pub open spec fn nodes_say(a: Seq<Nd>, w: Seq<char>) -> bool
    decreases a, 0int,
{
    exists|i: int| 0 <= i < a.len() && tree_says(#[trigger] a[i], w)
}

pub open spec fn entries_say(es: Seq<Et>, w: Seq<char>) -> bool
    decreases es, 0int,
{
    exists|i: int|
        0 <= i < es.len() && (decor_says((#[trigger] es[i]).name.leaf, w) || tree_says(es[i].node, w))
}

proof fn part_stands(a: Seq<char>, x: Seq<char>, b: Seq<char>, w: Seq<char>)
    requires
        stands_in(w, x),
    ensures
        stands_in(w, a + x + b),
        stands_in(w, a + x),
        stands_in(w, x + b),
{
    let (i, j) = choose|i: int, j: int| 0 <= i <= j <= x.len() && w == #[trigger] x.subrange(i, j);
    assert((a + x + b).subrange(a.len() + i, a.len() + j) =~= w);
    assert((a + x).subrange(a.len() + i, a.len() + j) =~= w);
    assert((x + b).subrange(i, j) =~= w);
}

proof fn all_stands(w: Seq<char>)
    ensures
        stands_in(w, w),
{
    assert(w.subrange(0, w.len() as int) =~= w);
}

proof fn block_says(lines: Seq<Seq<char>>, n: nat, i: int)
    requires
        0 <= i < n <= lines.len(),
    ensures
        stands_in(hashed_line(lines[i]), hash_block(lines, n)),
    decreases n,
{
    let w = hashed_line(lines[i]);
    let last = "# "@ + one_line(lines[n - 1]) + "\n"@;
    let before = hash_block(lines, (n - 1) as nat);
    if i == n - 1 {
        all_stands(w);
        part_stands(Seq::empty(), w, "\n"@, w);
        part_stands(before, last, Seq::empty(), w);
    } else {
        block_says(lines, (n - 1) as nat, i);
        part_stands(Seq::empty(), before, last, w);
    }
}

proof fn array_lines_say(lines: Seq<Seq<char>>, n: nat, i: int)
    requires
        0 <= i < n <= lines.len(),
    ensures
        stands_in(hashed_line(lines[i]), array_lines(lines, n)),
    decreases n,
{
    let w = hashed_line(lines[i]);
    let last = "\n  # "@ + one_line(lines[n - 1]);
    let before = array_lines(lines, (n - 1) as nat);
    if i == n - 1 {
        reveal_strlit("# ");
        reveal_strlit("\n  # ");
        let ind = seq!['\n', ' ', ' '];
        assert(last =~= ind + w);
        all_stands(w);
        part_stands(ind, w, Seq::empty(), w);
        part_stands(before, last, Seq::empty(), w);
    } else {
        array_lines_say(lines, (n - 1) as nat, i);
        part_stands(Seq::empty(), before, last, w);
    }
}

proof fn suffix_says(x: Seq<char>)
    ensures
        stands_in(hashed_line(x), inline_suffix(Some(x))),
{
    reveal_strlit("# ");
    reveal_strlit(" # ");
    let w = hashed_line(x);
    assert(inline_suffix(Some(x)) =~= seq![' '] + w);
    all_stands(w);
    part_stands(seq![' '], w, Seq::empty(), w);
}

proof fn contains_add(a: Seq<Seq<char>>, b: Seq<Seq<char>>, x: Seq<char>)
    ensures
        (a + b).contains(x) <==> a.contains(x) || b.contains(x),
{
    let c = a + b;
    if a.contains(x) {
        let i = choose|i: int| 0 <= i < a.len() && a[i] == x;
        assert(c[i] == x);
    }
    if b.contains(x) {
        let i = choose|i: int| 0 <= i < b.len() && b[i] == x;
        assert(c[a.len() + i] == x);
    }
    if c.contains(x) {
        let i = choose|i: int| 0 <= i < c.len() && c[i] == x;
        if i < a.len() {
            assert(a[i] == x);
        } else {
            assert(b[i - a.len()] == x);
        }
    }
}

/// A node's comments are its own and those inside it.
proof fn comment_is_somewhere(c: Cmt, x: Seq<char>)
    ensures
        all_comments(c).contains(x) <==> c.notes.head.contains(x) || inner_comments(c).contains(x)
            || c.notes.inline == Some(x) || c.notes.foot.contains(x),
{
    let h = c.notes.head;
    let n = inner_comments(c);
    let i = opt_line(c.notes.inline);
    contains_add(h + n + i, c.notes.foot, x);
    contains_add(h + n, i, x);
    contains_add(h, n, x);
    if c.notes.inline == Some(x) {
        assert(i[0] == x);
    }
}

proof fn gathered(c: Cmt, x: Seq<char>)
    requires
        all_comments(c).contains(x),
    ensures
        collected(c).contains(x),
    decreases c, 0int, 0nat,
{
    comment_is_somewhere(c, x);
    let h = c.notes.head;
    let i = opt_line(c.notes.inline);
    let n = match c.node {
        CmtNode::Scalar(_) => Seq::empty(),
        CmtNode::Array(a) => collected_items(a, a.len()),
        CmtNode::Object(m) => collected_members(m, m.len()),
    };
    contains_add(h + i + n, c.notes.foot, x);
    contains_add(h + i, n, x);
    contains_add(h, i, x);
    if c.notes.inline == Some(x) {
        assert(i[0] == x);
    }
    if inner_comments(c).contains(x) {
        match c.node {
            CmtNode::Scalar(_) => {},
            CmtNode::Array(a) => {
                items_gathered(a, a.len(), x);
            },
            CmtNode::Object(m) => {
                members_gathered(m, m.len(), x);
            },
        }
    }
}

proof fn items_gathered(a: Seq<Cmt>, n: nat, x: Seq<char>)
    requires
        n <= a.len(),
        element_comments(a, n).contains(x),
    ensures
        collected_items(a, n).contains(x),
    decreases a, 1int, n,
{
    if n > 0 {
        contains_add(element_comments(a, (n - 1) as nat), all_comments(a[n - 1]), x);
        contains_add(collected_items(a, (n - 1) as nat), collected(a[n - 1]), x);
        if element_comments(a, (n - 1) as nat).contains(x) {
            items_gathered(a, (n - 1) as nat, x);
        } else {
            gathered(a[n - 1], x);
        }
    }
}

proof fn members_gathered(m: Seq<(Seq<char>, Cmt)>, n: nat, x: Seq<char>)
    requires
        n <= m.len(),
        member_comments(m, n).contains(x),
    ensures
        collected_members(m, n).contains(x),
    decreases m, 1int, n,
{
    if n > 0 {
        contains_add(member_comments(m, (n - 1) as nat), all_comments(m[n - 1].1), x);
        contains_add(collected_members(m, (n - 1) as nat), collected(m[n - 1].1), x);
        if member_comments(m, (n - 1) as nat).contains(x) {
            members_gathered(m, (n - 1) as nat, x);
        } else {
            gathered(m[n - 1].1, x);
        }
    }
}

proof fn element_of(a: Seq<Cmt>, n: nat, x: Seq<char>) -> (i: int)
    requires
        n <= a.len(),
        element_comments(a, n).contains(x),
    ensures
        0 <= i < n,
        all_comments(a[i]).contains(x),
    decreases n,
{
    if n == 0 {
        0
    } else {
        contains_add(element_comments(a, (n - 1) as nat), all_comments(a[n - 1]), x);
        if element_comments(a, (n - 1) as nat).contains(x) {
            element_of(a, (n - 1) as nat, x)
        } else {
            n - 1
        }
    }
}

proof fn member_of(m: Seq<(Seq<char>, Cmt)>, n: nat, x: Seq<char>) -> (i: int)
    requires
        n <= m.len(),
        member_comments(m, n).contains(x),
    ensures
        0 <= i < n,
        all_comments(m[i].1).contains(x),
    decreases n,
{
    if n == 0 {
        0
    } else {
        contains_add(member_comments(m, (n - 1) as nat), all_comments(m[n - 1].1), x);
        if member_comments(m, (n - 1) as nat).contains(x) {
            member_of(m, (n - 1) as nat, x)
        } else {
            n - 1
        }
    }
}

proof fn noted_element(a: Seq<Cmt>, n: nat, i: int)
    requires
        0 <= i < n <= a.len(),
        element_head(a[i]).len() > 0 || a[i].notes.inline is Some || a[i].notes.foot.len() > 0,
    ensures
        any_noted(a, n),
    decreases n,
{
    if i < n - 1 {
        noted_element(a, (n - 1) as nat, i);
    }
}

proof fn carry_says(c: Cmt, x: Seq<char>)
    requires
        c.notes.inline == Some(x) || c.notes.foot.contains(x),
    ensures
        stands_in(hashed_line(x), carried(c.notes)),
{
    let w = hashed_line(x);
    let a = inline_suffix(c.notes.inline);
    let b = array_lines(c.notes.foot, c.notes.foot.len());
    if c.notes.inline == Some(x) {
        suffix_says(x);
        part_stands(Seq::empty(), a, b, w);
    } else {
        let i = choose|i: int| 0 <= i < c.notes.foot.len() && c.notes.foot[i] == x;
        array_lines_say(c.notes.foot, c.notes.foot.len(), i);
        part_stands(a, b, Seq::empty(), w);
    }
}

/// What a node without decor says, it says under any decor.
proof fn decor_adds(n: Nd, d: Dc, w: Seq<char>)
    requires
        decor_in(n) == no_decor(),
        tree_says(n, w),
    ensures
        tree_says(with_decor(n, d), w),
{
}

proof fn decor_speaks(n: Nd, d: Dc, w: Seq<char>)
    requires
        !(n is Tables),
        decor_says(d, w),
    ensures
        tree_says(with_decor(n, d), w),
{
}

/// A comment inside a value is in its layout, or among those that move out of it.
#[verifier::rlimit(60)]
#[verifier::spinoff_prover]
proof fn value_says(c: Cmt, x: Seq<char>)
    requires
        unique_keys(plain(c)),
        inner_comments(c).contains(x),
    ensures
        tree_says(built_value(c).node, hashed_line(x)) || built_value(c).hoisted.contains(x),
    decreases c,
{
    let w = hashed_line(x);
    match c.node {
        CmtNode::Scalar(_) => {},
        CmtNode::Object(m) => {
            members_gathered(m, m.len(), x);
        },
        CmtNode::Array(a) => {
            let n = a.len();
            let i = element_of(a, n, x);
            let vs = plain(c)->Array_0;
            assert(unique_keys(vs[i]));
            comment_is_somewhere(a[i], x);
            items_are(a, n);
            value_node_reads(a[i]);
            let inner = built_value(a[i]);
            let head = element_head(a[i]);
            contains_add(inner.hoisted, a[i].notes.head, x);
            if inner_comments(a[i]).contains(x) {
                value_says(a[i], x);
            }
            if head.contains(x) {
                noted_element(a, n, i);
                let k = choose|k: int| 0 <= k < head.len() && head[k] == x;
                array_lines_say(head, head.len(), k);
                let ls = array_lines(head, head.len());
                part_stands(carry_before(a, i), ls, "\n  "@, w);
                let d = Dc {
                    prefix: Some(carry_before(a, i) + ls + "\n  "@),
                    suffix: Some(Seq::empty()),
                };
                decor_speaks(inner.node, d, w);
                assert(tree_says(spread(a, n)[i], w));
                assert(nodes_say(spread(a, n), w));
            } else if a[i].notes.inline == Some(x) || a[i].notes.foot.contains(x) {
                noted_element(a, n, i);
                carry_says(a[i], x);
                if i + 1 < n {
                    let next = element_head(a[i + 1]);
                    let ls = array_lines(next, next.len());
                    part_stands(Seq::empty(), carried(a[i].notes), ls, w);
                    part_stands(Seq::empty(), carried(a[i].notes) + ls, "\n  "@, w);
                    let d = Dc {
                        prefix: Some(carry_before(a, i + 1) + ls + "\n  "@),
                        suffix: Some(Seq::empty()),
                    };
                    assert(unique_keys(vs[i + 1]));
                    value_node_reads(a[i + 1]);
                    decor_speaks(built_value(a[i + 1]).node, d, w);
                    assert(tree_says(spread(a, n)[i + 1], w));
                    assert(nodes_say(spread(a, n), w));
                } else {
                    part_stands(Seq::empty(), carried(a[i].notes), "\n"@, w);
                }
            } else {
                assert(tree_says(inner.node, w));
                if any_noted(a, n) {
                    let d = Dc {
                        prefix: Some(carry_before(a, i) + array_lines(head, head.len()) + "\n  "@),
                        suffix: Some(Seq::empty()),
                    };
                    decor_adds(inner.node, d, w);
                    assert(tree_says(spread(a, n)[i], w));
                    assert(nodes_say(spread(a, n), w));
                } else {
                    assert(tree_says(built_items(a, n)[i], w));
                    assert(nodes_say(built_items(a, n), w));
                }
            }
        },
    }
}

proof fn prefix_says(head: Seq<Seq<char>>, x: Seq<char>)
    requires
        head.contains(x),
    ensures
        head_prefix(head) is Some,
        stands_in(hashed_line(x), head_prefix(head)->0),
{
    let i = choose|i: int| 0 <= i < head.len() && head[i] == x;
    block_says(head, head.len(), i);
}

proof fn pushed_say(es: Seq<Et>, e: Et, w: Seq<char>)
    ensures
        entries_say(es, w) ==> entries_say(es.push(e), w),
        decor_says(e.name.leaf, w) || tree_says(e.node, w) ==> entries_say(es.push(e), w),
{
    let fs = es.push(e);
    if entries_say(es, w) {
        let i = choose|i: int|
            0 <= i < es.len() && (decor_says((#[trigger] es[i]).name.leaf, w) || tree_says(es[i].node, w));
        assert(fs[i] == es[i]);
    }
    if decor_says(e.name.leaf, w) || tree_says(e.node, w) {
        assert(fs[es.len() as int] == e);
    }
}

/// Is the comment in the table's layout, or does it wait for the next entry?
spec fn kept(b: Body, x: Seq<char>) -> bool {
    entries_say(b.entries, hashed_line(x)) || b.pending.contains(x)
}

/// Is the comment one of those that are to be in the table: one that waited, or one of the
/// first `n` members that are tables, or that are not?
spec fn due(m: Seq<(Seq<char>, Cmt)>, n: nat, tables: bool, x: Seq<char>) -> bool {
    exists|i: int|
        0 <= i < n && ((#[trigger] m[i]).1.node is Object <==> tables) && all_comments(m[i].1).contains(x)
}

#[verifier::rlimit(40)]
#[verifier::spinoff_prover]
proof fn values_say(m: Seq<(Seq<char>, Cmt)>, start: Body, n: nat, x: Seq<char>)
    requires
        n <= m.len(),
        tabled(m),
        start.entries.len() == 0,
        start.pending.contains(x) || due(m, n, false, x),
    ensures
        kept(values_filled(m, start, n), x),
    decreases n,
{
    let w = hashed_line(x);
    if n > 0 {
        values_read(m, start, n);
        member_facts(m, n - 1);
        let so_far = values_filled(m, start, (n - 1) as nat);
        let (k, c) = m[n - 1];
        let earlier = start.pending.contains(x) || due(m, (n - 1) as nat, false, x);
        if earlier {
            values_say(m, start, (n - 1) as nat, x);
        }
        if !(c.node is Object) {
            let e = value_entry(k, c, so_far.pending);
            pushed_say(so_far.entries, e, w);
            let b = built_value(c);
            let head = so_far.pending + b.hoisted + c.notes.head;
            contains_add(so_far.pending + b.hoisted, c.notes.head, x);
            contains_add(so_far.pending, b.hoisted, x);
            if head.contains(x) {
                prefix_says(head, x);
            }
            if !earlier {
                let i = choose|i: int|
                    0 <= i < n && ((#[trigger] m[i]).1.node is Object <==> false) && all_comments(
                        m[i].1,
                    ).contains(x);
                assert(i == n - 1);
                comment_is_somewhere(c, x);
                value_node_reads(c);
                let d = Dc {
                    prefix: decor_in(b.node).prefix,
                    suffix: note_suffix(decor_in(b.node), c.notes.inline),
                };
                if inner_comments(c).contains(x) {
                    value_says(c, x);
                    if !b.hoisted.contains(x) {
                        decor_adds(b.node, d, w);
                    }
                }
                if c.notes.inline == Some(x) {
                    suffix_says(x);
                    decor_speaks(b.node, d, w);
                }
            }
        } else if !earlier {
            let i = choose|i: int|
                0 <= i < n && ((#[trigger] m[i]).1.node is Object <==> false) && all_comments(
                    m[i].1,
                ).contains(x);
            assert(due(m, (n - 1) as nat, false, x));
        }
    }
}

#[verifier::rlimit(40)]
#[verifier::spinoff_prover]
proof fn tables_say(m: Seq<(Seq<char>, Cmt)>, start: Body, n: nat, x: Seq<char>)
    requires
        n <= m.len(),
        tabled(m),
        et_vals(start.entries, start.entries.len()) == written(m).filter(is_value()),
        kept(start, x) || due(m, n, true, x),
    ensures
        kept(tables_filled(m, start, n), x),
    decreases m, 0int, n,
{
    let w = hashed_line(x);
    if n > 0 {
        tables_read(m, start, n);
        member_facts(m, n - 1);
        let so_far = tables_filled(m, start, (n - 1) as nat);
        let (k, c) = m[n - 1];
        let earlier = kept(start, x) || due(m, (n - 1) as nat, true, x);
        if earlier {
            tables_say(m, start, (n - 1) as nat, x);
        } else {
            let i = choose|i: int|
                0 <= i < n && ((#[trigger] m[i]).1.node is Object <==> true) && all_comments(
                    m[i].1,
                ).contains(x);
            if i < n - 1 {
                assert(due(m, (n - 1) as nat, true, x));
            }
            assert(i == n - 1);
        }
        if c.node is Object {
            let inner = c.node->Object_0;
            let e = table_entry(k, c, so_far);
            pushed_say(so_far.entries, e, w);
            let head = so_far.pending + c.notes.head;
            contains_add(so_far.pending, c.notes.head, x);
            if head.contains(x) {
                prefix_says(head, x);
            }
            let sub = table_body(inner, Seq::empty(), so_far.displaced);
            contains_add(sub.pending, c.notes.foot, x);
            if !earlier {
                comment_is_somewhere(c, x);
                if inner_comments(c).contains(x) {
                    assert(plain(c) == Val::Object(plain_members(inner)));
                    body_says(inner, Seq::empty(), so_far.displaced, x);
                }
                if c.notes.inline == Some(x) {
                    suffix_says(x);
                }
            }
        }
    }
}

proof fn body_says(m: Seq<(Seq<char>, Cmt)>, pending: Seq<Seq<char>>, displaced: bool, x: Seq<char>)
    requires
        tabled(m),
        pending.contains(x) || member_comments(m, m.len()).contains(x),
    ensures
        kept(table_body(m, pending, displaced), x),
    decreases m, 1int, 0nat,
{
    let start = Body { entries: Seq::empty(), pending, displaced };
    values_read(m, start, m.len());
    assert(written(m).take(m.len() as int) =~= written(m));
    if !pending.contains(x) {
        let i = member_of(m, m.len(), x);
        if m[i].1.node is Object {
            assert(due(m, m.len(), true, x));
        } else {
            assert(due(m, m.len(), false, x));
        }
    }
    if pending.contains(x) || due(m, m.len(), false, x) {
        values_say(m, start, m.len(), x);
    }
    tables_say(m, values_filled(m, start, m.len()), m.len(), x);
}

/// A commented value that is written as TOML loses nothing: what is printed is a tree that
/// has the value, in the order TOML writes it in, and every comment stands in the layout of
/// that tree or at the end of the document.
pub proof fn toml_emission_keeps_all(c: Cmt)
    requires
        toml_emitted_commented(c) is Ok,
        unique_keys(plain(c)),
        solid(c),
    ensures
        exists|root: Nd, trail: Seq<char>|
            {
                &&& toml_emitted_commented(c)->Ok_0.0 == #[trigger] printed(root, trail)
                &&& nd_val(root) == in_toml_order(plain(c))
                &&& forall|x: Seq<char>| #[trigger]
                    all_comments(c).contains(x) ==> tree_says(root, hashed_line(x)) || stands_in(
                        hashed_line(x),
                        trail,
                    )
            },
{
    let m = c.node->Object_0;
    let b = table_body(m, c.notes.head, false);
    let lines = b.pending + opt_line(c.notes.inline) + c.notes.foot;
    let root = Nd::Table(b.entries, root_form(), no_decor());
    let trail = hash_block(lines, lines.len());
    written_toml_has_the_value(c, c.notes.head, root_form(), no_decor());
    assert forall|x: Seq<char>| #[trigger] all_comments(c).contains(x) implies tree_says(
        root,
        hashed_line(x),
    ) || stands_in(hashed_line(x), trail) by {
        comment_is_somewhere(c, x);
        contains_add(b.pending + opt_line(c.notes.inline), c.notes.foot, x);
        contains_add(b.pending, opt_line(c.notes.inline), x);
        if c.notes.inline == Some(x) {
            assert(opt_line(c.notes.inline)[0] == x);
        }
        if c.notes.head.contains(x) || inner_comments(c).contains(x) {
            assert(plain(c) == Val::Object(plain_members(m)));
            body_says(m, c.notes.head, false, x);
        }
        if lines.contains(x) {
            let i = choose|i: int| 0 <= i < lines.len() && lines[i] == x;
            block_says(lines, lines.len(), i);
        }
    }
    assert(toml_emitted_commented(c)->Ok_0.0 == printed(root, trail));
}

} // verus!
