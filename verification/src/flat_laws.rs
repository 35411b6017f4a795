//! What the lines of a flattened value hold of it.
use crate::comment::{distributed, dotted, flat_elements, flat_members, flattened, opt_line, plain, plain_all, plain_members, Flat};
use crate::convert::{flat_element_pairs, flat_member_pairs, flat_pairs};
use crate::jsonc_emit_laws::{all_comments, element_comments, inner_comments, member_comments};
use crate::model::{Cmt, CmtNode, Notes, Val};
use crate::strs::nat_digits;
use crate::value::raw_text;
use vstd::multiset::Multiset;
use vstd::prelude::*;
use vstd::seq_lib::*;
use vstd::string::*;

verus! {

/// The value that positions lead to, from the outermost container inwards.
pub open spec fn inside(v: Val, p: Seq<int>) -> Option<Val>
    decreases p.len(),
{
    if p.len() == 0 {
        Some(v)
    } else {
        match v {
            Val::Array(a) => if 0 <= p[0] < a.len() {
                inside(a[p[0]], p.drop_first())
            } else {
                None
            },
            Val::Object(m) => if 0 <= p[0] < m.len() {
                inside(m[p[0]].1, p.drop_first())
            } else {
                None
            },
            _ => None,
        }
    }
}

/// The name of the value that positions lead to: the prefix and the keys and numbers on the
/// way, with a dot between them.
pub open spec fn name_at(prefix: Seq<char>, v: Val, p: Seq<int>) -> Seq<char>
    decreases p.len(),
{
    if p.len() == 0 {
        prefix
    } else {
        match v {
            Val::Array(a) => name_at(dotted(prefix, nat_digits(p[0] as nat)), a[p[0]], p.drop_first()),
            Val::Object(m) => name_at(dotted(prefix, m[p[0]].0), m[p[0]].1, p.drop_first()),
            _ => prefix,
        }
    }
}

/// Do the positions lead to a value that is no container?
pub open spec fn leads_to_leaf(v: Val, p: Seq<int>) -> bool {
    match inside(v, p) {
        Some(Val::Array(_)) | Some(Val::Object(_)) | None => false,
        _ => true,
    }
}

proof fn element_part(prefix: Seq<char>, a: Seq<Val>, n: nat, k: int, x: (Seq<char>, Seq<char>))
    requires
        0 <= k < n <= a.len(),
        flat_pairs(dotted(prefix, nat_digits(k as nat)), a[k]).contains(x),
    ensures
        flat_element_pairs(prefix, a, n).contains(x),
    decreases n,
{
    let before = flat_element_pairs(prefix, a, (n - 1) as nat);
    let last = flat_pairs(dotted(prefix, nat_digits((n - 1) as nat)), a[n - 1]);
    let all = before + last;
    if k == n - 1 {
        let j = choose|j: int| 0 <= j < last.len() && last[j] == x;
        assert(all[before.len() + j] == x);
    } else {
        element_part(prefix, a, (n - 1) as nat, k, x);
        let j = choose|j: int| 0 <= j < before.len() && before[j] == x;
        assert(all[j] == x);
    }
}

proof fn member_part(
    prefix: Seq<char>,
    m: Seq<(Seq<char>, Val)>,
    n: nat,
    k: int,
    x: (Seq<char>, Seq<char>),
)
    requires
        0 <= k < n <= m.len(),
        flat_pairs(dotted(prefix, m[k].0), m[k].1).contains(x),
    ensures
        flat_member_pairs(prefix, m, n).contains(x),
    decreases n,
{
    let before = flat_member_pairs(prefix, m, (n - 1) as nat);
    let last = flat_pairs(dotted(prefix, m[n - 1].0), m[n - 1].1);
    let all = before + last;
    if k == n - 1 {
        let j = choose|j: int| 0 <= j < last.len() && last[j] == x;
        assert(all[before.len() + j] == x);
    } else {
        member_part(prefix, m, (n - 1) as nat, k, x);
        let j = choose|j: int| 0 <= j < before.len() && before[j] == x;
        assert(all[j] == x);
    }
}

/// A flattened value has a pair for each value in it that is no container: its dotted name
/// and its raw text.
pub proof fn every_leaf_has_a_pair(prefix: Seq<char>, v: Val, p: Seq<int>)
    requires
        leads_to_leaf(v, p),
    ensures
        flat_pairs(prefix, v).contains((name_at(prefix, v, p), raw_text(inside(v, p)->Some_0))),
    decreases p.len(),
{
    let x = (name_at(prefix, v, p), raw_text(inside(v, p)->Some_0));
    if p.len() == 0 {
        assert(flat_pairs(prefix, v)[0] == x);
    } else {
        match v {
            Val::Array(a) => {
                every_leaf_has_a_pair(dotted(prefix, nat_digits(p[0] as nat)), a[p[0]], p.drop_first());
                element_part(prefix, a, a.len(), p[0], x);
            },
            Val::Object(m) => {
                every_leaf_has_a_pair(dotted(prefix, m[p[0]].0), m[p[0]].1, p.drop_first());
                member_part(prefix, m, m.len(), p[0], x);
            },
            _ => {},
        }
    }
}

/// Is the pair that of a value that is no container?
pub open spec fn pair_of_leaf(prefix: Seq<char>, v: Val, x: (Seq<char>, Seq<char>), p: Seq<int>) -> bool {
    &&& leads_to_leaf(v, p)
    &&& x == (name_at(prefix, v, p), raw_text(inside(v, p)->Some_0))
}

/// A flattened value has no other pairs.
pub proof fn every_pair_is_a_leaf(prefix: Seq<char>, v: Val, i: int)
    requires
        0 <= i < flat_pairs(prefix, v).len(),
    ensures
        exists|p: Seq<int>| #[trigger] pair_of_leaf(prefix, v, flat_pairs(prefix, v)[i], p),
    decreases v, 1int, 0int,
{
    let x = flat_pairs(prefix, v)[i];
    match v {
        Val::Array(a) => {
            element_pair_is_a_leaf(prefix, a, a.len(), i);
            let (k, q) = choose|k: int, q: Seq<int>|
                0 <= k < a.len() && #[trigger] pair_of_leaf(
                    dotted(prefix, nat_digits(k as nat)),
                    a[k],
                    x,
                    q,
                );
            let p = seq![k] + q;
            assert(p.drop_first() =~= q);
            assert(pair_of_leaf(prefix, v, x, p));
        },
        Val::Object(m) => {
            member_pair_is_a_leaf(prefix, m, m.len(), i);
            let (k, q) = choose|k: int, q: Seq<int>|
                0 <= k < m.len() && #[trigger] pair_of_leaf(dotted(prefix, m[k].0), m[k].1, x, q);
            let p = seq![k] + q;
            assert(p.drop_first() =~= q);
            assert(pair_of_leaf(prefix, v, x, p));
        },
        _ => {
            assert(pair_of_leaf(prefix, v, x, Seq::empty()));
        },
    }
}

proof fn element_pair_is_a_leaf(prefix: Seq<char>, a: Seq<Val>, n: nat, i: int)
    requires
        n <= a.len(),
        0 <= i < flat_element_pairs(prefix, a, n).len(),
    ensures
        exists|k: int, q: Seq<int>|
            0 <= k < a.len() && #[trigger] pair_of_leaf(
                dotted(prefix, nat_digits(k as nat)),
                a[k],
                flat_element_pairs(prefix, a, n)[i],
                q,
            ),
    decreases a, 0int, n,
{
    let before = flat_element_pairs(prefix, a, (n - 1) as nat);
    if i < before.len() {
        element_pair_is_a_leaf(prefix, a, (n - 1) as nat, i);
        let x = flat_element_pairs(prefix, a, n)[i];
        assert(before[i] == x);
        let (k, q) = choose|k: int, q: Seq<int>|
            0 <= k < a.len() && #[trigger] pair_of_leaf(
                dotted(prefix, nat_digits(k as nat)),
                a[k],
                before[i],
                q,
            );
        assert(pair_of_leaf(dotted(prefix, nat_digits(k as nat)), a[k], x, q));
    } else {
        let k = n - 1;
        let w = dotted(prefix, nat_digits(k as nat));
        every_pair_is_a_leaf(w, a[k], i - before.len());
        let q = choose|q: Seq<int>|
            #[trigger] pair_of_leaf(w, a[k], flat_pairs(w, a[k])[i - before.len()], q);
        assert(pair_of_leaf(
            dotted(prefix, nat_digits(k as nat)),
            a[k],
            flat_element_pairs(prefix, a, n)[i],
            q,
        ));
    }
}

proof fn member_pair_is_a_leaf(prefix: Seq<char>, m: Seq<(Seq<char>, Val)>, n: nat, i: int)
    requires
        n <= m.len(),
        0 <= i < flat_member_pairs(prefix, m, n).len(),
    ensures
        exists|k: int, q: Seq<int>|
            0 <= k < m.len() && #[trigger] pair_of_leaf(
                dotted(prefix, m[k].0),
                m[k].1,
                flat_member_pairs(prefix, m, n)[i],
                q,
            ),
    decreases m, 0int, n,
{
    let before = flat_member_pairs(prefix, m, (n - 1) as nat);
    if i < before.len() {
        member_pair_is_a_leaf(prefix, m, (n - 1) as nat, i);
        let x = flat_member_pairs(prefix, m, n)[i];
        assert(before[i] == x);
        let (k, q) = choose|k: int, q: Seq<int>|
            0 <= k < m.len() && #[trigger] pair_of_leaf(
                dotted(prefix, m[k].0),
                m[k].1,
                before[i],
                q,
            );
        assert(pair_of_leaf(dotted(prefix, m[k].0), m[k].1, x, q));
    } else {
        let k = n - 1;
        let w = dotted(prefix, m[k].0);
        every_pair_is_a_leaf(w, m[k].1, i - before.len());
        let q = choose|q: Seq<int>|
            #[trigger] pair_of_leaf(w, m[k].1, flat_pairs(w, m[k].1)[i - before.len()], q);
        assert(pair_of_leaf(dotted(prefix, m[k].0), m[k].1, flat_member_pairs(prefix, m, n)[i], q));
    }
}

pub proof fn members_start(prefix: Seq<char>, m: Seq<(Seq<char>, Val)>, x: (Seq<char>, Val), n: nat)
    requires
        n <= m.len(),
    ensures
        flat_member_pairs(prefix, m.push(x), n) == flat_member_pairs(prefix, m, n),
    decreases n,
{
    if n > 0 {
        members_start(prefix, m, x, (n - 1) as nat);
    }
}

proof fn elements_start(prefix: Seq<char>, a: Seq<Val>, x: Val, n: nat)
    requires
        n <= a.len(),
    ensures
        flat_element_pairs(prefix, a.push(x), n) == flat_element_pairs(prefix, a, n),
    decreases n,
{
    if n > 0 {
        elements_start(prefix, a, x, (n - 1) as nat);
    }
}

/// The pairs come in the order of what they are taken from: those of a further member or
/// element stand behind all others.
pub proof fn pairs_keep_the_order(
    prefix: Seq<char>,
    m: Seq<(Seq<char>, Val)>,
    key: Seq<char>,
    a: Seq<Val>,
    v: Val,
)
    ensures
        flat_pairs(prefix, Val::Object(m.push((key, v)))) == flat_pairs(prefix, Val::Object(m))
            + flat_pairs(dotted(prefix, key), v),
        flat_pairs(prefix, Val::Array(a.push(v))) == flat_pairs(prefix, Val::Array(a)) + flat_pairs(
            dotted(prefix, nat_digits(a.len())),
            v,
        ),
{
    members_start(prefix, m, (key, v), m.len());
    elements_start(prefix, a, v, a.len());
    assert(flat_member_pairs(prefix, m.push((key, v)), m.len() + 1) == flat_member_pairs(
        prefix,
        m.push((key, v)),
        m.len(),
    ) + flat_pairs(dotted(prefix, key), v));
    assert(flat_element_pairs(prefix, a.push(v), a.len() + 1) == flat_element_pairs(
        prefix,
        a.push(v),
        a.len(),
    ) + flat_pairs(dotted(prefix, nat_digits(a.len())), v));
}

/// Is there no container among the scalars, and none that is empty?
pub open spec fn peopled(c: Cmt) -> bool
    decreases c,
{
    match c.node {
        CmtNode::Scalar(v) => !(v is Array) && !(v is Object),
        CmtNode::Array(a) => a.len() > 0 && forall|i: int| 0 <= i < a.len() ==> peopled(#[trigger] a[i]),
        CmtNode::Object(m) => m.len() > 0 && forall|i: int|
            0 <= i < m.len() ==> peopled((#[trigger] m[i]).1),
    }
}

/// The pairs of flattened lines.
pub open spec fn line_pairs(s: Seq<Flat>) -> Seq<(Seq<char>, Seq<char>)> {
    Seq::new(s.len(), |i: int| (s[i].key, s[i].value))
}

/// The comments on a flattened line.
pub open spec fn line_comments(e: Flat) -> Multiset<Seq<char>> {
    (e.notes.head + opt_line(e.notes.inline) + e.notes.foot).to_multiset()
}

/// The comments on flattened lines.
pub open spec fn lines_comments(s: Seq<Flat>) -> Multiset<Seq<char>>
    decreases s.len(),
{
    if s.len() == 0 {
        Multiset::empty()
    } else {
        lines_comments(s.drop_last()).add(line_comments(s.last()))
    }
}

proof fn comments_add(a: Seq<Flat>, b: Seq<Flat>)
    ensures
        lines_comments(a + b) == lines_comments(a).add(lines_comments(b)),
    decreases b.len(),
{
    if b.len() == 0 {
        assert(a + b =~= a);
        assert(lines_comments(a).add(lines_comments(b)) =~= lines_comments(a));
    } else {
        assert((a + b).drop_last() =~= a + b.drop_last());
        comments_add(a, b.drop_last());
        assert(lines_comments(a + b) =~= lines_comments(a).add(lines_comments(b)));
    }
}

proof fn comments_update(s: Seq<Flat>, i: int, e: Flat, more: Multiset<Seq<char>>)
    requires
        0 <= i < s.len(),
        line_comments(e) == line_comments(s[i]).add(more),
    ensures
        lines_comments(s.update(i, e)) == lines_comments(s).add(more),
    decreases s.len(),
{
    let t = s.update(i, e);
    if i == s.len() - 1 {
        assert(t.drop_last() =~= s.drop_last());
    } else {
        assert(t.drop_last() =~= s.drop_last().update(i, e));
        comments_update(s.drop_last(), i, e, more);
    }
    assert(lines_comments(t) =~= lines_comments(s).add(more));
}

proof fn bag_add(a: Seq<Seq<char>>, b: Seq<Seq<char>>)
    ensures
        (a + b).to_multiset() == a.to_multiset().add(b.to_multiset()),
{
    lemma_multiset_commutative(a, b);
}

proof fn distributed_keeps(n: Notes, s: Seq<Flat>)
    requires
        s.len() > 0,
    ensures
        line_pairs(distributed(n, s)) == line_pairs(s),
        lines_comments(distributed(n, s)) == lines_comments(s).add(
            (n.head + opt_line(n.inline) + n.foot).to_multiset(),
        ),
        distributed(n, s).len() == s.len(),
{
    let up = n.head + opt_line(n.inline);
    bag_add(up, n.foot);
    if crate::comment::notes_empty(n) {
        assert(up + n.foot =~= Seq::<Seq<char>>::empty());
        (up + n.foot).to_multiset_ensures();
        assert((up + n.foot).to_multiset() =~= Multiset::empty());
        assert(lines_comments(s).add(Multiset::empty()) =~= lines_comments(s));
    } else {
        let f = s[0].notes;
        let first = Flat { notes: Notes { head: up + f.head, ..f }, ..s[0] };
        assert(up + f.head + opt_line(f.inline) + f.foot =~= up + (f.head + opt_line(f.inline) + f.foot));
        bag_add(up, f.head + opt_line(f.inline) + f.foot);
        assert(line_comments(first) =~= line_comments(s[0]).add(up.to_multiset()));
        comments_update(s, 0, first, up.to_multiset());
        let t = s.update(0, first);
        let e = t[t.len() - 1];
        let g = e.notes;
        let last = Flat { notes: Notes { foot: g.foot + n.foot, ..g }, ..e };
        assert(g.head + opt_line(g.inline) + (g.foot + n.foot) =~= (g.head + opt_line(g.inline) + g.foot)
            + n.foot);
        bag_add(g.head + opt_line(g.inline) + g.foot, n.foot);
        comments_update(t, t.len() - 1, last, n.foot.to_multiset());
        assert(distributed(n, s) == t.update(t.len() - 1, last));
        assert(lines_comments(distributed(n, s)) =~= lines_comments(s).add((up + n.foot).to_multiset()));
    }
    assert(line_pairs(distributed(n, s)) =~= line_pairs(s));
}

proof fn own_and_inner(c: Cmt)
    ensures
        all_comments(c).to_multiset() == inner_comments(c).to_multiset().add(
            (c.notes.head + opt_line(c.notes.inline) + c.notes.foot).to_multiset(),
        ),
{
    let (h, n, i, f) = (c.notes.head, inner_comments(c), opt_line(c.notes.inline), c.notes.foot);
    bag_add(h + n + i, f);
    bag_add(h + n, i);
    bag_add(h, n);
    bag_add(h + i, f);
    bag_add(h, i);
    assert(all_comments(c).to_multiset() =~= n.to_multiset().add((h + i + f).to_multiset()));
}

/// A commented value that is flattened loses nothing: the lines have the keys and values of
/// the value, in its order, and among them all its comments, each as often as it was there.
pub proof fn flattening_keeps_all(prefix: Seq<char>, c: Cmt)
    requires
        peopled(c),
    ensures
        line_pairs(flattened(prefix, c)) == flat_pairs(prefix, plain(c)),
        lines_comments(flattened(prefix, c)) == all_comments(c).to_multiset(),
        flattened(prefix, c).len() > 0,
    decreases c, 1int, 0int,
{
    own_and_inner(c);
    match c.node {
        CmtNode::Scalar(v) => {
            let e = Flat { key: prefix, value: raw_text(v), notes: c.notes };
            let s = seq![e];
            assert(s.drop_last() =~= Seq::<Flat>::empty());
            assert(lines_comments(s.drop_last()) == Multiset::<Seq<char>>::empty());
            assert(lines_comments(s) =~= line_comments(e));
            assert(inner_comments(c) =~= Seq::<Seq<char>>::empty());
            inner_comments(c).to_multiset_ensures();
            assert(all_comments(c).to_multiset() =~= line_comments(e));
            assert(line_pairs(s) =~= seq![(prefix, raw_text(v))]);
        },
        CmtNode::Array(a) => {
            elements_keep_all(prefix, a, a.len());
            distributed_keeps(c.notes, flat_elements(prefix, a, a.len()));
        },
        CmtNode::Object(m) => {
            members_keep_all(prefix, m, m.len());
            distributed_keeps(c.notes, flat_members(prefix, m, m.len()));
        },
    }
}

proof fn pairs_add(a: Seq<Flat>, b: Seq<Flat>)
    ensures
        line_pairs(a + b) == line_pairs(a) + line_pairs(b),
{
    assert(line_pairs(a + b) =~= line_pairs(a) + line_pairs(b));
}

proof fn elements_keep_all(prefix: Seq<char>, a: Seq<Cmt>, n: nat)
    requires
        n <= a.len(),
        forall|i: int| 0 <= i < a.len() ==> peopled(#[trigger] a[i]),
    ensures
        line_pairs(flat_elements(prefix, a, n)) == flat_element_pairs(prefix, plain_all(a), n),
        lines_comments(flat_elements(prefix, a, n)) == element_comments(a, n).to_multiset(),
        n > 0 ==> flat_elements(prefix, a, n).len() > 0,
    decreases a, 0int, n,
{
    if n == 0 {
        assert(line_pairs(flat_elements(prefix, a, n)) =~= Seq::empty());
        element_comments(a, n).to_multiset_ensures();
        assert(element_comments(a, n).to_multiset() =~= Multiset::empty());
    } else {
        let before = flat_elements(prefix, a, (n - 1) as nat);
        let w = dotted(prefix, nat_digits((n - 1) as nat));
        elements_keep_all(prefix, a, (n - 1) as nat);
        assert(peopled(a[n - 1]));
        flattening_keeps_all(w, a[n - 1]);
        pairs_add(before, flattened(w, a[n - 1]));
        comments_add(before, flattened(w, a[n - 1]));
        bag_add(element_comments(a, (n - 1) as nat), all_comments(a[n - 1]));
        assert(plain_all(a)[n - 1] == plain(a[n - 1]));
    }
}

pub proof fn members_keep_all(prefix: Seq<char>, m: Seq<(Seq<char>, Cmt)>, n: nat)
    requires
        n <= m.len(),
        forall|i: int| 0 <= i < m.len() ==> peopled((#[trigger] m[i]).1),
    ensures
        line_pairs(flat_members(prefix, m, n)) == flat_member_pairs(prefix, plain_members(m), n),
        lines_comments(flat_members(prefix, m, n)) == member_comments(m, n).to_multiset(),
        n > 0 ==> flat_members(prefix, m, n).len() > 0,
    decreases m, 0int, n,
{
    if n == 0 {
        assert(line_pairs(flat_members(prefix, m, n)) =~= Seq::empty());
        member_comments(m, n).to_multiset_ensures();
        assert(member_comments(m, n).to_multiset() =~= Multiset::empty());
    } else {
        let before = flat_members(prefix, m, (n - 1) as nat);
        let w = dotted(prefix, m[n - 1].0);
        members_keep_all(prefix, m, (n - 1) as nat);
        assert(peopled(m[n - 1].1));
        flattening_keeps_all(w, m[n - 1].1);
        pairs_add(before, flattened(w, m[n - 1].1));
        comments_add(before, flattened(w, m[n - 1].1));
        bag_add(member_comments(m, (n - 1) as nat), all_comments(m[n - 1].1));
        assert(plain_members(m)[n - 1] == (m[n - 1].0, plain(m[n - 1].1)));
    }
}

/// Keys that hold no dot give each value in a nested object a name of its own: what stands
/// in front of the first dot is the outermost key.
pub proof fn names_start_with_the_key(a: Seq<char>, b: Seq<char>, x: Seq<char>, y: Seq<char>)
    requires
        !a.contains('.'),
        !b.contains('.'),
        a.len() > 0,
        b.len() > 0,
        dotted(a, x) == dotted(b, y),
    ensures
        a == b,
        x == y,
{
    reveal_strlit(".");
    let s = dotted(a, x);
    assert(s[a.len() as int] == '.');
    assert(s[b.len() as int] == '.');
    if a.len() < b.len() {
        assert(b[a.len() as int] == s[a.len() as int]);
    }
    if b.len() < a.len() {
        assert(a[b.len() as int] == s[b.len() as int]);
    }
    assert(a =~= s.take(a.len() as int));
    assert(b =~= s.take(a.len() as int));
    assert(x =~= s.skip(a.len() as int + 1));
    assert(y =~= s.skip(a.len() as int + 1));
}

} // verus!
