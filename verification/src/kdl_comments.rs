//! KDL and the uniform comment model.
//!
//! The text before a node holds the `//` and `/* */` comments that are its head; a
//! `//` comment ending its line stands in its terminator, its inline. The text
//! behind the last node is the foot. Extraction and emission share the projection
//! convention (grouping, the `"-"` args key) with the plain values.
use crate::comment::{bare, opt_line, with_foot};
use crate::json_lexer::{eol_at, skip_line};
use crate::kdl_nodes::{
    arg_member, arg_vals, doc_members, group_from, grouped_with, node_val, prop_vals,
};
use crate::kdl_tree::{
    group_kdl_views, kas, kns, Af, ArgForm, Ka, Kd, Kdoc, Kn, Knode, Nf, NodeForm,
};
use crate::lines::{lines_of, split_lines};
use crate::model::{
    cmt_members, cmts, group_comment_views, group_value_views, members, no_notes, opt_text, texts,
    Cmt, CmtNode, Commented, CommentedNode, Comments, Notes, Val, Value,
};
use crate::strs::{chars_of, same, slice_text, trim, trimmed};
use vstd::prelude::*;

verus! {

broadcast use {group_kdl_views, group_comment_views, group_value_views};

/// Does a comment open at `i`: `//`, `/*`, or the `/-` that comments out a node?
pub open spec fn opens_note(s: Seq<char>, i: int) -> bool {
    0 <= i && i + 1 < s.len() && s[i] == '/' && (s[i + 1] == '/' || s[i + 1] == '*' || s[i + 1]
        == '-')
}

/// Does the text hold a comment? Decor holds otherwise only white space.
pub open spec fn has_note(s: Seq<char>) -> bool {
    exists|i: int| #[trigger] opens_note(s, i)
}

/// Does the text around a node hold a comment?
pub open spec fn nf_noted(f: Nf) -> bool {
    has_note(f.leading) || has_note(f.before_ty_name) || has_note(f.after_ty_name) || has_note(
        f.after_ty,
    ) || has_note(f.before_children) || has_note(f.before_terminator) || has_note(f.terminator)
        || has_note(f.trailing)
}

/// Does the text around an entry hold a comment?
pub open spec fn af_noted(f: Af) -> bool {
    has_note(f.leading) || has_note(f.trailing) || has_note(f.after_ty) || has_note(
        f.before_ty_name,
    ) || has_note(f.after_ty_name) || has_note(f.after_key) || has_note(f.after_eq)
}

/// Does the text around any of the first `n` entries hold a comment?
pub open spec fn row_noted(es: Seq<Ka>, n: nat) -> bool
    decreases n,
{
    if n == 0 || n > es.len() {
        false
    } else {
        row_noted(es, (n - 1) as nat) || (es[n - 1].form is Some && af_noted(es[n - 1].form->0))
    }
}

/// Does the document hold a comment?
pub open spec fn doc_noted(d: Kd) -> bool
    decreases d, 2int, 0int,
{
    (d.form is Some && (has_note(d.form->0.leading) || has_note(d.form->0.trailing)))
        || nodes_noted(d.nodes, d.nodes.len())
}

/// Does any of the first `n` nodes hold a comment?
pub open spec fn nodes_noted(ns: Seq<Kn>, n: nat) -> bool
    decreases ns, 1int, n,
{
    if n == 0 || n > ns.len() {
        false
    } else {
        nodes_noted(ns, (n - 1) as nat) || node_noted(ns[n - 1])
    }
}

/// Does the node hold a comment?
pub open spec fn node_noted(n: Kn) -> bool
    decreases n, 0int, 0int,
{
    (n.form is Some && nf_noted(n.form->0)) || row_noted(n.args, n.args.len()) || match n.children {
        Some(d) => doc_noted(d),
        None => false,
    }
}

fn holds_note(s: &str) -> (r: bool)
    ensures
        r == has_note(s@),
{
    let cs = chars_of(s);
    let mut i: usize = 0;
    while i < cs.len()
        invariant
            i <= cs.len(),
            cs@ == s@,
            forall|j: int| 0 <= j < i ==> !#[trigger] opens_note(s@, j),
        decreases cs.len() - i,
    {
        if cs[i] == '/' && cs.len() - i > 1 && (cs[i + 1] == '/' || cs[i + 1] == '*' || cs[i + 1]
            == '-') {
            assert(opens_note(s@, i as int));
            return true;
        }
        assert(!opens_note(s@, i as int));
        i = i + 1;
    }
    false
}

impl NodeForm {
    fn has_note(&self) -> (r: bool)
        ensures
            r == nf_noted(self@),
    {
        holds_note(&self.leading) || holds_note(&self.before_ty_name) || holds_note(
            &self.after_ty_name,
        ) || holds_note(&self.after_ty) || holds_note(&self.before_children) || holds_note(
            &self.before_terminator,
        ) || holds_note(&self.terminator) || holds_note(&self.trailing)
    }
}

impl ArgForm {
    fn has_note(&self) -> (r: bool)
        ensures
            r == af_noted(self@),
    {
        holds_note(&self.leading) || holds_note(&self.trailing) || holds_note(&self.after_ty)
            || holds_note(&self.before_ty_name) || holds_note(&self.after_ty_name) || holds_note(
            &self.after_key,
        ) || holds_note(&self.after_eq)
    }
}

impl Knode {
    /// Does the node hold a comment?
    pub fn has_comment(&self) -> (r: bool)
        ensures
            r == node_noted(self@),
        decreases self, 0int,
    {
        let mut found = match &self.form {
            Some(f) => f.has_note(),
            None => false,
        };
        let ghost first = found;
        let ghost all = kas(self.args@);
        let mut i: usize = 0;
        while i < self.args.len()
            invariant
                i <= self.args.len(),
                all == kas(self.args@),
                found == (first || row_noted(all, i as nat)),
            decreases self.args.len() - i,
        {
            assert(all[i as int] == self.args@[i as int]@);
            if let Some(f) = &self.args[i].form {
                found = f.has_note() || found;
            }
            i = i + 1;
        }
        let below = match &self.children {
            Some(d) => d.has_comment(),
            None => false,
        };
        found || below
    }
}

impl Kdoc {
    /// Does the document hold a comment?
    pub fn has_comment(&self) -> (r: bool)
        ensures
            r == doc_noted(self@),
        decreases self, 1int,
    {
        let mut found = match &self.form {
            Some(f) => holds_note(&f.leading) || holds_note(&f.trailing),
            None => false,
        };
        let ghost first = found;
        let ghost all = kns(self.nodes@);
        let mut i: usize = 0;
        while i < self.nodes.len()
            invariant
                i <= self.nodes.len(),
                all == kns(self.nodes@),
                found == (first || nodes_noted(all, i as nat)),
            decreases self.nodes.len() - i,
        {
            assert(all[i as int] == self.nodes@[i as int]@);
            found = self.nodes[i].has_comment() || found;
            i = i + 1;
        }
        found
    }
}

/// A text without the `*/` it ends with.
pub open spec fn unclosed(s: Seq<char>) -> Seq<char>
    decreases s.len(),
{
    if s.len() >= 2 && s[s.len() - 2] == '*' && s[s.len() - 1] == '/' {
        unclosed(s.take(s.len() - 2))
    } else {
        s
    }
}

/// The comment on a line that starts with one.
pub open spec fn slash_note(l: Seq<char>) -> Option<Seq<char>> {
    let t = trimmed(l);
    if t.len() >= 2 && t[0] == '/' && t[1] == '/' {
        Some(trimmed(t.skip(2)))
    } else if t.len() >= 2 && t[0] == '/' && t[1] == '*' {
        Some(trimmed(unclosed(t.skip(2))))
    } else {
        None
    }
}

/// The comments among the first `n` lines.
pub open spec fn slash_notes(ls: Seq<Seq<char>>, n: nat) -> Seq<Seq<char>>
    decreases n,
{
    if n == 0 || n > ls.len() {
        Seq::empty()
    } else {
        slash_notes(ls, (n - 1) as nat) + opt_line(slash_note(ls[n - 1]))
    }
}

/// The `//` and `/* */` comments in a decor string, one per line, in order.
pub open spec fn decor_notes(s: Seq<char>) -> Seq<Seq<char>> {
    slash_notes(lines_of(s), lines_of(s).len())
}

/// Where `//` first stands at or after `i`, or the length.
pub open spec fn slashes_from(s: Seq<char>, i: int) -> int
    decreases s.len() - i,
{
    if i < 0 || i + 1 >= s.len() {
        s.len() as int
    } else if s[i] == '/' && s[i + 1] == '/' {
        i
    } else {
        slashes_from(s, i + 1)
    }
}

/// A trailing `// ...` comment on the node's own line.
pub open spec fn trailing_note(s: Seq<char>) -> Option<Seq<char>> {
    let seg = s.take(eol_at(s, 0));
    let i = slashes_from(seg, 0);
    if 0 <= i < seg.len() {
        Some(trimmed(seg.skip(i + 2)))
    } else {
        None
    }
}

fn strip_closing(s: &str) -> (r: String)
    ensures
        r@ == unclosed(s@),
{
    let cs = chars_of(s);
    let mut e: usize = cs.len();
    assert(s@.take(e as int) =~= s@);
    while e >= 2 && cs[e - 2] == '*' && cs[e - 1] == '/'
        invariant
            e <= cs.len(),
            cs@ == s@,
            unclosed(s@) == unclosed(s@.take(e as int)),
        decreases e,
    {
        assert(s@.take(e as int).take(e - 2) =~= s@.take(e - 2));
        e = e - 2;
    }
    let r = slice_text(&cs, 0, e);
    assert(r@ =~= s@.take(e as int));
    r
}

fn note_on(l: &str) -> (r: Option<String>)
    ensures
        opt_text(r) == slash_note(l@),
{
    let t = trim(l);
    let cs = chars_of(&t);
    if cs.len() >= 2 && cs[0] == '/' {
        let rest = slice_text(&cs, 2, cs.len());
        assert(rest@ =~= t@.skip(2));
        if cs[1] == '/' {
            return Some(trim(&rest));
        }
        if cs[1] == '*' {
            return Some(trim(&strip_closing(&rest)));
        }
    }
    None
}

fn own_line_comments(decor: &str) -> (r: Vec<String>)
    ensures
        texts(r@) == decor_notes(decor@),
{
    let ls = split_lines(decor);
    let ghost all = lines_of(decor@);
    let mut out: Vec<String> = Vec::new();
    let mut i: usize = 0;
    assert(texts(out@) =~= slash_notes(all, 0));
    while i < ls.len()
        invariant
            i <= ls.len(),
            all == texts(ls@),
            texts(out@) == slash_notes(all, i as nat),
        decreases ls.len() - i,
    {
        assert(all[i as int] == ls@[i as int]@);
        let ghost before = texts(out@);
        match note_on(&ls[i]) {
            Some(t) => {
                let ghost x = t@;
                out.push(t);
                assert(texts(out@) =~= before + opt_line(Some(x)));
            },
            None => {
                assert(texts(out@) =~= before + opt_line(None));
            },
        }
        i = i + 1;
    }
    out
}

fn trailing_comment(decor: &str) -> (r: Option<String>)
    ensures
        opt_text(r) == trailing_note(decor@),
{
    let cs = chars_of(decor);
    let e: usize = skip_line(&cs, 0);
    let ghost seg = decor@.take(e as int);
    let mut i: usize = 0;
    while e - i > 1
        invariant
            i <= e <= cs.len(),
            cs@ == decor@,
            seg == decor@.take(e as int),
            e == eol_at(decor@, 0),
            slashes_from(seg, 0) == slashes_from(seg, i as int),
        decreases e - i,
    {
        if cs[i] == '/' && cs[i + 1] == '/' {
            let rest = slice_text(&cs, i + 2, e);
            assert(rest@ =~= seg.skip(i + 2));
            return Some(trim(&rest));
        }
        i = i + 1;
    }
    None
}

/// One node as itself, several as an array.
pub open spec fn one_or_array(cs: Seq<Cmt>) -> Cmt {
    if cs.len() == 1 {
        cs[0]
    } else {
        Cmt { notes: no_notes(), node: CmtNode::Array(cs) }
    }
}

/// Plain members as commented ones.
pub open spec fn bare_pairs(m: Seq<(Seq<char>, Val)>) -> Seq<(Seq<char>, Cmt)> {
    Seq::new(m.len(), |i: int| (m[i].0, bare(m[i].1)))
}

/// A node with the comments on its child nodes: arguments and properties have
/// none.
pub open spec fn body_cmt(n: Kn) -> Cmt
    decreases n, 0int, 0int,
{
    match n.children {
        None => bare(node_val(n)),
        Some(d) => Cmt {
            notes: no_notes(),
            node: CmtNode::Object(
                bare_pairs(
                    arg_member(arg_vals(n.args, n.args.len())) + prop_vals(
                        n.args,
                        n.args.len(),
                    ),
                ) + doc_cmts(d),
            ),
        },
    }
}

/// A node with the comments on it and inside it.
pub open spec fn node_cmt(n: Kn) -> Cmt
    decreases n, 1int, 0int,
{
    let c = body_cmt(n);
    match n.form {
        Some(f) => Cmt {
            notes: Notes {
                head: decor_notes(f.leading),
                inline: trailing_note(f.terminator),
                foot: c.notes.foot,
            },
            node: c.node,
        },
        None => c,
    }
}

/// The commented members a document's nodes stand for.
pub open spec fn doc_cmts(d: Kd) -> Seq<(Seq<char>, Cmt)>
    decreases d, 3int, 0int,
{
    let gs = cmt_groups(d.nodes, d.nodes.len());
    Seq::new(gs.len(), |i: int| (gs[i].0, one_or_array(gs[i].1)))
}

/// The first `n` nodes, grouped by name.
pub open spec fn cmt_groups(ns: Seq<Kn>, n: nat) -> Seq<(Seq<char>, Seq<Cmt>)>
    decreases ns, 2int, n,
{
    if n == 0 || n > ns.len() {
        Seq::empty()
    } else {
        grouped_with(cmt_groups(ns, (n - 1) as nat), ns[n - 1].name.value, node_cmt(ns[n - 1]))
    }
}

/// The commented projection of a document.
pub open spec fn kdl_commented(d: Kd) -> Cmt {
    let c = Cmt { notes: no_notes(), node: CmtNode::Object(doc_cmts(d)) };
    let lines = match d.form {
        Some(f) => decor_notes(f.trailing),
        None => Seq::empty(),
    };
    if lines.len() > 0 {
        with_foot(c, lines)
    } else {
        c
    }
}

/// The contents of some groups.
spec fn groups_view(s: Seq<(String, Vec<Commented>)>) -> Seq<(Seq<char>, Seq<Cmt>)> {
    Seq::new(s.len(), |i: int| (s[i].0@, cmts(s[i].1@)))
}

fn add_to_group(gs: &mut Vec<(String, Vec<Commented>)>, name: &str, x: Commented)
    ensures
        groups_view(final(gs)@) == grouped_with(groups_view(old(gs)@), name@, x@),
{
    let ghost before = groups_view(gs@);
    let mut i: usize = 0;
    while i < gs.len() && !same(&gs[i].0, name)
        invariant
            i <= gs.len(),
            before == groups_view(gs@),
            group_from(before, name@, 0) == group_from(before, name@, i as int),
        decreases gs.len() - i,
    {
        assert(before[i as int].0 == gs@[i as int].0@);
        i = i + 1;
    }
    if i < gs.len() {
        assert(before[i as int] == (gs@[i as int].0@, cmts(gs@[i as int].1@)));
        gs[i].1.push(x);
        assert(groups_view(gs@) =~= before.update(i as int, (name@, before[i as int].1.push(x@))));
    } else {
        let mut vs: Vec<Commented> = Vec::new();
        vs.push(x);
        assert(cmts(vs@) =~= seq![x@]);
        gs.push((name.to_owned(), vs));
        assert(groups_view(gs@) =~= before.push((name@, seq![x@])));
    }
}

fn one_of(cs: Vec<Commented>) -> (r: Commented)
    ensures
        r@ == one_or_array(cmts(cs@)),
{
    let mut cs = cs;
    let ghost all = cmts(cs@);
    assert(all.len() == cs.len());
    if cs.len() == 1 {
        assert(all[0] == cs@[0]@);
        if let Some(c) = cs.pop() {
            return c;
        }
    }
    Commented { comments: Comments::none(), node: CommentedNode::Array(cs) }
}

fn wrap_pairs(m: &Vec<(String, Value)>, n: usize) -> (r: Vec<(String, Commented)>)
    requires
        n <= m.len(),
    ensures
        cmt_members(r@) == bare_pairs(members(m@).take(n as int)),
{
    let ghost all = members(m@).take(n as int);
    let mut out: Vec<(String, Commented)> = Vec::new();
    let mut i: usize = 0;
    while i < n
        invariant
            i <= n <= m.len(),
            all == members(m@).take(n as int),
            cmt_members(out@) == bare_pairs(all).take(i as int),
        decreases n - i,
    {
        assert(all[i as int] == (m@[i as int].0@, m@[i as int].1@));
        out.push((m[i].0.clone(), Commented::from_value(&m[i].1)));
        assert(cmt_members(out@) =~= bare_pairs(all).take(i + 1));
        i = i + 1;
    }
    assert(bare_pairs(all).take(i as int) =~= bare_pairs(all));
    out
}

proof fn groups_agree(ns: Seq<Kn>, n: nat)
    requires
        n <= ns.len(),
    ensures
        cmt_groups(ns, n).len() == crate::kdl_nodes::groups(ns, n).len(),
        forall|i: int|
            0 <= i < cmt_groups(ns, n).len() ==> (#[trigger] cmt_groups(ns, n)[i]).0
                == crate::kdl_nodes::groups(ns, n)[i].0,
    decreases n,
{
    if n > 0 {
        groups_agree(ns, (n - 1) as nat);
        let a = cmt_groups(ns, (n - 1) as nat);
        let b = crate::kdl_nodes::groups(ns, (n - 1) as nat);
        same_place(a, b, ns[n - 1].name.value, 0);
    }
}

proof fn same_place<A, B>(a: Seq<(Seq<char>, A)>, b: Seq<(Seq<char>, B)>, name: Seq<char>, i: int)
    requires
        a.len() == b.len(),
        0 <= i <= a.len(),
        forall|j: int| 0 <= j < a.len() ==> (#[trigger] a[j]).0 == b[j].0,
    ensures
        group_from(a, name, i) == group_from(b, name, i),
        i <= group_from(a, name, i) <= a.len(),
    decreases a.len() - i,
{
    if i < a.len() {
        assert(a[i].0 == b[i].0);
        same_place(a, b, name, i + 1);
    }
}

fn node_body_commented(n: &Knode) -> (r: Commented)
    ensures
        r@ == body_cmt(n@),
    decreases n, 0int,
{
    match &n.children {
        None => Commented::from_value(&n.project()),
        Some(d) => {
            let kids = doc_commented(d);
            let mut out: Vec<(String, Commented)> = Vec::new();
            let ghost front = arg_member(arg_vals(n@.args, n@.args.len())) + prop_vals(
                n@.args,
                n@.args.len(),
            );
            if let Value::Object(pairs) = n.project() {
                proof {
                    groups_agree(d@.nodes, d@.nodes.len());
                    assert(members(pairs@) =~= front + doc_members(d@));
                    assert(cmt_members(kids@).len() == kids.len());
                    assert(members(pairs@).len() == pairs.len());
                }
                let split: usize = pairs.len() - kids.len();
                out = wrap_pairs(&pairs, split);
                assert(members(pairs@).take(split as int) =~= front);
            }
            let ghost a = cmt_members(out@);
            let ghost b = cmt_members(kids@);
            let mut kids = kids;
            out.append(&mut kids);
            assert(cmt_members(out@) =~= a + b);
            Commented { comments: Comments::none(), node: CommentedNode::Object(out) }
        },
    }
}

fn node_commented(n: &Knode) -> (r: Commented)
    ensures
        r@ == node_cmt(n@),
    decreases n, 1int,
{
    let mut c = node_body_commented(n);
    if let Some(f) = &n.form {
        c.comments.head = own_line_comments(&f.leading);
        c.comments.inline = trailing_comment(&f.terminator);
    }
    c
}

fn doc_commented(d: &Kdoc) -> (r: Vec<(String, Commented)>)
    ensures
        cmt_members(r@) == doc_cmts(d@),
    decreases d, 2int,
{
    let ghost all = kns(d.nodes@);
    let mut gs: Vec<(String, Vec<Commented>)> = Vec::new();
    let mut i: usize = 0;
    assert(groups_view(gs@) =~= cmt_groups(all, 0));
    while i < d.nodes.len()
        invariant
            i <= d.nodes.len(),
            all == kns(d.nodes@),
            groups_view(gs@) == cmt_groups(all, i as nat),
        decreases d.nodes.len() - i,
    {
        assert(all[i as int] == d.nodes@[i as int]@);
        let x = node_commented(&d.nodes[i]);
        add_to_group(&mut gs, &d.nodes[i].name.value, x);
        i = i + 1;
    }
    let ghost g = cmt_groups(all, all.len());
    let ghost want = doc_cmts(d@);
    let mut out: Vec<(String, Commented)> = Vec::new();
    while gs.len() > 0
        invariant
            groups_view(gs@) == g.take(gs.len() as int),
            gs.len() <= g.len(),
            want.len() == g.len(),
            forall|x: int|
                0 <= x < g.len() ==> #[trigger] want[x] == (g[x].0, one_or_array(g[x].1)),
            cmt_members(out@) == want.skip(gs.len() as int),
        decreases gs.len(),
    {
        let ghost k = gs.len() - 1;
        assert(g.take(gs.len() as int)[k] == (gs@[k].0@, cmts(gs@[k].1@)));
        if let Some((name, cs)) = gs.pop() {
            assert(groups_view(gs@) =~= g.take(gs.len() as int));
            let ghost before = cmt_members(out@);
            let c = one_of(cs);
            out.insert(0, (name, c));
            assert(cmt_members(out@) =~= before.insert(0, (name@, c@)));
            assert(cmt_members(out@) =~= want.skip(gs.len() as int));
        }
    }
    assert(want.skip(0) =~= want);
    out
}

/// Project a document to the commented value model.
pub fn tree_commented(d: &Kdoc) -> (r: Commented)
    ensures
        r@ == kdl_commented(d@),
{
    let mut c = Commented {
        comments: Comments::none(),
        node: CommentedNode::Object(doc_commented(d)),
    };
    if let Some(f) = &d.form {
        let lines = own_line_comments(&f.trailing);
        if lines.len() > 0 {
            c.attach_trailing_foot(lines);
        }
    }
    c
}

} // verus!
