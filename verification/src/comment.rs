//! The uniform comment model for comment-preserving conversion.
//!
//! Comments cross formats through a shared vocabulary of three kinds - head
//! (own-line comments before a node), inline (a trailing comment on the node's
//! line), and foot (own-line comments after a node that no following sibling
//! claims). Each format parses its comments out to this model, and each
//! format's emitter decides per kind: place it, remap it to a kind it supports
//! (warn), or drop it (warn).
//!
//! Comment text is stored without delimiters (`# `, `// `, `; `) and trimmed, so
//! the target format re-delimits it natively. A multi-line block comment
//! contributes one `head`/`foot` entry per line.
use crate::index::{resolve_index, resolved};
use crate::model::{
    cmt_members, cmts, group_comment_views, group_expr_views, group_value_views, members, no_notes,
    opt_text, steps_of, texts, vals, Cmt, CmtNode, Notes, St, Step, Val, Value,
};
use crate::seqs::{joined, joined_step};
use crate::strs::{nat_digits, nat_text, same};
use crate::value::raw_text;
use vstd::prelude::*;
use vstd::string::*;

pub use crate::model::{CommentKind, Commented, CommentedNode, Comments};

verus! {

broadcast use {group_value_views, group_expr_views, group_comment_views};

/// Is there no comment of any kind?
pub open spec fn notes_empty(n: Notes) -> bool {
    n.head.len() == 0 && n.inline is None && n.foot.len() == 0
}

/// A copy of a list of strings.
pub fn clone_texts(s: &Vec<String>) -> (r: Vec<String>)
    ensures
        texts(r@) == texts(s@),
{
    let mut out: Vec<String> = Vec::new();
    assert(texts(out@) =~= texts(s@).take(0));
    let mut i: usize = 0;
    while i < s.len()
        invariant
            i <= s.len(),
            texts(out@) == texts(s@).take(i as int),
        decreases s.len() - i,
    {
        out.push(s[i].clone());
        assert(texts(s@).take(i + 1) =~= texts(s@).take(i as int).push(s@[i as int]@));
        i = i + 1;
    }
    assert(texts(s@).take(i as int) =~= texts(s@));
    out
}

/// A copy of an optional string.
pub fn clone_opt_text(s: &Option<String>) -> (r: Option<String>)
    ensures
        opt_text(r) == opt_text(*s),
{
    match s {
        Some(t) => Some(t.clone()),
        None => None,
    }
}

/// `a` with `b` behind it.
pub fn extend_texts(a: &mut Vec<String>, b: &Vec<String>)
    ensures
        texts(final(a)@) == texts(old(a)@) + texts(b@),
{
    let mut more = clone_texts(b);
    let ghost x = texts(a@);
    let ghost y = texts(more@);
    a.append(&mut more);
    assert(texts(a@) =~= x + y);
}

impl Comments {
    /// No comments.
    pub fn none() -> (r: Comments)
        ensures
            r@ == no_notes(),
    {
        let r = Comments { head: Vec::new(), inline: None, foot: Vec::new() };
        assert(texts(r.head@) =~= Seq::<Seq<char>>::empty());
        assert(texts(r.foot@) =~= Seq::<Seq<char>>::empty());
        r
    }

    /// Is there no comment of any kind?
    pub fn is_empty(&self) -> (r: bool)
        ensures
            r == notes_empty(self@),
    {
        self.head.len() == 0 && self.inline.is_none() && self.foot.len() == 0
    }
}

impl Default for Comments {
    fn default() -> (r: Comments)
        ensures
            r@ == no_notes(),
    {
        Comments::none()
    }
}

impl Clone for Comments {
    fn clone(&self) -> (r: Comments)
        ensures
            r@ == self@,
    {
        Comments {
            head: clone_texts(&self.head),
            inline: clone_opt_text(&self.inline),
            foot: clone_texts(&self.foot),
        }
    }
}

/// A plain value as a node without comments anywhere.
pub open spec fn bare(v: Val) -> Cmt
    decreases v, 1int,
{
    Cmt {
        notes: no_notes(),
        node: match v {
            Val::Array(a) => CmtNode::Array(bare_all(a)),
            Val::Object(m) => CmtNode::Object(bare_members(m)),
            _ => CmtNode::Scalar(v),
        },
    }
}

pub open spec fn bare_all(a: Seq<Val>) -> Seq<Cmt>
    decreases a, 0int,
{
    Seq::new(
        a.len(),
        |i: int|
            if 0 <= i < a.len() {
                bare(a[i])
            } else {
                arbitrary()
            },
    )
}

pub open spec fn bare_members(m: Seq<(Seq<char>, Val)>) -> Seq<(Seq<char>, Cmt)>
    decreases m, 0int,
{
    Seq::new(
        m.len(),
        |i: int|
            if 0 <= i < m.len() {
                (m[i].0, bare(m[i].1))
            } else {
                arbitrary()
            },
    )
}

/// The plain value of a node.
pub open spec fn plain(c: Cmt) -> Val
    decreases c, 1int,
{
    match c.node {
        CmtNode::Scalar(v) => v,
        CmtNode::Array(a) => Val::Array(plain_all(a)),
        CmtNode::Object(m) => Val::Object(plain_members(m)),
    }
}

pub open spec fn plain_all(a: Seq<Cmt>) -> Seq<Val>
    decreases a, 0int,
{
    Seq::new(
        a.len(),
        |i: int|
            if 0 <= i < a.len() {
                plain(a[i])
            } else {
                Val::Null
            },
    )
}

pub open spec fn plain_members(m: Seq<(Seq<char>, Cmt)>) -> Seq<(Seq<char>, Val)>
    decreases m, 0int,
{
    Seq::new(
        m.len(),
        |i: int|
            if 0 <= i < m.len() {
                (m[i].0, plain(m[i].1))
            } else {
                (Seq::empty(), Val::Null)
            },
    )
}

/// Does the node or any descendant carry a comment?
pub open spec fn annotated(c: Cmt) -> bool
    decreases c, 1int,
{
    !notes_empty(c.notes) || match c.node {
        CmtNode::Scalar(_) => false,
        CmtNode::Array(a) => annotated_any(a),
        CmtNode::Object(m) => annotated_member(m),
    }
}

pub open spec fn annotated_any(a: Seq<Cmt>) -> bool
    decreases a, 0int,
{
    exists|i: int| 0 <= i < a.len() && annotated(#[trigger] a[i])
}

pub open spec fn annotated_member(m: Seq<(Seq<char>, Cmt)>) -> bool
    decreases m, 0int,
{
    exists|i: int| 0 <= i < m.len() && annotated((#[trigger] m[i]).1)
}

/// Wrapping a plain value and stripping it again gives the value back, and the
/// wrapped value carries no comment.
pub proof fn wrapping_round_trips(v: Val)
    ensures
        plain(bare(v)) == v,
        !annotated(bare(v)),
    decreases v,
{
    match v {
        Val::Array(a) => {
            assert forall|i: int| 0 <= i < a.len() implies plain(#[trigger] bare_all(a)[i]) == a[i]
                && !annotated(bare_all(a)[i]) by {
                wrapping_round_trips(a[i]);
            }
            assert(plain_all(bare_all(a)) =~= a);
        },
        Val::Object(m) => {
            assert forall|i: int| 0 <= i < m.len() implies plain((#[trigger] bare_members(m)[i]).1)
                == m[i].1 && !annotated(bare_members(m)[i].1) by {
                wrapping_round_trips(m[i].1);
            }
            assert(plain_members(bare_members(m)) =~= m);
        },
        _ => {},
    }
}

/// The node with `lines` as the foot of its deepest last entry.
pub open spec fn with_foot(c: Cmt, lines: Seq<Seq<char>>) -> Cmt
    decreases c,
{
    match c.node {
        CmtNode::Object(m) => if m.len() > 0 {
            Cmt {
                node: CmtNode::Object(
                    m.update(
                        m.len() - 1,
                        (m[m.len() - 1].0, with_foot(m[m.len() - 1].1, lines)),
                    ),
                ),
                ..c
            }
        } else {
            Cmt { notes: Notes { foot: c.notes.foot + lines, ..c.notes }, ..c }
        },
        CmtNode::Array(a) => if a.len() > 0 {
            Cmt {
                node: CmtNode::Array(a.update(a.len() - 1, with_foot(a[a.len() - 1], lines))),
                ..c
            }
        } else {
            Cmt { notes: Notes { foot: c.notes.foot + lines, ..c.notes }, ..c }
        },
        CmtNode::Scalar(_) => Cmt {
            notes: Notes { foot: c.notes.foot + lines, ..c.notes },
            ..c
        },
    }
}

/// The first position at or after `i` whose key is `k`, or the length.
pub open spec fn entry_from(m: Seq<(Seq<char>, Cmt)>, k: Seq<char>, i: int) -> int
    decreases m.len() - i,
{
    if i >= m.len() {
        m.len() as int
    } else if m[i].0 == k {
        i
    } else {
        entry_from(m, k, i + 1)
    }
}

/// The nodes one step selects: a step that cannot apply selects nothing.
pub open spec fn step_nodes(c: Cmt, st: St) -> Seq<Cmt> {
    match (st, c.node) {
        (St::Field(k), CmtNode::Object(m)) => {
            let i = entry_from(m, k, 0);
            if 0 <= i < m.len() {
                seq![m[i].1]
            } else {
                Seq::empty()
            }
        },
        (St::Index(i), CmtNode::Array(a)) => match resolved(i as int, a.len() as int) {
            Some(n) => seq![a[n]],
            None => Seq::empty(),
        },
        (St::Iterate, CmtNode::Array(a)) => a,
        (St::Iterate, CmtNode::Object(m)) => Seq::new(m.len(), |i: int| m[i].1),
        _ => Seq::empty(),
    }
}

/// The nodes one step selects among several.
pub open spec fn steps_nodes(cs: Seq<Cmt>, st: St) -> Seq<Cmt>
    decreases cs.len(),
{
    if cs.len() == 0 {
        Seq::empty()
    } else {
        steps_nodes(cs.drop_last(), st) + step_nodes(cs.last(), st)
    }
}

/// The nodes a path selects, in document order.
pub open spec fn nodes_at(c: Cmt, path: Seq<St>) -> Seq<Cmt>
    decreases path.len(),
{
    if path.len() == 0 {
        seq![c]
    } else {
        steps_nodes(nodes_at(c, path.drop_last()), path.last())
    }
}

/// The contents of borrowed nodes.
pub open spec fn cmt_refs(s: Seq<&Commented>) -> Seq<Cmt> {
    Seq::new(s.len(), |i: int| s[i]@)
}

proof fn cmt_refs_push(s: Seq<&Commented>, x: &Commented)
    ensures
        cmt_refs(s.push(x)) == cmt_refs(s).push(x@),
{
    assert(cmt_refs(s.push(x)) =~= cmt_refs(s).push(x@));
}

/// The first position whose key is `k`, or the length.
fn find_entry(m: &Vec<(String, Commented)>, k: &str) -> (r: usize)
    ensures
        r == entry_from(cmt_members(m@), k@, 0),
        r <= m.len(),
{
    let mut i: usize = 0;
    while i < m.len()
        invariant
            i <= m.len(),
            entry_from(cmt_members(m@), k@, 0) == entry_from(cmt_members(m@), k@, i as int),
        decreases m.len() - i,
    {
        if same(&m[i].0, k) {
            return i;
        }
        i = i + 1;
    }
    i
}

fn push_step<'a>(c: &'a Commented, st: &Step, out: &mut Vec<&'a Commented>)
    ensures
        cmt_refs(final(out)@) == cmt_refs(old(out)@) + step_nodes(c@, st@),
{
    let ghost before = cmt_refs(out@);
    match (st, &c.node) {
        (Step::Field(k), CommentedNode::Object(m)) => {
            let i = find_entry(m, k);
            if i < m.len() {
                proof {
                    cmt_refs_push(out@, &m@[i as int].1);
                }
                out.push(&m[i].1);
            }
            assert(cmt_refs(out@) =~= before + step_nodes(c@, st@));
        },
        (Step::Index(i), CommentedNode::Array(a)) => {
            if let Some(n) = resolve_index(*i, a.len()) {
                proof {
                    cmt_refs_push(out@, &a@[n as int]);
                }
                out.push(&a[n]);
            }
            assert(cmt_refs(out@) =~= before + step_nodes(c@, st@));
        },
        (Step::Iterate, CommentedNode::Array(a)) => {
            let ghost all = step_nodes(c@, st@);
            assert(cmt_refs(out@) =~= before + all.take(0));
            let mut i: usize = 0;
            while i < a.len()
                invariant
                    i <= a.len(),
                    all == cmts(a@),
                    cmt_refs(out@) == before + all.take(i as int),
                decreases a.len() - i,
            {
                proof {
                    cmt_refs_push(out@, &a@[i as int]);
                }
                out.push(&a[i]);
                assert(before + all.take(i + 1) =~= (before + all.take(i as int)).push(
                    all[i as int],
                ));
                i = i + 1;
            }
            assert(all.take(i as int) =~= all);
        },
        (Step::Iterate, CommentedNode::Object(m)) => {
            let ghost all = step_nodes(c@, st@);
            assert(cmt_refs(out@) =~= before + all.take(0));
            let mut i: usize = 0;
            while i < m.len()
                invariant
                    i <= m.len(),
                    all == Seq::new(cmt_members(m@).len(), |i: int| cmt_members(m@)[i].1),
                    cmt_refs(out@) == before + all.take(i as int),
                decreases m.len() - i,
            {
                proof {
                    cmt_refs_push(out@, &m@[i as int].1);
                }
                out.push(&m[i].1);
                assert(before + all.take(i + 1) =~= (before + all.take(i as int)).push(
                    all[i as int],
                ));
                i = i + 1;
            }
            assert(all.take(i as int) =~= all);
        },
        _ => {
            assert(cmt_refs(out@) =~= before + step_nodes(c@, st@));
        },
    }
}

fn any_annotated(a: &Vec<Commented>) -> (r: bool)
    ensures
        r == annotated_any(cmts(a@)),
    decreases a,
{
    let mut i: usize = 0;
    while i < a.len()
        invariant
            i <= a.len(),
            forall|j: int| 0 <= j < i ==> !annotated(#[trigger] cmts(a@)[j]),
        decreases a.len() - i,
    {
        assert(cmts(a@)[i as int] == a@[i as int]@);
        if a[i].has_comments() {
            return true;
        }
        i = i + 1;
    }
    false
}

fn any_member_annotated(m: &Vec<(String, Commented)>) -> (r: bool)
    ensures
        r == annotated_member(cmt_members(m@)),
    decreases m,
{
    let mut i: usize = 0;
    while i < m.len()
        invariant
            i <= m.len(),
            forall|j: int| 0 <= j < i ==> !annotated((#[trigger] cmt_members(m@)[j]).1),
        decreases m.len() - i,
    {
        assert(cmt_members(m@)[i as int].1 == m@[i as int].1@);
        if m[i].1.has_comments() {
            return true;
        }
        i = i + 1;
    }
    false
}

fn wrap_values(a: &Vec<Value>) -> (r: Vec<Commented>)
    ensures
        cmts(r@) == bare_all(vals(a@)),
    decreases a,
{
    let mut out: Vec<Commented> = Vec::new();
    let ghost all = bare_all(vals(a@));
    assert(cmts(out@) =~= all.take(0));
    let mut i: usize = 0;
    while i < a.len()
        invariant
            i <= a.len(),
            all == bare_all(vals(a@)),
            cmts(out@) == all.take(i as int),
        decreases a.len() - i,
    {
        out.push(Commented::from_value(&a[i]));
        assert(all[i as int] == bare(vals(a@)[i as int]));
        assert(all.take(i + 1) =~= all.take(i as int).push(all[i as int]));
        i = i + 1;
    }
    assert(all.take(i as int) =~= all);
    out
}

fn wrap_members(m: &Vec<(String, Value)>) -> (r: Vec<(String, Commented)>)
    ensures
        cmt_members(r@) == bare_members(members(m@)),
    decreases m,
{
    let mut out: Vec<(String, Commented)> = Vec::new();
    let ghost all = bare_members(members(m@));
    assert(cmt_members(out@) =~= all.take(0));
    let mut i: usize = 0;
    while i < m.len()
        invariant
            i <= m.len(),
            all == bare_members(members(m@)),
            cmt_members(out@) == all.take(i as int),
        decreases m.len() - i,
    {
        out.push((m[i].0.clone(), Commented::from_value(&m[i].1)));
        assert(all[i as int] == (members(m@)[i as int].0, bare(members(m@)[i as int].1)));
        assert(all.take(i + 1) =~= all.take(i as int).push(all[i as int]));
        i = i + 1;
    }
    assert(all.take(i as int) =~= all);
    out
}

fn strip_nodes(a: &Vec<Commented>) -> (r: Vec<Value>)
    ensures
        vals(r@) == plain_all(cmts(a@)),
    decreases a,
{
    let mut out: Vec<Value> = Vec::new();
    let ghost all = plain_all(cmts(a@));
    assert(vals(out@) =~= all.take(0));
    let mut i: usize = 0;
    while i < a.len()
        invariant
            i <= a.len(),
            all == plain_all(cmts(a@)),
            vals(out@) == all.take(i as int),
        decreases a.len() - i,
    {
        out.push(a[i].to_value());
        assert(all[i as int] == plain(cmts(a@)[i as int]));
        assert(all.take(i + 1) =~= all.take(i as int).push(all[i as int]));
        i = i + 1;
    }
    assert(all.take(i as int) =~= all);
    out
}

fn strip_members(m: &Vec<(String, Commented)>) -> (r: Vec<(String, Value)>)
    ensures
        members(r@) == plain_members(cmt_members(m@)),
    decreases m,
{
    let mut out: Vec<(String, Value)> = Vec::new();
    let ghost all = plain_members(cmt_members(m@));
    assert(members(out@) =~= all.take(0));
    let mut i: usize = 0;
    while i < m.len()
        invariant
            i <= m.len(),
            all == plain_members(cmt_members(m@)),
            members(out@) == all.take(i as int),
        decreases m.len() - i,
    {
        out.push((m[i].0.clone(), m[i].1.to_value()));
        assert(all[i as int] == (cmt_members(m@)[i as int].0, plain(cmt_members(m@)[i as int].1)));
        assert(all.take(i + 1) =~= all.take(i as int).push(all[i as int]));
        i = i + 1;
    }
    assert(all.take(i as int) =~= all);
    out
}

impl Commented {
    /// Wrap a plain value with no comments anywhere.
    pub fn from_value(value: &Value) -> (r: Commented)
        ensures
            r@ == bare(value@),
        decreases value,
    {
        let node = match value {
            Value::Array(items) => CommentedNode::Array(wrap_values(items)),
            Value::Object(entries) => CommentedNode::Object(wrap_members(entries)),
            _ => CommentedNode::Scalar(value.clone()),
        };
        Commented { comments: Comments::none(), node }
    }

    /// A scalar node with no comments (convenience for extractors).
    pub fn scalar(value: Value) -> (r: Commented)
        ensures
            r@ == (Cmt { notes: no_notes(), node: CmtNode::Scalar(value@) }),
    {
        Commented { comments: Comments::none(), node: CommentedNode::Scalar(value) }
    }

    /// Strip comments back to the plain value model.
    pub fn to_value(&self) -> (r: Value)
        ensures
            r@ == plain(self@),
        decreases self,
    {
        match &self.node {
            CommentedNode::Scalar(v) => v.clone(),
            CommentedNode::Array(items) => Value::Array(strip_nodes(items)),
            CommentedNode::Object(entries) => Value::Object(strip_members(entries)),
        }
    }

    /// Does this node or any descendant carry a comment?
    pub fn has_comments(&self) -> (r: bool)
        ensures
            r == annotated(self@),
        decreases self,
    {
        if !self.comments.is_empty() {
            return true;
        }
        match &self.node {
            CommentedNode::Scalar(_) => false,
            CommentedNode::Array(items) => any_annotated(items),
            CommentedNode::Object(entries) => any_member_annotated(entries),
        }
    }

    /// The nodes a pure path selects, in document order - mirroring the
    /// evaluator's path semantics (a missing field/index yields nothing; `[]`
    /// iterates elements/values). A step that cannot apply (e.g. a field of a
    /// scalar) yields nothing here; the evaluator errors first in that case.
    pub fn descend(&self, path: &[Step]) -> (r: Vec<&Commented>)
        ensures
            cmt_refs(r@) == nodes_at(self@, steps_of(path@)),
    {
        let mut stream: Vec<&Commented> = Vec::new();
        stream.push(self);
        let ghost all = steps_of(path@);
        assert(cmt_refs(stream@) =~= seq![self@]);
        let mut i: usize = 0;
        while i < path.len()
            invariant
                i <= path.len(),
                all == steps_of(path@),
                cmt_refs(stream@) == nodes_at(self@, all.take(i as int)),
            decreases path.len() - i,
        {
            let mut next: Vec<&Commented> = Vec::new();
            let ghost nodes = cmt_refs(stream@);
            assert(cmt_refs(next@) =~= Seq::<Cmt>::empty());
            let mut j: usize = 0;
            while j < stream.len()
                invariant
                    j <= stream.len(),
                    i < path.len(),
                    nodes == cmt_refs(stream@),
                    cmt_refs(next@) == steps_nodes(nodes.take(j as int), path@[i as int]@),
                decreases stream.len() - j,
            {
                push_step(stream[j], &path[i], &mut next);
                assert(nodes.take(j + 1).drop_last() =~= nodes.take(j as int));
                j = j + 1;
            }
            assert(nodes.take(j as int) =~= nodes);
            assert(all.take(i + 1).drop_last() =~= all.take(i as int));
            stream = next;
            i = i + 1;
        }
        assert(all.take(i as int) =~= all);
        stream
    }

    /// Attach trailing document comments as the foot of the deepest last entry
    /// - the node they physically follow, so re-emission keeps them at the end.
    pub fn attach_trailing_foot(&mut self, lines: Vec<String>)
        ensures
            final(self)@ == with_foot(old(self)@, texts(lines@)),
        decreases *old(self),
    {
        let ghost before = self@;
        match &mut self.node {
            CommentedNode::Object(entries) => {
                if entries.len() > 0 {
                    let ghost m = cmt_members(entries@);
                    let n: usize = entries.len() - 1;
                    entries[n].1.attach_trailing_foot(lines);
                    assert(cmt_members(entries@) =~= m.update(
                        n as int,
                        (m[n as int].0, with_foot(m[n as int].1, texts(lines@))),
                    ));
                    return;
                }
            },
            CommentedNode::Array(items) => {
                if items.len() > 0 {
                    let ghost a = cmts(items@);
                    let n: usize = items.len() - 1;
                    items[n].attach_trailing_foot(lines);
                    assert(cmts(items@) =~= a.update(
                        n as int,
                        with_foot(a[n as int], texts(lines@)),
                    ));
                    return;
                }
            },
            CommentedNode::Scalar(_) => {},
        }
        extend_texts(&mut self.comments.foot, &lines);
    }
}

/// The text of a node's comment of one kind: own-line comments joined by line
/// feeds.
pub open spec fn note_text(n: Notes, kind: CommentKind) -> Option<Seq<char>> {
    match kind {
        CommentKind::Head => if n.head.len() == 0 {
            None
        } else {
            Some(joined(n.head, "\n"@))
        },
        CommentKind::Inline => n.inline,
        CommentKind::Foot => if n.foot.len() == 0 {
            None
        } else {
            Some(joined(n.foot, "\n"@))
        },
    }
}

/// `parts` joined by `sep`.
pub fn join_texts(parts: &Vec<String>, sep: &str) -> (r: String)
    ensures
        r@ == joined(texts(parts@), sep@),
{
    let mut out = String::new();
    let ghost all = texts(parts@);
    assert(all.take(0) =~= Seq::<Seq<char>>::empty());
    let mut i: usize = 0;
    while i < parts.len()
        invariant
            i <= parts.len(),
            all == texts(parts@),
            out@ == joined(all.take(i as int), sep@),
        decreases parts.len() - i,
    {
        proof {
            joined_step(all, sep@, i as int);
        }
        if i > 0 {
            out.append(sep);
        }
        out.append(&parts[i]);
        assert(out@ =~= joined(all.take(i + 1), sep@));
        i = i + 1;
    }
    assert(all.take(i as int) =~= all);
    out
}

impl Comments {
    /// The text of the comment of one kind.
    pub fn text(&self, kind: CommentKind) -> (r: Option<String>)
        ensures
            opt_text(r) == note_text(self@, kind),
    {
        match kind {
            CommentKind::Head => if self.head.len() == 0 {
                None
            } else {
                Some(join_texts(&self.head, "\n"))
            },
            CommentKind::Inline => clone_opt_text(&self.inline),
            CommentKind::Foot => if self.foot.len() == 0 {
                None
            } else {
                Some(join_texts(&self.foot, "\n"))
            },
        }
    }
}

/// The comments of one kind that nodes carry, as string values.
pub open spec fn note_values(cs: Seq<Cmt>, kind: CommentKind) -> Seq<Val>
    decreases cs.len(),
{
    if cs.len() == 0 {
        Seq::empty()
    } else {
        let before = note_values(cs.drop_last(), kind);
        match note_text(cs.last().notes, kind) {
            Some(t) => before.push(Val::Str(t)),
            None => before,
        }
    }
}

/// The comments a `#`-terminated path selects.
pub open spec fn comment_at(c: Cmt, path: Seq<St>) -> Seq<Val> {
    if path.len() == 0 {
        Seq::empty()
    } else {
        match path.last() {
            St::Comment(kind) => note_values(nodes_at(c, path.drop_last()), kind),
            _ => Seq::empty(),
        }
    }
}

/// Where a comment hangs, which kind it is, and its text.
pub type Target = (Seq<St>, CommentKind, Seq<char>);

/// The comments of the given kinds on a node.
pub open spec fn own_target(p: Seq<St>, n: Notes, kind: CommentKind) -> Seq<Target> {
    match note_text(n, kind) {
        Some(t) => seq![(p, kind, t)],
        None => Seq::empty(),
    }
}

/// Every comment at or below a node, in document order.
pub open spec fn targets(p: Seq<St>, c: Cmt) -> Seq<Target>
    decreases c, 1int, 0int,
{
    own_target(p, c.notes, CommentKind::Head) + own_target(p, c.notes, CommentKind::Inline) + (
    match c.node {
        CmtNode::Scalar(_) => Seq::empty(),
        CmtNode::Array(a) => element_targets(p, a, a.len()),
        CmtNode::Object(m) => member_targets(p, m, m.len()),
    }) + own_target(p, c.notes, CommentKind::Foot)
}

pub open spec fn element_targets(p: Seq<St>, a: Seq<Cmt>, n: nat) -> Seq<Target>
    decreases a, 0int, n,
{
    if n == 0 || n > a.len() {
        Seq::empty()
    } else {
        element_targets(p, a, (n - 1) as nat) + targets(p.push(St::Index((n - 1) as i64)), a[n - 1])
    }
}

pub open spec fn member_targets(p: Seq<St>, m: Seq<(Seq<char>, Cmt)>, n: nat) -> Seq<Target>
    decreases m, 0int, n,
{
    if n == 0 || n > m.len() {
        Seq::empty()
    } else {
        member_targets(p, m, (n - 1) as nat) + targets(
            p.push(St::Field(m[n - 1].0)),
            m[n - 1].1,
        )
    }
}

/// The contents of a list of comment targets.
pub open spec fn targets_view(s: Seq<(Vec<Step>, CommentKind, String)>) -> Seq<Target> {
    Seq::new(s.len(), |i: int| (steps_of(s[i].0@), s[i].1, s[i].2@))
}

fn push_own(
    p: &Vec<Step>,
    c: &Comments,
    kind: CommentKind,
    out: &mut Vec<(Vec<Step>, CommentKind, String)>,
)
    ensures
        targets_view(final(out)@) == targets_view(old(out)@) + own_target(
            steps_of(p@),
            c@,
            kind,
        ),
{
    let ghost before = targets_view(out@);
    if let Some(t) = c.text(kind) {
        out.push((crate::eval::clone_steps(p), kind, t));
    }
    assert(targets_view(out@) =~= before + own_target(steps_of(p@), c@, kind));
}

#[verifier::loop_isolation(false)]
fn push_targets(p: &Vec<Step>, c: &Commented, out: &mut Vec<(Vec<Step>, CommentKind, String)>)
    ensures
        targets_view(final(out)@) == targets_view(old(out)@) + targets(steps_of(p@), c@),
    decreases c,
{
    let ghost before = targets_view(out@);
    let ghost pre = steps_of(p@);
    push_own(p, &c.comments, CommentKind::Head, out);
    push_own(p, &c.comments, CommentKind::Inline, out);
    let ghost own = targets_view(out@);
    match &c.node {
        CommentedNode::Scalar(_) => {},
        CommentedNode::Array(a) => {
            let ghost all = cmts(a@);
            assert(targets_view(out@) =~= own + element_targets(pre, all, 0));
            let mut i: usize = 0;
            while i < a.len()
                invariant
                    i <= a.len(),
                    all == cmts(a@),
                    pre == steps_of(p@),
                    targets_view(out@) == own + element_targets(pre, all, i as nat),
                decreases a.len() - i,
            {
                let mut q = crate::eval::clone_steps(p);
                q.push(Step::Index(i as i64));
                push_targets(&q, &a[i], out);
                assert(own + element_targets(pre, all, (i + 1) as nat) =~= own + element_targets(
                    pre,
                    all,
                    i as nat,
                ) + targets(pre.push(St::Index(i as i64)), all[i as int]));
                i = i + 1;
            }
        },
        CommentedNode::Object(m) => {
            let ghost all = cmt_members(m@);
            assert(targets_view(out@) =~= own + member_targets(pre, all, 0));
            let mut i: usize = 0;
            while i < m.len()
                invariant
                    i <= m.len(),
                    all == cmt_members(m@),
                    pre == steps_of(p@),
                    targets_view(out@) == own + member_targets(pre, all, i as nat),
                decreases m.len() - i,
            {
                let mut q = crate::eval::clone_steps(p);
                q.push(Step::Field(m[i].0.clone()));
                push_targets(&q, &m[i].1, out);
                assert(own + member_targets(pre, all, (i + 1) as nat) =~= own + member_targets(
                    pre,
                    all,
                    i as nat,
                ) + targets(pre.push(St::Field(all[i as int].0)), all[i as int].1));
                i = i + 1;
            }
        },
    }
    push_own(p, &c.comments, CommentKind::Foot, out);
    assert(targets_view(out@) =~= before + targets(pre, c@));
}

impl Commented {
    /// The comments a `#`-terminated path selects, as string values; a node
    /// without a comment of that kind contributes nothing.
    pub fn resolve_comment(&self, path: &Vec<Step>) -> (r: Vec<Value>)
        ensures
            vals(r@) == comment_at(self@, steps_of(path@)),
    {
        let mut out: Vec<Value> = Vec::new();
        assert(vals(out@) =~= Seq::<Val>::empty());
        if path.len() == 0 {
            return out;
        }
        let n: usize = path.len() - 1;
        assert(steps_of(path@).last() == path@[n as int]@);
        if let Step::Comment(kind) = &path[n] {
            let prefix = vstd::slice::slice_subrange(path.as_slice(), 0, n);
            assert(steps_of(prefix@) =~= steps_of(path@).drop_last());
            let nodes = self.descend(prefix);
            let ghost all = cmt_refs(nodes@);
            assert(all.take(0) =~= Seq::<Cmt>::empty());
            let mut i: usize = 0;
            while i < nodes.len()
                invariant
                    i <= nodes.len(),
                    all == cmt_refs(nodes@),
                    vals(out@) == note_values(all.take(i as int), *kind),
                decreases nodes.len() - i,
            {
                assert(all.take(i + 1).drop_last() =~= all.take(i as int));
                assert(all.take(i + 1).last() == nodes@[i as int]@);
                if let Some(t) = nodes[i].comments.text(*kind) {
                    out.push(Value::Str(t));
                }
                i = i + 1;
            }
            assert(all.take(i as int) =~= all);
        }
        out
    }

    /// Every comment in the tree, in document order: the path of the node it
    /// hangs on, its kind, and its text.
    pub fn comment_targets(&self) -> (r: Vec<(Vec<Step>, CommentKind, String)>)
        ensures
            targets_view(r@) == targets(Seq::empty(), self@),
    {
        let mut out: Vec<(Vec<Step>, CommentKind, String)> = Vec::new();
        let here: Vec<Step> = Vec::new();
        assert(steps_of(here@) =~= Seq::<St>::empty());
        push_targets(&here, self, &mut out);
        assert(targets_view(out@) =~= targets(Seq::empty(), self@));
        out
    }
}

/// One flattened `key = value` line with the comments it carries - the shape
/// the flat emitters (INI sections, `.env`) place comments through.
#[derive(Debug, PartialEq)]
pub struct FlatEntry {
    pub key: String,
    pub value: String,
    pub comments: Comments,
}

/// The mathematical content of a [`FlatEntry`].
pub struct Flat {
    pub key: Seq<char>,
    pub value: Seq<char>,
    pub notes: Notes,
}

impl View for FlatEntry {
    type V = Flat;

    open spec fn view(&self) -> Flat {
        Flat { key: self.key@, value: self.value@, notes: self.comments@ }
    }
}

/// The contents of a list of flattened lines.
pub open spec fn flats(s: Seq<FlatEntry>) -> Seq<Flat> {
    Seq::new(s.len(), |i: int| s[i]@)
}

/// A key below a prefix.
pub open spec fn dotted(prefix: Seq<char>, key: Seq<char>) -> Seq<char> {
    if prefix.len() == 0 {
        key
    } else {
        prefix + "."@ + key
    }
}

/// The optional line as a list.
pub open spec fn opt_line(s: Option<Seq<char>>) -> Seq<Seq<char>> {
    match s {
        Some(t) => seq![t],
        None => Seq::empty(),
    }
}

/// A flattened container's own comments on its first and last entries: head and
/// inline in front of the first entry's head, foot behind the last entry's
/// foot.
pub open spec fn distributed(n: Notes, s: Seq<Flat>) -> Seq<Flat> {
    if notes_empty(n) || s.len() == 0 {
        s
    } else {
        let first = Flat {
            notes: Notes { head: n.head + opt_line(n.inline) + s[0].notes.head, ..s[0].notes },
            ..s[0]
        };
        let t = s.update(0, first);
        let last = t[t.len() - 1];
        t.update(
            t.len() - 1,
            Flat { notes: Notes { foot: last.notes.foot + n.foot, ..last.notes }, ..last },
        )
    }
}

/// A commented tree as dotted-key lines.
pub open spec fn flattened(prefix: Seq<char>, c: Cmt) -> Seq<Flat>
    decreases c, 1int, 0int,
{
    match c.node {
        CmtNode::Scalar(v) => seq![Flat { key: prefix, value: raw_text(v), notes: c.notes }],
        CmtNode::Array(a) => distributed(c.notes, flat_elements(prefix, a, a.len())),
        CmtNode::Object(m) => distributed(c.notes, flat_members(prefix, m, m.len())),
    }
}

pub open spec fn flat_elements(prefix: Seq<char>, a: Seq<Cmt>, n: nat) -> Seq<Flat>
    decreases a, 0int, n,
{
    if n == 0 || n > a.len() {
        Seq::empty()
    } else {
        flat_elements(prefix, a, (n - 1) as nat) + flattened(
            dotted(prefix, nat_digits((n - 1) as nat)),
            a[n - 1],
        )
    }
}

pub open spec fn flat_members(prefix: Seq<char>, m: Seq<(Seq<char>, Cmt)>, n: nat) -> Seq<Flat>
    decreases m, 0int, n,
{
    if n == 0 || n > m.len() {
        Seq::empty()
    } else {
        flat_members(prefix, m, (n - 1) as nat) + flattened(
            dotted(prefix, m[n - 1].0),
            m[n - 1].1,
        )
    }
}

/// A key below a prefix.
pub fn join_key(prefix: &str, key: &str) -> (r: String)
    ensures
        r@ == dotted(prefix@, key@),
{
    if prefix.is_empty() {
        key.to_owned()
    } else {
        let mut out = prefix.to_owned();
        out.append(".");
        out.append(key);
        out
    }
}

/// Attach a flattened container's own comments to its first/last entries.
fn distribute_container_comments(c: &Comments, out: &mut Vec<FlatEntry>)
    ensures
        flats(final(out)@) == distributed(c@, flats(old(out)@)),
{
    if c.is_empty() || out.len() == 0 {
        return;
    }
    let ghost before = flats(out@);
    let mut head = clone_texts(&c.head);
    // An inline comment loses its own line when the container flattens; it
    // becomes the last head line of the first entry.
    if let Some(t) = &c.inline {
        head.push(t.clone());
    }
    assert(texts(head@) =~= c@.head + opt_line(c@.inline));
    assert(before[0] == out@[0]@);
    extend_texts(&mut head, &out[0].comments.head);
    let ghost h = texts(head@);
    out[0].comments.head = head;
    let ghost t = before.update(0, Flat { notes: Notes { head: h, ..before[0].notes }, ..before[0] });
    assert(flats(out@) =~= t);
    let last: usize = out.len() - 1;
    assert(t[last as int] == out@[last as int]@);
    extend_texts(&mut out[last].comments.foot, &c.foot);
    assert(flats(out@) =~= distributed(c@, before));
}

/// Flatten a commented tree to dotted-key lines below `prefix`.
#[verifier::loop_isolation(false)]
pub fn flatten_node(prefix: &str, c: &Commented) -> (r: Vec<FlatEntry>)
    ensures
        flats(r@) == flattened(prefix@, c@),
    decreases c,
{
    let mut out: Vec<FlatEntry> = Vec::new();
    match &c.node {
        CommentedNode::Scalar(v) => {
            out.push(
                FlatEntry {
                    key: prefix.to_owned(),
                    value: v.to_raw_string(),
                    comments: c.comments.clone(),
                },
            );
            assert(flats(out@) =~= flattened(prefix@, c@));
        },
        CommentedNode::Array(a) => {
            let ghost all = cmts(a@);
            assert(flats(out@) =~= flat_elements(prefix@, all, 0));
            let mut i: usize = 0;
            while i < a.len()
                invariant
                    i <= a.len(),
                    all == cmts(a@),
                    flats(out@) == flat_elements(prefix@, all, i as nat),
                decreases a.len() - i,
            {
                let mut more = flatten_node(&join_key(prefix, &nat_text(i as u64)), &a[i]);
                let ghost x = flats(out@);
                let ghost y = flats(more@);
                out.append(&mut more);
                assert(flats(out@) =~= x + y);
                i = i + 1;
            }
            distribute_container_comments(&c.comments, &mut out);
        },
        CommentedNode::Object(m) => {
            let ghost all = cmt_members(m@);
            assert(flats(out@) =~= flat_members(prefix@, all, 0));
            let mut i: usize = 0;
            while i < m.len()
                invariant
                    i <= m.len(),
                    all == cmt_members(m@),
                    flats(out@) == flat_members(prefix@, all, i as nat),
                decreases m.len() - i,
            {
                let mut more = flatten_node(&join_key(prefix, &m[i].0), &m[i].1);
                let ghost x = flats(out@);
                let ghost y = flats(more@);
                out.append(&mut more);
                assert(flats(out@) =~= x + y);
                i = i + 1;
            }
            distribute_container_comments(&c.comments, &mut out);
        },
    }
    out
}

/// Flatten a commented tree to dotted-key entries (the commented analogue of
/// [`crate::convert::flatten`]). A container's own comments ride along: its
/// `head` (and `inline`, which has no line of its own once flattened) prepend
/// to its first entry's `head`; its `foot` appends to its last entry's `foot`.
/// An empty container vanishes with its comments.
pub fn flatten_commented(node: &Commented) -> (r: Vec<FlatEntry>)
    ensures
        flats(r@) == flattened(""@, node@),
{
    flatten_node("", node)
}

} // verus!
