//! TOML and the uniform comment model, over decor strings.
//!
//! Extraction reads comments out of decor: a key's (or table's) prefix holds its
//! head lines, a value's (or table header's) suffix holds its inline comment, and
//! the document's trailing text holds the foot. Inside arrays a comment written
//! after `elem,` stands in the *next* element's prefix: the part before that
//! prefix's first newline is really the previous element's inline comment, and
//! extraction reassigns it.
//!
//! Emission builds the same tree the plain emitter would and sets decor where
//! comments exist. TOML holds every comment kind except one grammatical hole:
//! comments cannot exist *inside* an inline table (they are single-line by
//! grammar), so comments on values nested in arrays of objects hoist above their
//! entry, with a warning.
use crate::comment::{extend_texts, opt_line, with_foot};
use crate::json_lexer::{eol_at, skip_line};
use crate::lines::{lines_of, split_lines};
use crate::model::{
    cmt_members, cmts, group_comment_views, no_notes, opt_text, texts, Cmt, CmtNode, Commented,
    CommentedNode, Comments, Notes,
};
use crate::strs::{chars_of, slice_text, trim, trimmed};
use crate::toml_spell::{text_in, text_or_none};
use crate::toml_tree::{decor_in, ets, group_toml_views, is_header, nds, Entry, Et, Form, Nd, Node};
use vstd::prelude::*;

verus! {

broadcast use {group_toml_views, group_comment_views};

/// A text without the `#` it starts with.
pub open spec fn unhashed(s: Seq<char>) -> Seq<char>
    decreases s.len(),
{
    if s.len() > 0 && s[0] == '#' {
        unhashed(s.drop_first())
    } else {
        s
    }
}

/// The comment on a line that holds nothing else.
pub open spec fn line_note(l: Seq<char>) -> Option<Seq<char>> {
    let t = trimmed(l);
    if t.len() > 0 && t[0] == '#' {
        Some(trimmed(unhashed(t)))
    } else {
        None
    }
}

/// The comments among the first `n` lines.
pub open spec fn line_notes(ls: Seq<Seq<char>>, n: nat) -> Seq<Seq<char>>
    decreases n,
{
    if n == 0 || n > ls.len() {
        Seq::empty()
    } else {
        line_notes(ls, (n - 1) as nat) + opt_line(line_note(ls[n - 1]))
    }
}

/// Every comment line in a decor string.
pub open spec fn own_lines(text: Seq<char>) -> Seq<Seq<char>> {
    line_notes(lines_of(text), lines_of(text).len())
}

/// A comment with no newline before it (trailing on the same line).
pub open spec fn same_line(text: Seq<char>) -> Option<Seq<char>> {
    line_note(text.take(eol_at(text, 0)))
}

/// The comment lines behind the first newline.
pub open spec fn later_lines(text: Seq<char>) -> Seq<Seq<char>> {
    let e = eol_at(text, 0);
    if e < text.len() {
        own_lines(text.skip(e + 1))
    } else {
        Seq::empty()
    }
}

fn strip_hashes(s: &str) -> (r: String)
    ensures
        r@ == unhashed(s@),
{
    let cs = chars_of(s);
    let mut i: usize = 0;
    assert(s@.skip(0) =~= s@);
    while i < cs.len() && cs[i] == '#'
        invariant
            i <= cs.len(),
            cs@ == s@,
            unhashed(s@) == unhashed(s@.skip(i as int)),
        decreases cs.len() - i,
    {
        assert(s@.skip(i as int).drop_first() =~= s@.skip(i + 1));
        i = i + 1;
    }
    let r = slice_text(&cs, i, cs.len());
    assert(r@ =~= s@.skip(i as int));
    r
}

fn note_on(l: &str) -> (r: Option<String>)
    ensures
        opt_text(r) == line_note(l@),
{
    let t = trim(l);
    let cs = chars_of(&t);
    if cs.len() > 0 && cs[0] == '#' {
        Some(trim(&strip_hashes(&t)))
    } else {
        None
    }
}

fn own_line_comments(text: &str) -> (r: Vec<String>)
    ensures
        texts(r@) == own_lines(text@),
{
    let ls = split_lines(text);
    let ghost all = lines_of(text@);
    let mut out: Vec<String> = Vec::new();
    let mut i: usize = 0;
    assert(texts(out@) =~= line_notes(all, 0));
    while i < ls.len()
        invariant
            i <= ls.len(),
            all == texts(ls@),
            texts(out@) == line_notes(all, i as nat),
        decreases ls.len() - i,
    {
        assert(all[i as int] == ls@[i as int]@);
        let ghost before = texts(out@);
        match note_on(&ls[i]) {
            Some(t) => {
                let ghost x = t@;
                out.push(t);
                assert(texts(out@) =~= before + opt_line(Some(x)));
            },
            None => {
                assert(texts(out@) =~= before + opt_line(None));
            },
        }
        i = i + 1;
    }
    out
}

fn same_line_comment(text: &str) -> (r: Option<String>)
    ensures
        opt_text(r) == same_line(text@),
{
    let cs = chars_of(text);
    let e: usize = skip_line(&cs, 0);
    let first = slice_text(&cs, 0, e);
    assert(first@ =~= text@.take(e as int));
    note_on(&first)
}

/// Split a decor prefix into the comment on the previous element's line and the
/// comment lines that follow.
fn split_prefix(text: &str) -> (r: (Option<String>, Vec<String>))
    ensures
        opt_text(r.0) == same_line(text@),
        texts(r.1@) == later_lines(text@),
{
    let first = same_line_comment(text);
    let cs = chars_of(text);
    let e: usize = skip_line(&cs, 0);
    if e < cs.len() {
        let rest = slice_text(&cs, e + 1, cs.len());
        assert(rest@ =~= text@.skip(e + 1));
        (first, own_line_comments(&rest))
    } else {
        let none: Vec<String> = Vec::new();
        assert(texts(none@) =~= Seq::<Seq<char>>::empty());
        (first, none)
    }
}

/// The node with an inline comment, where there is one.
pub open spec fn with_inline(c: Cmt, t: Option<Seq<char>>) -> Cmt {
    match t {
        Some(x) => Cmt { notes: Notes { inline: Some(x), ..c.notes }, ..c },
        None => c,
    }
}

/// The node with more head lines above its own.
pub open spec fn under_head(c: Cmt, lines: Seq<Seq<char>>) -> Cmt {
    Cmt { notes: Notes { head: lines + c.notes.head, ..c.notes }, ..c }
}

/// The list with an inline comment for its last node, where there are both.
pub open spec fn last_inline(s: Seq<Cmt>, t: Option<Seq<char>>) -> Seq<Cmt> {
    if s.len() > 0 {
        s.update(s.len() - 1, with_inline(s.last(), t))
    } else {
        s
    }
}

/// The list with more foot lines for its last node.
pub open spec fn last_foot(s: Seq<Cmt>, lines: Seq<Seq<char>>) -> Seq<Cmt> {
    if s.len() > 0 {
        let c = s.last();
        s.update(
            s.len() - 1,
            Cmt { notes: Notes { foot: c.notes.foot + lines, ..c.notes }, ..c },
        )
    } else {
        s
    }
}

/// A value with the comments inside it. Comments cannot occur inside an inline
/// table (single-line grammar).
pub open spec fn value_cmt(n: Nd) -> Cmt
    decreases n, 1int, 0int,
{
    match n {
        Nd::Array(a, f, _) => {
            let s = element_cmts(a, a.len());
            let lines = later_lines(f.trailing);
            Cmt {
                notes: Notes {
                    foot: if s.len() == 0 {
                        lines
                    } else {
                        Seq::empty()
                    },
                    ..no_notes()
                },
                node: CmtNode::Array(last_foot(last_inline(s, same_line(f.trailing)), lines)),
            }
        },
        Nd::Tables(a) => Cmt {
            notes: no_notes(),
            node: CmtNode::Array(block_cmts(a, a.len())),
        },
        Nd::Table(es, f, _) => Cmt {
            notes: no_notes(),
            node: CmtNode::Object(entry_cmts(es, f is Header, es.len())),
        },
        Nd::Scalar(v, _, _) => Cmt { notes: no_notes(), node: CmtNode::Scalar(v) },
    }
}

/// A node with the comments on it and inside it.
pub open spec fn nd_cmt(n: Nd) -> Cmt
    decreases n, 2int, 0int,
{
    let c = value_cmt(n);
    let d = decor_in(n);
    if is_header(n) {
        Cmt {
            notes: Notes {
                head: own_lines(text_in(d.prefix)),
                inline: same_line(text_in(d.suffix)),
                foot: Seq::empty(),
            },
            ..c
        }
    } else if n is Tables {
        c
    } else {
        with_inline(c, same_line(text_in(d.suffix)))
    }
}

/// The first `n` elements of an array.
pub open spec fn element_cmts(a: Seq<Nd>, n: nat) -> Seq<Cmt>
    decreases a, 0int, n,
{
    if n == 0 || n > a.len() {
        Seq::empty()
    } else {
        let p = text_in(decor_in(a[n - 1]).prefix);
        last_inline(element_cmts(a, (n - 1) as nat), same_line(p)).push(
            under_head(value_cmt(a[n - 1]), later_lines(p)),
        )
    }
}

/// The first `n` blocks of an array of tables.
pub open spec fn block_cmts(a: Seq<Nd>, n: nat) -> Seq<Cmt>
    decreases a, 0int, n,
{
    if n == 0 || n > a.len() {
        Seq::empty()
    } else {
        block_cmts(a, (n - 1) as nat).push(nd_cmt(a[n - 1]))
    }
}

/// The first `n` entries of a table; in a standard table with the comments on
/// them.
pub open spec fn entry_cmts(es: Seq<Et>, on: bool, n: nat) -> Seq<(Seq<char>, Cmt)>
    decreases es, 0int, n,
{
    if n == 0 || n > es.len() {
        Seq::empty()
    } else {
        let e = es[n - 1];
        entry_cmts(es, on, (n - 1) as nat).push(
            (
                e.name.key,
                if on {
                    under_head(nd_cmt(e.node), own_lines(text_in(e.name.leaf.prefix)))
                } else {
                    value_cmt(e.node)
                },
            ),
        )
    }
}

/// The commented projection of a document.
pub open spec fn toml_commented(root: Nd, trailing: Seq<char>) -> Cmt {
    let c = value_cmt(root);
    let lines = own_lines(trailing);
    if lines.len() > 0 {
        with_foot(c, lines)
    } else {
        c
    }
}

fn set_inline(c: &mut Commented, t: Option<String>)
    ensures
        final(c)@ == with_inline(old(c)@, opt_text(t)),
{
    if t.is_some() {
        c.comments.inline = t;
    }
}

fn set_last_inline(s: &mut Vec<Commented>, t: Option<String>)
    ensures
        cmts(final(s)@) == last_inline(cmts(old(s)@), opt_text(t)),
{
    let n: usize = s.len();
    if n > 0 {
        let ghost before = cmts(s@);
        assert(before.last() == s@[n - 1]@);
        set_inline(&mut s[n - 1], t);
        assert(cmts(s@) =~= before.update(n - 1, s@[n - 1]@));
    }
}

fn add_last_foot(s: &mut Vec<Commented>, lines: &Vec<String>)
    ensures
        cmts(final(s)@) == last_foot(cmts(old(s)@), texts(lines@)),
{
    let n: usize = s.len();
    if n > 0 {
        let ghost before = cmts(s@);
        assert(before.last() == s@[n - 1]@);
        extend_texts(&mut s[n - 1].comments.foot, lines);
        assert(cmts(s@) =~= before.update(n - 1, s@[n - 1]@));
    }
}

fn add_head(c: &mut Commented, lines: Vec<String>)
    ensures
        final(c)@ == under_head(old(c)@, texts(lines@)),
{
    let mut head = lines;
    extend_texts(&mut head, &c.comments.head);
    c.comments.head = head;
}

fn value_commented(n: &Node) -> (r: Commented)
    ensures
        r@ == value_cmt(n@),
    decreases n, 1int,
{
    match n {
        Node::Array(a, f, _) => {
            let mut s = elements_commented(a);
            let ghost s0 = cmts(s@);
            let (inline, lines) = split_prefix(&f.trailing);
            let mut comments = Comments::none();
            set_last_inline(&mut s, inline);
            add_last_foot(&mut s, &lines);
            assert(cmts(s@).len() == s0.len());
            if s.len() == 0 {
                comments.foot = lines;
            }
            let r = Commented { comments, node: CommentedNode::Array(s) };
            assert(r@.node == value_cmt(n@).node);
            assert(r@.notes.head =~= value_cmt(n@).notes.head);
            assert(r@.notes.foot =~= value_cmt(n@).notes.foot);
            r
        },
        Node::Tables(a) => Commented {
            comments: Comments::none(),
            node: CommentedNode::Array(blocks_commented(a)),
        },
        Node::Table(es, f, _) => {
            let on = matches!(f, Form::Header { .. });
            Commented {
                comments: Comments::none(),
                node: CommentedNode::Object(entries_commented(es, on)),
            }
        },
        Node::Scalar(v, _, _) => Commented {
            comments: Comments::none(),
            node: CommentedNode::Scalar(v.clone()),
        },
    }
}

fn node_commented(n: &Node) -> (r: Commented)
    ensures
        r@ == nd_cmt(n@),
    decreases n, 2int,
{
    let mut c = value_commented(n);
    let d = n.decor();
    if n.is_standard() {
        let none: Vec<String> = Vec::new();
        assert(texts(none@) =~= Seq::<Seq<char>>::empty());
        c.comments = Comments {
            head: own_line_comments(&text_or_none(&d.prefix)),
            inline: same_line_comment(&text_or_none(&d.suffix)),
            foot: none,
        };
        return c;
    }
    if let Node::Tables(_) = n {
        return c;
    }
    set_inline(&mut c, same_line_comment(&text_or_none(&d.suffix)));
    c
}

fn elements_commented(a: &Vec<Node>) -> (r: Vec<Commented>)
    ensures
        cmts(r@) == element_cmts(nds(a@), a.len() as nat),
    decreases a, 0int,
{
    let mut out: Vec<Commented> = Vec::new();
    let ghost all = nds(a@);
    let mut i: usize = 0;
    assert(cmts(out@) =~= element_cmts(all, 0));
    while i < a.len()
        invariant
            i <= a.len(),
            all == nds(a@),
            cmts(out@) == element_cmts(all, i as nat),
        decreases a.len() - i,
    {
        assert(all[i as int] == a@[i as int]@);
        let (inline, lines) = split_prefix(&text_or_none(&a[i].decor().prefix));
        set_last_inline(&mut out, inline);
        let mut c = value_commented(&a[i]);
        add_head(&mut c, lines);
        out.push(c);
        i = i + 1;
    }
    out
}

fn blocks_commented(a: &Vec<Node>) -> (r: Vec<Commented>)
    ensures
        cmts(r@) == block_cmts(nds(a@), a.len() as nat),
    decreases a, 0int,
{
    let mut out: Vec<Commented> = Vec::new();
    let ghost all = nds(a@);
    let mut i: usize = 0;
    assert(cmts(out@) =~= block_cmts(all, 0));
    while i < a.len()
        invariant
            i <= a.len(),
            all == nds(a@),
            cmts(out@) == block_cmts(all, i as nat),
        decreases a.len() - i,
    {
        assert(all[i as int] == a@[i as int]@);
        out.push(node_commented(&a[i]));
        i = i + 1;
    }
    out
}

fn entries_commented(es: &Vec<Entry>, on: bool) -> (r: Vec<(String, Commented)>)
    ensures
        cmt_members(r@) == entry_cmts(ets(es@), on, es.len() as nat),
    decreases es, 0int,
{
    let mut out: Vec<(String, Commented)> = Vec::new();
    let ghost all = ets(es@);
    let mut i: usize = 0;
    assert(cmt_members(out@) =~= entry_cmts(all, on, 0));
    while i < es.len()
        invariant
            i <= es.len(),
            all == ets(es@),
            cmt_members(out@) == entry_cmts(all, on, i as nat),
        decreases es.len() - i,
    {
        assert(all[i as int] == es@[i as int]@);
        let c = if on {
            let mut c = node_commented(&es[i].node);
            add_head(&mut c, own_line_comments(&text_or_none(&es[i].name.leaf.prefix)));
            c
        } else {
            value_commented(&es[i].node)
        };
        out.push((es[i].name.key.clone(), c));
        i = i + 1;
    }
    out
}

/// Project a document to the commented value model.
pub fn tree_commented(root: &Node, trailing: &str) -> (r: Commented)
    ensures
        r@ == toml_commented(root@, trailing@),
{
    let mut c = value_commented(root);
    let lines = own_line_comments(trailing);
    if lines.len() > 0 {
        c.attach_trailing_foot(lines);
    }
    c
}

} // verus!
