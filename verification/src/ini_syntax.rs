//! The syntax trees of INI documents.
use crate::lines::{flat, flat_push};
use crate::model::texts;
use crate::row_syntax::{
    all_text, all_text_add, all_text_one, ending_green, framed_text, indent_green, one, push_node,
    push_optional, push_row, push_token, row_green, row_green_text, RowKinds,
};
use crate::rows::{
    body_end, close_at, close_from_bounds, end_of_body, find_close, header_name, skip_white,
    text_at, trailing_at, white_from_bounds, Scheme,
};
use crate::strs::chars_of;
use crate::syntax::{
    green_text, node_green, optional, optional_text, tree_green, trees_green, Green, Kinds, Tree,
};
use vstd::prelude::*;

verus! {

/// Token and node kinds: tokens first, then nodes.
#[derive(Debug, Clone, Copy, PartialEq, Eq, PartialOrd, Ord, Hash, Structural)]
pub enum Sk {
    Ws,
    Newline,
    Comment,
    Open,
    Close,
    Name,
    Key,
    Sep,
    ValStr,
    Error,
    Value,
    Entry,
    Header,
    Section,
    Root,
}

impl Kinds for Sk {
    open spec fn code(self) -> u16 {
        match self {
            Sk::Ws => 0,
            Sk::Newline => 1,
            Sk::Comment => 2,
            Sk::Open => 3,
            Sk::Close => 4,
            Sk::Name => 5,
            Sk::Key => 6,
            Sk::Sep => 7,
            Sk::ValStr => 8,
            Sk::Error => 9,
            Sk::Value => 10,
            Sk::Entry => 11,
            Sk::Header => 12,
            Sk::Section => 13,
            Sk::Root => 14,
        }
    }

    open spec fn kinds() -> Seq<Sk> {
        seq![
            Sk::Ws,
            Sk::Newline,
            Sk::Comment,
            Sk::Open,
            Sk::Close,
            Sk::Name,
            Sk::Key,
            Sk::Sep,
            Sk::ValStr,
            Sk::Error,
            Sk::Value,
            Sk::Entry,
            Sk::Header,
            Sk::Section,
            Sk::Root,
        ]
    }

    proof fn numbered(self) {
    }

    fn raw(self) -> (r: u16) {
        match self {
            Sk::Ws => 0,
            Sk::Newline => 1,
            Sk::Comment => 2,
            Sk::Open => 3,
            Sk::Close => 4,
            Sk::Name => 5,
            Sk::Key => 6,
            Sk::Sep => 7,
            Sk::ValStr => 8,
            Sk::Error => 9,
            Sk::Value => 10,
            Sk::Entry => 11,
            Sk::Header => 12,
            Sk::Section => 13,
            Sk::Root => 14,
        }
    }

    fn all() -> (r: Vec<Sk>) {
        let r = vec![
            Sk::Ws,
            Sk::Newline,
            Sk::Comment,
            Sk::Open,
            Sk::Close,
            Sk::Name,
            Sk::Key,
            Sk::Sep,
            Sk::ValStr,
            Sk::Error,
            Sk::Value,
            Sk::Entry,
            Sk::Header,
            Sk::Section,
            Sk::Root,
        ];
        assert(r@ =~= Self::kinds());
        r
    }
}

/// The kinds of a line.
pub open spec fn ini_kinds() -> RowKinds<Sk> {
    RowKinds {
        ws: Sk::Ws,
        newline: Sk::Newline,
        comment: Sk::Comment,
        key: Sk::Key,
        sep: Sk::Sep,
        text: Sk::ValStr,
        error: Sk::Error,
        value: Sk::Value,
        entry: Sk::Entry,
    }
}

fn row_kinds() -> (r: RowKinds<Sk>)
    ensures
        r == ini_kinds(),
{
    RowKinds {
        ws: Sk::Ws,
        newline: Sk::Newline,
        comment: Sk::Comment,
        key: Sk::Key,
        sep: Sk::Sep,
        text: Sk::ValStr,
        error: Sk::Error,
        value: Sk::Value,
        entry: Sk::Entry,
    }
}

/// Does the line open a section?
pub open spec fn opens(t: Seq<char>) -> bool {
    text_at(t) < body_end(t) && t[text_at(t)] == '['
}

/// The trees behind a header's bracket: its name, the closing bracket and what
/// follows, or for want of that bracket an error.
pub open spec fn title_green(t: Seq<char>) -> Seq<Green> {
    if close_at(t) < body_end(t) {
        optional(Sk::Name.code(), header_name(t)) + one(
            Sk::Close,
            t.subrange(close_at(t), close_at(t) + 1),
        ) + optional(Sk::Ws.code(), t.subrange(close_at(t) + 1, trailing_at(t))) + optional(
            Sk::Comment.code(),
            t.subrange(trailing_at(t), body_end(t)),
        )
    } else {
        optional(Sk::Error.code(), t.subrange(text_at(t) + 1, body_end(t)))
    }
}

/// The tree of a section header.
pub open spec fn header_green(t: Seq<char>) -> Green {
    Green::Node(
        Sk::Header.code(),
        indent_green(ini_kinds(), t) + (one(Sk::Open, t.subrange(text_at(t), text_at(t) + 1))
            + title_green(t)) + ending_green(ini_kinds(), t),
    )
}

/// The sections of the first `n` lines: those that are done, and what the last
/// one holds so far.
pub open spec fn sections(lines: Seq<Seq<char>>, n: nat) -> (Seq<Green>, Seq<Green>)
    decreases n,
{
    if n == 0 || n > lines.len() {
        (Seq::empty(), Seq::empty())
    } else {
        let (done, last) = sections(lines, (n - 1) as nat);
        let t = lines[n - 1];
        if opens(t) {
            (done.push(Green::Node(Sk::Section.code(), last)), seq![header_green(t)])
        } else {
            (done, last + row_green(ini_kinds(), t, Scheme::Sections))
        }
    }
}

/// The syntax tree of a document's lines: a section for what stands in front of
/// the first header, then one for each header.
pub open spec fn ini_green(lines: Seq<Seq<char>>) -> Green {
    let (done, last) = sections(lines, lines.len());
    Green::Node(Sk::Root.code(), done.push(Green::Node(Sk::Section.code(), last)))
}

/// What stands behind a header's opening bracket, added to a list of trees.
fn push_title(out: &mut Vec<Tree<Sk>>, cs: &[char], a: usize, end: usize)
    requires
        opens(cs@),
        a == text_at(cs@),
        end == body_end(cs@),
        a < end <= cs.len(),
    ensures
        trees_green(final(out)@) == trees_green(old(out)@) + title_green(cs@),
{
    let close: usize = find_close(cs, a + 1, end);
    if close < end {
        let rest: usize = skip_white(cs, close + 1, end);
        proof {
            white_from_bounds(cs@, close + 1, end as int);
        }
        push_optional(out, Sk::Name, cs, a + 1, close);
        push_token(out, Sk::Close, cs, close, close + 1);
        push_optional(out, Sk::Ws, cs, close + 1, rest);
        push_optional(out, Sk::Comment, cs, rest, end);
    } else {
        push_optional(out, Sk::Error, cs, a + 1, end);
    }
    assert(trees_green(out@) =~= trees_green(old(out)@) + title_green(cs@));
}

/// A section header as a list of trees.
fn header_trees(cs: &[char], a: usize, end: usize) -> (r: Vec<Tree<Sk>>)
    requires
        opens(cs@),
        a == text_at(cs@),
        end == body_end(cs@),
        a < end <= cs.len(),
    ensures
        trees_green(r@) == header_green(cs@)->Node_1,
{
    let mut line: Vec<Tree<Sk>> = Vec::new();
    assert(cs@.skip(end as int) =~= cs@.subrange(end as int, cs@.len() as int));
    push_optional(&mut line, Sk::Ws, cs, 0, a);
    push_token(&mut line, Sk::Open, cs, a, a + 1);
    push_title(&mut line, cs, a, end);
    push_optional(&mut line, Sk::Newline, cs, end, cs.len());
    assert(trees_green(line@) =~= header_green(cs@)->Node_1);
    line
}

/// Lines as a syntax tree.
pub fn ini_tree(lines: &Vec<String>) -> (r: Tree<Sk>)
    ensures
        r is Node,
        tree_green(r) == ini_green(texts(lines@)),
{
    let kinds = row_kinds();
    let ghost ls = texts(lines@);
    let mut done: Vec<Tree<Sk>> = Vec::new();
    let mut last: Vec<Tree<Sk>> = Vec::new();
    assert(trees_green(done@) =~= Seq::empty());
    let mut i: usize = 0;
    while i < lines.len()
        invariant
            i <= lines.len(),
            kinds == ini_kinds(),
            ls == texts(lines@),
            trees_green(done@) == sections(ls, i as nat).0,
            trees_green(last@) == sections(ls, i as nat).1,
        decreases lines.len() - i,
    {
        let cs = chars_of(&lines[i]);
        let end: usize = end_of_body(&cs);
        let a: usize = skip_white(&cs, 0, end);
        proof {
            white_from_bounds(cs@, 0, end as int);
            assert(cs@ == ls[i as int]);
        }
        if a < end && cs[a] == '[' {
            let header = header_trees(&cs, a, end);
            push_node(&mut done, Sk::Section, last);
            last = Vec::new();
            push_node(&mut last, Sk::Header, header);
            assert(trees_green(last@) =~= seq![header_green(cs@)]);
        } else {
            push_row(&mut last, &kinds, &cs, Scheme::Sections);
        }
        i = i + 1;
    }
    push_node(&mut done, Sk::Section, last);
    proof {
        node_green(Sk::Root, done);
    }
    Tree::Node(Sk::Root, done)
}

/// A header's title has the text behind the bracket.
proof fn title_text(t: Seq<char>)
    requires
        opens(t),
    ensures
        all_text(title_green(t)) == t.subrange(text_at(t) + 1, body_end(t)),
{
    white_from_bounds(t, 0, body_end(t));
    close_from_bounds(t, text_at(t) + 1, body_end(t));
    let (a, end) = (text_at(t) + 1, body_end(t));
    if close_at(t) < end {
        white_from_bounds(t, close_at(t) + 1, end);
        let (b, d) = (close_at(t), trailing_at(t));
        let c = b + 1;
        let p1 = optional(Sk::Name.code(), t.subrange(a, b));
        let p2 = one(Sk::Close, t.subrange(b, c));
        let p3 = optional(Sk::Ws.code(), t.subrange(c, d));
        let p4 = optional(Sk::Comment.code(), t.subrange(d, end));
        optional_text(Sk::Name.code(), t.subrange(a, b));
        all_text_one(Green::Token(Sk::Close.code(), t.subrange(b, c)));
        optional_text(Sk::Ws.code(), t.subrange(c, d));
        optional_text(Sk::Comment.code(), t.subrange(d, end));
        all_text_add(p1, p2);
        all_text_add(p1 + p2, p3);
        all_text_add(p1 + p2 + p3, p4);
        assert(t.subrange(a, b) + t.subrange(b, c) + t.subrange(c, d) + t.subrange(d, end)
            =~= t.subrange(a, end));
    } else {
        optional_text(Sk::Error.code(), t.subrange(a, end));
    }
}

/// A header's tree has the line's text.
proof fn header_text(t: Seq<char>)
    requires
        opens(t),
    ensures
        green_text(header_green(t)) == t,
{
    white_from_bounds(t, 0, body_end(t));
    let (a, end) = (text_at(t), body_end(t));
    let open = one(Sk::Open, t.subrange(a, a + 1));
    title_text(t);
    all_text_one(Green::Token(Sk::Open.code(), t.subrange(a, a + 1)));
    all_text_add(open, title_green(t));
    assert(t.subrange(a, a + 1) + t.subrange(a + 1, end) =~= t.subrange(a, end));
    framed_text(ini_kinds(), t, open + title_green(t));
}

/// The text of the first lines' sections is the lines' text.
proof fn sections_text(lines: Seq<Seq<char>>, n: nat)
    requires
        n <= lines.len(),
    ensures
        all_text(sections(lines, n).0) + all_text(sections(lines, n).1) == flat(
            lines.take(n as int),
        ),
    decreases n,
{
    if n == 0 {
        assert(lines.take(0) =~= Seq::empty());
        assert(all_text(sections(lines, 0).0) + all_text(sections(lines, 0).1) =~= flat(
            lines.take(0),
        ));
    } else {
        let m = (n - 1) as nat;
        let t = lines[m as int];
        let (done, last) = sections(lines, m);
        sections_text(lines, m);
        assert(lines.take(n as int) =~= lines.take(m as int).push(t));
        flat_push(lines.take(m as int), t);
        if opens(t) {
            let s = Green::Node(Sk::Section.code(), last);
            header_text(t);
            all_text_one(header_green(t));
            all_text_one(s);
            assert(done.push(s) =~= done + seq![s]);
            all_text_add(done, seq![s]);
        } else {
            let more = row_green(ini_kinds(), t, Scheme::Sections);
            row_green_text(ini_kinds(), t, Scheme::Sections);
            all_text_add(last, more);
            assert(all_text(done) + (all_text(last) + t) =~= all_text(done) + all_text(last) + t);
        }
    }
}

/// The tree of a document's lines has the lines' text: every character is in a
/// token, in order.
pub proof fn ini_tree_is_lossless(lines: Seq<Seq<char>>)
    ensures
        green_text(ini_green(lines)) == flat(lines),
{
    let (done, last) = sections(lines, lines.len());
    let s = Green::Node(Sk::Section.code(), last);
    sections_text(lines, lines.len());
    assert(lines.take(lines.len() as int) =~= lines);
    all_text_one(s);
    assert(done.push(s) =~= done + seq![s]);
    all_text_add(done, seq![s]);
}

} // verus!
