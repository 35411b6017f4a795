//! The syntax trees of `.env` / `.properties` documents.
use crate::lines::{flat, flat_push};
use crate::model::texts;
use crate::row_syntax::{
    all_text, all_text_add, push_row, row_green, row_green_text, rows_green, RowKinds,
};
use crate::rows::Scheme;
use crate::strs::chars_of;
use crate::syntax::{green_text, node_green, tree_green, trees_green, Green, Kinds, Tree};
use vstd::prelude::*;

verus! {

/// Token and node kinds: tokens first, then nodes.
#[derive(Debug, Clone, Copy, PartialEq, Eq, PartialOrd, Ord, Hash, Structural)]
pub enum Sk {
    Ws,
    Newline,
    Comment,
    Key,
    Sep,
    ValStr,
    Error,
    Value,
    Entry,
    Root,
}

impl Kinds for Sk {
    open spec fn code(self) -> u16 {
        match self {
            Sk::Ws => 0,
            Sk::Newline => 1,
            Sk::Comment => 2,
            Sk::Key => 3,
            Sk::Sep => 4,
            Sk::ValStr => 5,
            Sk::Error => 6,
            Sk::Value => 7,
            Sk::Entry => 8,
            Sk::Root => 9,
        }
    }

    open spec fn kinds() -> Seq<Sk> {
        seq![
            Sk::Ws,
            Sk::Newline,
            Sk::Comment,
            Sk::Key,
            Sk::Sep,
            Sk::ValStr,
            Sk::Error,
            Sk::Value,
            Sk::Entry,
            Sk::Root,
        ]
    }

    proof fn numbered(self) {
    }

    fn raw(self) -> (r: u16) {
        match self {
            Sk::Ws => 0,
            Sk::Newline => 1,
            Sk::Comment => 2,
            Sk::Key => 3,
            Sk::Sep => 4,
            Sk::ValStr => 5,
            Sk::Error => 6,
            Sk::Value => 7,
            Sk::Entry => 8,
            Sk::Root => 9,
        }
    }

    fn all() -> (r: Vec<Sk>) {
        let r = vec![
            Sk::Ws,
            Sk::Newline,
            Sk::Comment,
            Sk::Key,
            Sk::Sep,
            Sk::ValStr,
            Sk::Error,
            Sk::Value,
            Sk::Entry,
            Sk::Root,
        ];
        assert(r@ =~= Self::kinds());
        r
    }
}

/// The kinds of a line.
pub open spec fn env_kinds() -> RowKinds<Sk> {
    RowKinds {
        ws: Sk::Ws,
        newline: Sk::Newline,
        comment: Sk::Comment,
        key: Sk::Key,
        sep: Sk::Sep,
        text: Sk::ValStr,
        error: Sk::Error,
        value: Sk::Value,
        entry: Sk::Entry,
    }
}

fn row_kinds() -> (r: RowKinds<Sk>)
    ensures
        r == env_kinds(),
{
    RowKinds {
        ws: Sk::Ws,
        newline: Sk::Newline,
        comment: Sk::Comment,
        key: Sk::Key,
        sep: Sk::Sep,
        text: Sk::ValStr,
        error: Sk::Error,
        value: Sk::Value,
        entry: Sk::Entry,
    }
}

/// The syntax tree of a document's lines.
pub open spec fn env_green(lines: Seq<Seq<char>>, g: Scheme) -> Green {
    Green::Node(Sk::Root.code(), rows_green(env_kinds(), lines, g, lines.len()))
}

/// Lines as a syntax tree.
pub fn env_tree(lines: &Vec<String>, g: Scheme) -> (r: Tree<Sk>)
    ensures
        r is Node,
        tree_green(r) == env_green(texts(lines@), g),
{
    let kinds = row_kinds();
    let ghost ls = texts(lines@);
    let mut out: Vec<Tree<Sk>> = Vec::new();
    assert(trees_green(out@) =~= rows_green(env_kinds(), ls, g, 0));
    let mut i: usize = 0;
    while i < lines.len()
        invariant
            i <= lines.len(),
            kinds == env_kinds(),
            ls == texts(lines@),
            trees_green(out@) == rows_green(env_kinds(), ls, g, i as nat),
        decreases lines.len() - i,
    {
        let cs = chars_of(&lines[i]);
        push_row(&mut out, &kinds, &cs, g);
        i = i + 1;
    }
    proof {
        node_green(Sk::Root, out);
    }
    Tree::Node(Sk::Root, out)
}

/// The text of the first lines' trees is the lines' text.
proof fn rows_text(lines: Seq<Seq<char>>, g: Scheme, n: nat)
    requires
        n <= lines.len(),
    ensures
        all_text(rows_green(env_kinds(), lines, g, n)) == flat(lines.take(n as int)),
    decreases n,
{
    if n == 0 {
        assert(lines.take(0) =~= Seq::empty());
        assert(all_text(rows_green(env_kinds(), lines, g, 0)) =~= flat(lines.take(0)));
    } else {
        let m = (n - 1) as nat;
        rows_text(lines, g, m);
        row_green_text(env_kinds(), lines[m as int], g);
        all_text_add(rows_green(env_kinds(), lines, g, m), row_green(env_kinds(), lines[m as int], g));
        assert(lines.take(n as int) =~= lines.take(m as int).push(lines[m as int]));
        flat_push(lines.take(m as int), lines[m as int]);
    }
}

/// The tree of a document's lines has the lines' text: every character is in a
/// token, in order.
pub proof fn env_tree_is_lossless(lines: Seq<Seq<char>>, g: Scheme)
    ensures
        green_text(env_green(lines, g)) == flat(lines),
{
    rows_text(lines, g, lines.len());
    assert(lines.take(lines.len() as int) =~= lines);
}

} // verus!
