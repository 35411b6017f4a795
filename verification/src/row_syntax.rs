//! The syntax trees of lines.
//!
//! Every character of a line lands in a token, in order, so a line's trees have
//! the line's text.
use crate::rows::{
    body_end, classify, end_of_body, entry_bounds, entry_key, entry_slots, entry_value, note_text,
    region_end, row_kind, sep_at, sep_end, skip_white, text_at, value_end, value_start,
    white_back, white_from_bounds, RowKind, Scheme, Slots,
};
use crate::strs::slice_text;
use crate::syntax::{
    forest_text, forest_text_add, green_text, node_green, optional, optional_text, trees_green,
    Green, Kinds, Tree,
};
use vstd::prelude::*;

verus! {

/// The kinds of a line format.
pub struct RowKinds<K> {
    pub ws: K,
    pub newline: K,
    pub comment: K,
    pub key: K,
    pub sep: K,
    pub text: K,
    pub error: K,
    pub value: K,
    pub entry: K,
}

/// One token.
pub open spec fn one<K: Kinds>(k: K, t: Seq<char>) -> Seq<Green> {
    seq![Green::Token(k.code(), t)]
}

/// The trees of an entry's key and separator.
pub open spec fn key_green<K: Kinds>(k: RowKinds<K>, t: Seq<char>, g: Scheme) -> Seq<Green> {
    optional(k.key.code(), entry_key(t, g)) + optional(
        k.ws.code(),
        t.subrange(white_back(t, text_at(t), sep_at(t, g)), sep_at(t, g)),
    ) + one(k.sep, t.subrange(sep_at(t, g), sep_end(t, g)))
}

/// The trees of what stands behind an entry's value.
pub open spec fn tail_green<K: Kinds>(k: RowKinds<K>, t: Seq<char>, g: Scheme) -> Seq<Green> {
    optional(k.ws.code(), t.subrange(value_end(t, g), region_end(t, g))) + optional(
        k.comment.code(),
        t.subrange(region_end(t, g), body_end(t)),
    )
}

/// The trees of what stands behind an entry's separator.
pub open spec fn value_green<K: Kinds>(k: RowKinds<K>, t: Seq<char>, g: Scheme) -> Seq<Green> {
    optional(k.ws.code(), t.subrange(sep_end(t, g), value_start(t, g))) + seq![
        Green::Node(k.value.code(), optional(k.text.code(), entry_value(t, g))),
    ] + tail_green(k, t, g)
}

/// The trees of an entry, between its indentation and its terminator.
pub open spec fn entry_green<K: Kinds>(k: RowKinds<K>, t: Seq<char>, g: Scheme) -> Seq<Green> {
    key_green(k, t, g) + value_green(k, t, g)
}

/// A line's indentation.
pub open spec fn indent_green<K: Kinds>(k: RowKinds<K>, t: Seq<char>) -> Seq<Green> {
    optional(k.ws.code(), t.subrange(0, text_at(t)))
}

/// A line's terminator.
pub open spec fn ending_green<K: Kinds>(k: RowKinds<K>, t: Seq<char>) -> Seq<Green> {
    optional(k.newline.code(), t.skip(body_end(t)))
}

/// The trees of a line that is no section header. A line that is neither blank, a
/// comment nor an entry is kept as an error.
pub open spec fn row_green<K: Kinds>(k: RowKinds<K>, t: Seq<char>, g: Scheme) -> Seq<Green> {
    match row_kind(t, g) {
        RowKind::Blank => indent_green(k, t) + ending_green(k, t),
        RowKind::Note => indent_green(k, t) + one(k.comment, note_text(t)) + ending_green(k, t),
        RowKind::Entry => seq![
            Green::Node(
                k.entry.code(),
                indent_green(k, t) + entry_green(k, t, g) + ending_green(k, t),
            ),
        ],
        _ => seq![
            Green::Node(
                k.entry.code(),
                indent_green(k, t) + one(k.error, note_text(t)) + ending_green(k, t),
            ),
        ],
    }
}

/// The text of a list of trees.
pub open spec fn all_text(s: Seq<Green>) -> Seq<char> {
    forest_text(s, s.len())
}

/// The text of two lists is the one's and then the other's.
pub proof fn all_text_add(a: Seq<Green>, b: Seq<Green>)
    ensures
        all_text(a + b) == all_text(a) + all_text(b),
{
    forest_text_add(a, b, b.len());
}

/// The text of one tree.
pub proof fn all_text_one(g: Green)
    ensures
        all_text(seq![g]) == green_text(g),
{
    reveal_with_fuel(forest_text, 2);
    assert(all_text(seq![g]) =~= green_text(g));
}

/// The trees of a key and its separator have their text.
proof fn key_green_text<K: Kinds>(k: RowKinds<K>, t: Seq<char>, g: Scheme)
    requires
        row_kind(t, g) == RowKind::Entry,
    ensures
        all_text(key_green(k, t, g)) == t.subrange(text_at(t), sep_end(t, g)),
{
    entry_bounds(t, g);
    let (a, b) = (text_at(t), white_back(t, text_at(t), sep_at(t, g)));
    let (c, d) = (sep_at(t, g), sep_end(t, g));
    let (p1, p2) = (optional(k.key.code(), entry_key(t, g)), optional(k.ws.code(), t.subrange(b, c)));
    let p3 = one(k.sep, t.subrange(c, d));
    optional_text(k.key.code(), entry_key(t, g));
    optional_text(k.ws.code(), t.subrange(b, c));
    all_text_one(Green::Token(k.sep.code(), t.subrange(c, d)));
    all_text_add(p1, p2);
    all_text_add(p1 + p2, p3);
    assert(t.subrange(a, b) + t.subrange(b, c) + t.subrange(c, d) =~= t.subrange(a, d));
}

/// The trees behind a value have the text behind it.
proof fn tail_green_text<K: Kinds>(k: RowKinds<K>, t: Seq<char>, g: Scheme)
    requires
        row_kind(t, g) == RowKind::Entry,
    ensures
        all_text(tail_green(k, t, g)) == t.subrange(value_end(t, g), body_end(t)),
{
    entry_bounds(t, g);
    let (a, b, c) = (value_end(t, g), region_end(t, g), body_end(t));
    optional_text(k.ws.code(), t.subrange(a, b));
    optional_text(k.comment.code(), t.subrange(b, c));
    all_text_add(optional(k.ws.code(), t.subrange(a, b)), optional(k.comment.code(), t.subrange(b, c)));
    assert(t.subrange(a, b) + t.subrange(b, c) =~= t.subrange(a, c));
}

/// The trees behind a separator have the text behind it.
proof fn value_green_text<K: Kinds>(k: RowKinds<K>, t: Seq<char>, g: Scheme)
    requires
        row_kind(t, g) == RowKind::Entry,
    ensures
        all_text(value_green(k, t, g)) == t.subrange(sep_end(t, g), body_end(t)),
{
    entry_bounds(t, g);
    tail_green_text(k, t, g);
    let (a, b) = (sep_end(t, g), value_start(t, g));
    let (c, d) = (value_end(t, g), body_end(t));
    let v = optional(k.text.code(), entry_value(t, g));
    let p1 = optional(k.ws.code(), t.subrange(a, b));
    let p2 = seq![Green::Node(k.value.code(), v)];
    optional_text(k.ws.code(), t.subrange(a, b));
    optional_text(k.text.code(), entry_value(t, g));
    all_text_one(Green::Node(k.value.code(), v));
    assert(all_text(p2) == t.subrange(b, c));
    all_text_add(p1, p2);
    all_text_add(p1 + p2, tail_green(k, t, g));
    assert(t.subrange(a, b) + t.subrange(b, c) + t.subrange(c, d) =~= t.subrange(a, d));
}

/// The trees of an entry have the entry's text.
pub proof fn entry_green_text<K: Kinds>(k: RowKinds<K>, t: Seq<char>, g: Scheme)
    requires
        row_kind(t, g) == RowKind::Entry,
    ensures
        all_text(entry_green(k, t, g)) == t.subrange(text_at(t), body_end(t)),
{
    entry_bounds(t, g);
    key_green_text(k, t, g);
    value_green_text(k, t, g);
    all_text_add(key_green(k, t, g), value_green(k, t, g));
    assert(t.subrange(text_at(t), sep_end(t, g)) + t.subrange(sep_end(t, g), body_end(t))
        =~= t.subrange(text_at(t), body_end(t)));
}

/// Trees between a line's indentation and its terminator that have the text
/// between them make up the line.
pub proof fn framed_text<K: Kinds>(k: RowKinds<K>, t: Seq<char>, mid: Seq<Green>)
    requires
        all_text(mid) == t.subrange(text_at(t), body_end(t)),
    ensures
        all_text(indent_green(k, t) + mid + ending_green(k, t)) == t,
{
    white_from_bounds(t, 0, body_end(t));
    optional_text(k.ws.code(), t.subrange(0, text_at(t)));
    optional_text(k.newline.code(), t.skip(body_end(t)));
    all_text_add(indent_green(k, t), mid);
    all_text_add(indent_green(k, t) + mid, ending_green(k, t));
    assert(t.subrange(0, text_at(t)) + t.subrange(text_at(t), body_end(t)) + t.skip(body_end(t))
        =~= t);
}

/// A line's trees have the line's text.
pub proof fn row_green_text<K: Kinds>(k: RowKinds<K>, t: Seq<char>, g: Scheme)
    ensures
        all_text(row_green(k, t, g)) == t,
{
    white_from_bounds(t, 0, body_end(t));
    let mid = match row_kind(t, g) {
        RowKind::Blank => Seq::empty(),
        RowKind::Note => one(k.comment, note_text(t)),
        RowKind::Entry => entry_green(k, t, g),
        _ => one(k.error, note_text(t)),
    };
    match row_kind(t, g) {
        RowKind::Blank => {
            assert(all_text(mid) =~= t.subrange(text_at(t), body_end(t)));
            assert(indent_green(k, t) + mid =~= indent_green(k, t));
        },
        RowKind::Note => all_text_one(Green::Token(k.comment.code(), note_text(t))),
        RowKind::Entry => entry_green_text(k, t, g),
        _ => all_text_one(Green::Token(k.error.code(), note_text(t))),
    }
    framed_text(k, t, mid);
    all_text_one(
        Green::Node(k.entry.code(), indent_green(k, t) + mid + ending_green(k, t)),
    );
}

/// Add a token for optional text to a list of trees.
pub fn push_optional<K: Kinds>(out: &mut Vec<Tree<K>>, kind: K, cs: &[char], from: usize, to: usize)
    requires
        from <= to <= cs.len(),
    ensures
        trees_green(final(out)@) == trees_green(old(out)@) + optional(
            kind.code(),
            cs@.subrange(from as int, to as int),
        ),
{
    if from < to {
        push_token(out, kind, cs, from, to);
    }
    assert(trees_green(out@) =~= trees_green(old(out)@) + optional(
        kind.code(),
        cs@.subrange(from as int, to as int),
    ));
}

/// Add a token to a list of trees.
pub fn push_token<K: Kinds>(out: &mut Vec<Tree<K>>, kind: K, cs: &[char], from: usize, to: usize)
    requires
        from <= to <= cs.len(),
    ensures
        trees_green(final(out)@) == trees_green(old(out)@) + one(
            kind,
            cs@.subrange(from as int, to as int),
        ),
{
    out.push(Tree::Token(kind, slice_text(cs, from, to)));
    assert(trees_green(out@) =~= trees_green(old(out)@) + one(
        kind,
        cs@.subrange(from as int, to as int),
    ));
}

/// Add a node to a list of trees.
pub fn push_node<K: Kinds>(out: &mut Vec<Tree<K>>, kind: K, children: Vec<Tree<K>>)
    ensures
        trees_green(final(out)@) == trees_green(old(out)@).push(
            Green::Node(kind.code(), trees_green(children@)),
        ),
{
    proof {
        node_green(kind, children);
    }
    out.push(Tree::Node(kind, children));
    assert(trees_green(out@) =~= trees_green(old(out)@).push(
        Green::Node(kind.code(), trees_green(children@)),
    ));
}

/// An entry's key and separator, added to a list of trees.
fn push_key<K: Kinds>(out: &mut Vec<Tree<K>>, k: &RowKinds<K>, cs: &[char], s: &Slots, g: Ghost<Scheme>)
    requires
        row_kind(cs@, g@) == RowKind::Entry,
        s.key == text_at(cs@),
        s.key_end == white_back(cs@, text_at(cs@), sep_at(cs@, g@)),
        s.sep == sep_at(cs@, g@),
        s.sep_end == sep_end(cs@, g@),
    ensures
        trees_green(final(out)@) == trees_green(old(out)@) + key_green(*k, cs@, g@),
{
    proof {
        entry_bounds(cs@, g@);
    }
    push_optional(out, k.key, cs, s.key, s.key_end);
    push_optional(out, k.ws, cs, s.key_end, s.sep);
    push_token(out, k.sep, cs, s.sep, s.sep_end);
    assert(trees_green(out@) =~= trees_green(old(out)@) + key_green(*k, cs@, g@));
}

/// What stands behind an entry's separator, added to a list of trees.
fn push_value<K: Kinds>(out: &mut Vec<Tree<K>>, k: &RowKinds<K>, cs: &[char], s: &Slots, g: Ghost<Scheme>)
    requires
        row_kind(cs@, g@) == RowKind::Entry,
        s.sep_end == sep_end(cs@, g@),
        s.value == value_start(cs@, g@),
        s.value_end == value_end(cs@, g@),
        s.region_end == region_end(cs@, g@),
        s.body_end == body_end(cs@),
    ensures
        trees_green(final(out)@) == trees_green(old(out)@) + value_green(*k, cs@, g@),
{
    proof {
        entry_bounds(cs@, g@);
    }
    push_optional(out, k.ws, cs, s.sep_end, s.value);
    let mut value: Vec<Tree<K>> = Vec::new();
    push_optional(&mut value, k.text, cs, s.value, s.value_end);
    assert(trees_green(value@) =~= optional(k.text.code(), entry_value(cs@, g@)));
    push_node(out, k.value, value);
    push_optional(out, k.ws, cs, s.value_end, s.region_end);
    push_optional(out, k.comment, cs, s.region_end, s.body_end);
    assert(trees_green(out@) =~= trees_green(old(out)@) + value_green(*k, cs@, g@));
}

/// The parts of an entry line, added to a list of trees.
fn push_entry<K: Kinds>(out: &mut Vec<Tree<K>>, k: &RowKinds<K>, cs: &[char], g: Scheme)
    requires
        row_kind(cs@, g) == RowKind::Entry,
    ensures
        trees_green(final(out)@) == trees_green(old(out)@) + entry_green(*k, cs@, g),
{
    let s = entry_slots(cs, g);
    push_key(out, k, cs, &s, Ghost(g));
    push_value(out, k, cs, &s, Ghost(g));
    assert(trees_green(out@) =~= trees_green(old(out)@) + entry_green(*k, cs@, g));
}

/// A line's trees, added to a list of trees.
pub fn push_row<K: Kinds>(out: &mut Vec<Tree<K>>, k: &RowKinds<K>, cs: &[char], g: Scheme)
    ensures
        trees_green(final(out)@) == trees_green(old(out)@) + row_green(*k, cs@, g),
{
    proof {
        white_from_bounds(cs@, 0, body_end(cs@));
    }
    let end: usize = end_of_body(cs);
    let a: usize = skip_white(cs, 0, end);
    assert(cs@.skip(end as int) =~= cs@.subrange(end as int, cs@.len() as int));
    match classify(cs, g) {
        RowKind::Blank => {
            push_optional(out, k.ws, cs, 0, a);
            push_optional(out, k.newline, cs, end, cs.len());
        },
        RowKind::Note => {
            push_optional(out, k.ws, cs, 0, a);
            push_token(out, k.comment, cs, a, end);
            push_optional(out, k.newline, cs, end, cs.len());
        },
        RowKind::Entry => {
            let mut line: Vec<Tree<K>> = Vec::new();
            push_optional(&mut line, k.ws, cs, 0, a);
            push_entry(&mut line, k, cs, g);
            push_optional(&mut line, k.newline, cs, end, cs.len());
            assert(trees_green(line@) =~= indent_green(*k, cs@) + entry_green(*k, cs@, g)
                + ending_green(*k, cs@));
            push_node(out, k.entry, line);
        },
        _ => {
            let mut line: Vec<Tree<K>> = Vec::new();
            push_optional(&mut line, k.ws, cs, 0, a);
            push_token(&mut line, k.error, cs, a, end);
            push_optional(&mut line, k.newline, cs, end, cs.len());
            assert(trees_green(line@) =~= indent_green(*k, cs@) + one(k.error, note_text(cs@))
                + ending_green(*k, cs@));
            push_node(out, k.entry, line);
        },
    }
    assert(trees_green(out@) =~= trees_green(old(out)@) + row_green(*k, cs@, g));
}

/// The trees of the first `n` lines.
pub open spec fn rows_green<K: Kinds>(
    k: RowKinds<K>,
    lines: Seq<Seq<char>>,
    g: Scheme,
    n: nat,
) -> Seq<Green>
    decreases n,
{
    if n == 0 || n > lines.len() {
        Seq::empty()
    } else {
        rows_green(k, lines, g, (n - 1) as nat) + row_green(k, lines[n - 1], g)
    }
}

} // verus!
