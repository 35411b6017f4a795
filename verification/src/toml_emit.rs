//! Emitting a value, plain or commented, as TOML.
use crate::comment::{clone_texts, extend_texts, opt_line, plain};
use crate::error::{fail, EditError, Er};
use crate::line_comment::{one_line, sanitize_comment_line};
use crate::model::{
    array_view, cmt_members, cmts, group_comment_views, object_view, opt_text, texts, Cmt, CmtNode,
    Commented, CommentedNode, Notes, Val, Value,
};
use crate::rows::{emission, take_texts, text_if};
use crate::strs::cat;
use crate::toml_change::no_null;
use crate::toml_items::{print_tree, printed};
use crate::toml_nodes::{
    has_null, holds_null, plain_header, table_entries, table_ets, value_nd, value_node,
};
use crate::toml_tree::{
    decor_in, ets, fresh_name, group_toml_views, nds, no_decor, no_fill, put, put_entry,
    with_decor, Dc, Decor, Entry, Et, Fill, Fl, Fm, Form, Name, Nd, Nm, Node,
};
use vstd::prelude::*;

verus! {

broadcast use {group_toml_views, group_comment_views, array_view, object_view};

/// The form of a document's root table.
pub open spec fn root_form() -> Fm {
    Fm::Header { implicit: false, dotted: false, position: Some(0isize) }
}

/// The refusal of a value that is no table.
pub open spec fn no_table() -> Er {
    fail("TOML output requires a table (top-level object)"@)
}

/// A value as TOML: objects are tables, and objects within other values are inline.
pub open spec fn toml_emitted(v: Val) -> Result<(Seq<char>, Seq<Seq<char>>), Er> {
    match v {
        Val::Object(m) => if holds_null(v) {
            Err(no_null())
        } else {
            Ok(
                (
                    printed(
                        Nd::Table(table_ets(m, m.len()), root_form(), no_decor()),
                        Seq::empty(),
                    ),
                    Seq::empty(),
                ),
            )
        },
        _ => Err(no_table()),
    }
}

/// Emit a value as TOML: objects become `[table]`s (nested-in-value objects stay
/// inline). Returns text and warnings (none; TOML holds nesting, arrays, and typed
/// scalars).
pub fn emit(value: &Value) -> (r: Result<(String, Vec<String>), EditError>)
    ensures
        emission(r) == toml_emitted(value@),
{
    match value {
        Value::Object(m) => {
            if has_null(value) {
                return Err(EditError::new("TOML has no null value"));
            }
            let root = Node::Table(
                table_entries(m),
                Form::Header { implicit: false, dotted: false, position: Some(0) },
                Decor::none(),
            );
            let none = String::new();
            assert(none@ =~= Seq::<char>::empty());
            let w: Vec<String> = Vec::new();
            assert(texts(w@) =~= Seq::<Seq<char>>::empty());
            Ok((print_tree(&root, &none), w))
        },
        _ => Err(EditError::new("TOML output requires a table (top-level object)")),
    }
}

/// Every comment in a subtree, in document order.
pub open spec fn collected(c: Cmt) -> Seq<Seq<char>>
    decreases c, 0int, 0int,
{
    c.notes.head + opt_line(c.notes.inline) + (match c.node {
        CmtNode::Scalar(_) => Seq::empty(),
        CmtNode::Array(a) => collected_items(a, a.len()),
        CmtNode::Object(m) => collected_members(m, m.len()),
    }) + c.notes.foot
}

pub open spec fn collected_items(a: Seq<Cmt>, n: nat) -> Seq<Seq<char>>
    decreases a, 1int, n,
{
    if n == 0 || n > a.len() {
        Seq::empty()
    } else {
        collected_items(a, (n - 1) as nat) + collected(a[n - 1])
    }
}

pub open spec fn collected_members(m: Seq<(Seq<char>, Cmt)>, n: nat) -> Seq<Seq<char>>
    decreases m, 1int, n,
{
    if n == 0 || n > m.len() {
        Seq::empty()
    } else {
        collected_members(m, (n - 1) as nat) + collected(m[n - 1].1)
    }
}

fn push_opt(out: &mut Vec<String>, t: &Option<String>)
    ensures
        texts(final(out)@) == texts(old(out)@) + opt_line(opt_text(*t)),
{
    let ghost before = texts(out@);
    match t {
        Some(x) => {
            out.push(x.clone());
            assert(texts(out@) =~= before + opt_line(Some(x@)));
        },
        None => {
            assert(texts(out@) =~= before + opt_line(None));
        },
    }
}

/// Gather every comment in a subtree, in document order (for hoisting out of
/// positions TOML's grammar cannot comment).
fn collect_comments(c: &Commented, out: &mut Vec<String>)
    ensures
        texts(final(out)@) == texts(old(out)@) + collected(c@),
    decreases c, 1int,
{
    let ghost before = texts(out@);
    extend_texts(out, &c.comments.head);
    push_opt(out, &c.comments.inline);
    match &c.node {
        CommentedNode::Scalar(_) => {},
        CommentedNode::Array(a) => {
            collect_items(a, out);
        },
        CommentedNode::Object(m) => {
            collect_members(m, out);
        },
    }
    extend_texts(out, &c.comments.foot);
    assert(texts(out@) =~= before + collected(c@));
}

fn collect_items(a: &Vec<Commented>, out: &mut Vec<String>)
    ensures
        texts(final(out)@) == texts(old(out)@) + collected_items(cmts(a@), a.len() as nat),
    decreases a, 0int,
{
    let ghost before = texts(out@);
    let ghost all = cmts(a@);
    let mut i: usize = 0;
    assert(texts(out@) =~= before + collected_items(all, 0));
    while i < a.len()
        invariant
            i <= a.len(),
            all == cmts(a@),
            texts(out@) == before + collected_items(all, i as nat),
        decreases a.len() - i,
    {
        assert(all[i as int] == a@[i as int]@);
        collect_comments(&a[i], out);
        i = i + 1;
        assert(texts(out@) =~= before + collected_items(all, i as nat));
    }
}

fn collect_members(m: &Vec<(String, Commented)>, out: &mut Vec<String>)
    ensures
        texts(final(out)@) == texts(old(out)@) + collected_members(cmt_members(m@), m.len() as nat),
    decreases m, 0int,
{
    let ghost before = texts(out@);
    let ghost all = cmt_members(m@);
    let mut i: usize = 0;
    assert(texts(out@) =~= before + collected_members(all, 0));
    while i < m.len()
        invariant
            i <= m.len(),
            all == cmt_members(m@),
            texts(out@) == before + collected_members(all, i as nat),
        decreases m.len() - i,
    {
        assert(all[i as int].1 == m@[i as int].1@);
        collect_comments(&m[i].1, out);
        i = i + 1;
        assert(texts(out@) =~= before + collected_members(all, i as nat));
    }
}

/// Comment lines, each on a line of its own inside an array.
pub open spec fn array_lines(lines: Seq<Seq<char>>, n: nat) -> Seq<char>
    decreases n,
{
    if n == 0 || n > lines.len() {
        Seq::empty()
    } else {
        array_lines(lines, (n - 1) as nat) + ("\n  # "@ + one_line(lines[n - 1]))
    }
}

/// A comment on the same line.
pub open spec fn inline_suffix(t: Option<Seq<char>>) -> Seq<char> {
    match t {
        Some(x) => " # "@ + one_line(x),
        None => Seq::empty(),
    }
}

/// What follows an element and its comma: its inline comment and its foot.
pub open spec fn carried(n: Notes) -> Seq<char> {
    inline_suffix(n.inline) + array_lines(n.foot, n.foot.len())
}

/// A value, the comments inside it that have no place there, and whether there
/// were any.
pub struct Bv {
    pub node: Nd,
    pub hoisted: Seq<Seq<char>>,
    pub displaced: bool,
}

/// The head lines of an array's element: those hoisted out of it, then its own.
pub open spec fn element_head(c: Cmt) -> Seq<Seq<char>>
    decreases c, 2int, 0int,
{
    built_value(c).hoisted + c.notes.head
}

/// A commented value in a value's place. An object is an inline table; comments
/// inside it cannot be placed and hoist upward. An array with comments on its
/// elements is spread over lines, so that head lines fit above an element and an
/// inline comment behind its comma.
pub open spec fn built_value(c: Cmt) -> Bv
    decreases c, 1int, 0int,
{
    match c.node {
        CmtNode::Scalar(v) => Bv { node: value_nd(v), hoisted: Seq::empty(), displaced: false },
        CmtNode::Object(m) => {
            let hoisted = collected_members(m, m.len());
            Bv { node: value_nd(plain(c)), hoisted, displaced: hoisted.len() > 0 }
        },
        CmtNode::Array(a) => Bv {
            node: if any_noted(a, a.len()) {
                Nd::Array(
                    spread(a, a.len()),
                    Fl { comma: true, trailing: carry_before(a, a.len() as int) + "\n"@ },
                    no_decor(),
                )
            } else {
                Nd::Array(built_items(a, a.len()), no_fill(), no_decor())
            },
            hoisted: Seq::empty(),
            displaced: any_displaced(a, a.len()),
        },
    }
}

/// What the element before `i` leaves behind its comma.
pub open spec fn carry_before(a: Seq<Cmt>, i: int) -> Seq<char> {
    if 0 < i <= a.len() {
        carried(a[i - 1].notes)
    } else {
        Seq::empty()
    }
}

/// Has any of the first `n` elements a comment?
pub open spec fn any_noted(a: Seq<Cmt>, n: nat) -> bool
    decreases a, 0int, n,
{
    if n == 0 || n > a.len() {
        false
    } else {
        let c = a[n - 1];
        any_noted(a, (n - 1) as nat) || element_head(c).len() > 0 || c.notes.inline is Some
            || c.notes.foot.len() > 0
    }
}

pub open spec fn any_displaced(a: Seq<Cmt>, n: nat) -> bool
    decreases a, 0int, n,
{
    if n == 0 || n > a.len() {
        false
    } else {
        any_displaced(a, (n - 1) as nat) || built_value(a[n - 1]).displaced
    }
}

/// The first `n` elements.
pub open spec fn built_items(a: Seq<Cmt>, n: nat) -> Seq<Nd>
    decreases a, 0int, n,
{
    if n == 0 || n > a.len() {
        Seq::empty()
    } else {
        built_items(a, (n - 1) as nat).push(built_value(a[n - 1]).node)
    }
}

/// The first `n` elements, each on a line of its own.
pub open spec fn spread(a: Seq<Cmt>, n: nat) -> Seq<Nd>
    decreases a, 0int, n,
{
    if n == 0 || n > a.len() {
        Seq::empty()
    } else {
        let head = element_head(a[n - 1]);
        let prefix = carry_before(a, n - 1) + array_lines(head, head.len()) + "\n  "@;
        spread(a, (n - 1) as nat).push(
            with_decor(
                built_value(a[n - 1]).node,
                Dc { prefix: Some(prefix), suffix: Some(Seq::empty()) },
            ),
        )
    }
}

fn push_array_lines(out: &mut String, lines: &Vec<String>)
    ensures
        final(out)@ == old(out)@ + array_lines(texts(lines@), lines.len() as nat),
{
    let ghost before = out@;
    let ghost all = texts(lines@);
    let mut i: usize = 0;
    assert(out@ =~= before + array_lines(all, 0));
    while i < lines.len()
        invariant
            i <= lines.len(),
            all == texts(lines@),
            out@ == before + array_lines(all, i as nat),
        decreases lines.len() - i,
    {
        assert(all[i as int] == lines@[i as int]@);
        out.append("\n  # ");
        out.append(&sanitize_comment_line(&lines[i]));
        i = i + 1;
        assert(out@ =~= before + array_lines(all, i as nat));
    }
}

fn suffix_of(t: &Option<String>) -> (r: String)
    ensures
        r@ == inline_suffix(opt_text(*t)),
{
    match t {
        Some(x) => cat(" # ", &sanitize_comment_line(x)),
        None => {
            let none = String::new();
            assert(none@ =~= Seq::<char>::empty());
            none
        },
    }
}

/// What the element before `i` leaves behind its comma.
fn carry_of(a: &Vec<Commented>, i: usize) -> (r: String)
    requires
        i <= a.len(),
    ensures
        r@ == carry_before(cmts(a@), i as int),
{
    if i > 0 {
        assert(cmts(a@)[i - 1] == a@[i - 1]@);
        let mut out = suffix_of(&a[i - 1].comments.inline);
        push_array_lines(&mut out, &a[i - 1].comments.foot);
        out
    } else {
        let none = String::new();
        assert(none@ =~= Seq::<char>::empty());
        none
    }
}

/// A value built for its place.
struct Built {
    node: Node,
    hoisted: Vec<String>,
    displaced: bool,
}

spec fn bv(b: Built) -> Bv {
    Bv { node: b.node@, hoisted: texts(b.hoisted@), displaced: b.displaced }
}

fn build_value(c: &Commented) -> (r: Built)
    ensures
        bv(r) == built_value(c@),
    decreases c, 1int,
{
    let mut hoisted: Vec<String> = Vec::new();
    assert(texts(hoisted@) =~= Seq::<Seq<char>>::empty());
    match &c.node {
        CommentedNode::Scalar(v) => Built { node: value_node(v), hoisted, displaced: false },
        CommentedNode::Object(m) => {
            collect_members(m, &mut hoisted);
            assert(texts(hoisted@) =~= collected_members(cmt_members(m@), m.len() as nat));
            let displaced = hoisted.len() > 0;
            Built { node: value_node(&c.to_value()), hoisted, displaced }
        },
        CommentedNode::Array(a) => {
            let (node, displaced) = build_array(a);
            Built { node, hoisted, displaced }
        },
    }
}

fn build_array(a: &Vec<Commented>) -> (r: (Node, bool))
    ensures
        r.0@ == (if any_noted(cmts(a@), a.len() as nat) {
            Nd::Array(
                spread(cmts(a@), a.len() as nat),
                Fl { comma: true, trailing: carry_before(cmts(a@), a.len() as int) + "\n"@ },
                no_decor(),
            )
        } else {
            Nd::Array(built_items(cmts(a@), a.len() as nat), no_fill(), no_decor())
        }),
        r.1 == any_displaced(cmts(a@), a.len() as nat),
    decreases a, 0int,
{
    let ghost all = cmts(a@);
    let mut items: Vec<Node> = Vec::new();
    let mut lined: Vec<Node> = Vec::new();
    let mut noted = false;
    let mut displaced = false;
    let mut i: usize = 0;
    assert(nds(items@) =~= built_items(all, 0));
    assert(nds(lined@) =~= spread(all, 0));
    while i < a.len()
        invariant
            i <= a.len(),
            all == cmts(a@),
            nds(items@) == built_items(all, i as nat),
            nds(lined@) == spread(all, i as nat),
            noted == any_noted(all, i as nat),
            displaced == any_displaced(all, i as nat),
        decreases a.len() - i,
    {
        assert(all[i as int] == a@[i as int]@);
        let b = build_value(&a[i]);
        let again = build_value(&a[i]);
        let mut head = b.hoisted;
        extend_texts(&mut head, &a[i].comments.head);
        assert(texts(head@) == element_head(all[i as int]));
        noted = noted || head.len() > 0 || a[i].comments.inline.is_some()
            || a[i].comments.foot.len() > 0;
        displaced = displaced || b.displaced;
        let mut prefix = carry_of(a, i);
        push_array_lines(&mut prefix, &head);
        prefix.append("\n  ");
        let none = String::new();
        assert(none@ =~= Seq::<char>::empty());
        items.push(b.node);
        lined.push(again.node.dressed(Decor { prefix: Some(prefix), suffix: Some(none) }));
        i = i + 1;
    }
    if noted {
        let trailing = cat(&carry_of(a, a.len()), "\n");
        (Node::Array(lined, Fill { comma: true, trailing }, Decor::none()), displaced)
    } else {
        (Node::Array(items, Fill::none(), Decor::none()), displaced)
    }
}

/// Comment lines as a block.
pub open spec fn hash_block(lines: Seq<Seq<char>>, n: nat) -> Seq<char>
    decreases n,
{
    if n == 0 || n > lines.len() {
        Seq::empty()
    } else {
        hash_block(lines, (n - 1) as nat) + ("# "@ + one_line(lines[n - 1]) + "\n"@)
    }
}

fn comment_block(lines: &Vec<String>) -> (r: String)
    ensures
        r@ == hash_block(texts(lines@), lines.len() as nat),
{
    let mut out = String::new();
    let ghost all = texts(lines@);
    let mut i: usize = 0;
    assert(out@ =~= hash_block(all, 0));
    while i < lines.len()
        invariant
            i <= lines.len(),
            all == texts(lines@),
            out@ == hash_block(all, i as nat),
        decreases lines.len() - i,
    {
        assert(all[i as int] == lines@[i as int]@);
        out.append("# ");
        out.append(&sanitize_comment_line(&lines[i]));
        out.append("\n");
        i = i + 1;
        assert(out@ =~= hash_block(all, i as nat));
    }
    out
}

/// A prefix that holds comment lines; the default where there are none.
pub open spec fn head_prefix(head: Seq<Seq<char>>) -> Option<Seq<char>> {
    if head.len() > 0 {
        Some(hash_block(head, head.len()))
    } else {
        None
    }
}

/// A suffix that holds an inline comment; what there is where there is none.
pub open spec fn note_suffix(d: Dc, inline: Option<Seq<char>>) -> Option<Seq<char>> {
    match inline {
        Some(_) => Some(inline_suffix(inline)),
        None => d.suffix,
    }
}

/// A table being filled: its entries, the foot lines that wait for the item that
/// is written next, and whether a comment had to be displaced.
pub struct Body {
    pub entries: Seq<Et>,
    pub pending: Seq<Seq<char>>,
    pub displaced: bool,
}

/// A `key = value` entry with the comments above and behind it.
pub open spec fn value_entry(k: Seq<char>, c: Cmt, pending: Seq<Seq<char>>) -> Et {
    let b = built_value(c);
    let d = decor_in(b.node);
    Et {
        name: Nm {
            leaf: Dc {
                prefix: head_prefix(pending + b.hoisted + c.notes.head),
                suffix: None,
            },
            ..fresh_name(k)
        },
        node: with_decor(
            b.node,
            Dc { prefix: d.prefix, suffix: note_suffix(d, c.notes.inline) },
        ),
    }
}

/// The values among the first `n` entries, filled in.
pub open spec fn values_filled(m: Seq<(Seq<char>, Cmt)>, start: Body, n: nat) -> Body
    decreases m, 0int, n,
{
    if n == 0 || n > m.len() {
        start
    } else {
        let so_far = values_filled(m, start, (n - 1) as nat);
        let (k, c) = m[n - 1];
        if c.node is Object {
            so_far
        } else {
            Body {
                entries: put(so_far.entries, value_entry(k, c, so_far.pending)),
                pending: c.notes.foot,
                displaced: so_far.displaced || built_value(c).displaced,
            }
        }
    }
}

/// The tables among the first `n` entries, filled in.
pub open spec fn tables_filled(m: Seq<(Seq<char>, Cmt)>, start: Body, n: nat) -> Body
    decreases m, 0int, n,
{
    if n == 0 || n > m.len() {
        start
    } else {
        let so_far = tables_filled(m, start, (n - 1) as nat);
        let (k, c) = m[n - 1];
        match c.node {
            CmtNode::Object(inner) => {
                let sub = table_body(inner, Seq::empty(), so_far.displaced);
                let node = Nd::Table(
                    sub.entries,
                    plain_header(),
                    Dc {
                        prefix: head_prefix(so_far.pending + c.notes.head),
                        suffix: note_suffix(no_decor(), c.notes.inline),
                    },
                );
                Body {
                    entries: put(so_far.entries, Et { name: fresh_name(k), node }),
                    pending: sub.pending + c.notes.foot,
                    displaced: sub.displaced,
                }
            },
            _ => so_far,
        }
    }
}

/// A table filled from commented entries: values first and tables after, the order
/// TOML writes them in, so that waiting foot lines land on the item that is
/// written next.
pub open spec fn table_body(m: Seq<(Seq<char>, Cmt)>, pending: Seq<Seq<char>>, displaced: bool) -> Body
    decreases m, 1int, 0int,
{
    let start = Body { entries: Seq::empty(), pending, displaced };
    tables_filled(m, values_filled(m, start, m.len()), m.len())
}

/// A table being filled.
struct Filling {
    entries: Vec<Entry>,
    pending: Vec<String>,
    displaced: bool,
}

spec fn body_of(b: Filling) -> Body {
    Body { entries: ets(b.entries@), pending: texts(b.pending@), displaced: b.displaced }
}

fn prefix_of(head: &Vec<String>) -> (r: Option<String>)
    ensures
        opt_text(r) == head_prefix(texts(head@)),
{
    if head.len() > 0 {
        Some(comment_block(head))
    } else {
        None
    }
}

fn place_value(b: &mut Filling, k: &str, c: &Commented)
    ensures
        body_of(*final(b)) == (Body {
            entries: put(body_of(*old(b)).entries, value_entry(k@, c@, body_of(*old(b)).pending)),
            pending: c@.notes.foot,
            displaced: body_of(*old(b)).displaced || built_value(c@).displaced,
        }),
{
    let built = build_value(c);
    let mut head = take_texts(&mut b.pending);
    extend_texts(&mut head, &built.hoisted);
    extend_texts(&mut head, &c.comments.head);
    let d = built.node.decor();
    let suffix = match &c.comments.inline {
        Some(_) => Some(suffix_of(&c.comments.inline)),
        None => d.suffix,
    };
    let mut name = Name::fresh(k);
    name.leaf = Decor { prefix: prefix_of(&head), suffix: None };
    let node = built.node.dressed(Decor { prefix: d.prefix, suffix });
    let e = Entry { name, node };
    assert(e@ == value_entry(k@, c@, body_of(*old(b)).pending));
    put_entry(&mut b.entries, e);
    b.pending = clone_texts(&c.comments.foot);
    b.displaced = b.displaced || built.displaced;
}

fn build_table_body(m: &Vec<(String, Commented)>, pending: Vec<String>, displaced: bool) -> (r:
    Filling)
    ensures
        body_of(r) == table_body(cmt_members(m@), texts(pending@), displaced),
    decreases m,
{
    let ghost all = cmt_members(m@);
    let mut b = Filling { entries: Vec::new(), pending, displaced };
    let ghost start = Body {
        entries: Seq::empty(),
        pending: texts(pending@),
        displaced,
    };
    assert(body_of(b).entries =~= start.entries);
    let mut i: usize = 0;
    while i < m.len()
        invariant
            i <= m.len(),
            all == cmt_members(m@),
            body_of(b) == values_filled(all, start, i as nat),
        decreases m.len() - i,
    {
        assert(all[i as int] == (m@[i as int].0@, m@[i as int].1@));
        if !matches!(&m[i].1.node, CommentedNode::Object(_)) {
            place_value(&mut b, &m[i].0, &m[i].1);
        }
        i = i + 1;
    }
    let ghost mid = values_filled(all, start, m.len() as nat);
    let mut j: usize = 0;
    while j < m.len()
        invariant
            j <= m.len(),
            all == cmt_members(m@),
            body_of(b) == tables_filled(all, mid, j as nat),
        decreases m.len() - j,
    {
        assert(all[j as int] == (m@[j as int].0@, m@[j as int].1@));
        let c = &m[j].1;
        if let CommentedNode::Object(inner) = &c.node {
            let none: Vec<String> = Vec::new();
            assert(texts(none@) =~= Seq::<Seq<char>>::empty());
            let sub = build_table_body(inner, none, b.displaced);
            let mut head = take_texts(&mut b.pending);
            extend_texts(&mut head, &c.comments.head);
            let suffix = match &c.comments.inline {
                Some(_) => Some(suffix_of(&c.comments.inline)),
                None => None,
            };
            let node = Node::Table(
                sub.entries,
                Form::Header { implicit: false, dotted: false, position: None },
                Decor { prefix: prefix_of(&head), suffix },
            );
            put_entry(&mut b.entries, Entry { name: Name::fresh(&m[j].0), node });
            let mut waiting = sub.pending;
            extend_texts(&mut waiting, &c.comments.foot);
            b.pending = waiting;
            b.displaced = sub.displaced;
        }
        j = j + 1;
    }
    b
}

/// The warning that comments had to move.
pub open spec fn moved() -> Seq<char> {
    "comments inside inline values were moved above their entry (TOML allows none there)"@
}

/// A commented value as TOML, shaped as the plain emitter shapes it. The root's
/// head lines stand above the first item; what still waits behind the last one,
/// and the root's own inline and foot comments, end the document.
pub open spec fn toml_emitted_commented(c: Cmt) -> Result<(Seq<char>, Seq<Seq<char>>), Er> {
    match c.node {
        CmtNode::Object(m) => if holds_null(plain(c)) {
            Err(no_null())
        } else {
            let b = table_body(m, c.notes.head, false);
            let trail = b.pending + opt_line(c.notes.inline) + c.notes.foot;
            Ok(
                (
                    printed(
                        Nd::Table(b.entries, root_form(), no_decor()),
                        hash_block(trail, trail.len()),
                    ),
                    text_if(b.displaced, moved()),
                ),
            )
        },
        _ => Err(no_table()),
    }
}

/// Emit a commented value as TOML: objects become `[table]`s, exactly as the plain
/// emitter shapes them, with comments set via decor. Returns the text and any
/// warnings.
pub fn emit_commented(c: &Commented) -> (r: Result<(String, Vec<String>), EditError>)
    ensures
        emission(r) == toml_emitted_commented(c@),
{
    match &c.node {
        CommentedNode::Object(m) => {
            if has_null(&c.to_value()) {
                return Err(EditError::new("TOML has no null value"));
            }
            let b = build_table_body(m, clone_texts(&c.comments.head), false);
            let ghost body = body_of(b);
            let displaced = b.displaced;
            let mut trail = b.pending;
            push_opt(&mut trail, &c.comments.inline);
            extend_texts(&mut trail, &c.comments.foot);
            let root = Node::Table(
                b.entries,
                Form::Header { implicit: false, dotted: false, position: Some(0) },
                Decor::none(),
            );
            let text = print_tree(&root, &comment_block(&trail));
            let mut w: Vec<String> = Vec::new();
            if displaced {
                w.push(
                    "comments inside inline values were moved above their entry (TOML allows none there)".to_owned(),
                );
            }
            assert(texts(w@) =~= text_if(displaced, moved()));
            Ok((text, w))
        },
        _ => Err(EditError::new("TOML output requires a table (top-level object)")),
    }
}

} // verus!
