//! Edits of a TOML tree: setting and deleting at a path.
use crate::error::{fail, EditError, Er};
use crate::index::{resolve_index, resolved};
use crate::model::{array_view, members, object_view, steps_of, St, Step, Val, Value};
use crate::mutate::{attempt, done};
use crate::strs::{int_digits, int_text, nat_digits, nat_text, same};
use crate::toml_nodes::{
    has_null, holds_null, nd_val, plain_header, table_nd, table_node, value_nd, value_node,
};
use crate::toml_spell::{
    all_objects, extend_in_layout, extend_tables, extended, extended_tables, extends, is_extension,
    push_in_layout, pushed, replace, replacing, rest_objects,
};
use crate::toml_tree::{
    ets, find_slot, fresh_name, group_toml_views, is_header, is_value, nds, no_decor, no_fill,
    slot, Dc, Decor, Entry, Et, Fill, Fl, Fm, Form, Name, Nd, Nm, Node,
};
use vstd::prelude::*;

verus! {

broadcast use {group_toml_views, array_view, object_view};

/// The refusal of a null.
pub open spec fn no_null() -> Er {
    fail("TOML has no null value"@)
}

/// The refusal that names a key.
pub open spec fn about(k: Seq<char>, what: Seq<char>) -> Er {
    fail("`"@ + k + "` "@ + what)
}

/// The refusal that names an element.
pub open spec fn about_element(k: Seq<char>, i: int, what: Seq<char>) -> Er {
    fail("`"@ + k + "["@ + int_digits(i) + "]` "@ + what)
}

/// The position an index names for a write: an element, or just behind the last
/// one to append. Negative counts from the end.
pub open spec fn write_position(i: int, len: int) -> Result<int, Er> {
    let n = if i < 0 {
        len + i
    } else {
        i
    };
    if 0 <= n <= len {
        Ok(n)
    } else {
        Err(
            fail(
                "array index "@ + int_digits(i) + " out of range (length "@ + nat_digits(
                    len as nat,
                ) + "); append with index "@ + nat_digits(len as nat),
            ),
        )
    }
}

/// Is a sub-table of the first `n` entries spelled as dotted keys?
pub open spec fn dotted_among(es: Seq<Et>, n: nat) -> bool
    decreases n,
{
    if n == 0 || n > es.len() {
        false
    } else {
        dotted_among(es, (n - 1) as nat) || (is_header(es[n - 1].node)
            && es[n - 1].node->Table_1->Header_dotted)
    }
}

/// Is the table spelled as dotted keys?
pub open spec fn is_dotted(f: Fm) -> bool {
    match f {
        Fm::Inline { dotted, .. } => dotted,
        Fm::Header { dotted, .. } => dotted,
    }
}

/// A table created on the way to a path. In an inline table it is inline; else it
/// shows no header of its own, and follows the surrounding style: under a dotted
/// table, or beside a dotted sibling, it is dotted too.
pub open spec fn new_table(es: Seq<Et>, f: Fm) -> Nd {
    Nd::Table(
        Seq::empty(),
        match f {
            Fm::Inline { .. } => Fm::Inline { fill: no_fill(), dotted: false },
            Fm::Header { .. } => Fm::Header {
                implicit: true,
                dotted: is_dotted(f) || dotted_among(es, es.len()),
                position: None,
            },
        },
        no_decor(),
    )
}

/// Is the key one of the first `n` members'?
pub open spec fn named(m: Seq<(Seq<char>, Val)>, k: Seq<char>, n: nat) -> bool
    decreases n,
{
    if n == 0 || n > m.len() {
        false
    } else {
        named(m, k, (n - 1) as nat) || m[n - 1].0 == k
    }
}

/// Of the first `n` entries, those whose key is a member's.
pub open spec fn wanted(es: Seq<Et>, m: Seq<(Seq<char>, Val)>, n: nat) -> Seq<Et>
    decreases n,
{
    if n == 0 || n > es.len() {
        Seq::empty()
    } else {
        let so_far = wanted(es, m, (n - 1) as nat);
        if named(m, es[n - 1].name.key, m.len()) {
            so_far.push(es[n - 1])
        } else {
            so_far
        }
    }
}

/// The entry with its node replaced by a value. A value keeps its decor; the key
/// of a table header carries no spacing, so as a `key = value` line it takes the
/// default.
pub open spec fn overwritten(e: Et, v: Val) -> Et {
    if is_value(e.node) {
        Et { name: e.name, node: replacing(e.node, value_nd(v)) }
    } else {
        Et { name: Nm { leaf: no_decor(), ..e.name }, node: value_nd(v) }
    }
}

/// The table with `k` set to a value without nulls.
///
/// An unchanged value stays as it is. A standard table given an object is updated
/// key by key, so it stays a table and its untouched keys stay as they are. An
/// array that extends the old one appends in the old one's layout. Anything else
/// is replaced.
pub open spec fn field_set(t: Nd, k: Seq<char>, v: Val) -> Nd
    decreases v, 0int, 0int,
{
    match t {
        Nd::Table(es, f, d) => {
            let j = slot(es, k);
            if !(0 <= j < es.len()) {
                Nd::Table(es.push(Et { name: fresh_name(k), node: value_nd(v) }), f, d)
            } else {
                let e = es[j];
                let next = if nd_val(e.node) == v {
                    e
                } else {
                    match (e.node, v) {
                        (Nd::Table(sub, Fm::Header { implicit, dotted, position }, sd), Val::Object(
                            m,
                        )) => {
                            let kept = Nd::Table(
                                wanted(sub, m, sub.len()),
                                Fm::Header { implicit, dotted, position },
                                sd,
                            );
                            Et { name: e.name, node: fields_set(kept, m, m.len()) }
                        },
                        (Nd::Array(a, fl, ad), Val::Array(new)) => if extends(a, new) {
                            let (b, g) = extended(a, fl, new, new.len());
                            Et { name: e.name, node: Nd::Array(b, g, ad) }
                        } else {
                            overwritten(e, v)
                        },
                        (Nd::Tables(a), Val::Array(new)) => if extends(a, new) && all_objects(
                            new,
                            a.len() as int,
                        ) {
                            Et { name: e.name, node: Nd::Tables(extended_tables(a, new, new.len())) }
                        } else {
                            overwritten(e, v)
                        },
                        _ => overwritten(e, v),
                    }
                };
                Nd::Table(es.update(j, next), f, d)
            }
        },
        _ => t,
    }
}

/// The table with the first `n` members set.
pub open spec fn fields_set(t: Nd, m: Seq<(Seq<char>, Val)>, n: nat) -> Nd
    decreases m, 1int, n,
{
    if n == 0 || n > m.len() {
        t
    } else {
        field_set(fields_set(t, m, (n - 1) as nat), m[n - 1].0, m[n - 1].1)
    }
}

/// The value under a key.
pub open spec fn field_val(t: Nd, k: Seq<char>) -> Option<Val> {
    match t {
        Nd::Table(es, _, _) => {
            let j = slot(es, k);
            if 0 <= j < es.len() {
                Some(nd_val(es[j].node))
            } else {
                None
            }
        },
        _ => None,
    }
}

/// The table with `k` set: a null can't be written.
pub open spec fn set_field(t: Nd, k: Seq<char>, v: Val) -> Result<Nd, Er> {
    if field_val(t, k) == Some(v) {
        Ok(t)
    } else if holds_null(v) {
        Err(no_null())
    } else {
        Ok(field_set(t, k, v))
    }
}

/// Would an object put into the array under a key be a `[[key]]` block? So it is
/// where the array is an array of tables, absent, or empty.
pub open spec fn takes_blocks(es: Seq<Et>, j: int) -> bool {
    !(0 <= j < es.len()) || match es[j].node {
        Nd::Tables(_) => true,
        Nd::Array(a, _, _) => a.len() == 0,
        _ => false,
    }
}

/// The array of tables with a block written at a position.
pub open spec fn block_set(a: Seq<Nd>, i: int, v: Val) -> Result<Seq<Nd>, Er> {
    match write_position(i, a.len() as int) {
        Err(e) => Err(e),
        Ok(at) => if holds_null(v) {
            Err(no_null())
        } else if at == a.len() {
            Ok(a.push(table_nd(v)))
        } else {
            Ok(a.update(at, table_nd(v)))
        },
    }
}

/// The array with an element written at a position.
pub open spec fn item_set(a: Seq<Nd>, f: Fl, i: int, v: Val) -> Result<(Seq<Nd>, Fl), Er> {
    match write_position(i, a.len() as int) {
        Err(e) => Err(e),
        Ok(at) => if holds_null(v) {
            Err(no_null())
        } else if at == a.len() {
            Ok(pushed(a, f, value_nd(v)))
        } else {
            Ok((a.update(at, replacing(a[at], value_nd(v))), f))
        },
    }
}

/// The table with element `i` of the array under `k` set or appended, the array
/// created where it is missing.
pub open spec fn set_element(t: Nd, k: Seq<char>, i: int, v: Val) -> Result<Nd, Er> {
    match t {
        Nd::Table(es, f, d) => {
            let j = slot(es, k);
            let there = 0 <= j < es.len();
            if v is Object && takes_blocks(es, j) {
                if there && es[j].node is Tables {
                    match block_set(es[j].node->Tables_0, i, v) {
                        Err(e) => Err(e),
                        Ok(b) => Ok(
                            Nd::Table(
                                es.update(j, Et { name: es[j].name, node: Nd::Tables(b) }),
                                f,
                                d,
                            ),
                        ),
                    }
                } else if f is Inline {
                    Err(about(k, "is not an array of tables"@))
                } else {
                    match block_set(Seq::empty(), i, v) {
                        Err(e) => Err(e),
                        Ok(b) => {
                            let e = Et { name: fresh_name(k), node: Nd::Tables(b) };
                            Ok(
                                Nd::Table(
                                    if there {
                                        es.update(j, e)
                                    } else {
                                        es.push(e)
                                    },
                                    f,
                                    d,
                                ),
                            )
                        },
                    }
                }
            } else if !there {
                match item_set(Seq::empty(), no_fill(), i, v) {
                    Err(e) => Err(e),
                    Ok((b, g)) => Ok(
                        Nd::Table(
                            es.push(Et { name: fresh_name(k), node: Nd::Array(b, g, no_decor()) }),
                            f,
                            d,
                        ),
                    ),
                }
            } else {
                match es[j].node {
                    Nd::Array(a, fl, ad) => match item_set(a, fl, i, v) {
                        Err(e) => Err(e),
                        Ok((b, g)) => Ok(
                            Nd::Table(
                                es.update(j, Et { name: es[j].name, node: Nd::Array(b, g, ad) }),
                                f,
                                d,
                            ),
                        ),
                    },
                    _ => Err(about(k, "is not an array"@)),
                }
            }
        },
        _ => Ok(t),
    }
}

/// The refusal of a step that is no key.
pub open spec fn not_a_key() -> Er {
    fail("TOML paths for set are object keys, each with an optional array index"@)
}

/// The table with a path set, walking the steps before `cut` and writing what
/// they lead to: missing tables are created, and a key may be followed by an
/// index, which descends into that element.
pub open spec fn set_walk(t: Nd, p: Seq<St>, i: int, cut: int, v: Val) -> Result<Nd, Er>
    decreases cut - i,
{
    if i >= cut {
        match p[cut] {
            St::Field(k) => if p.len() == cut + 1 {
                set_field(t, k, v)
            } else {
                match p[cut + 1] {
                    St::Index(x) => set_element(t, k, x as int, v),
                    _ => Err(not_a_key()),
                }
            },
            _ => Err(not_a_key()),
        }
    } else {
        match (p[i], t) {
            (St::Field(k), Nd::Table(es, f, d)) => {
                let j = slot(es, k);
                let there = 0 <= j < es.len();
                if i + 1 < cut && p[i + 1] is Index {
                    let x = p[i + 1]->Index_0 as int;
                    if !there {
                        Err(about(k, "does not exist"@))
                    } else {
                        match elem_walk(es[j].node, k, x, p, i, cut, v) {
                            Err(e) => Err(e),
                            Ok(n) => Ok(
                                Nd::Table(es.update(j, Et { name: es[j].name, node: n }), f, d),
                            ),
                        }
                    }
                } else {
                    let sub = if there {
                        es[j].node
                    } else {
                        new_table(es, f)
                    };
                    if !(sub is Table) {
                        Err(about(k, "is not a table"@))
                    } else {
                        match set_walk(sub, p, i + 1, cut, v) {
                            Err(e) => Err(e),
                            Ok(n) => Ok(
                                Nd::Table(
                                    if there {
                                        es.update(j, Et { name: es[j].name, node: n })
                                    } else {
                                        es.push(Et { name: fresh_name(k), node: n })
                                    },
                                    f,
                                    d,
                                ),
                            ),
                        }
                    }
                }
            },
            _ => Err(not_a_key()),
        }
    }
}

/// An array with a path set in the table that is its element `x`.
pub open spec fn elem_walk(n: Nd, k: Seq<char>, x: int, p: Seq<St>, i: int, cut: int, v: Val) -> Result<
    Nd,
    Er,
>
    decreases cut - i - 1,
{
    match n {
        Nd::Tables(a) => match write_position(x, a.len() as int) {
            Err(e) => Err(e),
            Ok(at) => {
                let sub = if at == a.len() {
                    Nd::Table(Seq::empty(), plain_header(), no_decor())
                } else {
                    a[at]
                };
                if i + 1 >= cut {
                    Err(not_a_key())
                } else {
                    match set_walk(sub, p, i + 2, cut, v) {
                        Err(e) => Err(e),
                        Ok(t) => Ok(
                            Nd::Tables(
                                if at == a.len() {
                                    a.push(t)
                                } else {
                                    a.update(at, t)
                                },
                            ),
                        ),
                    }
                }
            },
        },
        Nd::Array(a, f, d) => match write_position(x, a.len() as int) {
            Err(e) => Err(e),
            Ok(at) => if at < a.len() && a[at] is Table && i + 1 < cut {
                match set_walk(a[at], p, i + 2, cut, v) {
                    Err(e) => Err(e),
                    Ok(t) => Ok(Nd::Array(a.update(at, t), f, d)),
                }
            } else {
                Err(about_element(k, x, "is not a table"@))
            },
        },
        _ => Err(about(k, "is not an array"@)),
    }
}

/// The root table with a path set.
pub open spec fn nd_set(root: Nd, p: Seq<St>, v: Val) -> Result<Nd, Er> {
    if p.len() == 0 {
        Err(fail("cannot set the whole document"@))
    } else {
        match p.last() {
            St::Field(_) => set_walk(root, p, 0, p.len() - 1, v),
            St::Index(_) => if p.len() < 2 || !(p[p.len() - 2] is Field) {
                Err(fail("an array index needs an array key before it, e.g. `.foo[0]`"@))
            } else {
                set_walk(root, p, 0, p.len() - 2, v)
            },
            _ => Err(fail("TOML set targets object keys or array indices"@)),
        }
    }
}

/// The table without a key.
pub open spec fn without_key(t: Nd, k: Seq<char>) -> Nd {
    match t {
        Nd::Table(es, f, d) => {
            let j = slot(es, k);
            if 0 <= j < es.len() {
                Nd::Table(es.remove(j), f, d)
            } else {
                t
            }
        },
        _ => t,
    }
}

/// The table without element `i` of the array under `k`.
pub open spec fn without_element(t: Nd, k: Seq<char>, i: int) -> Nd {
    match t {
        Nd::Table(es, f, d) => {
            let j = slot(es, k);
            if 0 <= j < es.len() {
                match es[j].node {
                    Nd::Tables(a) => match resolved(i, a.len() as int) {
                        Some(at) => Nd::Table(
                            es.update(j, Et { name: es[j].name, node: Nd::Tables(a.remove(at)) }),
                            f,
                            d,
                        ),
                        None => t,
                    },
                    Nd::Array(a, fl, ad) => match resolved(i, a.len() as int) {
                        Some(at) => Nd::Table(
                            es.update(
                                j,
                                Et { name: es[j].name, node: Nd::Array(a.remove(at), fl, ad) },
                            ),
                            f,
                            d,
                        ),
                        None => t,
                    },
                    _ => t,
                }
            } else {
                t
            }
        },
        _ => t,
    }
}

/// The table without what a path leads to; a path that leads nowhere changes
/// nothing.
pub open spec fn drop_walk(t: Nd, p: Seq<St>, i: int, cut: int) -> Nd
    decreases cut - i,
{
    if i >= cut {
        match p[cut] {
            St::Field(k) => if p.len() == cut + 1 {
                without_key(t, k)
            } else {
                match p[cut + 1] {
                    St::Index(x) => without_element(t, k, x as int),
                    _ => t,
                }
            },
            _ => t,
        }
    } else {
        match (p[i], t) {
            (St::Field(k), Nd::Table(es, f, d)) => {
                let j = slot(es, k);
                if !(0 <= j < es.len()) {
                    t
                } else if i + 1 < cut && p[i + 1] is Index {
                    let x = p[i + 1]->Index_0 as int;
                    Nd::Table(
                        es.update(
                            j,
                            Et { name: es[j].name, node: elem_drop(es[j].node, x, p, i, cut) },
                        ),
                        f,
                        d,
                    )
                } else if es[j].node is Table {
                    Nd::Table(
                        es.update(
                            j,
                            Et { name: es[j].name, node: drop_walk(es[j].node, p, i + 1, cut) },
                        ),
                        f,
                        d,
                    )
                } else {
                    t
                }
            },
            _ => t,
        }
    }
}

/// An array without what a path leads to in the table that is its element `x`.
pub open spec fn elem_drop(n: Nd, x: int, p: Seq<St>, i: int, cut: int) -> Nd
    decreases cut - i - 1,
{
    match n {
        Nd::Tables(a) => match resolved(x, a.len() as int) {
            Some(at) => if i + 1 < cut {
                Nd::Tables(a.update(at, drop_walk(a[at], p, i + 2, cut)))
            } else {
                n
            },
            None => n,
        },
        Nd::Array(a, f, d) => match resolved(x, a.len() as int) {
            Some(at) => if a[at] is Table && i + 1 < cut {
                Nd::Array(a.update(at, drop_walk(a[at], p, i + 2, cut)), f, d)
            } else {
                n
            },
            None => n,
        },
        _ => n,
    }
}

/// The root table without what a path leads to.
pub open spec fn nd_drop(root: Nd, p: Seq<St>) -> Result<Nd, Er> {
    if p.len() == 0 {
        Ok(root)
    } else {
        match p.last() {
            St::Field(_) => Ok(drop_walk(root, p, 0, p.len() - 1)),
            St::Index(_) => if p.len() < 2 || !(p[p.len() - 2] is Field) {
                Ok(root)
            } else {
                Ok(drop_walk(root, p, 0, p.len() - 2))
            },
            _ => Err(fail("TOML del targets object keys or array indices"@)),
        }
    }
}

fn refuse(k: &str, what: &str) -> (r: EditError)
    ensures
        r@ == about(k@, what@),
{
    let mut msg = "`".to_owned();
    msg.append(k);
    msg.append("` ");
    msg.append(what);
    EditError::of(msg)
}

fn refuse_element(k: &str, i: i64, what: &str) -> (r: EditError)
    ensures
        r@ == about_element(k@, i as int, what@),
{
    let mut msg = "`".to_owned();
    msg.append(k);
    msg.append("[");
    msg.append(&int_text(i));
    msg.append("]` ");
    msg.append(what);
    EditError::of(msg)
}

/// The view of a position.
spec fn position_view(r: Result<usize, EditError>) -> Result<int, Er> {
    match r {
        Ok(n) => Ok(n as int),
        Err(e) => Err(e@),
    }
}

/// Resolve `idx` against `len` for a write, allowing `len` as an append. Out of
/// range is an error naming the append index.
fn resolve_set_index(idx: i64, len: usize) -> (r: Result<usize, EditError>)
    ensures
        position_view(r) == write_position(idx as int, len as int),
{
    let n: i128 = if idx < 0 {
        len as i128 + idx as i128
    } else {
        idx as i128
    };
    if 0 <= n && n <= len as i128 {
        Ok(n as usize)
    } else {
        let mut msg = "array index ".to_owned();
        msg.append(&int_text(idx));
        msg.append(" out of range (length ");
        msg.append(&nat_text(len as u64));
        msg.append("); append with index ");
        msg.append(&nat_text(len as u64));
        Err(EditError::of(msg))
    }
}

/// Does a table created here belong as a dotted key? Yes when the table is itself
/// dotted, or when any of its sub-tables is.
fn follows_dotted_style(es: &Vec<Entry>, f: &Form) -> (r: bool)
    ensures
        r == (is_dotted(f@) || dotted_among(ets(es@), es.len() as nat)),
{
    let mut found = match f {
        Form::Inline { dotted, .. } => *dotted,
        Form::Header { dotted, .. } => *dotted,
    };
    let ghost first = found;
    let ghost all = ets(es@);
    let mut i: usize = 0;
    while i < es.len()
        invariant
            i <= es.len(),
            all == ets(es@),
            found == (first || dotted_among(all, i as nat)),
        decreases es.len() - i,
    {
        assert(all[i as int] == es@[i as int]@);
        let sub = match &es[i].node {
            Node::Table(_, Form::Header { dotted, .. }, _) => *dotted,
            _ => false,
        };
        found = found || sub;
        i = i + 1;
    }
    found
}

fn create_table(es: &Vec<Entry>, f: &Form) -> (r: Node)
    ensures
        r@ == new_table(ets(es@), f@),
{
    let form = match f {
        Form::Inline { .. } => Form::Inline { fill: Fill::none(), dotted: false },
        Form::Header { .. } => Form::Header {
            implicit: true,
            dotted: follows_dotted_style(es, f),
            position: None,
        },
    };
    let none: Vec<Entry> = Vec::new();
    assert(ets(none@) =~= Seq::<Et>::empty());
    Node::Table(none, form, Decor::none())
}

fn is_named(m: &Vec<(String, Value)>, k: &str) -> (r: bool)
    ensures
        r == named(members(m@), k@, m.len() as nat),
{
    let mut found = false;
    let ghost all = members(m@);
    let mut i: usize = 0;
    while i < m.len()
        invariant
            i <= m.len(),
            all == members(m@),
            found == named(all, k@, i as nat),
        decreases m.len() - i,
    {
        assert(all[i as int].0 == m@[i as int].0@);
        found = found || same(&m[i].0, k);
        i = i + 1;
    }
    found
}

/// Drop the entries whose key is none of the members'.
fn drop_stale(es: &mut Vec<Entry>, m: &Vec<(String, Value)>)
    ensures
        ets(final(es)@) == wanted(ets(old(es)@), members(m@), old(es).len() as nat),
{
    let ghost all = ets(es@);
    let ghost ms = members(m@);
    let n: usize = es.len();
    let mut done: usize = 0;
    let mut at: usize = 0;
    assert(ets(es@) =~= wanted(all, ms, 0) + all.skip(0));
    while done < n
        invariant
            done <= n == all.len(),
            at <= es.len(),
            es.len() == at + (n - done),
            at == wanted(all, ms, done as nat).len(),
            ms == members(m@),
            ets(es@) == wanted(all, ms, done as nat) + all.skip(done as int),
        decreases n - done,
    {
        let ghost now = ets(es@);
        assert(now[at as int] == all[done as int]);
        assert(now[at as int] == es@[at as int]@);
        if is_named(m, &es[at].name.key) {
            at = at + 1;
        } else {
            es.remove(at);
            assert(ets(es@) =~= now.remove(at as int));
        }
        done = done + 1;
        assert(ets(es@) =~= wanted(all, ms, done as nat) + all.skip(done as int));
    }
    assert(ets(es@) =~= wanted(all, ms, n as nat));
}

fn overwrite(e: &mut Entry, v: &Value)
    ensures
        final(e)@ == overwritten(old(e)@, v@),
{
    let new = value_node(v);
    if e.node.stands_inline() {
        let next = replace(&e.node, new);
        e.node = next;
    } else {
        e.name.leaf = Decor::none();
        e.node = new;
    }
}

/// Set `k` to a value without nulls.
fn put_field(t: &mut Node, k: &str, v: &Value)
    ensures
        final(t)@ == field_set(old(t)@, k@, v@),
    decreases v, 1int,
{
    if let Node::Table(es, _, _) = t {
        let ghost before = ets(es@);
        let j: usize = find_slot(es, k);
        if j >= es.len() {
            es.push(Entry { name: Name::fresh(k), node: value_node(v) });
            return;
        }
        let ghost e = before[j as int];
        assert(e == es@[j as int]@);
        if !es[j].node.project().identical(v) {
            change_entry(&mut es[j], v);
        }
        assert(ets(es@) =~= before.update(j as int, es@[j as int]@));
    }
}

/// What changing an entry's value to `v` leads to.
spec fn changed_entry(e: Et, v: Val) -> Et {
    match (e.node, v) {
        (Nd::Table(sub, Fm::Header { implicit, dotted, position }, sd), Val::Object(m)) => {
            let kept = Nd::Table(
                wanted(sub, m, sub.len()),
                Fm::Header { implicit, dotted, position },
                sd,
            );
            Et { name: e.name, node: fields_set(kept, m, m.len()) }
        },
        (Nd::Array(a, fl, ad), Val::Array(new)) => if extends(a, new) {
            let (b, g) = extended(a, fl, new, new.len());
            Et { name: e.name, node: Nd::Array(b, g, ad) }
        } else {
            overwritten(e, v)
        },
        (Nd::Tables(a), Val::Array(new)) => if extends(a, new) && all_objects(new, a.len() as int) {
            Et { name: e.name, node: Nd::Tables(extended_tables(a, new, new.len())) }
        } else {
            overwritten(e, v)
        },
        _ => overwritten(e, v),
    }
}

fn change_entry(e: &mut Entry, v: &Value)
    ensures
        final(e)@ == changed_entry(old(e)@, v@),
    decreases v, 0int,
{
    let ghost e0 = e@;
    match v {
        Value::Object(m) => {
            if e.node.is_standard() {
                if let Node::Table(sub, _, _) = &mut e.node {
                    drop_stale(sub, m);
                }
                put_fields(&mut e.node, m);
                return;
            }
        },
        Value::Array(new) => {
            match &mut e.node {
                Node::Array(a, f, _) => {
                    if is_extension(a, new) {
                        extend_in_layout(a, f, new);
                        return;
                    }
                },
                Node::Tables(a) => {
                    if is_extension(a, new) && rest_objects(new, a.len()) {
                        extend_tables(a, new);
                        return;
                    }
                },
                _ => {},
            }
        },
        _ => {},
    }
    assert(e@ == e0);
    overwrite(e, v);
}

fn put_fields(t: &mut Node, m: &Vec<(String, Value)>)
    ensures
        final(t)@ == fields_set(old(t)@, members(m@), m.len() as nat),
    decreases m, 0int,
{
    let ghost t0 = t@;
    let ghost all = members(m@);
    let mut i: usize = 0;
    while i < m.len()
        invariant
            i <= m.len(),
            all == members(m@),
            t@ == fields_set(t0, all, i as nat),
        decreases m.len() - i,
    {
        assert(all[i as int] == (m@[i as int].0@, m@[i as int].1@));
        put_field(t, &m[i].0, &m[i].1);
        i = i + 1;
    }
}

/// Is the value under a key this one?
fn field_is(t: &Node, k: &str, v: &Value) -> (r: bool)
    ensures
        r == (field_val(t@, k@) == Some(v@)),
{
    match t {
        Node::Table(es, _, _) => {
            let j: usize = find_slot(es, k);
            if j < es.len() {
                assert(ets(es@)[j as int] == es@[j as int]@);
                es[j].node.project().identical(v)
            } else {
                false
            }
        },
        _ => false,
    }
}

fn write_field(t: &mut Node, k: &str, v: &Value) -> (r: Result<(), EditError>)
    ensures
        (final(t)@, done(r)) == attempt(old(t)@, set_field(old(t)@, k@, v@)),
{
    if field_is(t, k, v) {
        return Ok(());
    }
    if has_null(v) {
        return Err(EditError::new("TOML has no null value"));
    }
    put_field(t, k, v);
    Ok(())
}

/// What writing into a list of blocks leads to.
spec fn blocks_attempt(a: Seq<Nd>, r: Result<Seq<Nd>, Er>) -> (Seq<Nd>, Result<(), Er>) {
    match r {
        Ok(b) => (b, Ok(())),
        Err(e) => (a, Err(e)),
    }
}

fn write_block(a: &mut Vec<Node>, i: i64, v: &Value) -> (r: Result<(), EditError>)
    ensures
        (nds(final(a)@), done(r)) == blocks_attempt(
            nds(old(a)@),
            block_set(nds(old(a)@), i as int, v@),
        ),
{
    let at: usize = resolve_set_index(i, a.len())?;
    if has_null(v) {
        return Err(EditError::new("TOML has no null value"));
    }
    let ghost before = nds(a@);
    let block = table_node(v);
    if at == a.len() {
        a.push(block);
    } else {
        a.set(at, block);
        assert(nds(a@) =~= before.update(at as int, block@));
    }
    Ok(())
}

/// What writing into an array leads to.
spec fn items_attempt(a: Seq<Nd>, f: Fl, r: Result<(Seq<Nd>, Fl), Er>) -> (
    Seq<Nd>,
    Fl,
    Result<(), Er>,
) {
    match r {
        Ok((b, g)) => (b, g, Ok(())),
        Err(e) => (a, f, Err(e)),
    }
}

fn write_item(a: &mut Vec<Node>, f: &mut Fill, i: i64, v: &Value) -> (r: Result<(), EditError>)
    ensures
        (nds(final(a)@), final(f)@, done(r)) == items_attempt(
            nds(old(a)@),
            old(f)@,
            item_set(nds(old(a)@), old(f)@, i as int, v@),
        ),
{
    let at: usize = resolve_set_index(i, a.len())?;
    if has_null(v) {
        return Err(EditError::new("TOML has no null value"));
    }
    let ghost before = nds(a@);
    let node = value_node(v);
    if at == a.len() {
        push_in_layout(a, f, node);
    } else {
        assert(before[at as int] == a@[at as int]@);
        let next = replace(&a[at], node);
        a.set(at, next);
        assert(nds(a@) =~= before.update(at as int, next@));
    }
    Ok(())
}

fn holds_blocks(es: &Vec<Entry>, j: usize) -> (r: bool)
    ensures
        r == takes_blocks(ets(es@), j as int),
{
    if j >= es.len() {
        return true;
    }
    assert(ets(es@)[j as int] == es@[j as int]@);
    match &es[j].node {
        Node::Tables(_) => true,
        Node::Array(a, _, _) => a.len() == 0,
        _ => false,
    }
}

/// Put an object into the array under `k` as a `[[key]]` block.
fn put_block(
    es: &mut Vec<Entry>,
    inline: bool,
    j: usize,
    k: &str,
    i: i64,
    v: &Value,
    form: Ghost<Fm>,
    decor: Ghost<Dc>,
) -> (r: Result<(), EditError>)
    requires
        inline == form@ is Inline,
        v@ is Object,
        j == slot(ets(old(es)@), k@),
        j <= old(es).len(),
        takes_blocks(ets(old(es)@), j as int),
    ensures
        (Nd::Table(ets(final(es)@), form@, decor@), done(r)) == attempt(
            Nd::Table(ets(old(es)@), form@, decor@),
            set_element(Nd::Table(ets(old(es)@), form@, decor@), k@, i as int, v@),
        ),
{
    let ghost before = ets(es@);
    if j < es.len() {
        assert(before[j as int] == es@[j as int]@);
        if let Node::Tables(a) = &mut es[j].node {
            let r = write_block(a, i, v);
            assert(ets(es@) =~= before.update(j as int, es@[j as int]@));
            assert(r is Err ==> ets(es@) =~= before);
            return r;
        }
    }
    assert(ets(es@) =~= before);
    if inline {
        return Err(refuse(k, "is not an array of tables"));
    }
    let mut a: Vec<Node> = Vec::new();
    assert(nds(a@) =~= Seq::<Nd>::empty());
    write_block(&mut a, i, v)?;
    let e = Entry { name: Name::fresh(k), node: Node::Tables(a) };
    if j < es.len() {
        es.set(j, e);
        assert(ets(es@) =~= before.update(j as int, e@));
    } else {
        es.push(e);
    }
    Ok(())
}

/// Put a value into the array under `k`.
fn put_item(
    es: &mut Vec<Entry>,
    j: usize,
    k: &str,
    i: i64,
    v: &Value,
    form: Ghost<Fm>,
    decor: Ghost<Dc>,
) -> (r: Result<(), EditError>)
    requires
        j == slot(ets(old(es)@), k@),
        j <= old(es).len(),
        !(v@ is Object && takes_blocks(ets(old(es)@), j as int)),
    ensures
        (Nd::Table(ets(final(es)@), form@, decor@), done(r)) == attempt(
            Nd::Table(ets(old(es)@), form@, decor@),
            set_element(Nd::Table(ets(old(es)@), form@, decor@), k@, i as int, v@),
        ),
{
    let ghost before = ets(es@);
    if j >= es.len() {
        let mut a: Vec<Node> = Vec::new();
        assert(nds(a@) =~= Seq::<Nd>::empty());
        let mut f = Fill::none();
        write_item(&mut a, &mut f, i, v)?;
        es.push(Entry { name: Name::fresh(k), node: Node::Array(a, f, Decor::none()) });
        return Ok(());
    }
    assert(before[j as int] == es@[j as int]@);
    if let Node::Array(a, f, _) = &mut es[j].node {
        let r = write_item(a, f, i, v);
        assert(ets(es@) =~= before.update(j as int, es@[j as int]@));
        assert(r is Err ==> ets(es@) =~= before);
        return r;
    }
    assert(ets(es@) =~= before);
    Err(refuse(k, "is not an array"))
}

/// Set or append element `i` of the array under `k`. A table value in an array of
/// tables (or an absent or empty array) is a `[[key]]` block; scalars and arrays
/// are elements of an inline array. The array is created where it is missing.
fn set_array_element(t: &mut Node, k: &str, i: i64, v: &Value) -> (r: Result<(), EditError>)
    ensures
        (final(t)@, done(r)) == attempt(old(t)@, set_element(old(t)@, k@, i as int, v@)),
{
    if let Node::Table(es, f, d) = t {
        let j: usize = find_slot(es, k);
        if matches!(v, Value::Object(_)) && holds_blocks(es, j) {
            let inline = matches!(f, Form::Inline { .. });
            return put_block(es, inline, j, k, i, v, Ghost(f@), Ghost(d@));
        }
        return put_item(es, j, k, i, v, Ghost(f@), Ghost(d@));
    }
    Ok(())
}

/// Walk to the table a path names and write there.
fn walk_set(t: &mut Node, path: &Vec<Step>, i: usize, cut: usize, v: &Value) -> (r: Result<
    (),
    EditError,
>)
    requires
        i <= cut < path.len(),
        path.len() == cut + 1 || (path.len() == cut + 2 && steps_of(path@)[cut + 1] is Index),
        steps_of(path@)[cut as int] is Field,
    ensures
        (final(t)@, done(r)) == attempt(
            old(t)@,
            set_walk(old(t)@, steps_of(path@), i as int, cut as int, v@),
        ),
    decreases cut - i,
{
    let ghost p = steps_of(path@);
    assert(p[cut as int] == path@[cut as int]@);
    if i >= cut {
        if path.len() == cut + 1 {
            return match &path[cut] {
                Step::Field(k) => write_field(t, k, v),
                _ => Ok(()),
            };
        }
        assert(p[cut + 1] == path@[cut + 1]@);
        return match (&path[cut], &path[cut + 1]) {
            (Step::Field(k), Step::Index(x)) => set_array_element(t, k, *x, v),
            _ => Ok(()),
        };
    }
    assert(p[i as int] == path@[i as int]@);
    let k = match &path[i] {
        Step::Field(k) => k,
        _ => {
            return Err(
                EditError::new(
                    "TOML paths for set are object keys, each with an optional array index",
                ),
            );
        },
    };
    if let Node::Table(es, f, _) = t {
        let ghost before = ets(es@);
        let j: usize = find_slot(es, k);
        if i + 1 < cut {
            assert(p[i + 1] == path@[i + 1]@);
            if let Step::Index(x) = &path[i + 1] {
                if j >= es.len() {
                    return Err(refuse(k, "does not exist"));
                }
                assert(before[j as int] == es@[j as int]@);
                let r = walk_set_element(&mut es[j].node, k, *x, path, i, cut, v);
                assert(ets(es@) =~= before.update(j as int, es@[j as int]@));
                assert(r is Err ==> ets(es@) =~= before);
                return r;
            }
        }
        if j >= es.len() {
            let mut sub = create_table(es, f);
            walk_set(&mut sub, path, i + 1, cut, v)?;
            es.push(Entry { name: Name::fresh(k), node: sub });
            return Ok(());
        }
        assert(before[j as int] == es@[j as int]@);
        if !matches!(&es[j].node, Node::Table(_, _, _)) {
            return Err(refuse(k, "is not a table"));
        }
        let r = walk_set(&mut es[j].node, path, i + 1, cut, v);
        assert(ets(es@) =~= before.update(j as int, es@[j as int]@));
        assert(r is Err ==> ets(es@) =~= before);
        return r;
    }
    Err(EditError::new("TOML paths for set are object keys, each with an optional array index"))
}

/// Descend into element `x` of an array and go on walking there.
fn walk_set_element(
    n: &mut Node,
    k: &str,
    x: i64,
    path: &Vec<Step>,
    i: usize,
    cut: usize,
    v: &Value,
) -> (r: Result<(), EditError>)
    requires
        i + 1 < cut < path.len(),
        path.len() == cut + 1 || (path.len() == cut + 2 && steps_of(path@)[cut + 1] is Index),
        steps_of(path@)[cut as int] is Field,
    ensures
        (final(n)@, done(r)) == attempt(
            old(n)@,
            elem_walk(old(n)@, k@, x as int, steps_of(path@), i as int, cut as int, v@),
        ),
    decreases cut - i - 1,
{
    match n {
        Node::Tables(a) => {
            let ghost before = nds(a@);
            let at: usize = resolve_set_index(x, a.len())?;
            if at == a.len() {
                let none: Vec<Entry> = Vec::new();
                assert(ets(none@) =~= Seq::<Et>::empty());
                let mut sub = Node::Table(
                    none,
                    Form::Header { implicit: false, dotted: false, position: None },
                    Decor::none(),
                );
                walk_set(&mut sub, path, i + 2, cut, v)?;
                a.push(sub);
                return Ok(());
            }
            assert(before[at as int] == a@[at as int]@);
            let r = walk_set(&mut a[at], path, i + 2, cut, v);
            assert(nds(a@) =~= before.update(at as int, a@[at as int]@));
            assert(r is Err ==> nds(a@) =~= before);
            r
        },
        Node::Array(a, _, _) => {
            let ghost before = nds(a@);
            let at: usize = resolve_set_index(x, a.len())?;
            if at >= a.len() {
                return Err(refuse_element(k, x, "is not a table"));
            }
            assert(before[at as int] == a@[at as int]@);
            if !matches!(&a[at], Node::Table(_, _, _)) {
                return Err(refuse_element(k, x, "is not a table"));
            }
            let r = walk_set(&mut a[at], path, i + 2, cut, v);
            assert(nds(a@) =~= before.update(at as int, a@[at as int]@));
            assert(r is Err ==> nds(a@) =~= before);
            r
        },
        _ => Err(refuse(k, "is not an array")),
    }
}

/// Set the value at `path` in the root table.
pub fn set_in_tree(root: &mut Node, path: &Vec<Step>, v: &Value) -> (r: Result<(), EditError>)
    ensures
        (final(root)@, done(r)) == attempt(old(root)@, nd_set(old(root)@, steps_of(path@), v@)),
{
    let n: usize = path.len();
    if n == 0 {
        return Err(EditError::new("cannot set the whole document"));
    }
    assert(steps_of(path@).last() == path@[n - 1]@);
    match &path[n - 1] {
        Step::Field(_) => walk_set(root, path, 0, n - 1, v),
        Step::Index(_) => {
            if n >= 2 {
                assert(steps_of(path@)[n - 2] == path@[n - 2]@);
                if let Step::Field(_) = &path[n - 2] {
                    return walk_set(root, path, 0, n - 2, v);
                }
            }
            Err(EditError::new("an array index needs an array key before it, e.g. `.foo[0]`"))
        },
        _ => Err(EditError::new("TOML set targets object keys or array indices")),
    }
}

fn drop_key(t: &mut Node, k: &str)
    ensures
        final(t)@ == without_key(old(t)@, k@),
{
    if let Node::Table(es, _, _) = t {
        let ghost before = ets(es@);
        let j: usize = find_slot(es, k);
        if j < es.len() {
            es.remove(j);
            assert(ets(es@) =~= before.remove(j as int));
        }
    }
}

/// Delete element `i` of the array under `k`; a missing key, another type or an
/// index out of range changes nothing.
fn delete_array_element(t: &mut Node, k: &str, i: i64)
    ensures
        final(t)@ == without_element(old(t)@, k@, i as int),
{
    if let Node::Table(es, _, _) = t {
        let ghost before = ets(es@);
        let j: usize = find_slot(es, k);
        if j < es.len() {
            assert(before[j as int] == es@[j as int]@);
            match &mut es[j].node {
                Node::Tables(a) => {
                    let ghost items = nds(a@);
                    if let Some(at) = resolve_index(i, a.len()) {
                        a.remove(at);
                        assert(nds(a@) =~= items.remove(at as int));
                    }
                },
                Node::Array(a, _, _) => {
                    let ghost items = nds(a@);
                    if let Some(at) = resolve_index(i, a.len()) {
                        a.remove(at);
                        assert(nds(a@) =~= items.remove(at as int));
                    }
                },
                _ => {},
            }
            assert(ets(es@) =~= before.update(j as int, es@[j as int]@));
            assert(before.update(j as int, before[j as int]) =~= before);
        }
    }
}

/// Walk to the table a path names and delete there.
fn walk_drop(t: &mut Node, path: &Vec<Step>, i: usize, cut: usize)
    requires
        i <= cut < path.len(),
        path.len() == cut + 1 || (path.len() == cut + 2 && steps_of(path@)[cut + 1] is Index),
        steps_of(path@)[cut as int] is Field,
    ensures
        final(t)@ == drop_walk(old(t)@, steps_of(path@), i as int, cut as int),
    decreases cut - i,
{
    let ghost p = steps_of(path@);
    assert(p[cut as int] == path@[cut as int]@);
    if i >= cut {
        if path.len() == cut + 1 {
            if let Step::Field(k) = &path[cut] {
                drop_key(t, k);
            }
            return;
        }
        assert(p[cut + 1] == path@[cut + 1]@);
        if let (Step::Field(k), Step::Index(x)) = (&path[cut], &path[cut + 1]) {
            delete_array_element(t, k, *x);
        }
        return;
    }
    assert(p[i as int] == path@[i as int]@);
    if let (Step::Field(k), Node::Table(es, _, _)) = (&path[i], t) {
        let ghost before = ets(es@);
        let j: usize = find_slot(es, k);
        if j >= es.len() {
            return;
        }
        assert(before[j as int] == es@[j as int]@);
        if i + 1 < cut {
            assert(p[i + 1] == path@[i + 1]@);
            if let Step::Index(x) = &path[i + 1] {
                walk_drop_element(&mut es[j].node, *x, path, i, cut);
                assert(ets(es@) =~= before.update(j as int, es@[j as int]@));
                return;
            }
        }
        if matches!(&es[j].node, Node::Table(_, _, _)) {
            walk_drop(&mut es[j].node, path, i + 1, cut);
            assert(ets(es@) =~= before.update(j as int, es@[j as int]@));
        }
    }
}

fn walk_drop_element(n: &mut Node, x: i64, path: &Vec<Step>, i: usize, cut: usize)
    requires
        i + 1 < cut < path.len(),
        path.len() == cut + 1 || (path.len() == cut + 2 && steps_of(path@)[cut + 1] is Index),
        steps_of(path@)[cut as int] is Field,
    ensures
        final(n)@ == elem_drop(old(n)@, x as int, steps_of(path@), i as int, cut as int),
    decreases cut - i - 1,
{
    match n {
        Node::Tables(a) => {
            let ghost before = nds(a@);
            if let Some(at) = resolve_index(x, a.len()) {
                assert(before[at as int] == a@[at as int]@);
                walk_drop(&mut a[at], path, i + 2, cut);
                assert(nds(a@) =~= before.update(at as int, a@[at as int]@));
            }
        },
        Node::Array(a, _, _) => {
            let ghost before = nds(a@);
            if let Some(at) = resolve_index(x, a.len()) {
                assert(before[at as int] == a@[at as int]@);
                if matches!(&a[at], Node::Table(_, _, _)) {
                    walk_drop(&mut a[at], path, i + 2, cut);
                    assert(nds(a@) =~= before.update(at as int, a@[at as int]@));
                }
            }
        },
        _ => {},
    }
}

/// Delete what `path` names in the root table.
pub fn drop_in_tree(root: &mut Node, path: &Vec<Step>) -> (r: Result<(), EditError>)
    ensures
        (final(root)@, done(r)) == attempt(old(root)@, nd_drop(old(root)@, steps_of(path@))),
{
    let n: usize = path.len();
    if n == 0 {
        return Ok(());
    }
    assert(steps_of(path@).last() == path@[n - 1]@);
    match &path[n - 1] {
        Step::Field(_) => {
            walk_drop(root, path, 0, n - 1);
            Ok(())
        },
        Step::Index(_) => {
            if n >= 2 {
                assert(steps_of(path@)[n - 2] == path@[n - 2]@);
                if let Step::Field(_) = &path[n - 2] {
                    walk_drop(root, path, 0, n - 2);
                }
            }
            Ok(())
        },
        _ => Err(EditError::new("TOML del targets object keys or array indices")),
    }
}

} // verus!
