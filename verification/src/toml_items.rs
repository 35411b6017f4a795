//! Reading and writing TOML text, done by the `toml_edit` crate.
//!
//! The crate's parsed values are opaque here. [`item_tree`] and [`key_name`]
//! name what a parsed item and a parsed key hold; one function each takes a
//! piece out of an item or puts an item together, and the recursion over them,
//! from an item to a [`Node`] and back, is done here.
use crate::float::{finite, is_finite, is_nan, is_negative, nan, Float, Flt};
use crate::model::{opt_text, Val, Value};
use crate::rows::has_dot;
use crate::strs::cat;
use crate::toml_tree::{
    decor_in, ets, fresh_name, group_toml_views, held, is_header, is_value, nds, no_decor, scalar,
    slot, sound, unique_tree, with_decor, Decor, Entry, Et, Fill, Fl, Fm, Form, Name, Nd, Nm, Node,
};
use vstd::prelude::*;

verus! {

broadcast use group_toml_views;

/// `toml_edit`'s parsed item.
#[verifier::external_type_specification]
#[verifier::external_body]
pub struct ExItem(toml_edit::Item);

/// `toml_edit`'s parsed key.
#[verifier::external_type_specification]
#[verifier::external_body]
pub struct ExKey(toml_edit::Key);

/// What a parsed item holds.
pub uninterp spec fn item_tree(i: toml_edit::Item) -> Nd;

/// What a parsed key holds.
pub uninterp spec fn key_name(k: toml_edit::Key) -> Nm;

/// What a text parses to as a document: its root table and the text behind the
/// last line that holds data; or the message it is refused with.
pub uninterp spec fn document_tree(text: Seq<char>) -> Result<(Nd, Seq<char>), Seq<char>>;

/// What a text parses to as a single value.
pub uninterp spec fn value_tree(text: Seq<char>) -> Option<Nd>;

/// What a text parses to as a single key.
pub uninterp spec fn key_tree(text: Seq<char>) -> Option<Nm>;

/// How a document is written.
pub uninterp spec fn toml_text(root: Nd, trailing: Seq<char>) -> Seq<char>;

/// The contents of a list of items.
pub open spec fn item_trees(s: Seq<toml_edit::Item>) -> Seq<Nd> {
    Seq::new(s.len(), |i: int| item_tree(s[i]))
}

/// The contents of a list of keys with their items.
pub open spec fn member_trees(s: Seq<(toml_edit::Key, toml_edit::Item)>) -> Seq<Et> {
    Seq::new(s.len(), |i: int| Et { name: key_name(s[i].0), node: item_tree(s[i].1) })
}

/// What kind of node an item is, with what it holds besides items and decor.
pub enum Frame {
    Scalar,
    Array(Fill),
    Table(Form),
    Tables,
}

/// The mathematical content of a [`Frame`].
pub enum Fr {
    Scalar,
    Array(Fl),
    Table(Fm),
    Tables,
}

impl View for Frame {
    type V = Fr;

    open spec fn view(&self) -> Fr {
        match *self {
            Frame::Scalar => Fr::Scalar,
            Frame::Array(f) => Fr::Array(f@),
            Frame::Table(f) => Fr::Table(f@),
            Frame::Tables => Fr::Tables,
        }
    }
}

/// The frame of a node.
pub open spec fn frame_of(n: Nd) -> Fr {
    match n {
        Nd::Scalar(_, _, _) => Fr::Scalar,
        Nd::Array(_, f, _) => Fr::Array(f),
        Nd::Table(_, f, _) => Fr::Table(f),
        Nd::Tables(_) => Fr::Tables,
    }
}

/// The entries of a table; none elsewhere.
pub open spec fn entries_in(n: Nd) -> Seq<Et> {
    match n {
        Nd::Table(es, _, _) => es,
        _ => Seq::empty(),
    }
}

/// The elements of an array or of an array of tables; none elsewhere.
pub open spec fn elements_in(n: Nd) -> Seq<Nd> {
    match n {
        Nd::Array(a, _, _) => a,
        Nd::Tables(a) => a,
        _ => Seq::empty(),
    }
}

/// `str::parse::<DocumentMut>`, named by [`document_tree`]. The root of a parsed
/// document is a standard table.
#[verifier::external_body]
fn read_document(text: &str) -> (r: Result<(toml_edit::Item, String), String>)
    ensures
        match r {
            Ok(d) => document_tree(text@) == Ok::<(Nd, Seq<char>), Seq<char>>(
                (item_tree(d.0), d.1@),
            ) && is_header(item_tree(d.0)),
            Err(m) => document_tree(text@) == Err::<(Nd, Seq<char>), Seq<char>>(m@),
        },
{
    match text.parse::<toml_edit::DocumentMut>() {
        Ok(d) => {
            let trailing = d.trailing().as_str().unwrap_or("").to_owned();
            Ok((d.into_item(), trailing))
        },
        Err(e) => Err(e.to_string()),
    }
}

/// `str::parse::<toml_edit::Value>`, named by [`value_tree`]. A value parsed alone
/// is there and has no decor.
#[verifier::external_body]
fn read_value(text: &str) -> (r: Option<toml_edit::Item>)
    ensures
        match r {
            Some(i) => value_tree(text@) == Some(item_tree(i)) && is_value(item_tree(i))
                && held(item_tree(i)) && decor_in(item_tree(i)) == no_decor(),
            None => value_tree(text@) is None,
        },
{
    text.parse::<toml_edit::Value>().ok().map(toml_edit::Item::Value)
}

/// `str::parse::<toml_edit::Key>`, named by [`key_tree`].
#[verifier::external_body]
fn read_key(text: &str) -> (r: Option<toml_edit::Key>)
    ensures
        match r {
            Some(k) => key_tree(text@) == Some(key_name(k)),
            None => key_tree(text@) is None,
        },
{
    text.parse::<toml_edit::Key>().ok()
}

/// The variant of a `toml_edit::Item`, with the flags of its table or the comma
/// and trailing text of its array, as `Table::is_implicit`, `is_dotted` and
/// `position`, `Array::trailing_comma` and `trailing`, and their likes on
/// `InlineTable` give them.
#[verifier::external_body]
fn frame(item: &toml_edit::Item) -> (r: Frame)
    ensures
        r@ == frame_of(item_tree(*item)),
{
    match item {
        toml_edit::Item::Value(toml_edit::Value::Array(a)) => Frame::Array(
            Fill { comma: a.trailing_comma(), trailing: a.trailing().as_str().unwrap_or("").to_owned() },
        ),
        toml_edit::Item::Value(toml_edit::Value::InlineTable(t)) => Frame::Table(Form::Inline {
            fill: Fill { comma: t.trailing_comma(), trailing: t.trailing().as_str().unwrap_or("").to_owned() },
            dotted: t.is_dotted(),
        }),
        toml_edit::Item::Table(t) => Frame::Table(Form::Header {
            implicit: t.is_implicit(), dotted: t.is_dotted(), position: t.position(),
        }),
        toml_edit::Item::ArrayOfTables(_) => Frame::Tables,
        _ => Frame::Scalar,
    }
}

/// `Formatted::value` of a scalar item, which is no list: a date and time is its
/// text. An item that is not there is null.
#[verifier::external_body]
fn scalar_value(item: &toml_edit::Item) -> (r: Value)
    ensures
        match item_tree(*item) {
            Nd::Scalar(v, _, _) => r@ == v,
            _ => r@ == Val::Null,
        },
        scalar(r@),
{
    match item {
        toml_edit::Item::Value(toml_edit::Value::String(s)) => Value::Str(s.value().clone()),
        toml_edit::Item::Value(toml_edit::Value::Integer(i)) => Value::Int(*i.value()),
        toml_edit::Item::Value(toml_edit::Value::Float(f)) => Value::Float(
            Float { bits: f.value().to_bits(), text: f.value().to_string() },
        ),
        toml_edit::Item::Value(toml_edit::Value::Boolean(b)) => Value::Bool(*b.value()),
        toml_edit::Item::Value(toml_edit::Value::Datetime(d)) => Value::Str(d.value().to_string()),
        _ => Value::Null,
    }
}

/// `Formatted::as_repr` of a scalar item: how the source spells it, if it comes
/// from a source. A date and time is always spelled, as `Formatted::display_repr`
/// gives it.
#[verifier::external_body]
fn spelling(item: &toml_edit::Item) -> (r: Option<String>)
    ensures
        match item_tree(*item) {
            Nd::Scalar(_, t, _) => opt_text(r) == t,
            _ => r is None,
        },
{
    let repr = match item.as_value()? {
        toml_edit::Value::String(s) => s.as_repr(),
        toml_edit::Value::Integer(i) => i.as_repr(),
        toml_edit::Value::Float(f) => f.as_repr(),
        toml_edit::Value::Boolean(b) => b.as_repr(),
        toml_edit::Value::Datetime(d) => return Some(d.display_repr().into_owned()),
        _ => None,
    };
    repr.and_then(|r| r.as_raw().as_str()).map(str::to_owned)
}

/// `Value::decor` and `Table::decor`: the prefix and suffix of an item.
#[verifier::external_body]
fn decor_of(item: &toml_edit::Item) -> (r: Decor)
    ensures
        r@ == decor_in(item_tree(*item)),
{
    let decor = match item {
        toml_edit::Item::Value(v) => v.decor().clone(),
        toml_edit::Item::Table(t) => t.decor().clone(),
        _ => toml_edit::Decor::default(),
    };
    Decor {
        prefix: decor.prefix().and_then(|p| p.as_str()).map(str::to_owned),
        suffix: decor.suffix().and_then(|s| s.as_str()).map(str::to_owned),
    }
}

/// `TableLike::iter` and `TableLike::key`: the keys and items of a table or
/// inline table, in order. Tables are maps, so no key comes twice.
#[verifier::external_body]
fn members(item: &toml_edit::Item) -> (r: Vec<(toml_edit::Key, toml_edit::Item)>)
    ensures
        member_trees(r@) == entries_in(item_tree(*item)),
        forall|i: int, j: int|
            0 <= i < j < r.len() ==> key_name((#[trigger] r@[i]).0).key != key_name(
                (#[trigger] r@[j]).0,
            ).key,
{
    match item.as_table_like() {
        Some(t) => t
            .iter()
            .map(|(k, i)| (t.key(k).cloned().unwrap_or_else(|| toml_edit::Key::new(k)), i.clone()))
            .collect(),
        None => Vec::new(),
    }
}

/// `Array::iter` and `ArrayOfTables::iter`: the elements of an array or an array
/// of tables, in order. Those of an array of tables are standard tables. A `Vec` of
/// items, which take up room, is never as long as its index type can count.
#[verifier::external_body]
fn elements(item: &toml_edit::Item) -> (r: Vec<toml_edit::Item>)
    ensures
        item_trees(r@) == elements_in(item_tree(*item)),
        r.len() < usize::MAX,
        item_tree(*item) is Tables ==> forall|i: int|
            0 <= i < r.len() ==> is_header(#[trigger] item_tree(r@[i])),
{
    match item {
        toml_edit::Item::Value(toml_edit::Value::Array(a)) => {
            a.iter().map(|v| toml_edit::Item::Value(v.clone())).collect()
        },
        toml_edit::Item::ArrayOfTables(a) => {
            a.iter().map(|t| toml_edit::Item::Table(t.clone())).collect()
        },
        _ => Vec::new(),
    }
}

/// `Key::get` and `Key::as_repr`: the text of a key and how the source spells it.
#[verifier::external_body]
fn key_parts(key: &toml_edit::Key) -> (r: (String, Option<String>))
    ensures
        r.0@ == key_name(*key).key,
        opt_text(r.1) == key_name(*key).repr,
{
    (
        key.get().to_owned(),
        key.as_repr().and_then(|r| r.as_raw().as_str()).map(str::to_owned),
    )
}

/// `Key::leaf_decor` and `Key::dotted_decor`: the decor of a key at the end of a
/// path and between dots.
#[verifier::external_body]
fn key_decor(key: &toml_edit::Key) -> (r: (Decor, Decor))
    ensures
        r.0@ == key_name(*key).leaf,
        r.1@ == key_name(*key).dotted,
{
    (
        Decor {
            prefix: key.leaf_decor().prefix().and_then(|p| p.as_str()).map(str::to_owned),
            suffix: key.leaf_decor().suffix().and_then(|s| s.as_str()).map(str::to_owned),
        },
        Decor {
            prefix: key.dotted_decor().prefix().and_then(|p| p.as_str()).map(str::to_owned),
            suffix: key.dotted_decor().suffix().and_then(|s| s.as_str()).map(str::to_owned),
        },
    )
}

/// `toml_edit::value` of a string, an integer or a boolean: a scalar in the
/// default spelling.
#[verifier::external_body]
fn plain_item(v: &Value) -> (r: Option<toml_edit::Item>)
    ensures
        match v@ {
            Val::Str(_) | Val::Int(_) | Val::Bool(_) => r is Some && item_tree(r->0)
                == Nd::Scalar(v@, None, no_decor()),
            _ => r is None,
        },
{
    match v {
        Value::Str(s) => Some(toml_edit::value(s.as_str())),
        Value::Int(i) => Some(toml_edit::value(*i)),
        Value::Bool(b) => Some(toml_edit::value(*b)),
        _ => None,
    }
}

/// `Array::from_iter`, `set_trailing_comma` and `set_trailing`: an array of
/// values.
#[verifier::external_body]
fn array_item(items: Vec<toml_edit::Item>, fill: &Fill) -> (r: toml_edit::Item)
    requires
        forall|i: int|
            0 <= i < items.len() ==> is_value(#[trigger] item_tree(items@[i])) && held(
                item_tree(items@[i]),
            ),
    ensures
        item_tree(r) == Nd::Array(item_trees(items@), fill@, no_decor()),
{
    let mut a: toml_edit::Array = items.into_iter().map(|i| i.into_value().unwrap()).collect();
    a.set_trailing_comma(fill.comma);
    a.set_trailing(fill.trailing.as_str());
    toml_edit::Item::Value(toml_edit::Value::Array(a))
}

/// The first `n` entries put together: a later one with the key of an earlier
/// one gives the earlier its node.
pub open spec fn gathered(es: Seq<Et>, n: nat) -> Seq<Et>
    decreases n,
{
    if n == 0 || n > es.len() {
        Seq::empty()
    } else {
        let so_far = gathered(es, (n - 1) as nat);
        let i = slot(so_far, es[n - 1].name.key);
        if 0 <= i < so_far.len() {
            so_far.update(i, Et { name: so_far[i].name, node: es[n - 1].node })
        } else {
            so_far.push(es[n - 1])
        }
    }
}

/// `InlineTable::from_iter`, `set_trailing_comma`, `set_trailing` and
/// `set_dotted`: an inline table of values.
#[verifier::external_body]
fn inline_item(ms: Vec<(toml_edit::Key, toml_edit::Item)>, fill: &Fill, dotted: bool) -> (r:
    toml_edit::Item)
    requires
        forall|i: int|
            0 <= i < ms.len() ==> is_value(item_tree((#[trigger] ms@[i]).1)) && held(
                item_tree(ms@[i].1),
            ),
    ensures
        item_tree(r) == Nd::Table(
            gathered(member_trees(ms@), ms.len() as nat),
            Fm::Inline { fill: fill@, dotted },
            no_decor(),
        ),
{
    let mut t: toml_edit::InlineTable =
        ms.into_iter().map(|(k, i)| (k, i.into_value().unwrap())).collect();
    t.set_trailing_comma(fill.comma);
    t.set_trailing(fill.trailing.as_str());
    t.set_dotted(dotted);
    toml_edit::Item::Value(toml_edit::Value::InlineTable(t))
}

/// `Table::from_iter`, `set_implicit`, `set_dotted` and `set_position`: a standard
/// table.
#[verifier::external_body]
fn table_item(
    ms: Vec<(toml_edit::Key, toml_edit::Item)>,
    implicit: bool,
    dotted: bool,
    position: Option<isize>,
) -> (r: toml_edit::Item)
    requires
        forall|i: int| 0 <= i < ms.len() ==> held(item_tree((#[trigger] ms@[i]).1)),
    ensures
        item_tree(r) == Nd::Table(
            gathered(member_trees(ms@), ms.len() as nat),
            Fm::Header { implicit, dotted, position },
            no_decor(),
        ),
{
    let mut t: toml_edit::Table = ms.into_iter().collect();
    t.set_implicit(implicit);
    t.set_dotted(dotted);
    t.set_position(position);
    toml_edit::Item::Table(t)
}

/// `ArrayOfTables::from_iter`: an array of standard tables.
#[verifier::external_body]
fn tables_item(items: Vec<toml_edit::Item>) -> (r: toml_edit::Item)
    requires
        forall|i: int| 0 <= i < items.len() ==> is_header(#[trigger] item_tree(items@[i])),
    ensures
        item_tree(r) == Nd::Tables(item_trees(items@)),
{
    let tables: toml_edit::ArrayOfTables =
        items.into_iter().map(|i| i.into_table().unwrap()).collect();
    toml_edit::Item::ArrayOfTables(tables)
}

/// `Value::decor_mut` and `Table::decor_mut`: an item with another decor.
#[verifier::external_body]
fn dress(item: toml_edit::Item, decor: &Decor) -> (r: toml_edit::Item)
    requires
        held(item_tree(item)),
    ensures
        item_tree(r) == with_decor(item_tree(item), decor@),
{
    let mut item = item;
    let mut d = toml_edit::Decor::default();
    if let Some(p) = &decor.prefix {
        d.set_prefix(p.as_str());
    }
    if let Some(s) = &decor.suffix {
        d.set_suffix(s.as_str());
    }
    match &mut item {
        toml_edit::Item::Value(v) => *v.decor_mut() = d,
        toml_edit::Item::Table(t) => *t.decor_mut() = d,
        _ => {},
    }
    item
}

/// `Key::new`: a key in its default spelling.
#[verifier::external_body]
fn new_key(text: &str) -> (r: toml_edit::Key)
    ensures
        key_name(r) == fresh_name(text@),
{
    toml_edit::Key::new(text)
}

/// `Key::leaf_decor_mut`: a key with another decor at the end of a path.
#[verifier::external_body]
fn dress_leaf(key: toml_edit::Key, decor: &Decor) -> (r: toml_edit::Key)
    ensures
        key_name(r) == (Nm { leaf: decor@, ..key_name(key) }),
{
    let mut key = key;
    key.leaf_decor_mut().clear();
    if let Some(p) = &decor.prefix {
        key.leaf_decor_mut().set_prefix(p.as_str());
    }
    if let Some(s) = &decor.suffix {
        key.leaf_decor_mut().set_suffix(s.as_str());
    }
    key
}

/// `Key::dotted_decor_mut`: a key with another decor between dots.
#[verifier::external_body]
fn dress_dotted(key: toml_edit::Key, decor: &Decor) -> (r: toml_edit::Key)
    ensures
        key_name(r) == (Nm { dotted: decor@, ..key_name(key) }),
{
    let mut key = key;
    key.dotted_decor_mut().clear();
    if let Some(p) = &decor.prefix {
        key.dotted_decor_mut().set_prefix(p.as_str());
    }
    if let Some(s) = &decor.suffix {
        key.dotted_decor_mut().set_suffix(s.as_str());
    }
    key
}

/// `DocumentMut::to_string`, named by [`toml_text`].
#[verifier::external_body]
fn print(root: toml_edit::Item, trailing: &str) -> (r: String)
    requires
        is_header(item_tree(root)),
    ensures
        r@ == toml_text(item_tree(root), trailing@),
{
    let mut doc = toml_edit::DocumentMut::from(root.into_table().unwrap_or_default());
    doc.set_trailing(trailing);
    doc.to_string()
}

/// The node of an item.
fn read_node(item: &toml_edit::Item) -> (r: Node)
    ensures
        r@ == item_tree(*item),
        sound(r@),
        unique_tree(r@),
    decreases item_tree(*item), 1int,
{
    let ghost t = item_tree(*item);
    match frame(item) {
        Frame::Scalar => Node::Scalar(scalar_value(item), spelling(item), decor_of(item)),
        Frame::Array(fill) => {
            let kids = elements(item);
            let nodes = read_nodes(&kids, Ghost(t));
            Node::Array(nodes, fill, decor_of(item))
        },
        Frame::Tables => {
            let kids = elements(item);
            let nodes = read_nodes(&kids, Ghost(t));
            proof {
                let all = item_trees(kids@);
                assert(all == elements_in(t));
                assert forall|i: int| 0 <= i < all.len() implies sound(#[trigger] all[i])
                    && all[i] is Table by {
                    assert(all[i] == item_tree(kids@[i]));
                }
            }
            Node::Tables(nodes)
        },
        Frame::Table(form) => {
            let kids = members(item);
            let entries = read_entries(&kids, Ghost(t));
            proof {
                let all = member_trees(kids@);
                assert(all == entries_in(t));
                assert forall|i: int, j: int| 0 <= i < j < all.len() implies (
                #[trigger] all[i]).name.key != (#[trigger] all[j]).name.key by {
                    assert(all[i].name == key_name(kids@[i].0));
                    assert(all[j].name == key_name(kids@[j].0));
                }
            }
            Node::Table(entries, form, decor_of(item))
        },
    }
}

fn read_nodes(kids: &Vec<toml_edit::Item>, whole: Ghost<Nd>) -> (r: Vec<Node>)
    requires
        item_trees(kids@) == elements_in(whole@),
        whole@ is Array || whole@ is Tables,
    ensures
        nds(r@) == item_trees(kids@),
        forall|i: int|
            0 <= i < kids.len() ==> sound(#[trigger] item_trees(kids@)[i]) && unique_tree(
                item_trees(kids@)[i],
            ),
    decreases whole@, 0int,
{
    let mut out: Vec<Node> = Vec::new();
    let ghost all = item_trees(kids@);
    let mut i: usize = 0;
    assert(nds(out@) =~= all.take(0));
    while i < kids.len()
        invariant
            i <= kids.len(),
            all == item_trees(kids@),
            all == elements_in(whole@),
            whole@ is Array || whole@ is Tables,
            nds(out@) == all.take(i as int),
            forall|k: int| 0 <= k < i ==> sound(#[trigger] all[k]) && unique_tree(all[k]),
        decreases kids.len() - i,
    {
        assert(item_tree(kids@[i as int]) == all[i as int]);
        assert(decreases_to!(whole@ => all[i as int]));
        out.push(read_node(&kids[i]));
        assert(nds(out@) =~= all.take(i + 1));
        i = i + 1;
    }
    assert(all.take(i as int) =~= all);
    out
}

fn read_entries(kids: &Vec<(toml_edit::Key, toml_edit::Item)>, whole: Ghost<Nd>) -> (r: Vec<Entry>)
    requires
        member_trees(kids@) == entries_in(whole@),
        whole@ is Table,
    ensures
        ets(r@) == member_trees(kids@),
        forall|i: int|
            0 <= i < kids.len() ==> sound((#[trigger] member_trees(kids@)[i]).node) && unique_tree(
                member_trees(kids@)[i].node,
            ),
    decreases whole@, 0int,
{
    let mut out: Vec<Entry> = Vec::new();
    let ghost all = member_trees(kids@);
    let mut i: usize = 0;
    assert(ets(out@) =~= all.take(0));
    while i < kids.len()
        invariant
            i <= kids.len(),
            all == member_trees(kids@),
            all == entries_in(whole@),
            whole@ is Table,
            ets(out@) == all.take(i as int),
            forall|k: int| 0 <= k < i ==> sound((#[trigger] all[k]).node) && unique_tree(all[k].node),
        decreases kids.len() - i,
    {
        assert(all[i as int] == (Et {
            name: key_name(kids@[i as int].0),
            node: item_tree(kids@[i as int].1),
        }));
        assert(decreases_to!(whole@ => all[i as int]));
        assert(decreases_to!(whole@ => all[i as int].node));
        let (key, repr) = key_parts(&kids[i].0);
        let (leaf, dotted) = key_decor(&kids[i].0);
        let e = Entry { name: Name { key, repr, leaf, dotted }, node: read_node(&kids[i].1) };
        out.push(e);
        assert(ets(out@) =~= all.take(i + 1));
        i = i + 1;
    }
    assert(all.take(i as int) =~= all);
    out
}

/// How a float is spelled: a whole number with `.0`, and the names of the
/// special values in lower case.
pub open spec fn float_spelling(f: Flt) -> Seq<char> {
    if is_nan(f.bits) {
        if is_negative(f.bits) {
            "-nan"@
        } else {
            "nan"@
        }
    } else if is_finite(f.bits) && !f.text.contains('.') {
        f.text + ".0"@
    } else {
        f.text
    }
}

fn spell_float(f: &Float) -> (r: String)
    ensures
        r@ == float_spelling(f@),
{
    if nan(f.bits) {
        if f.bits >= 0x8000_0000_0000_0000 {
            "-nan".to_owned()
        } else {
            "nan".to_owned()
        }
    } else if finite(f.bits) && !has_dot(&f.text) {
        cat(&f.text, ".0")
    } else {
        f.text.clone()
    }
}

/// A scalar in its default spelling; a float is spelled out and read.
pub open spec fn plain_tree(v: Val) -> Nd {
    match v {
        Val::Str(_) | Val::Int(_) | Val::Bool(_) => Nd::Scalar(v, None, no_decor()),
        Val::Float(f) => match value_tree(float_spelling(f)) {
            Some(n) => n,
            None => Nd::Scalar(Val::Str(f.text), None, no_decor()),
        },
        _ => Nd::Scalar(Val::Str(Seq::empty()), None, no_decor()),
    }
}

/// A scalar as its source spells it, or in its default spelling.
pub open spec fn scalar_tree(v: Val, repr: Option<Seq<char>>) -> Nd {
    match repr {
        Some(t) => match value_tree(t) {
            Some(n) => n,
            None => plain_tree(v),
        },
        None => plain_tree(v),
    }
}

/// A key as its source spells it, or in its default spelling, with its decor.
pub open spec fn built_name(n: Nm) -> Nm {
    let base = match n.repr {
        Some(t) => match key_tree(t) {
            Some(k) => k,
            None => fresh_name(n.key),
        },
        None => fresh_name(n.key),
    };
    Nm { leaf: n.leaf, dotted: n.dotted, ..base }
}

/// What the printed item holds: each scalar and key is read from its spelling.
/// Only values stand in an array or an inline table, and only standard tables in
/// an array of tables.
pub open spec fn built(n: Nd) -> Nd
    decreases n, 0int, 0int,
{
    match n {
        Nd::Scalar(v, r, d) => with_decor(scalar_tree(v, r), d),
        Nd::Array(a, f, d) => Nd::Array(built_values(a, a.len()), f, d),
        Nd::Table(es, f, d) => {
            let kept = built_entries(es, f is Inline, es.len());
            Nd::Table(gathered(kept, kept.len()), f, d)
        },
        Nd::Tables(a) => Nd::Tables(built_tables(a, a.len())),
    }
}

pub open spec fn built_values(a: Seq<Nd>, n: nat) -> Seq<Nd>
    decreases a, 1int, n,
{
    if n == 0 || n > a.len() {
        Seq::empty()
    } else {
        let so_far = built_values(a, (n - 1) as nat);
        if is_value(built(a[n - 1])) {
            so_far.push(built(a[n - 1]))
        } else {
            so_far
        }
    }
}

pub open spec fn built_tables(a: Seq<Nd>, n: nat) -> Seq<Nd>
    decreases a, 1int, n,
{
    if n == 0 || n > a.len() {
        Seq::empty()
    } else {
        let so_far = built_tables(a, (n - 1) as nat);
        if is_header(built(a[n - 1])) {
            so_far.push(built(a[n - 1]))
        } else {
            so_far
        }
    }
}

pub open spec fn built_entries(es: Seq<Et>, values_only: bool, n: nat) -> Seq<Et>
    decreases es, 1int, n,
{
    if n == 0 || n > es.len() {
        Seq::empty()
    } else {
        let so_far = built_entries(es, values_only, (n - 1) as nat);
        let e = es[n - 1];
        if !values_only || is_value(built(e.node)) {
            so_far.push(Et { name: built_name(e.name), node: built(e.node) })
        } else {
            so_far
        }
    }
}

fn build_plain(v: &Value) -> (r: toml_edit::Item)
    ensures
        item_tree(r) == plain_tree(v@),
        is_value(item_tree(r)),
        held(item_tree(r)),
{
    match plain_item(v) {
        Some(i) => i,
        None => {
            let text = match v {
                Value::Float(f) => {
                    if let Some(i) = read_value(&spell_float(f)) {
                        return i;
                    }
                    f.text.clone()
                },
                _ => {
                    let none = String::new();
                    assert(none@ =~= Seq::<char>::empty());
                    none
                },
            };
            let s = Value::Str(text);
            match plain_item(&s) {
                Some(i) => i,
                None => array_item(Vec::new(), &Fill::none()),
            }
        },
    }
}

fn build_scalar(v: &Value, repr: &Option<String>) -> (r: toml_edit::Item)
    ensures
        item_tree(r) == scalar_tree(v@, opt_text(*repr)),
        is_value(item_tree(r)),
        held(item_tree(r)),
{
    if let Some(t) = repr {
        if let Some(i) = read_value(t) {
            return i;
        }
    }
    build_plain(v)
}

fn build_key(n: &Name) -> (r: toml_edit::Key)
    ensures
        key_name(r) == built_name(n@),
{
    let base = match &n.repr {
        Some(t) => match read_key(t) {
            Some(k) => k,
            None => new_key(&n.key),
        },
        None => new_key(&n.key),
    };
    dress_dotted(dress_leaf(base, &n.leaf), &n.dotted)
}

/// The item of a node.
fn build(n: &Node) -> (r: toml_edit::Item)
    ensures
        item_tree(r) == built(n@),
        held(item_tree(r)),
    decreases n, 1int,
{
    match n {
        Node::Scalar(v, repr, d) => dress(build_scalar(v, repr), d),
        Node::Array(a, f, d) => {
            let kids = build_values(a);
            dress(array_item(kids, f), d)
        },
        Node::Tables(a) => tables_item(build_tables(a)),
        Node::Table(es, f, d) => match f {
            Form::Inline { fill, dotted } => {
                let kids = build_entries(es, true);
                dress(inline_item(kids, fill, *dotted), d)
            },
            Form::Header { implicit, dotted, position } => {
                let kids = build_entries(es, false);
                dress(table_item(kids, *implicit, *dotted, *position), d)
            },
        },
    }
}

fn build_values(a: &Vec<Node>) -> (r: Vec<toml_edit::Item>)
    ensures
        item_trees(r@) == built_values(nds(a@), a.len() as nat),
        forall|i: int|
            0 <= i < r.len() ==> is_value(#[trigger] item_tree(r@[i])) && held(item_tree(r@[i])),
    decreases a, 0int,
{
    let mut out: Vec<toml_edit::Item> = Vec::new();
    let ghost all = nds(a@);
    let mut i: usize = 0;
    assert(item_trees(out@) =~= built_values(all, 0));
    while i < a.len()
        invariant
            i <= a.len(),
            all == nds(a@),
            item_trees(out@) == built_values(all, i as nat),
            forall|j: int|
                0 <= j < out.len() ==> is_value(#[trigger] item_tree(out@[j])) && held(
                    item_tree(out@[j]),
                ),
        decreases a.len() - i,
    {
        assert(all[i as int] == a@[i as int]@);
        let item = build(&a[i]);
        let keep = match frame(&item) {
            Frame::Tables => false,
            Frame::Table(f) => matches!(f, Form::Inline { .. }),
            _ => true,
        };
        if keep {
            let ghost before = item_trees(out@);
            out.push(item);
            assert(item_trees(out@) =~= before.push(item_tree(item)));
        }
        i = i + 1;
    }
    out
}

fn build_tables(a: &Vec<Node>) -> (r: Vec<toml_edit::Item>)
    ensures
        item_trees(r@) == built_tables(nds(a@), a.len() as nat),
        forall|i: int| 0 <= i < r.len() ==> is_header(#[trigger] item_tree(r@[i])),
    decreases a, 0int,
{
    let mut out: Vec<toml_edit::Item> = Vec::new();
    let ghost all = nds(a@);
    let mut i: usize = 0;
    assert(item_trees(out@) =~= built_tables(all, 0));
    while i < a.len()
        invariant
            i <= a.len(),
            all == nds(a@),
            item_trees(out@) == built_tables(all, i as nat),
            forall|j: int| 0 <= j < out.len() ==> is_header(#[trigger] item_tree(out@[j])),
        decreases a.len() - i,
    {
        assert(all[i as int] == a@[i as int]@);
        let item = build(&a[i]);
        let keep = match frame(&item) {
            Frame::Table(f) => matches!(f, Form::Header { .. }),
            _ => false,
        };
        if keep {
            let ghost before = item_trees(out@);
            out.push(item);
            assert(item_trees(out@) =~= before.push(item_tree(item)));
        }
        i = i + 1;
    }
    out
}

fn build_entries(es: &Vec<Entry>, values_only: bool) -> (r: Vec<(toml_edit::Key, toml_edit::Item)>)
    ensures
        member_trees(r@) == built_entries(ets(es@), values_only, es.len() as nat),
        forall|i: int|
            0 <= i < r.len() ==> held(item_tree((#[trigger] r@[i]).1)) && (values_only ==> is_value(
                item_tree(r@[i].1),
            )),
    decreases es, 0int,
{
    let mut out: Vec<(toml_edit::Key, toml_edit::Item)> = Vec::new();
    let ghost all = ets(es@);
    let mut i: usize = 0;
    assert(member_trees(out@) =~= built_entries(all, values_only, 0));
    while i < es.len()
        invariant
            i <= es.len(),
            all == ets(es@),
            member_trees(out@) == built_entries(all, values_only, i as nat),
            forall|j: int|
                0 <= j < out.len() ==> held(item_tree((#[trigger] out@[j]).1)) && (values_only
                    ==> is_value(item_tree(out@[j].1))),
        decreases es.len() - i,
    {
        assert(all[i as int] == es@[i as int]@);
        let item = build(&es[i].node);
        let keep = !values_only || match frame(&item) {
            Frame::Tables => false,
            Frame::Table(f) => matches!(f, Form::Inline { .. }),
            _ => true,
        };
        if keep {
            let ghost before = member_trees(out@);
            let key = build_key(&es[i].name);
            out.push((key, item));
            assert(member_trees(out@) =~= before.push(
                Et { name: key_name(key), node: item_tree(item) },
            ));
        }
        i = i + 1;
    }
    out
}

/// What parsing a text leads to: the tree of the document, or the refusal.
pub open spec fn parsed_view(r: Result<(Node, String), String>) -> Result<
    (Nd, Seq<char>),
    Seq<char>,
> {
    match r {
        Ok(d) => Ok((d.0@, d.1@)),
        Err(m) => Err(m@),
    }
}

/// Parse a text: the root table and the text behind the last line that holds
/// data.
pub fn parse_tree(text: &str) -> (r: Result<(Node, String), String>)
    ensures
        parsed_view(r) == document_tree(text@),
        r is Ok ==> is_header((r->Ok_0).0@) && sound((r->Ok_0).0@) && unique_tree((r->Ok_0).0@),
{
    match read_document(text) {
        Ok((item, trailing)) => Ok((read_node(&item), trailing)),
        Err(m) => Err(m),
    }
}

/// The text of a document.
pub open spec fn printed(root: Nd, trailing: Seq<char>) -> Seq<char> {
    if is_header(root) {
        toml_text(built(root), trailing)
    } else {
        trailing
    }
}

/// Write a document.
pub fn print_tree(root: &Node, trailing: &str) -> (r: String)
    ensures
        r@ == printed(root@, trailing@),
{
    if !root.is_standard() {
        return trailing.to_owned();
    }
    print(build(root), trailing)
}

/// What a spelled string reads as, if it spells a string.
pub open spec fn string_read(text: Seq<char>) -> Option<Seq<char>> {
    match value_tree(text) {
        Some(Nd::Scalar(Val::Str(s), _, _)) => Some(s),
        _ => None,
    }
}

/// Read a spelled string.
pub fn read_string(text: &str) -> (r: Option<String>)
    ensures
        opt_text(r) == string_read(text@),
{
    match read_value(text) {
        None => None,
        Some(i) => match frame(&i) {
            Frame::Scalar => match scalar_value(&i) {
                Value::Str(s) => Some(s),
                _ => None,
            },
            _ => None,
        },
    }
}

} // verus!
