//! TOML trees and the value model: the value of a node, and the node of a value.
use crate::model::{
    array_view, members, members_push, object_view, vals, vals_push, Val, Value,
};
use crate::strs::chars_of;
use crate::toml_tree::{
    ets, fresh_name, group_toml_views, nds, no_decor, no_fill, put, put_entry, Dc, Decor, Entry,
    Et, Fill, Fm, Form, Name, Nd, Nm, Node,
};
use vstd::prelude::*;

verus! {

broadcast use {group_toml_views, array_view, object_view, vals_push, members_push};

/// The value of a node.
pub open spec fn nd_val(n: Nd) -> Val
    decreases n, 0int, 0int,
{
    match n {
        Nd::Scalar(v, _, _) => v,
        Nd::Array(a, _, _) => Val::Array(nd_vals(a, a.len())),
        Nd::Table(es, _, _) => Val::Object(et_vals(es, es.len())),
        Nd::Tables(a) => Val::Array(nd_vals(a, a.len())),
    }
}

/// The values of the first `n` nodes.
pub open spec fn nd_vals(a: Seq<Nd>, n: nat) -> Seq<Val>
    decreases a, 1int, n,
{
    if n == 0 || n > a.len() {
        Seq::empty()
    } else {
        nd_vals(a, (n - 1) as nat).push(nd_val(a[n - 1]))
    }
}

/// The members of the first `n` entries.
pub open spec fn et_vals(es: Seq<Et>, n: nat) -> Seq<(Seq<char>, Val)>
    decreases es, 1int, n,
{
    if n == 0 || n > es.len() {
        Seq::empty()
    } else {
        et_vals(es, (n - 1) as nat).push((es[n - 1].name.key, nd_val(es[n - 1].node)))
    }
}

impl Node {
    /// Project the node onto the value model.
    pub fn project(&self) -> (r: Value)
        ensures
            r@ == nd_val(self@),
        decreases self, 1int,
    {
        match self {
            Node::Scalar(v, _, _) => v.clone(),
            Node::Array(a, _, _) => Value::Array(project_all(a)),
            Node::Tables(a) => Value::Array(project_all(a)),
            Node::Table(es, _, _) => Value::Object(project_entries(es)),
        }
    }
}

/// Project some nodes onto the value model.
pub fn project_all(a: &Vec<Node>) -> (r: Vec<Value>)
    ensures
        vals(r@) == nd_vals(nds(a@), a.len() as nat),
    decreases a, 0int,
{
    let mut out: Vec<Value> = Vec::new();
    let ghost all = nds(a@);
    let mut i: usize = 0;
    assert(vals(out@) =~= nd_vals(all, 0));
    while i < a.len()
        invariant
            i <= a.len(),
            all == nds(a@),
            vals(out@) == nd_vals(all, i as nat),
        decreases a.len() - i,
    {
        assert(all[i as int] == a@[i as int]@);
        out.push(a[i].project());
        i = i + 1;
    }
    out
}

/// Project the entries of a table onto the value model.
pub fn project_entries(es: &Vec<Entry>) -> (r: Vec<(String, Value)>)
    ensures
        members(r@) == et_vals(ets(es@), es.len() as nat),
    decreases es, 0int,
{
    let mut out: Vec<(String, Value)> = Vec::new();
    let ghost all = ets(es@);
    let mut i: usize = 0;
    assert(members(out@) =~= et_vals(all, 0));
    while i < es.len()
        invariant
            i <= es.len(),
            all == ets(es@),
            members(out@) == et_vals(all, i as nat),
        decreases es.len() - i,
    {
        assert(all[i as int] == es@[i as int]@);
        out.push((es[i].name.key.clone(), es[i].node.project()));
        i = i + 1;
    }
    out
}

/// Is a null anywhere in the value?
pub open spec fn holds_null(v: Val) -> bool
    decreases v, 0int, 0int,
{
    match v {
        Val::Null => true,
        Val::Array(a) => null_within(a, a.len()),
        Val::Object(m) => null_member(m, m.len()),
        _ => false,
    }
}

/// Is a null anywhere in the first `n` values?
pub open spec fn null_within(a: Seq<Val>, n: nat) -> bool
    decreases a, 1int, n,
{
    if n == 0 || n > a.len() {
        false
    } else {
        null_within(a, (n - 1) as nat) || holds_null(a[n - 1])
    }
}

/// Is a null anywhere in the first `n` members?
pub open spec fn null_member(m: Seq<(Seq<char>, Val)>, n: nat) -> bool
    decreases m, 1int, n,
{
    if n == 0 || n > m.len() {
        false
    } else {
        null_member(m, (n - 1) as nat) || holds_null(m[n - 1].1)
    }
}

/// Is a null anywhere in the value?
pub fn has_null(v: &Value) -> (r: bool)
    ensures
        r == holds_null(v@),
    decreases v, 1int,
{
    match v {
        Value::Null => true,
        Value::Array(a) => any_null(a),
        Value::Object(m) => any_null_member(m),
        _ => false,
    }
}

/// Is a null anywhere in the values?
pub fn any_null(a: &Vec<Value>) -> (r: bool)
    ensures
        r == null_within(vals(a@), a.len() as nat),
    decreases a, 0int,
{
    let mut found = false;
    let ghost all = vals(a@);
    let mut i: usize = 0;
    while i < a.len()
        invariant
            i <= a.len(),
            all == vals(a@),
            found == null_within(all, i as nat),
        decreases a.len() - i,
    {
        assert(all[i as int] == a@[i as int]@);
        found = has_null(&a[i]) || found;
        i = i + 1;
    }
    found
}

fn any_null_member(m: &Vec<(String, Value)>) -> (r: bool)
    ensures
        r == null_member(members(m@), m.len() as nat),
    decreases m, 0int,
{
    let mut found = false;
    let ghost all = members(m@);
    let mut i: usize = 0;
    while i < m.len()
        invariant
            i <= m.len(),
            all == members(m@),
            found == null_member(all, i as nat),
        decreases m.len() - i,
    {
        assert(all[i as int].1 == m@[i as int].1@);
        found = has_null(&m[i].1) || found;
        i = i + 1;
    }
    found
}

/// A value in a value's place: an object is an inline table.
pub open spec fn value_nd(v: Val) -> Nd
    decreases v, 0int, 0int,
{
    match v {
        Val::Array(a) => Nd::Array(value_nds(a, a.len()), no_fill(), no_decor()),
        Val::Object(m) => Nd::Table(
            value_ets(m, m.len()),
            Fm::Inline { fill: no_fill(), dotted: false },
            no_decor(),
        ),
        _ => Nd::Scalar(v, None, no_decor()),
    }
}

/// The first `n` values in a value's place.
pub open spec fn value_nds(a: Seq<Val>, n: nat) -> Seq<Nd>
    decreases a, 1int, n,
{
    if n == 0 || n > a.len() {
        Seq::empty()
    } else {
        value_nds(a, (n - 1) as nat).push(value_nd(a[n - 1]))
    }
}

/// The first `n` members as entries of an inline table.
pub open spec fn value_ets(m: Seq<(Seq<char>, Val)>, n: nat) -> Seq<Et>
    decreases m, 1int, n,
{
    if n == 0 || n > m.len() {
        Seq::empty()
    } else {
        put(
            value_ets(m, (n - 1) as nat),
            Et { name: fresh_name(m[n - 1].0), node: value_nd(m[n - 1].1) },
        )
    }
}

/// The node of a value in a value's place.
pub fn value_node(v: &Value) -> (r: Node)
    ensures
        r@ == value_nd(v@),
    decreases v, 1int,
{
    match v {
        Value::Array(a) => Node::Array(value_nodes(a), Fill::none(), Decor::none()),
        Value::Object(m) => Node::Table(
            value_entries(m),
            Form::Inline { fill: Fill::none(), dotted: false },
            Decor::none(),
        ),
        _ => Node::Scalar(v.clone(), None, Decor::none()),
    }
}

fn value_nodes(a: &Vec<Value>) -> (r: Vec<Node>)
    ensures
        nds(r@) == value_nds(vals(a@), a.len() as nat),
    decreases a, 0int,
{
    let mut out: Vec<Node> = Vec::new();
    let ghost all = vals(a@);
    let mut i: usize = 0;
    assert(nds(out@) =~= value_nds(all, 0));
    while i < a.len()
        invariant
            i <= a.len(),
            all == vals(a@),
            nds(out@) == value_nds(all, i as nat),
        decreases a.len() - i,
    {
        assert(all[i as int] == a@[i as int]@);
        out.push(value_node(&a[i]));
        i = i + 1;
    }
    out
}

fn value_entries(m: &Vec<(String, Value)>) -> (r: Vec<Entry>)
    ensures
        ets(r@) == value_ets(members(m@), m.len() as nat),
    decreases m, 0int,
{
    let mut out: Vec<Entry> = Vec::new();
    let ghost all = members(m@);
    let mut i: usize = 0;
    assert(ets(out@) =~= value_ets(all, 0));
    while i < m.len()
        invariant
            i <= m.len(),
            all == members(m@),
            ets(out@) == value_ets(all, i as nat),
        decreases m.len() - i,
    {
        assert(all[i as int] == (m@[i as int].0@, m@[i as int].1@));
        put_entry(&mut out, Entry { name: Name::fresh(&m[i].0), node: value_node(&m[i].1) });
        i = i + 1;
    }
    out
}

/// A standard table that nothing places.
pub open spec fn plain_header() -> Fm {
    Fm::Header { implicit: false, dotted: false, position: None }
}

/// A value in a table's place: an object is a standard table, and the objects
/// in it are its sub-tables.
pub open spec fn table_nd(v: Val) -> Nd
    decreases v, 0int, 0int,
{
    match v {
        Val::Object(m) => Nd::Table(table_ets(m, m.len()), plain_header(), no_decor()),
        _ => value_nd(v),
    }
}

/// The first `n` members as entries of a standard table.
pub open spec fn table_ets(m: Seq<(Seq<char>, Val)>, n: nat) -> Seq<Et>
    decreases m, 1int, n,
{
    if n == 0 || n > m.len() {
        Seq::empty()
    } else {
        put(
            table_ets(m, (n - 1) as nat),
            Et { name: fresh_name(m[n - 1].0), node: table_nd(m[n - 1].1) },
        )
    }
}

/// The node of a value in a table's place.
pub fn table_node(v: &Value) -> (r: Node)
    ensures
        r@ == table_nd(v@),
    decreases v, 1int,
{
    match v {
        Value::Object(m) => Node::Table(
            table_entries(m),
            Form::Header { implicit: false, dotted: false, position: None },
            Decor::none(),
        ),
        _ => value_node(v),
    }
}

/// The entries of a standard table with the given members.
pub fn table_entries(m: &Vec<(String, Value)>) -> (r: Vec<Entry>)
    ensures
        ets(r@) == table_ets(members(m@), m.len() as nat),
    decreases m, 0int,
{
    let mut out: Vec<Entry> = Vec::new();
    let ghost all = members(m@);
    let mut i: usize = 0;
    assert(ets(out@) =~= table_ets(all, 0));
    while i < m.len()
        invariant
            i <= m.len(),
            all == members(m@),
            ets(out@) == table_ets(all, i as nat),
        decreases m.len() - i,
    {
        assert(all[i as int] == (m@[i as int].0@, m@[i as int].1@));
        put_entry(&mut out, Entry { name: Name::fresh(&m[i].0), node: table_node(&m[i].1) });
        i = i + 1;
    }
    out
}

/// Does the text hold a `#`? Decor holds only white space and comments, so a `#`
/// in it is a comment.
pub open spec fn hashed(s: Seq<char>) -> bool {
    s.contains('#')
}

/// Does the decor hold a comment?
pub open spec fn noted(d: Dc) -> bool {
    (d.prefix is Some && hashed(d.prefix->0)) || (d.suffix is Some && hashed(d.suffix->0))
}

/// Does any decor of a key hold a comment?
pub open spec fn name_noted(n: Nm) -> bool {
    noted(n.leaf) || noted(n.dotted)
}

/// Does any decor in the node hold a comment?
pub open spec fn nd_noted(n: Nd) -> bool
    decreases n, 0int, 0int,
{
    match n {
        Nd::Scalar(_, _, d) => noted(d),
        Nd::Array(a, f, d) => noted(d) || hashed(f.trailing) || nds_noted(a, a.len()),
        Nd::Table(es, f, d) => noted(d) || (f is Inline && hashed(f->fill.trailing)) || ets_noted(
            es,
            es.len(),
        ),
        Nd::Tables(a) => nds_noted(a, a.len()),
    }
}

pub open spec fn nds_noted(a: Seq<Nd>, n: nat) -> bool
    decreases a, 1int, n,
{
    if n == 0 || n > a.len() {
        false
    } else {
        nds_noted(a, (n - 1) as nat) || nd_noted(a[n - 1])
    }
}

pub open spec fn ets_noted(es: Seq<Et>, n: nat) -> bool
    decreases es, 1int, n,
{
    if n == 0 || n > es.len() {
        false
    } else {
        ets_noted(es, (n - 1) as nat) || name_noted(es[n - 1].name) || nd_noted(es[n - 1].node)
    }
}

/// Does the text hold a `#`?
pub fn has_hash(s: &str) -> (r: bool)
    ensures
        r == hashed(s@),
{
    let cs = chars_of(s);
    let mut i: usize = 0;
    while i < cs.len()
        invariant
            i <= cs.len(),
            cs@ == s@,
            forall|j: int| 0 <= j < i ==> cs@[j] != '#',
        decreases cs.len() - i,
    {
        if cs[i] == '#' {
            assert(s@[i as int] == '#');
            return true;
        }
        i = i + 1;
    }
    false
}

impl Decor {
    /// Does the decor hold a comment?
    pub fn has_comment(&self) -> (r: bool)
        ensures
            r == noted(self@),
    {
        let before = match &self.prefix {
            Some(p) => has_hash(p),
            None => false,
        };
        let behind = match &self.suffix {
            Some(s) => has_hash(s),
            None => false,
        };
        before || behind
    }
}

impl Node {
    /// Does any decor in the node hold a comment?
    pub fn has_comment(&self) -> (r: bool)
        ensures
            r == nd_noted(self@),
        decreases self, 1int,
    {
        match self {
            Node::Scalar(_, _, d) => d.has_comment(),
            Node::Array(a, f, d) => d.has_comment() || has_hash(&f.trailing) || any_comment(a),
            Node::Tables(a) => any_comment(a),
            Node::Table(es, f, d) => {
                let filled = match f {
                    Form::Inline { fill, .. } => has_hash(&fill.trailing),
                    Form::Header { .. } => false,
                };
                d.has_comment() || filled || any_entry_comment(es)
            },
        }
    }
}

fn any_comment(a: &Vec<Node>) -> (r: bool)
    ensures
        r == nds_noted(nds(a@), a.len() as nat),
    decreases a, 0int,
{
    let mut found = false;
    let ghost all = nds(a@);
    let mut i: usize = 0;
    while i < a.len()
        invariant
            i <= a.len(),
            all == nds(a@),
            found == nds_noted(all, i as nat),
        decreases a.len() - i,
    {
        assert(all[i as int] == a@[i as int]@);
        found = a[i].has_comment() || found;
        i = i + 1;
    }
    found
}

fn any_entry_comment(es: &Vec<Entry>) -> (r: bool)
    ensures
        r == ets_noted(ets(es@), es.len() as nat),
    decreases es, 0int,
{
    let mut found = false;
    let ghost all = ets(es@);
    let mut i: usize = 0;
    while i < es.len()
        invariant
            i <= es.len(),
            all == ets(es@),
            found == ets_noted(all, i as nat),
        decreases es.len() - i,
    {
        assert(all[i as int] == es@[i as int]@);
        let name = es[i].name.leaf.has_comment() || es[i].name.dotted.has_comment();
        found = es[i].node.has_comment() || name || found;
        i = i + 1;
    }
    found
}

} // verus!
