//! KDL trees and the value model.
//!
//! Nodes group by name (repeats are arrays); a node is its children object, its
//! lone argument, its argument array, or, when arguments mix with properties or
//! children, an object with the arguments under the reserved key `"-"`.
use crate::error::{fail, EditError, Er};
use crate::kdl_items::fresh_form;
use crate::kdl_spell::{spell_like, spelled_like};
use crate::kdl_tree::{
    group_kdl_views, kas, kns, no_af, Af, Arg, ArgForm, Id, Ident, Ka, Kd, Kdoc, Kn, Knode, Kv,
    NodeForm, Scalar,
};
use crate::model::{
    array_view, members, members_push, object_view, vals, vals_push, Val, Value,
};
use crate::strs::same;
use crate::value::{clone_values, type_text};
use vstd::prelude::*;

verus! {

broadcast use {group_kdl_views, array_view, object_view, vals_push, members_push};

/// The reserved key holding a mixed node's positional arguments.
pub open spec fn args_key() -> Seq<char> {
    seq!['-']
}

/// The value of a scalar. Integers wider than 64 bits degrade to floats, like JSON
/// parsers do.
pub open spec fn scalar_val(v: Kv) -> Val {
    match v {
        Kv::Str(s) => Val::Str(s),
        Kv::Int(i) => Val::Int(i),
        Kv::Wide(_, Some(f)) => Val::Float(f),
        Kv::Wide(_, None) => Val::Null,
        Kv::Float(f) => Val::Float(f),
        Kv::Bool(b) => Val::Bool(b),
        Kv::Null => Val::Null,
    }
}

/// The values of the arguments among the first `n` entries.
pub open spec fn arg_vals(es: Seq<Ka>, n: nat) -> Seq<Val>
    decreases n,
{
    if n == 0 || n > es.len() {
        Seq::empty()
    } else if es[n - 1].name is None {
        arg_vals(es, (n - 1) as nat).push(scalar_val(es[n - 1].value))
    } else {
        arg_vals(es, (n - 1) as nat)
    }
}

/// The properties among the first `n` entries.
pub open spec fn prop_vals(es: Seq<Ka>, n: nat) -> Seq<(Seq<char>, Val)>
    decreases n,
{
    if n == 0 || n > es.len() {
        Seq::empty()
    } else {
        match es[n - 1].name {
            Some(k) => prop_vals(es, (n - 1) as nat).push((k.value, scalar_val(es[n - 1].value))),
            None => prop_vals(es, (n - 1) as nat),
        }
    }
}

/// One value as itself, several as an array.
pub open spec fn one_or_all(vs: Seq<Val>) -> Val {
    if vs.len() == 1 {
        vs[0]
    } else {
        Val::Array(vs)
    }
}

/// The arguments of a mixed node, under the reserved key.
pub open spec fn arg_member(vs: Seq<Val>) -> Seq<(Seq<char>, Val)> {
    if vs.len() == 0 {
        Seq::empty()
    } else {
        seq![(args_key(), one_or_all(vs))]
    }
}

/// The first position at or after `i` of a group's name, or the length.
pub open spec fn group_from<A>(gs: Seq<(Seq<char>, A)>, name: Seq<char>, i: int) -> int
    decreases gs.len() - i,
{
    if i >= gs.len() {
        gs.len() as int
    } else if gs[i].0 == name {
        i
    } else {
        group_from(gs, name, i + 1)
    }
}

/// The groups with `x` added to the group called `name`, the last one if new.
pub open spec fn grouped_with<A>(gs: Seq<(Seq<char>, Seq<A>)>, name: Seq<char>, x: A) -> Seq<
    (Seq<char>, Seq<A>),
> {
    let i = group_from(gs, name, 0);
    if 0 <= i < gs.len() {
        gs.update(i, (name, gs[i].1.push(x)))
    } else {
        gs.push((name, seq![x]))
    }
}

/// The value of a node.
pub open spec fn node_val(n: Kn) -> Val
    decreases n, 0int, 0int,
{
    let args = arg_vals(n.args, n.args.len());
    let props = prop_vals(n.args, n.args.len());
    match n.children {
        None => if props.len() == 0 {
            if args.len() == 0 {
                Val::Null
            } else {
                one_or_all(args)
            }
        } else {
            Val::Object(arg_member(args) + props)
        },
        Some(d) => Val::Object(arg_member(args) + props + doc_members(d)),
    }
}

/// The members a document's nodes stand for: one per name, in the order the names
/// first appear.
pub open spec fn doc_members(d: Kd) -> Seq<(Seq<char>, Val)>
    decreases d, 2int, 0int,
{
    let gs = groups(d.nodes, d.nodes.len());
    Seq::new(gs.len(), |i: int| (gs[i].0, one_or_all(gs[i].1)))
}

/// The values of the first `n` nodes, grouped by name.
pub open spec fn groups(ns: Seq<Kn>, n: nat) -> Seq<(Seq<char>, Seq<Val>)>
    decreases ns, 1int, n,
{
    if n == 0 || n > ns.len() {
        Seq::empty()
    } else {
        grouped_with(groups(ns, (n - 1) as nat), ns[n - 1].name.value, node_val(ns[n - 1]))
    }
}

/// The value of a document.
pub open spec fn doc_val(d: Kd) -> Val {
    Val::Object(doc_members(d))
}

impl Scalar {
    /// The value of the scalar.
    pub fn project(&self) -> (r: Value)
        ensures
            r@ == scalar_val(self@),
    {
        match self {
            Scalar::Str(s) => Value::Str(s.clone()),
            Scalar::Int(i) => Value::Int(*i),
            Scalar::Wide(_, Some(f)) => Value::Float(f.clone()),
            Scalar::Wide(_, None) => Value::Null,
            Scalar::Float(f) => Value::Float(f.clone()),
            Scalar::Bool(b) => Value::Bool(*b),
            Scalar::Null => Value::Null,
        }
    }
}

fn args_of(es: &Vec<Arg>) -> (r: Vec<Value>)
    ensures
        vals(r@) == arg_vals(kas(es@), es.len() as nat),
{
    let mut out: Vec<Value> = Vec::new();
    let ghost all = kas(es@);
    let mut i: usize = 0;
    assert(vals(out@) =~= arg_vals(all, 0));
    while i < es.len()
        invariant
            i <= es.len(),
            all == kas(es@),
            vals(out@) == arg_vals(all, i as nat),
        decreases es.len() - i,
    {
        assert(all[i as int] == es@[i as int]@);
        if es[i].name.is_none() {
            out.push(es[i].value.project());
        }
        i = i + 1;
    }
    out
}

fn props_of(es: &Vec<Arg>) -> (r: Vec<(String, Value)>)
    ensures
        members(r@) == prop_vals(kas(es@), es.len() as nat),
{
    let mut out: Vec<(String, Value)> = Vec::new();
    let ghost all = kas(es@);
    let mut i: usize = 0;
    assert(members(out@) =~= prop_vals(all, 0));
    while i < es.len()
        invariant
            i <= es.len(),
            all == kas(es@),
            members(out@) == prop_vals(all, i as nat),
        decreases es.len() - i,
    {
        assert(all[i as int] == es@[i as int]@);
        if let Some(k) = &es[i].name {
            out.push((k.value.clone(), es[i].value.project()));
        }
        i = i + 1;
    }
    out
}

fn one_of(vs: Vec<Value>) -> (r: Value)
    ensures
        r@ == one_or_all(vals(vs@)),
{
    if vs.len() == 1 {
        assert(vals(vs@)[0] == vs@[0]@);
        vs[0].clone()
    } else {
        Value::Array(vs)
    }
}

/// The contents of some groups.
spec fn groups_view(s: Seq<(String, Vec<Value>)>) -> Seq<(Seq<char>, Seq<Val>)> {
    Seq::new(s.len(), |i: int| (s[i].0@, vals(s[i].1@)))
}

fn add_to_group(gs: &mut Vec<(String, Vec<Value>)>, name: &str, x: Value)
    ensures
        groups_view(final(gs)@) == grouped_with(groups_view(old(gs)@), name@, x@),
{
    let ghost before = groups_view(gs@);
    let mut i: usize = 0;
    while i < gs.len() && !same(&gs[i].0, name)
        invariant
            i <= gs.len(),
            before == groups_view(gs@),
            group_from(before, name@, 0) == group_from(before, name@, i as int),
        decreases gs.len() - i,
    {
        assert(before[i as int].0 == gs@[i as int].0@);
        i = i + 1;
    }
    if i < gs.len() {
        assert(before[i as int] == (gs@[i as int].0@, vals(gs@[i as int].1@)));
        gs[i].1.push(x);
        assert(groups_view(gs@) =~= before.update(i as int, (name@, before[i as int].1.push(x@))));
    } else {
        let mut vs: Vec<Value> = Vec::new();
        vs.push(x);
        assert(vals(vs@) =~= seq![x@]);
        gs.push((name.to_owned(), vs));
        assert(groups_view(gs@) =~= before.push((name@, seq![x@])));
    }
}

fn append_members(out: &mut Vec<(String, Value)>, more: Vec<(String, Value)>)
    ensures
        members(final(out)@) == members(old(out)@) + members(more@),
{
    let mut more = more;
    let ghost a = members(out@);
    let ghost b = members(more@);
    out.append(&mut more);
    assert(members(out@) =~= a + b);
}

impl Knode {
    /// Project the node onto the value model.
    pub fn project(&self) -> (r: Value)
        ensures
            r@ == node_val(self@),
        decreases self, 0int,
    {
        let args = args_of(&self.args);
        let props = props_of(&self.args);
        if props.len() == 0 && self.children.is_none() {
            assert(members(props@).len() == 0);
            return if args.len() == 0 {
                Value::Null
            } else {
                one_of(args)
            };
        }
        let mut out: Vec<(String, Value)> = Vec::new();
        if args.len() > 0 {
            let ghost vs = vals(args@);
            assert(vs.len() > 0);
            out.push(("-".to_owned(), one_of(args)));
            proof {
                reveal_strlit("-");
                assert("-"@ =~= args_key());
                assert(members(out@) =~= arg_member(vs));
            }
        } else {
            assert(members(out@) =~= arg_member(vals(args@)));
        }
        append_members(&mut out, props);
        if let Some(d) = &self.children {
            let kids = d.project_members();
            append_members(&mut out, kids);
        }
        Value::Object(out)
    }
}

impl Kdoc {
    /// The members the nodes stand for.
    pub fn project_members(&self) -> (r: Vec<(String, Value)>)
        ensures
            members(r@) == doc_members(self@),
        decreases self, 1int,
    {
        let ghost all = kns(self.nodes@);
        let mut gs: Vec<(String, Vec<Value>)> = Vec::new();
        let mut i: usize = 0;
        assert(groups_view(gs@) =~= groups(all, 0));
        while i < self.nodes.len()
            invariant
                i <= self.nodes.len(),
                all == kns(self.nodes@),
                groups_view(gs@) == groups(all, i as nat),
            decreases self.nodes.len() - i,
        {
            assert(all[i as int] == self.nodes@[i as int]@);
            let x = self.nodes[i].project();
            add_to_group(&mut gs, &self.nodes[i].name.value, x);
            i = i + 1;
        }
        let ghost g = groups(all, all.len());
        let ghost want = doc_members(self@);
        let mut out: Vec<(String, Value)> = Vec::new();
        let mut j: usize = 0;
        while j < gs.len()
            invariant
                j <= gs.len(),
                g == groups_view(gs@),
                want.len() == g.len(),
                forall|x: int| 0 <= x < g.len() ==> #[trigger] want[x] == (g[x].0, one_or_all(g[x].1)),
                members(out@) == want.take(j as int),
            decreases gs.len() - j,
        {
            assert(g[j as int] == (gs@[j as int].0@, vals(gs@[j as int].1@)));
            out.push((gs[j].0.clone(), one_of(clone_values(&gs[j].1))));
            assert(members(out@) =~= want.take(j + 1));
            j = j + 1;
        }
        assert(want.take(j as int) =~= want);
        out
    }

    /// Project the document onto the value model.
    pub fn project(&self) -> (r: Value)
        ensures
            r@ == doc_val(self@),
    {
        Value::Object(self.project_members())
    }
}

/// A scalar of the value model; containers have none.
pub open spec fn to_scalar(v: Val) -> Option<Kv> {
    match v {
        Val::Str(s) => Some(Kv::Str(s)),
        Val::Int(i) => Some(Kv::Int(i)),
        Val::Float(f) => Some(Kv::Float(f)),
        Val::Bool(b) => Some(Kv::Bool(b)),
        Val::Null => Some(Kv::Null),
        _ => None,
    }
}

/// The refusal of a container in a scalar's place.
pub open spec fn not_scalar(v: Val) -> Er {
    fail("a KDL argument/property holds a scalar, not "@ + type_text(v))
}

/// The scalar of a value, or the refusal.
pub open spec fn scalar_only_of(v: Val) -> Result<Kv, Er> {
    match to_scalar(v) {
        Some(k) => Ok(k),
        None => Err(not_scalar(v)),
    }
}

/// A fresh positional argument with its own leading space.
pub open spec fn new_arg(v: Kv) -> Ka {
    Ka {
        ty: None,
        name: None,
        value: v,
        form: Some(
            Af { value_repr: spelled_like(Seq::empty(), v), leading: seq![' '], ..no_af() },
        ),
    }
}

/// The view of a scalar or its refusal.
pub open spec fn scalar_view(r: Result<Scalar, EditError>) -> Result<Kv, Er> {
    match r {
        Ok(v) => Ok(v@),
        Err(e) => Err(e@),
    }
}

/// The scalar of a value, or the refusal.
pub fn scalar_only(v: &Value) -> (r: Result<Scalar, EditError>)
    ensures
        scalar_view(r) == scalar_only_of(v@),
{
    match v {
        Value::Str(s) => Ok(Scalar::Str(s.clone())),
        Value::Int(i) => Ok(Scalar::Int(*i)),
        Value::Float(f) => Ok(Scalar::Float(f.clone())),
        Value::Bool(b) => Ok(Scalar::Bool(*b)),
        Value::Null => Ok(Scalar::Null),
        _ => {
            let mut msg = "a KDL argument/property holds a scalar, not ".to_owned();
            msg.append(v.type_label());
            Err(EditError::of(msg))
        },
    }
}

/// A fresh positional argument with its own leading space.
pub fn arg_entry(v: Scalar) -> (r: Arg)
    ensures
        r@ == new_arg(v@),
{
    let none = String::new();
    assert(none@ =~= Seq::<char>::empty());
    let mut form = ArgForm::none();
    form.value_repr = spell_like(&none, &v);
    form.leading = " ".to_owned();
    proof {
        reveal_strlit(" ");
        assert(" "@ =~= seq![' ']);
    }
    Arg { ty: None, name: None, value: v, form: Some(form) }
}

/// A new node without arguments.
pub open spec fn bare_node(name: Seq<char>) -> Kn {
    Kn {
        ty: None,
        name: Id { value: name, repr: None },
        args: Seq::empty(),
        children: None,
        form: Some(fresh_form()),
    }
}

/// The node with the first `n` values as further arguments.
pub open spec fn with_args(node: Kn, vs: Seq<Val>, n: nat) -> Result<Kn, Er>
    decreases n,
{
    if n == 0 || n > vs.len() {
        Ok(node)
    } else {
        match with_args(node, vs, (n - 1) as nat) {
            Err(e) => Err(e),
            Ok(k) => match scalar_only_of(vs[n - 1]) {
                Err(e) => Err(e),
                Ok(x) => Ok(Kn { args: k.args.push(new_arg(x)), ..k }),
            },
        }
    }
}

/// The node with more child nodes.
pub open spec fn with_children(node: Kn, kids: Seq<Kn>) -> Kn {
    if kids.len() == 0 {
        node
    } else {
        let d = match node.children {
            Some(d) => d,
            None => Kd { nodes: Seq::empty(), form: None },
        };
        Kn { children: Some(Kd { nodes: d.nodes + kids, form: d.form }), ..node }
    }
}

/// Does the array hold a container?
pub open spec fn holds_container(a: Seq<Val>) -> bool {
    exists|i: int| 0 <= i < a.len() && ((#[trigger] a[i]) is Object || a[i] is Array)
}

/// A value as fresh nodes called `name`. An array with any object or array in it
/// is one node per element; anything else is one node.
pub open spec fn value_nodes(name: Seq<char>, v: Val) -> Result<Seq<Kn>, Er>
    decreases v, 2int, 0int,
{
    if v is Array && holds_container(v->Array_0) {
        each_node(name, v->Array_0, v->Array_0.len())
    } else {
        match one_node(name, v) {
            Ok(k) => Ok(seq![k]),
            Err(e) => Err(e),
        }
    }
}

/// One node for each of the first `n` values.
pub open spec fn each_node(name: Seq<char>, a: Seq<Val>, n: nat) -> Result<Seq<Kn>, Er>
    decreases a, 1int, n,
{
    if n == 0 || n > a.len() {
        Ok(Seq::empty())
    } else {
        match each_node(name, a, (n - 1) as nat) {
            Err(e) => Err(e),
            Ok(ks) => match one_node(name, a[n - 1]) {
                Err(e) => Err(e),
                Ok(k) => Ok(ks.push(k)),
            },
        }
    }
}

/// Exactly one node from a value: an object's members are its arguments (under
/// `"-"`) and its children, an array's elements are its arguments, a scalar is its
/// one argument, and null gives a bare node.
pub open spec fn one_node(name: Seq<char>, v: Val) -> Result<Kn, Er>
    decreases v, 1int, 0int,
{
    match v {
        Val::Object(m) => members_node(bare_node(name), m, m.len()),
        Val::Array(a) => with_args(bare_node(name), a, a.len()),
        Val::Null => Ok(bare_node(name)),
        _ => with_args(bare_node(name), seq![v], 1),
    }
}

/// The node with the first `n` members of an object.
pub open spec fn members_node(node: Kn, m: Seq<(Seq<char>, Val)>, n: nat) -> Result<Kn, Er>
    decreases m, 1int, n,
{
    if n == 0 || n > m.len() {
        Ok(node)
    } else {
        match members_node(node, m, (n - 1) as nat) {
            Err(e) => Err(e),
            Ok(k) => {
                let (key, v) = m[n - 1];
                if key == args_key() {
                    match v {
                        Val::Array(a) => with_args(k, a, a.len()),
                        _ => with_args(k, seq![v], 1),
                    }
                } else {
                    match value_nodes(key, v) {
                        Err(e) => Err(e),
                        Ok(kids) => Ok(with_children(k, kids)),
                    }
                }
            },
        }
    }
}

/// The view of a node or its refusal.
pub open spec fn node_view(r: Result<Knode, EditError>) -> Result<Kn, Er> {
    match r {
        Ok(n) => Ok(n@),
        Err(e) => Err(e@),
    }
}

/// The view of some nodes or their refusal.
pub open spec fn nodes_view(r: Result<Vec<Knode>, EditError>) -> Result<Seq<Kn>, Er> {
    match r {
        Ok(ns) => Ok(kns(ns@)),
        Err(e) => Err(e@),
    }
}

fn start_node(name: &str) -> (r: Knode)
    ensures
        r@ == bare_node(name@),
{
    let mut form = NodeForm::none();
    form.trailing = "\n".to_owned();
    proof {
        reveal_strlit("\n");
        assert("\n"@ =~= seq!['\n']);
    }
    let r = Knode {
        ty: None,
        name: Ident::plain(name),
        args: Vec::new(),
        children: None,
        form: Some(form),
    };
    assert(kas(r.args@) =~= Seq::<Ka>::empty());
    r
}

fn add_args(node: Knode, vs: &Vec<Value>) -> (r: Result<Knode, EditError>)
    ensures
        node_view(r) == with_args(node@, vals(vs@), vs.len() as nat),
{
    let ghost all = vals(vs@);
    let ghost k0 = node@;
    let mut built = node;
    let mut i: usize = 0;
    while i < vs.len()
        invariant
            i <= vs.len(),
            all == vals(vs@),
            k0 == node@,
            Ok::<Kn, Er>(built@) == with_args(k0, all, i as nat),
        decreases vs.len() - i,
    {
        assert(all[i as int] == vs@[i as int]@);
        match scalar_only(&vs[i]) {
            Err(e) => {
                proof {
                    with_args_stops(k0, all, (i + 1) as nat, all.len());
                }
                return Err(e);
            },
            Ok(x) => {
                built.args.push(arg_entry(x));
            },
        }
        i = i + 1;
    }
    Ok(built)
}

proof fn with_args_stops(node: Kn, vs: Seq<Val>, i: nat, n: nat)
    requires
        i <= n <= vs.len(),
        with_args(node, vs, i) is Err,
    ensures
        with_args(node, vs, n) == with_args(node, vs, i),
    decreases n - i,
{
    if i < n {
        with_args_stops(node, vs, i, (n - 1) as nat);
    }
}

fn add_arg(node: Knode, v: &Value) -> (r: Result<Knode, EditError>)
    ensures
        node_view(r) == with_args(node@, seq![v@], 1),
{
    let mut one: Vec<Value> = Vec::new();
    one.push(v.clone());
    assert(vals(one@) =~= seq![v@]);
    add_args(node, &one)
}

fn has_container(a: &Vec<Value>) -> (r: bool)
    ensures
        r == holds_container(vals(a@)),
{
    let mut i: usize = 0;
    while i < a.len()
        invariant
            i <= a.len(),
            forall|j: int|
                0 <= j < i ==> !((#[trigger] vals(a@)[j]) is Object || vals(a@)[j] is Array),
        decreases a.len() - i,
    {
        assert(vals(a@)[i as int] == a@[i as int]@);
        if matches!(&a[i], Value::Object(_) | Value::Array(_)) {
            return true;
        }
        i = i + 1;
    }
    false
}

/// Build fresh nodes called `name` from a value.
pub fn value_to_nodes(name: &str, v: &Value) -> (r: Result<Vec<Knode>, EditError>)
    ensures
        nodes_view(r) == value_nodes(name@, v@),
    decreases v, 2int,
{
    if let Value::Array(a) = v {
        if has_container(a) {
            return build_each(name, a);
        }
    }
    match build_one(name, v) {
        Err(e) => Err(e),
        Ok(k) => {
            let mut out: Vec<Knode> = Vec::new();
            let ghost x = k@;
            out.push(k);
            assert(kns(out@) =~= seq![x]);
            Ok(out)
        },
    }
}

proof fn each_node_stops(name: Seq<char>, a: Seq<Val>, i: nat, n: nat)
    requires
        i <= n <= a.len(),
        each_node(name, a, i) is Err,
    ensures
        each_node(name, a, n) == each_node(name, a, i),
    decreases n - i,
{
    if i < n {
        each_node_stops(name, a, i, (n - 1) as nat);
    }
}

fn build_each(name: &str, a: &Vec<Value>) -> (r: Result<Vec<Knode>, EditError>)
    ensures
        nodes_view(r) == each_node(name@, vals(a@), a.len() as nat),
    decreases a, 1int,
{
    let ghost all = vals(a@);
    let mut out: Vec<Knode> = Vec::new();
    let mut i: usize = 0;
    assert(kns(out@) =~= Seq::<Kn>::empty());
    while i < a.len()
        invariant
            i <= a.len(),
            all == vals(a@),
            Ok::<Seq<Kn>, Er>(kns(out@)) == each_node(name@, all, i as nat),
        decreases a.len() - i,
    {
        assert(all[i as int] == a@[i as int]@);
        match build_one(name, &a[i]) {
            Err(e) => {
                proof {
                    each_node_stops(name@, all, (i + 1) as nat, all.len());
                }
                return Err(e);
            },
            Ok(k) => {
                out.push(k);
            },
        }
        i = i + 1;
    }
    Ok(out)
}

fn build_one(name: &str, v: &Value) -> (r: Result<Knode, EditError>)
    ensures
        node_view(r) == one_node(name@, v@),
    decreases v, 1int,
{
    let node = start_node(name);
    match v {
        Value::Object(m) => build_members(node, m),
        Value::Array(a) => add_args(node, a),
        Value::Null => Ok(node),
        _ => add_arg(node, v),
    }
}

fn add_children(node: &mut Knode, kids: Vec<Knode>)
    ensures
        final(node)@ == with_children(old(node)@, kns(kids@)),
{
    if kids.len() == 0 {
        return;
    }
    let mut kids = kids;
    let ghost ks = kns(kids@);
    let ghost n0 = node@;
    match &mut node.children {
        Some(d) => {
            let ghost before = kns(d.nodes@);
            d.nodes.append(&mut kids);
            assert(kns(d.nodes@) =~= before + ks);
        },
        None => {
            assert(ks =~= Seq::<Kn>::empty() + ks);
            node.children = Some(Kdoc { nodes: kids, form: None });
        },
    }
}

proof fn members_node_stops(node: Kn, m: Seq<(Seq<char>, Val)>, i: nat, n: nat)
    requires
        i <= n <= m.len(),
        members_node(node, m, i) is Err,
    ensures
        members_node(node, m, n) == members_node(node, m, i),
    decreases n - i,
{
    if i < n {
        members_node_stops(node, m, i, (n - 1) as nat);
    }
}

fn build_members(node: Knode, m: &Vec<(String, Value)>) -> (r: Result<Knode, EditError>)
    ensures
        node_view(r) == members_node(node@, members(m@), m.len() as nat),
    decreases m, 1int,
{
    let ghost all = members(m@);
    let ghost k0 = node@;
    let mut built = node;
    let mut i: usize = 0;
    proof {
        reveal_strlit("-");
        assert("-"@ =~= args_key());
    }
    while i < m.len()
        invariant
            i <= m.len(),
            all == members(m@),
            "-"@ == args_key(),
            k0 == node@,
            Ok::<Kn, Er>(built@) == members_node(k0, all, i as nat),
        decreases m.len() - i,
    {
        assert(all[i as int] == (m@[i as int].0@, m@[i as int].1@));
        if same(&m[i].0, "-") {
            let r = match &m[i].1 {
                Value::Array(a) => add_args(built, a),
                v => add_arg(built, v),
            };
            match r {
                Err(e) => {
                    proof {
                        members_node_stops(k0, all, (i + 1) as nat, all.len());
                    }
                    return Err(e);
                },
                Ok(k) => {
                    built = k;
                },
            }
        } else {
            match value_to_nodes(&m[i].0, &m[i].1) {
                Err(e) => {
                    proof {
                        members_node_stops(k0, all, (i + 1) as nat, all.len());
                    }
                    return Err(e);
                },
                Ok(kids) => {
                    add_children(&mut built, kids);
                },
            }
        }
        i = i + 1;
    }
    Ok(built)
}

} // verus!
