//! Edits of a KDL tree.
//!
//! Edits are surgical: set an argument or property in place (only its value text
//! changes), create a leaf node, delete a node, property or argument, extend a run
//! of repeated nodes. Replacing a whole node body wholesale is refused rather than
//! reflowed.
use crate::error::{fail, EditError, Er};
use crate::float::{is_nan, is_zero, nan, zero};
use crate::index::{resolve_index, resolved};
use crate::kdl_items::{format_node, formatted, fresh, fresh_all, fresh_arg, repeated};
use crate::kdl_nodes::{
    arg_entry, args_key, bare_node, each_node, holds_container, members_node, new_arg, one_node,
    scalar_only, scalar_only_of, value_nodes, with_args,
};
use crate::kdl_spell::{spell_like, spelled_like};
use crate::kdl_tree::{
    group_kdl_views, kas, kns, opt_df, Af, Arg, Df, DocForm, Ka, Kd, Kdoc, Kn, Knode, Kv, Nf,
    NodeForm, Scalar,
};
use crate::model::{array_view, opt_text, vals, Val, Value};
use crate::mutate::{attempt, done};
use crate::strs::{cat, chars_of, same, slice_text};
use crate::text::blank;
use crate::toml_notes::all_blank;
use crate::toml_spell::{find_last_break, last_break, last_break_bounds};
use vstd::prelude::*;

verus! {

broadcast use {group_kdl_views, array_view};

/// A double with its special values replaced: an infinity by the largest number of
/// its sign, `NaN` by zero.
pub open spec fn tamed(bits: u64) -> u64 {
    if is_nan(bits) {
        0
    } else if bits == 0x7ff0_0000_0000_0000 {
        0x7fef_ffff_ffff_ffff
    } else if bits == 0xfff0_0000_0000_0000 {
        0xffef_ffff_ffff_ffff
    } else {
        bits
    }
}

/// Are the two scalars equal? Types are told apart, `0.0` and `-0.0` are not.
pub open spec fn kv_same(a: Kv, b: Kv) -> bool {
    match (a, b) {
        (Kv::Str(x), Kv::Str(y)) => x == y,
        (Kv::Int(x), Kv::Int(y)) => x == y,
        (Kv::Wide(x, _), Kv::Wide(y, _)) => x == y,
        (Kv::Float(x), Kv::Float(y)) => tamed(x.bits) == tamed(y.bits) || (is_zero(tamed(x.bits))
            && is_zero(tamed(y.bits))),
        (Kv::Bool(x), Kv::Bool(y)) => x == y,
        (Kv::Null, Kv::Null) => true,
        _ => false,
    }
}

fn tame(bits: u64) -> (r: u64)
    ensures
        r == tamed(bits),
{
    if nan(bits) {
        0
    } else if bits == 0x7ff0_0000_0000_0000 {
        0x7fef_ffff_ffff_ffff
    } else if bits == 0xfff0_0000_0000_0000 {
        0xffef_ffff_ffff_ffff
    } else {
        bits
    }
}

fn same_scalar(a: &Scalar, b: &Scalar) -> (r: bool)
    ensures
        r == kv_same(a@, b@),
{
    match (a, b) {
        (Scalar::Str(x), Scalar::Str(y)) => same(x, y),
        (Scalar::Int(x), Scalar::Int(y)) => *x == *y,
        (Scalar::Wide(x, _), Scalar::Wide(y, _)) => *x == *y,
        (Scalar::Float(x), Scalar::Float(y)) => tame(x.bits) == tame(y.bits) || (zero(
            tame(x.bits),
        ) && zero(tame(y.bits))),
        (Scalar::Bool(x), Scalar::Bool(y)) => *x == *y,
        (Scalar::Null, Scalar::Null) => true,
        _ => false,
    }
}

/// The entry with another value, spelled like the one it had.
pub open spec fn revalued(a: Ka, v: Kv) -> Ka {
    Ka {
        value: v,
        form: match a.form {
            Some(f) => Some(Af { value_repr: spelled_like(f.value_repr, v), ..f }),
            None => None,
        },
        ..a
    }
}

pub fn set_entry_value(a: &mut Arg, v: Scalar)
    ensures
        final(a)@ == revalued(old(a)@, v@),
{
    if let Some(f) = &mut a.form {
        let text = spell_like(&f.value_repr, &v);
        f.value_repr = text;
    }
    a.value = v;
}

/// The positions of the arguments among the first `n` entries.
pub open spec fn arg_slots(es: Seq<Ka>, n: nat) -> Seq<int>
    decreases n,
{
    if n == 0 || n > es.len() {
        Seq::empty()
    } else if es[n - 1].name is None {
        arg_slots(es, (n - 1) as nat).push(n - 1)
    } else {
        arg_slots(es, (n - 1) as nat)
    }
}

/// The contents of a list of positions.
pub open spec fn ints(s: Seq<usize>) -> Seq<int> {
    Seq::new(s.len(), |i: int| s[i] as int)
}

/// Argument positions are positions, in ascending order, and of arguments.
pub proof fn arg_slots_bounds(es: Seq<Ka>, n: nat)
    requires
        n <= es.len(),
    ensures
        arg_slots(es, n).len() <= n,
        forall|i: int|
            0 <= i < arg_slots(es, n).len() ==> 0 <= #[trigger] arg_slots(es, n)[i] < n
                && es[arg_slots(es, n)[i]].name is None,
        forall|i: int, j: int|
            0 <= i < j < arg_slots(es, n).len() ==> arg_slots(es, n)[i] < arg_slots(es, n)[j],
    decreases n,
{
    if n > 0 {
        arg_slots_bounds(es, (n - 1) as nat);
    }
}

pub fn find_args(es: &Vec<Arg>) -> (r: Vec<usize>)
    ensures
        ints(r@) == arg_slots(kas(es@), es.len() as nat),
        forall|i: int| 0 <= i < r.len() ==> #[trigger] r@[i] < es.len(),
{
    let mut out: Vec<usize> = Vec::new();
    let ghost all = kas(es@);
    let mut i: usize = 0;
    assert(ints(out@) =~= arg_slots(all, 0));
    while i < es.len()
        invariant
            i <= es.len(),
            all == kas(es@),
            ints(out@) == arg_slots(all, i as nat),
            forall|j: int| 0 <= j < out.len() ==> #[trigger] out@[j] < es.len(),
        decreases es.len() - i,
    {
        assert(all[i as int] == es@[i as int]@);
        if es[i].name.is_none() {
            let ghost before = ints(out@);
            out.push(i);
            assert(ints(out@) =~= before.push(i as int));
        }
        i = i + 1;
    }
    out
}

/// The scalars of the first `n` values.
pub open spec fn scalars_of(vs: Seq<Val>, n: nat) -> Result<Seq<Kv>, Er>
    decreases n,
{
    if n == 0 || n > vs.len() {
        Ok(Seq::empty())
    } else {
        match scalars_of(vs, (n - 1) as nat) {
            Err(e) => Err(e),
            Ok(s) => match scalar_only_of(vs[n - 1]) {
                Err(e) => Err(e),
                Ok(k) => Ok(s.push(k)),
            },
        }
    }
}

/// The row of scalars a value stands for: an array's elements, or the one value.
pub open spec fn row_of(v: Val) -> Result<Seq<Kv>, Er> {
    match v {
        Val::Array(a) => scalars_of(a, a.len()),
        _ => scalars_of(seq![v], 1),
    }
}

/// The contents of a row of scalars.
pub open spec fn kvs(s: Seq<Scalar>) -> Seq<Kv> {
    Seq::new(s.len(), |i: int| s[i]@)
}

/// The view of a row or its refusal.
spec fn row_view(r: Result<Vec<Scalar>, EditError>) -> Result<Seq<Kv>, Er> {
    match r {
        Ok(s) => Ok(kvs(s@)),
        Err(e) => Err(e@),
    }
}

proof fn scalars_stop(vs: Seq<Val>, i: nat, n: nat)
    requires
        i <= n <= vs.len(),
        scalars_of(vs, i) is Err,
    ensures
        scalars_of(vs, n) == scalars_of(vs, i),
    decreases n - i,
{
    if i < n {
        scalars_stop(vs, i, (n - 1) as nat);
    }
}

fn scalars(vs: &Vec<Value>) -> (r: Result<Vec<Scalar>, EditError>)
    ensures
        row_view(r) == scalars_of(vals(vs@), vs.len() as nat),
{
    let ghost all = vals(vs@);
    let mut out: Vec<Scalar> = Vec::new();
    let mut i: usize = 0;
    assert(kvs(out@) =~= Seq::<Kv>::empty());
    while i < vs.len()
        invariant
            i <= vs.len(),
            all == vals(vs@),
            Ok::<Seq<Kv>, Er>(kvs(out@)) == scalars_of(all, i as nat),
        decreases vs.len() - i,
    {
        assert(all[i as int] == vs@[i as int]@);
        match scalar_only(&vs[i]) {
            Err(e) => {
                proof {
                    scalars_stop(all, (i + 1) as nat, all.len());
                }
                return Err(e);
            },
            Ok(x) => {
                let ghost before = kvs(out@);
                let ghost k = x@;
                out.push(x);
                assert(kvs(out@) =~= before.push(k));
            },
        }
        i = i + 1;
    }
    Ok(out)
}

fn scalar_row(v: &Value) -> (r: Result<Vec<Scalar>, EditError>)
    ensures
        row_view(r) == row_of(v@),
{
    match v {
        Value::Array(a) => scalars(a),
        _ => {
            let mut one: Vec<Value> = Vec::new();
            one.push(v.clone());
            assert(vals(one@) =~= seq![v@]);
            scalars(&one)
        },
    }
}

/// Do the entries at `slots` hold the first of the new values?
pub open spec fn row_extends(es: Seq<Ka>, slots: Seq<int>, new: Seq<Kv>) -> bool {
    slots.len() <= new.len() && forall|i: int|
        0 <= i < slots.len() ==> kv_same(es[#[trigger] slots[i]].value, new[i])
}

/// The entries with the new values from `from` to `n` as further arguments.
pub open spec fn row_pushed(es: Seq<Ka>, new: Seq<Kv>, from: int, n: int) -> Seq<Ka>
    decreases n - from,
{
    if n <= from || n > new.len() {
        es
    } else {
        row_pushed(es, new, from, n - 1).push(new_arg(new[n - 1]))
    }
}

/// The entries at the first `n` slots with their new values.
pub open spec fn row_updated(es: Seq<Ka>, slots: Seq<int>, new: Seq<Kv>, n: nat) -> Seq<Ka>
    decreases n,
{
    if n == 0 || n > slots.len() {
        es
    } else {
        let so_far = row_updated(es, slots, new, (n - 1) as nat);
        let i = slots[n - 1];
        so_far.update(i, revalued(so_far[i], new[n - 1]))
    }
}

/// The properties among the first `n` entries.
pub open spec fn props_only(es: Seq<Ka>, n: nat) -> Seq<Ka>
    decreases n,
{
    if n == 0 || n > es.len() {
        Seq::empty()
    } else if es[n - 1].name is Some {
        props_only(es, (n - 1) as nat).push(es[n - 1])
    } else {
        props_only(es, (n - 1) as nat)
    }
}

/// A node's entries with its arguments replaced. Where the new row starts with the
/// current arguments, the rest is appended and the entries stay as they are; a row
/// of the same length updates each argument in place; otherwise the row is rebuilt
/// and the properties stay untouched.
pub open spec fn row_replaced(es: Seq<Ka>, new: Seq<Kv>) -> Seq<Ka> {
    let slots = arg_slots(es, es.len());
    if row_extends(es, slots, new) {
        row_pushed(es, new, slots.len() as int, new.len() as int)
    } else if slots.len() == new.len() {
        row_updated(es, slots, new, slots.len())
    } else {
        row_pushed(props_only(es, es.len()), new, 0, new.len() as int)
    }
}

/// The node with its arguments replaced.
pub open spec fn args_replaced(n: Kn, v: Val) -> Result<Kn, Er> {
    match row_of(v) {
        Err(e) => Err(e),
        Ok(new) => Ok(Kn { args: row_replaced(n.args, new), ..n }),
    }
}

fn push_row(es: &mut Vec<Arg>, new: &Vec<Scalar>, from: usize)
    requires
        from <= new.len(),
    ensures
        kas(final(es)@) == row_pushed(kas(old(es)@), kvs(new@), from as int, new.len() as int),
{
    let ghost e0 = kas(es@);
    let ghost all = kvs(new@);
    let mut i: usize = from;
    while i < new.len()
        invariant
            from <= i <= new.len(),
            all == kvs(new@),
            kas(es@) == row_pushed(e0, all, from as int, i as int),
        decreases new.len() - i,
    {
        assert(all[i as int] == new@[i as int]@);
        es.push(arg_entry(new[i].clone()));
        i = i + 1;
    }
}

pub fn drop_args(es: &mut Vec<Arg>)
    ensures
        kas(final(es)@) == props_only(kas(old(es)@), old(es).len() as nat),
{
    let ghost all = kas(es@);
    let n: usize = es.len();
    let mut seen: usize = 0;
    let mut at: usize = 0;
    assert(kas(es@) =~= props_only(all, 0) + all.skip(0));
    while seen < n
        invariant
            seen <= n == all.len(),
            es.len() == at + (n - seen),
            at == props_only(all, seen as nat).len(),
            kas(es@) == props_only(all, seen as nat) + all.skip(seen as int),
        decreases n - seen,
    {
        let ghost now = kas(es@);
        assert(now[at as int] == all[seen as int]);
        assert(now[at as int] == es@[at as int]@);
        if es[at].name.is_some() {
            at = at + 1;
        } else {
            es.remove(at);
            assert(kas(es@) =~= now.remove(at as int));
        }
        seen = seen + 1;
        assert(kas(es@) =~= props_only(all, seen as nat) + all.skip(seen as int));
    }
    assert(kas(es@) =~= props_only(all, n as nat));
}

fn row_is_extension(es: &Vec<Arg>, slots: &Vec<usize>, new: &Vec<Scalar>) -> (r: bool)
    requires
        forall|i: int| 0 <= i < slots.len() ==> #[trigger] slots@[i] < es.len(),
    ensures
        r == row_extends(kas(es@), ints(slots@), kvs(new@)),
{
    if slots.len() > new.len() {
        return false;
    }
    let mut i: usize = 0;
    while i < slots.len()
        invariant
            i <= slots.len() <= new.len(),
            forall|j: int| 0 <= j < slots.len() ==> #[trigger] slots@[j] < es.len(),
            forall|j: int|
                0 <= j < i ==> kv_same(
                    kas(es@)[#[trigger] ints(slots@)[j]].value,
                    kvs(new@)[j],
                ),
        decreases slots.len() - i,
    {
        let at: usize = slots[i];
        assert(ints(slots@)[i as int] == at);
        assert(kas(es@)[at as int] == es@[at as int]@);
        assert(kvs(new@)[i as int] == new@[i as int]@);
        if !same_scalar(&es[at].value, &new[i]) {
            return false;
        }
        i = i + 1;
    }
    true
}

fn update_row(es: &mut Vec<Arg>, slots: &Vec<usize>, new: &Vec<Scalar>)
    requires
        slots.len() == new.len(),
        forall|i: int| 0 <= i < slots.len() ==> #[trigger] slots@[i] < old(es).len(),
    ensures
        kas(final(es)@) == row_updated(
            kas(old(es)@),
            ints(slots@),
            kvs(new@),
            slots.len() as nat,
        ),
{
    let ghost e0 = kas(es@);
    let n: usize = es.len();
    let mut i: usize = 0;
    while i < slots.len()
        invariant
            i <= slots.len() == new.len(),
            es.len() == n,
            forall|j: int| 0 <= j < slots.len() ==> #[trigger] slots@[j] < n,
            kas(es@) == row_updated(e0, ints(slots@), kvs(new@), i as nat),
        decreases slots.len() - i,
    {
        let at: usize = slots[i];
        let ghost before = kas(es@);
        assert(ints(slots@)[i as int] == at);
        assert(before[at as int] == es@[at as int]@);
        assert(kvs(new@)[i as int] == new@[i as int]@);
        set_entry_value(&mut es[at], new[i].clone());
        assert(kas(es@) =~= before.update(at as int, es@[at as int]@));
        i = i + 1;
    }
}

pub fn replace_args(n: &mut Knode, v: &Value) -> (r: Result<(), EditError>)
    ensures
        (final(n)@, done(r)) == attempt(old(n)@, args_replaced(old(n)@, v@)),
{
    let new = scalar_row(v)?;
    let slots = find_args(&n.args);
    if row_is_extension(&n.args, &slots, &new) {
        push_row(&mut n.args, &new, slots.len());
    } else if slots.len() == new.len() {
        update_row(&mut n.args, &slots, &new);
    } else {
        drop_args(&mut n.args);
        push_row(&mut n.args, &new, 0);
    }
    Ok(())
}

/// The node with argument `i` set.
pub open spec fn arg_set(n: Kn, i: int, v: Val) -> Result<Kn, Er> {
    let slots = arg_slots(n.args, n.args.len());
    match resolved(i, slots.len() as int) {
        None => Err(fail("argument index out of range"@)),
        Some(at) => match scalar_only_of(v) {
            Err(e) => Err(e),
            Ok(k) => Ok(
                Kn { args: n.args.update(slots[at], revalued(n.args[slots[at]], k)), ..n },
            ),
        },
    }
}

pub fn set_arg(n: &mut Knode, i: i64, v: &Value) -> (r: Result<(), EditError>)
    ensures
        (final(n)@, done(r)) == attempt(old(n)@, arg_set(old(n)@, i as int, v@)),
{
    let slots = find_args(&n.args);
    match resolve_index(i, slots.len()) {
        None => Err(EditError::new("argument index out of range")),
        Some(at) => {
            let k = scalar_only(v)?;
            let j: usize = slots[at];
            let ghost before = kas(n.args@);
            assert(ints(slots@)[at as int] == j);
            assert(before[j as int] == n.args@[j as int]@);
            set_entry_value(&mut n.args[j], k);
            assert(kas(n.args@) =~= before.update(j as int, n.args@[j as int]@));
            Ok(())
        },
    }
}

/// Is the node a leaf: neither children nor properties?
pub open spec fn is_leaf(n: Kn) -> bool {
    n.children is None && forall|i: int| 0 <= i < n.args.len() ==> (#[trigger] n.args[i]).name is None
}

/// A whole node set from a value: a row of arguments is replaced, anything else is
/// refused rather than reflowed.
pub open spec fn node_set(n: Kn, v: Val) -> Result<Kn, Er> {
    if is_leaf(n) {
        args_replaced(n, v)
    } else {
        Err(
            fail(
                "replacing the whole body of `"@ + n.name.value
                    + "` is not supported; set its keys instead"@,
            ),
        )
    }
}

pub fn set_node(n: &mut Knode, v: &Value) -> (r: Result<(), EditError>)
    ensures
        (final(n)@, done(r)) == attempt(old(n)@, node_set(old(n)@, v@)),
{
    let mut leaf = n.children.is_none();
    let ghost all = kas(n.args@);
    let mut i: usize = 0;
    while i < n.args.len()
        invariant
            i <= n.args.len(),
            all == kas(n.args@),
            leaf == (n.children is None && forall|j: int|
                0 <= j < i ==> (#[trigger] all[j]).name is None),
        decreases n.args.len() - i,
    {
        assert(all[i as int] == n.args@[i as int]@);
        leaf = leaf && n.args[i].name.is_none();
        i = i + 1;
    }
    if !leaf {
        let mut msg = "replacing the whole body of `".to_owned();
        msg.append(&n.name.value);
        msg.append("` is not supported; set its keys instead");
        return Err(EditError::of(msg));
    }
    replace_args(n, v)
}

/// The last of the first `n` entries that is the property `k`, or -1.
pub open spec fn prop_slot(es: Seq<Ka>, k: Seq<char>, n: nat) -> int
    decreases n,
{
    if n == 0 || n > es.len() {
        -1
    } else if es[n - 1].name is Some && es[n - 1].name->0.value == k {
        n - 1
    } else {
        prop_slot(es, k, (n - 1) as nat)
    }
}

pub fn find_prop(es: &Vec<Arg>, k: &str) -> (r: Option<usize>)
    ensures
        r is None <==> prop_slot(kas(es@), k@, es.len() as nat) < 0,
        r is Some ==> r->0 == prop_slot(kas(es@), k@, es.len() as nat) && r->0 < es.len(),
{
    let mut i: usize = es.len();
    let ghost all = kas(es@);
    while i > 0
        invariant
            i <= es.len(),
            all == kas(es@),
            prop_slot(all, k@, es.len() as nat) == prop_slot(all, k@, i as nat),
        decreases i,
    {
        assert(all[i - 1] == es@[i - 1]@);
        if let Some(name) = &es[i - 1].name {
            if same(&name.value, k) {
                return Some(i - 1);
            }
        }
        i = i - 1;
    }
    None
}

/// The positions of the nodes called `name` among the first `n`.
pub open spec fn occurrences(ns: Seq<Kn>, name: Seq<char>, n: nat) -> Seq<int>
    decreases n,
{
    if n == 0 || n > ns.len() {
        Seq::empty()
    } else if ns[n - 1].name.value == name {
        occurrences(ns, name, (n - 1) as nat).push(n - 1)
    } else {
        occurrences(ns, name, (n - 1) as nat)
    }
}

/// Occurrences are positions of nodes of the name, in ascending order.
pub proof fn occurrences_bounds(ns: Seq<Kn>, name: Seq<char>, n: nat)
    requires
        n <= ns.len(),
    ensures
        forall|i: int|
            0 <= i < occurrences(ns, name, n).len() ==> 0 <= #[trigger] occurrences(ns, name, n)[i]
                < n && ns[occurrences(ns, name, n)[i]].name.value == name,
        forall|i: int, j: int|
            0 <= i < j < occurrences(ns, name, n).len() ==> occurrences(ns, name, n)[i]
                < occurrences(ns, name, n)[j],
    decreases n,
{
    if n > 0 {
        occurrences_bounds(ns, name, (n - 1) as nat);
    }
}

/// The positions of the nodes called `name`.
pub fn find_nodes(ns: &Vec<Knode>, name: &str) -> (r: Vec<usize>)
    ensures
        ints(r@) == occurrences(kns(ns@), name@, ns.len() as nat),
        forall|i: int| 0 <= i < r.len() ==> #[trigger] r@[i] < ns.len(),
        forall|i: int, j: int| 0 <= i < j < r.len() ==> r@[i] < r@[j],
{
    let mut out: Vec<usize> = Vec::new();
    let ghost all = kns(ns@);
    let mut i: usize = 0;
    assert(ints(out@) =~= occurrences(all, name@, 0));
    while i < ns.len()
        invariant
            i <= ns.len(),
            all == kns(ns@),
            ints(out@) == occurrences(all, name@, i as nat),
            forall|j: int| 0 <= j < out.len() ==> #[trigger] out@[j] < i,
            forall|a: int, b: int| 0 <= a < b < out.len() ==> out@[a] < out@[b],
        decreases ns.len() - i,
    {
        assert(all[i as int] == ns@[i as int]@);
        if same(&ns[i].name.value, name) {
            let ghost before = ints(out@);
            out.push(i);
            assert(ints(out@) =~= before.push(i as int));
        }
        i = i + 1;
    }
    out
}

/// Does the text hold a newline?
pub open spec fn breaks_line(s: Seq<char>) -> bool {
    last_break(s) >= 0
}

fn has_newline(s: &str) -> (r: bool)
    ensures
        r == breaks_line(s@),
{
    let cs = chars_of(s);
    proof {
        last_break_bounds(s@);
    }
    find_last_break(&cs).is_some()
}

/// The indentation of a node that starts a line of its own.
pub open spec fn own_indent(f: Nf, broke: bool) -> Option<Seq<char>> {
    let at = if breaks_line(f.leading) {
        Some(f.leading.skip(last_break(f.leading) + 1))
    } else if broke {
        Some(f.leading)
    } else {
        None
    };
    match at {
        Some(s) => if all_blank(s) {
            Some(s)
        } else {
            None
        },
        None => None,
    }
}

/// Does a node end its line?
pub open spec fn ends_line(f: Nf) -> bool {
    breaks_line(f.terminator) || breaks_line(f.trailing)
}

/// Of the first `n` nodes, the indentation of each that starts a line of its own,
/// and whether the last one with a layout ended its line.
pub open spec fn line_indents(ns: Seq<Kn>, n: nat) -> (Seq<Seq<char>>, bool)
    decreases n,
{
    if n == 0 || n > ns.len() {
        (Seq::empty(), false)
    } else {
        let (so_far, broke) = line_indents(ns, (n - 1) as nat);
        match ns[n - 1].form {
            None => (so_far, broke),
            Some(f) => (
                match own_indent(f, broke) {
                    Some(s) => so_far.push(s),
                    None => so_far,
                },
                ends_line(f),
            ),
        }
    }
}

fn is_indent(s: &str) -> (r: bool)
    ensures
        r == all_blank(s@),
{
    let cs = chars_of(s);
    let mut i: usize = 0;
    while i < cs.len()
        invariant
            i <= cs.len(),
            cs@ == s@,
            forall|j: int| 0 <= j < i ==> blank(#[trigger] s@[j]),
        decreases cs.len() - i,
    {
        if cs[i] != ' ' && cs[i] != '\t' {
            assert(!blank(s@[i as int]));
            return false;
        }
        i = i + 1;
    }
    true
}

fn own_indent_of(f: &NodeForm, broke: bool) -> (r: Option<String>)
    ensures
        opt_text(r) == own_indent(f@, broke),
{
    let cs = chars_of(&f.leading);
    proof {
        last_break_bounds(f.leading@);
    }
    let at = match find_last_break(&cs) {
        Some(i) => {
            let t = slice_text(&cs, i + 1, cs.len());
            assert(t@ =~= f.leading@.skip(i + 1));
            t
        },
        None => {
            if !broke {
                return None;
            }
            f.leading.clone()
        },
    };
    if is_indent(&at) {
        Some(at)
    } else {
        None
    }
}

fn own_line_indents(ns: &Vec<Knode>) -> (r: Vec<String>)
    ensures
        crate::model::texts(r@) == line_indents(kns(ns@), ns.len() as nat).0,
{
    let ghost all = kns(ns@);
    let mut out: Vec<String> = Vec::new();
    let mut broke = false;
    let mut i: usize = 0;
    assert(crate::model::texts(out@) =~= line_indents(all, 0).0);
    while i < ns.len()
        invariant
            i <= ns.len(),
            all == kns(ns@),
            (crate::model::texts(out@), broke) == line_indents(all, i as nat),
        decreases ns.len() - i,
    {
        assert(all[i as int] == ns@[i as int]@);
        if let Some(f) = &ns[i].form {
            if let Some(s) = own_indent_of(f, broke) {
                let ghost before = crate::model::texts(out@);
                let ghost x = s@;
                out.push(s);
                assert(crate::model::texts(out@) =~= before.push(x));
            }
            broke = has_newline(&f.terminator) || has_newline(&f.trailing);
        }
        i = i + 1;
    }
    out
}

/// The first of the indentations from `i` on that divides into `depth` steps.
pub open spec fn unit_in(s: Seq<Seq<char>>, depth: nat, i: int) -> Option<Seq<char>>
    decreases s.len() - i,
{
    if i < 0 || i >= s.len() {
        None
    } else if s[i].len() > 0 && depth > 0 && s[i].len() % depth == 0 {
        Some(s[i].take((s[i].len() / depth) as int))
    } else {
        unit_in(s, depth, i + 1)
    }
}

/// The indentation step a block shows, `depth` levels deep: that of its first node
/// on a line of its own, or else of the first block in it that shows one.
pub open spec fn unit_below(d: Kd, depth: nat) -> Option<Seq<char>>
    decreases d, 1int, 0int,
{
    match unit_in(line_indents(d.nodes, d.nodes.len()).0, depth, 0) {
        Some(u) => Some(u),
        None => unit_among(d.nodes, depth, 0),
    }
}

/// The indentation step shown by the first children block, from `i` on, that shows
/// one.
pub open spec fn unit_among(ns: Seq<Kn>, depth: nat, i: int) -> Option<Seq<char>>
    decreases ns, 0int, ns.len() - i,
{
    if i < 0 || i >= ns.len() {
        None
    } else {
        match ns[i].children {
            None => unit_among(ns, depth, i + 1),
            Some(c) => if depth + 1 < usize::MAX {
                match unit_below(c, depth + 1) {
                    Some(u) => Some(u),
                    None => unit_among(ns, depth, i + 1),
                }
            } else {
                unit_among(ns, depth, i + 1)
            },
        }
    }
}

/// The file's indentation step: four spaces when nothing nested sits on its own
/// line.
pub open spec fn unit_of(d: Kd) -> Seq<char> {
    match unit_below(d, 0) {
        Some(u) => u,
        None => "    "@,
    }
}

fn find_unit(s: &Vec<String>, depth: usize) -> (r: Option<String>)
    ensures
        opt_text(r) == unit_in(crate::model::texts(s@), depth as nat, 0),
{
    let ghost all = crate::model::texts(s@);
    let mut i: usize = 0;
    while i < s.len()
        invariant
            i <= s.len(),
            all == crate::model::texts(s@),
            unit_in(all, depth as nat, 0) == unit_in(all, depth as nat, i as int),
        decreases s.len() - i,
    {
        assert(all[i as int] == s@[i as int]@);
        let cs = chars_of(&s[i]);
        if cs.len() > 0 && depth > 0 && cs.len() % depth == 0 {
            let r = slice_text(&cs, 0, cs.len() / depth);
            assert(r@ =~= all[i as int].take((all[i as int].len() / (depth as nat)) as int));
            return Some(r);
        }
        i = i + 1;
    }
    None
}

fn walk_unit(d: &Kdoc, depth: usize) -> (r: Option<String>)
    requires
        depth < usize::MAX,
    ensures
        opt_text(r) == unit_below(d@, depth as nat),
    decreases d,
{
    if let Some(u) = find_unit(&own_line_indents(&d.nodes), depth) {
        return Some(u);
    }
    let ghost all = kns(d.nodes@);
    let mut i: usize = 0;
    while i < d.nodes.len()
        invariant
            i <= d.nodes.len(),
            depth < usize::MAX,
            all == kns(d.nodes@),
            unit_below(d@, depth as nat) == unit_among(all, depth as nat, i as int),
        decreases d.nodes.len() - i,
    {
        assert(all[i as int] == d.nodes@[i as int]@);
        if let Some(c) = &d.nodes[i].children {
            if depth + 1 < usize::MAX {
                if let Some(u) = walk_unit(c, depth + 1) {
                    return Some(u);
                }
            }
        }
        i = i + 1;
    }
    None
}

/// The file's indentation step, learned from its first indented node on a line of
/// its own (its indent divided by its depth).
pub fn indent_unit(d: &Kdoc) -> (r: String)
    ensures
        r@ == unit_of(d@),
{
    match walk_unit(d, 0) {
        Some(u) => u,
        None => "    ".to_owned(),
    }
}

/// The layout of a fresh children block of a node at `level`: the `{` ends its
/// line and the closing `}` is indented to the node's own level.
pub open spec fn block_form(unit: Seq<char>, level: nat) -> Df {
    Df { leading: seq!['\n'], trailing: repeated(unit, level) }
}

/// The node with a layout for each of its children blocks that has none.
pub open spec fn closed(n: Kn, unit: Seq<char>, level: nat) -> Kn
    decreases n, 0int, 0int,
{
    Kn {
        children: match n.children {
            None => None,
            Some(d) => Some(
                Kd {
                    nodes: closed_all(d.nodes, unit, level + 1, d.nodes.len()),
                    form: match d.form {
                        None => Some(block_form(unit, level)),
                        Some(f) => Some(f),
                    },
                },
            ),
        },
        ..n
    }
}

/// The first `n` nodes with a layout for each of their children blocks.
pub open spec fn closed_all(ns: Seq<Kn>, unit: Seq<char>, level: nat, n: nat) -> Seq<Kn>
    decreases ns, 1int, n,
{
    if n == 0 || n > ns.len() {
        Seq::empty()
    } else {
        closed_all(ns, unit, level, (n - 1) as nat).push(closed(ns[n - 1], unit, level))
    }
}

pub fn repeat(unit: &str, n: usize) -> (r: String)
    ensures
        r@ == repeated(unit@, n as nat),
{
    let mut out = String::new();
    let mut i: usize = 0;
    assert(out@ =~= repeated(unit@, 0));
    while i < n
        invariant
            i <= n,
            out@ == repeated(unit@, i as nat),
        decreases n - i,
    {
        out.append(unit);
        i = i + 1;
    }
    out
}

pub fn new_block_form(indent: String) -> (r: DocForm)
    ensures
        r@ == (Df { leading: seq!['\n'], trailing: indent@ }),
{
    proof {
        reveal_strlit("\n");
        assert("\n"@ =~= seq!['\n']);
    }
    DocForm { leading: "\n".to_owned(), trailing: indent }
}

fn close_blocks(n: &mut Knode, unit: &str, indent: &str, level: Ghost<nat>)
    requires
        indent@ == repeated(unit@, level@),
    ensures
        final(n)@ == closed(old(n)@, unit@, level@),
    decreases old(n)@, 1int,
{
    let ghost n0 = n@;
    if let Some(d) = &mut n.children {
        let ghost d0 = d@;
        assert(n0.children == Some(d0));
        assert(decreases_to!(n0 => d0.nodes));
        if d.form.is_none() {
            d.form = Some(new_block_form(indent.to_owned()));
        }
        close_all(&mut d.nodes, unit, &cat(indent, unit), Ghost(level@ + 1));
    }
}

fn close_all(ns: &mut Vec<Knode>, unit: &str, indent: &str, level: Ghost<nat>)
    requires
        indent@ == repeated(unit@, level@),
    ensures
        kns(final(ns)@) == closed_all(kns(old(ns)@), unit@, level@, old(ns).len() as nat),
    decreases kns(old(ns)@), 0int,
{
    let ghost all = kns(ns@);
    let n: usize = ns.len();
    let mut i: usize = 0;
    assert(kns(ns@) =~= closed_all(all, unit@, level@, 0) + all.skip(0));
    while i < n
        invariant
            i <= n == all.len(),
            ns.len() == n,
            all == kns(old(ns)@),
            indent@ == repeated(unit@, level@),
            closed_all(all, unit@, level@, i as nat).len() == i,
            kns(ns@) == closed_all(all, unit@, level@, i as nat) + all.skip(i as int),
        decreases n - i,
    {
        let ghost now = kns(ns@);
        assert(now[i as int] == all[i as int]);
        assert(now[i as int] == ns@[i as int]@);
        assert(decreases_to!(all => all[i as int]));
        close_blocks(&mut ns[i], unit, indent, level);
        assert(kns(ns@) =~= now.update(i as int, ns@[i as int]@));
        i = i + 1;
        assert(kns(ns@) =~= closed_all(all, unit@, level@, i as nat) + all.skip(i as int));
    }
    assert(kns(ns@) =~= closed_all(all, unit@, level@, n as nat));
}

/// The layout of a node put behind one with the layout `prev`.
pub open spec fn placed_form(f: Nf, prev: Nf, level_indent: Option<Seq<char>>) -> Nf {
    if ends_line(prev) {
        // The line break is already there.
        match level_indent {
            Some(s) => Nf { leading: s, ..f },
            None => f,
        }
    } else {
        Nf {
            leading: if breaks_line(prev.leading) {
                seq!['\n'] + (match level_indent {
                    Some(s) => s,
                    None => Seq::empty(),
                })
            } else {
                seq![' ']
            },
            before_terminator: prev.before_terminator,
            terminator: prev.terminator,
            ..f
        }
    }
}

/// The node before a new one, ended by a `;` where nothing else separates the two.
pub open spec fn ended(n: Kn) -> Kn {
    match n.form {
        Some(f) => if !ends_line(f) && f.terminator.len() == 0 {
            Kn {
                form: Some(
                    Nf { before_terminator: Seq::empty(), terminator: seq![';'], ..f },
                ),
                ..n
            }
        } else {
            n
        },
        None => n,
    }
}

/// The nodes with a laid-out one put in at a position. It copies the layout of the
/// sibling it follows: its indentation on a line of its own, or a `;`-separated
/// slot on a single-line block.
pub open spec fn node_put(ns: Seq<Kn>, k: Kn, at: int, level_indent: Option<Seq<char>>) -> Seq<Kn> {
    if 0 < at <= ns.len() {
        match (ns[at - 1].form, k.form) {
            (Some(prev), Some(f)) => ns.update(at - 1, ended(ns[at - 1])).insert(
                at,
                Kn { form: Some(placed_form(f, prev, level_indent)), ..k },
            ),
            _ => ns.insert(at, k),
        }
    } else {
        ns.insert(at, k)
    }
}

/// A fresh node with the layout it has at a depth.
pub open spec fn dressed(k: Kn, depth: nat, unit: Seq<char>) -> Kn {
    closed(formatted(k, depth, unit), unit, depth)
}

/// The nodes with the first `n` of some fresh ones put in from a position on.
pub open spec fn nodes_put(
    ns: Seq<Kn>,
    ks: Seq<Kn>,
    at: int,
    depth: nat,
    unit: Seq<char>,
    level_indent: Option<Seq<char>>,
    n: nat,
) -> Seq<Kn>
    decreases n,
{
    if n == 0 || n > ks.len() {
        ns
    } else {
        node_put(
            nodes_put(ns, ks, at, depth, unit, level_indent, (n - 1) as nat),
            dressed(ks[n - 1], depth, unit),
            at + n - 1,
            level_indent,
        )
    }
}

/// The first of the lines' indentations.
pub open spec fn first_indent(ns: Seq<Kn>) -> Option<Seq<char>> {
    let s = line_indents(ns, ns.len()).0;
    if s.len() > 0 {
        Some(s[0])
    } else {
        None
    }
}

/// The document with fresh nodes put in at a position.
pub open spec fn inserted(d: Kd, ks: Seq<Kn>, at: int, depth: nat, unit: Seq<char>) -> Kd {
    Kd {
        nodes: nodes_put(d.nodes, ks, at, depth, unit, first_indent(d.nodes), ks.len()),
        form: d.form,
    }
}

fn place_form(f: &mut NodeForm, prev: &NodeForm, level_indent: &Option<String>)
    ensures
        final(f)@ == placed_form(old(f)@, prev@, opt_text(*level_indent)),
{
    if has_newline(&prev.terminator) || has_newline(&prev.trailing) {
        if let Some(s) = level_indent {
            f.leading = s.clone();
        }
    } else {
        let mut leading = String::new();
        if has_newline(&prev.leading) {
            leading.push('\n');
            if let Some(s) = level_indent {
                leading.append(s);
                assert(leading@ =~= seq!['\n'] + s@);
            } else {
                assert(leading@ =~= seq!['\n'] + Seq::<char>::empty());
            }
        } else {
            leading.push(' ');
            assert(leading@ =~= seq![' ']);
        }
        f.leading = leading;
        f.before_terminator = prev.before_terminator.clone();
        f.terminator = prev.terminator.clone();
    }
}

fn end_node(n: &mut Knode)
    ensures
        final(n)@ == ended(old(n)@),
{
    if let Some(f) = &mut n.form {
        let empty = f.terminator.as_str().unicode_len() == 0;
        if empty && !has_newline(&f.terminator) && !has_newline(&f.trailing) {
            let none = String::new();
            assert(none@ =~= Seq::<char>::empty());
            f.before_terminator = none;
            f.terminator = ";".to_owned();
            proof {
                reveal_strlit(";");
                assert(";"@ =~= seq![';']);
            }
        }
    }
}

fn put_node(ns: &mut Vec<Knode>, k: Knode, at: usize, level_indent: &Option<String>)
    requires
        at <= old(ns).len(),
    ensures
        kns(final(ns)@) == node_put(kns(old(ns)@), k@, at as int, opt_text(*level_indent)),
        final(ns).len() == old(ns).len() + 1,
{
    let ghost before = kns(ns@);
    let ghost k0 = k@;
    let mut k = k;
    if at > 0 {
        assert(before[at - 1] == ns@[at - 1]@);
        if let (Some(prev), Some(f)) = (&ns[at - 1].form, &mut k.form) {
            place_form(f, prev, level_indent);
            let ghost k1 = k@;
            end_node(&mut ns[at - 1]);
            let ghost mid = kns(ns@);
            assert(mid =~= before.update(at - 1, ended(before[at - 1])));
            ns.insert(at, k);
            assert(kns(ns@) =~= mid.insert(at as int, k1));
            return;
        }
    }
    ns.insert(at, k);
    assert(kns(ns@) =~= before.insert(at as int, k0));
}

/// Put freshly built nodes in from position `at` on, formatted to sit at `depth`.
pub fn insert_nodes(d: &mut Kdoc, ks: Vec<Knode>, at: usize, depth: usize, unit: &str)
    requires
        at <= old(d).nodes.len(),
        forall|i: int| 0 <= i < ks.len() ==> fresh(#[trigger] kns(ks@)[i]),
    ensures
        final(d)@ == inserted(old(d)@, kns(ks@), at as int, depth as nat, unit@),
{
    let indents = own_line_indents(&d.nodes);
    let ghost all = line_indents(kns(d.nodes@), d.nodes.len() as nat).0;
    let level_indent: Option<String> = if indents.len() > 0 {
        assert(all[0] == indents@[0]@);
        Some(indents[0].clone())
    } else {
        None
    };
    let ghost li = first_indent(kns(d.nodes@));
    assert(opt_text(level_indent) == li);
    let indent = repeat(unit, depth);
    let ghost d0 = d@;
    let ghost fs = kns(ks@);
    let n0: usize = d.nodes.len();
    let mut i: usize = 0;
    while i < ks.len()
        invariant
            i <= ks.len(),
            fs == kns(ks@),
            at <= n0,
            d.nodes.len() == n0 + i,
            indent@ == repeated(unit@, depth as nat),
            opt_text(level_indent) == li,
            forall|j: int| 0 <= j < ks.len() ==> fresh(#[trigger] fs[j]),
            opt_df(d.form) == d0.form,
            kns(d.nodes@) == nodes_put(
                d0.nodes,
                fs,
                at as int,
                depth as nat,
                unit@,
                li,
                i as nat,
            ),
        decreases ks.len() - i,
    {
        assert(fs[i as int] == ks@[i as int]@);
        let mut k = format_node(&ks[i], depth, unit);
        close_blocks(&mut k, unit, &indent, Ghost(depth as nat));
        put_node(&mut d.nodes, k, at + i, &level_indent);
        i = i + 1;
    }
}

proof fn with_args_fresh(n: Kn, vs: Seq<Val>, c: nat)
    requires
        fresh(n),
        c <= vs.len(),
        with_args(n, vs, c) is Ok,
    ensures
        fresh(with_args(n, vs, c)->Ok_0),
    decreases c,
{
    if c > 0 {
        with_args_fresh(n, vs, (c - 1) as nat);
        let k = with_args(n, vs, (c - 1) as nat)->Ok_0;
        let r = with_args(n, vs, c)->Ok_0;
        assert forall|i: int| 0 <= i < r.args.len() implies fresh_arg(#[trigger] r.args[i]) by {
            if i < k.args.len() {
                assert(fresh_arg(k.args[i]));
            }
        }
    }
}

proof fn fresh_all_append(a: Seq<Kn>, b: Seq<Kn>)
    requires
        fresh_all(a, a.len()),
        forall|i: int| 0 <= i < b.len() ==> fresh(#[trigger] b[i]),
    ensures
        fresh_all(a + b, (a + b).len()),
{
    fresh_all_iff(a, a.len());
    let c = a + b;
    assert forall|i: int| 0 <= i < c.len() implies fresh(#[trigger] c[i]) by {
        if i < a.len() {
            assert(c[i] == a[i]);
        } else {
            assert(c[i] == b[i - a.len()]);
        }
    }
    fresh_all_iff(c, c.len());
}

proof fn fresh_all_iff(ns: Seq<Kn>, n: nat)
    requires
        n <= ns.len(),
    ensures
        fresh_all(ns, n) <==> forall|i: int| 0 <= i < n ==> fresh(#[trigger] ns[i]),
    decreases n,
{
    if n > 0 {
        fresh_all_iff(ns, (n - 1) as nat);
    }
}

proof fn one_node_fresh(name: Seq<char>, v: Val)
    requires
        one_node(name, v) is Ok,
    ensures
        fresh(one_node(name, v)->Ok_0),
    decreases v, 1int, 0int,
{
    match v {
        Val::Object(m) => {
            members_fresh(bare_node(name), m, m.len());
        },
        Val::Array(a) => {
            with_args_fresh(bare_node(name), a, a.len());
        },
        Val::Null => {},
        _ => {
            with_args_fresh(bare_node(name), seq![v], 1);
        },
    }
}

proof fn members_fresh(n: Kn, m: Seq<(Seq<char>, Val)>, c: nat)
    requires
        fresh(n),
        c <= m.len(),
        members_node(n, m, c) is Ok,
    ensures
        fresh(members_node(n, m, c)->Ok_0),
    decreases m, 1int, c,
{
    if c > 0 {
        members_fresh(n, m, (c - 1) as nat);
        let k = members_node(n, m, (c - 1) as nat)->Ok_0;
        let (key, v) = m[c - 1];
        if key == args_key() {
            match v {
                Val::Array(a) => {
                    with_args_fresh(k, a, a.len());
                },
                _ => {
                    with_args_fresh(k, seq![v], 1);
                },
            }
        } else {
            assert(decreases_to!(m => m[c - 1]));
            value_nodes_fresh(key, v);
            let kids = value_nodes(key, v)->Ok_0;
            if kids.len() > 0 {
                let nodes = match k.children {
                    Some(d) => d.nodes,
                    None => Seq::empty(),
                };
                fresh_all_append(nodes, kids);
            }
        }
    }
}

/// Nodes built from a value have no layout yet.
pub proof fn value_nodes_fresh(name: Seq<char>, v: Val)
    requires
        value_nodes(name, v) is Ok,
    ensures
        forall|i: int|
            0 <= i < value_nodes(name, v)->Ok_0.len() ==> fresh(
                #[trigger] value_nodes(name, v)->Ok_0[i],
            ),
    decreases v, 2int, 0int,
{
    if v is Array && holds_container(v->Array_0) {
        each_fresh(name, v->Array_0, v->Array_0.len());
    } else {
        one_node_fresh(name, v);
    }
}

proof fn each_fresh(name: Seq<char>, a: Seq<Val>, c: nat)
    requires
        c <= a.len(),
        each_node(name, a, c) is Ok,
    ensures
        forall|i: int|
            0 <= i < each_node(name, a, c)->Ok_0.len() ==> fresh(
                #[trigger] each_node(name, a, c)->Ok_0[i],
            ),
    decreases a, 1int, c,
{
    if c > 0 {
        each_fresh(name, a, (c - 1) as nat);
        assert(decreases_to!(a => a[c - 1]));
        one_node_fresh(name, a[c - 1]);
        let ks = each_node(name, a, (c - 1) as nat)->Ok_0;
        let r = each_node(name, a, c)->Ok_0;
        assert forall|i: int| 0 <= i < r.len() implies fresh(#[trigger] r[i]) by {
            if i < ks.len() {
                assert(r[i] == ks[i]);
            }
        }
    }
}

} // verus!
