//! Setting and deleting at a path of a KDL tree.
use crate::error::{fail, EditError, Er};
use crate::index::{resolve_index, resolved};
use crate::kdl_change::{
    arg_set, arg_slots, args_replaced, block_form, find_args, find_nodes, find_prop, insert_nodes,
    inserted, ints, new_block_form, node_set, occurrences, prop_slot, props_only, drop_args,
    repeat, replace_args, revalued, set_arg, set_entry_value, set_node, value_nodes_fresh,
};
use crate::kdl_items::repeated;
use crate::kdl_nodes::{
    args_key, node_val, nodes_view, scalar_only, scalar_only_of, value_nodes, value_to_nodes,
};
use crate::kdl_tree::{group_kdl_views, kas, kns, Arg, Ka, Kd, Kdoc, Kn, Knode, Nf};
use crate::model::{array_view, steps_of, vals, St, Step, Val, Value};
use crate::mutate::{attempt, done};
use crate::seqs::Rank;
use crate::strs::{cat, chars_of, same, slice_text};
use crate::json_lexer::{eol_at, skip_line};
use crate::value::val_rank;
use vstd::prelude::*;

verus! {

broadcast use {group_kdl_views, array_view};

/// The refusal of a name that stands for several nodes.
pub open spec fn ambiguous(name: Seq<char>) -> Er {
    fail("`"@ + name + "` is repeated: address one occurrence (."@ + name + "[i])"@)
}

/// The refusal of an index beyond the occurrences.
pub open spec fn beyond(name: Seq<char>) -> Er {
    fail("`"@ + name + "` index out of range"@)
}

/// The nodes for the values from `from` to `n`.
pub open spec fn extra_nodes(name: Seq<char>, items: Seq<Val>, from: int, n: int) -> Result<
    Seq<Kn>,
    Er,
>
    decreases n - from,
{
    if n <= from || n > items.len() {
        Ok(Seq::empty())
    } else {
        match extra_nodes(name, items, from, n - 1) {
            Err(e) => Err(e),
            Ok(ks) => match value_nodes(name, items[n - 1]) {
                Err(e) => Err(e),
                Ok(more) => Ok(ks + more),
            },
        }
    }
}

/// Do the occurrences have the first of the values?
pub open spec fn run_matches(ns: Seq<Kn>, occ: Seq<int>, items: Seq<Val>) -> bool {
    occ.len() <= items.len() && forall|i: int|
        0 <= i < occ.len() ==> val_rank(node_val(ns[#[trigger] occ[i]]), items[i]) == Rank::Level
}

/// A run of repeated nodes set to an array: where the existing occurrences have its
/// first values, the rest is appended as new nodes; anything else would rewrite
/// untargeted nodes, so it is refused.
pub open spec fn run_extended(d: Kd, name: Seq<char>, v: Val, depth: nat, unit: Seq<char>) -> Result<
    Kd,
    Er,
> {
    let occ = occurrences(d.nodes, name, d.nodes.len());
    match v {
        Val::Array(items) => if !run_matches(d.nodes, occ, items) {
            Err(
                fail(
                    "replacing the repeated `"@ + name
                        + "` nodes wholesale is not supported; append with `+=` or address one occurrence (."@
                        + name + "[i])"@,
                ),
            )
        } else {
            match extra_nodes(name, items, occ.len() as int, items.len() as int) {
                Err(e) => Err(e),
                Ok(ks) => Ok(inserted(d, ks, occ.last() + 1, depth, unit)),
            }
        },
        _ => Err(ambiguous(name)),
    }
}

/// The document with one of its nodes replaced.
pub open spec fn with_node(d: Kd, i: int, r: Result<Kn, Er>) -> Result<Kd, Er> {
    match r {
        Err(e) => Err(e),
        Ok(k) => Ok(Kd { nodes: d.nodes.update(i, k), form: d.form }),
    }
}

/// The document with the path from `i` on set.
pub open spec fn doc_set(d: Kd, p: Seq<St>, i: int, v: Val, depth: nat, unit: Seq<char>) -> Result<
    Kd,
    Er,
>
    decreases p.len() - i, 0int,
{
    if i >= p.len() || !(p[i] is Field) {
        Err(fail("KDL assignment paths start with a node name"@))
    } else {
        let name = p[i]->Field_0;
        let occ = occurrences(d.nodes, name, d.nodes.len());
        if occ.len() == 0 {
            if i + 1 < p.len() {
                Err(fail("no node `"@ + name + "`"@))
            } else {
                match value_nodes(name, v) {
                    Err(e) => Err(e),
                    Ok(ks) => Ok(inserted(d, ks, d.nodes.len() as int, depth, unit)),
                }
            }
        } else if occ.len() == 1 {
            let n = d.nodes[occ[0]];
            with_node(
                d,
                occ[0],
                if i + 1 == p.len() {
                    node_set(n, v)
                } else {
                    within(n, p, i + 1, v, depth + 1, unit)
                },
            )
        } else if i + 1 == p.len() {
            run_extended(d, name, v, depth, unit)
        } else {
            match p[i + 1] {
                St::Index(x) => match resolved(x as int, occ.len() as int) {
                    None => Err(beyond(name)),
                    Some(at) => {
                        let n = d.nodes[occ[at]];
                        with_node(
                            d,
                            occ[at],
                            if i + 2 == p.len() {
                                node_set(n, v)
                            } else {
                                within(n, p, i + 2, v, depth + 1, unit)
                            },
                        )
                    },
                },
                _ => Err(ambiguous(name)),
            }
        }
    }
}

/// A bare node with an empty children block, set off by a space as a parsed block
/// is; the closing `}` sits at the node's own level.
pub open spec fn opened(n: Kn, unit: Seq<char>, level: nat) -> Kn {
    Kn {
        form: match n.form {
            Some(f) => Some(
                Nf {
                    before_children: if f.before_children.len() == 0 {
                        seq![' ']
                    } else {
                        f.before_children
                    },
                    ..f
                },
            ),
            None => None,
        },
        children: Some(Kd { nodes: Seq::empty(), form: Some(block_form(unit, level)) }),
        ..n
    }
}

/// The node with the path from `i` on, which leads into it, set; `depth` is that of
/// its children.
pub open spec fn within(n: Kn, p: Seq<St>, i: int, v: Val, depth: nat, unit: Seq<char>) -> Result<
    Kn,
    Er,
>
    decreases p.len() - i, 1int,
{
    if i >= p.len() {
        Ok(n)
    } else {
        match p[i] {
            St::Field(k) => if k == args_key() {
                if i + 1 == p.len() {
                    args_replaced(n, v)
                } else if i + 2 == p.len() && p[i + 1] is Index {
                    arg_set(n, p[i + 1]->Index_0 as int, v)
                } else {
                    Err(fail("arguments are scalars; cannot go deeper"@))
                }
            } else {
                let at = prop_slot(n.args, k, n.args.len());
                if at >= 0 {
                    if i + 1 < p.len() {
                        Err(fail("property `"@ + k + "` is a scalar"@))
                    } else {
                        match scalar_only_of(v) {
                            Err(e) => Err(e),
                            Ok(x) => Ok(
                                Kn { args: n.args.update(at, revalued(n.args[at], x)), ..n },
                            ),
                        }
                    }
                } else {
                    match n.children {
                        Some(d) => match doc_set(d, p, i, v, depth, unit) {
                            Err(e) => Err(e),
                            Ok(x) => Ok(Kn { children: Some(x), ..n }),
                        },
                        None => if n.args.len() == 0 {
                            let o = opened(n, unit, (depth - 1) as nat);
                            match doc_set(o.children->0, p, i, v, depth, unit) {
                                Err(e) => Err(e),
                                Ok(x) => Ok(Kn { children: Some(x), ..o }),
                            }
                        } else {
                            Err(
                                fail(
                                    "`"@ + n.name.value
                                        + "` holds arguments, not children; cannot create `"@ + k
                                        + "` inside it"@,
                                ),
                            )
                        },
                    }
                }
            },
            St::Index(x) => arg_set(n, x as int, v),
            St::Iterate => Err(fail("`[]` in assignment paths is not supported for KDL"@)),
            St::Comment(_) => Err(
                fail(
                    "editing comments (`#`): the comment step must end the path and be edited on its own, e.g. `.foo.# = \"text\"`"@,
                ),
            ),
        }
    }
}

pub fn refuse_ambiguous(name: &str) -> (r: EditError)
    ensures
        r@ == ambiguous(name@),
{
    let mut msg = "`".to_owned();
    msg.append(name);
    msg.append("` is repeated: address one occurrence (.");
    msg.append(name);
    msg.append("[i])");
    EditError::of(msg)
}

pub fn refuse_beyond(name: &str) -> (r: EditError)
    ensures
        r@ == beyond(name@),
{
    let mut msg = "`".to_owned();
    msg.append(name);
    msg.append("` index out of range");
    EditError::of(msg)
}

proof fn extra_stops(name: Seq<char>, items: Seq<Val>, from: int, i: int, n: int)
    requires
        from <= i <= n <= items.len(),
        extra_nodes(name, items, from, i) is Err,
    ensures
        extra_nodes(name, items, from, n) == extra_nodes(name, items, from, i),
    decreases n - i,
{
    if i < n {
        extra_stops(name, items, from, i, n - 1);
    }
}

fn build_extra(name: &str, items: &Vec<Value>, from: usize) -> (r: Result<Vec<Knode>, EditError>)
    requires
        from <= items.len(),
    ensures
        nodes_view(r) == extra_nodes(name@, vals(items@), from as int, items.len() as int),
        r is Ok ==> forall|i: int|
            0 <= i < r->Ok_0.len() ==> crate::kdl_items::fresh(#[trigger] kns(r->Ok_0@)[i]),
{
    let ghost all = vals(items@);
    let mut out: Vec<Knode> = Vec::new();
    let mut i: usize = from;
    assert(kns(out@) =~= Seq::<Kn>::empty());
    while i < items.len()
        invariant
            from <= i <= items.len(),
            all == vals(items@),
            Ok::<Seq<Kn>, Er>(kns(out@)) == extra_nodes(name@, all, from as int, i as int),
            forall|j: int|
                0 <= j < out.len() ==> crate::kdl_items::fresh(#[trigger] kns(out@)[j]),
        decreases items.len() - i,
    {
        assert(all[i as int] == items@[i as int]@);
        match value_to_nodes(name, &items[i]) {
            Err(e) => {
                proof {
                    extra_stops(name@, all, from as int, i + 1, all.len() as int);
                }
                return Err(e);
            },
            Ok(more) => {
                proof {
                    value_nodes_fresh(name@, all[i as int]);
                }
                let ghost before = kns(out@);
                let ghost m = kns(more@);
                let mut more = more;
                out.append(&mut more);
                assert(kns(out@) =~= before + m);
                assert forall|j: int| 0 <= j < out.len() implies crate::kdl_items::fresh(
                    #[trigger] kns(out@)[j],
                ) by {
                    if j < before.len() {
                        assert(kns(out@)[j] == before[j]);
                    } else {
                        assert(kns(out@)[j] == m[j - before.len()]);
                    }
                }
            },
        }
        i = i + 1;
    }
    Ok(out)
}

fn run_has_values(ns: &Vec<Knode>, occ: &Vec<usize>, items: &Vec<Value>) -> (r: bool)
    requires
        forall|i: int| 0 <= i < occ.len() ==> #[trigger] occ@[i] < ns.len(),
    ensures
        r == run_matches(kns(ns@), ints(occ@), vals(items@)),
{
    if occ.len() > items.len() {
        return false;
    }
    let mut i: usize = 0;
    while i < occ.len()
        invariant
            i <= occ.len() <= items.len(),
            forall|j: int| 0 <= j < occ.len() ==> #[trigger] occ@[j] < ns.len(),
            forall|j: int|
                0 <= j < i ==> val_rank(
                    node_val(kns(ns@)[#[trigger] ints(occ@)[j]]),
                    vals(items@)[j],
                ) == Rank::Level,
        decreases occ.len() - i,
    {
        let at: usize = occ[i];
        assert(ints(occ@)[i as int] == at);
        assert(kns(ns@)[at as int] == ns@[at as int]@);
        assert(vals(items@)[i as int] == items@[i as int]@);
        if !ns[at].project().value_eq(&items[i]) {
            return false;
        }
        i = i + 1;
    }
    true
}

fn extend_repeated(d: &mut Kdoc, name: &str, occ: &Vec<usize>, v: &Value, depth: usize, unit: &str) -> (r:
    Result<(), EditError>)
    requires
        occ.len() > 0,
        ints(occ@) == occurrences(kns(old(d).nodes@), name@, old(d).nodes.len() as nat),
        forall|i: int| 0 <= i < occ.len() ==> #[trigger] occ@[i] < old(d).nodes.len(),
    ensures
        (final(d)@, done(r)) == attempt(
            old(d)@,
            run_extended(old(d)@, name@, v@, depth as nat, unit@),
        ),
{
    let items = match v {
        Value::Array(items) => items,
        _ => {
            return Err(refuse_ambiguous(name));
        },
    };
    if !run_has_values(&d.nodes, occ, items) {
        let mut msg = "replacing the repeated `".to_owned();
        msg.append(name);
        msg.append(
            "` nodes wholesale is not supported; append with `+=` or address one occurrence (.",
        );
        msg.append(name);
        msg.append("[i])");
        return Err(EditError::of(msg));
    }
    let ks = build_extra(name, items, occ.len())?;
    let last: usize = occ[occ.len() - 1];
    assert(ints(occ@).last() == last);
    insert_nodes(d, ks, last + 1, depth, unit);
    Ok(())
}

/// Set the path from `i` on in a document.
pub fn set_in_doc(d: &mut Kdoc, path: &Vec<Step>, i: usize, v: &Value, depth: usize, unit: &str) -> (r:
    Result<(), EditError>)
    requires
        i <= path.len(),
        depth <= i,
    ensures
        (final(d)@, done(r)) == attempt(
            old(d)@,
            doc_set(old(d)@, steps_of(path@), i as int, v@, depth as nat, unit@),
        ),
    decreases path.len() - i, 0int,
{
    let ghost p = steps_of(path@);
    if i >= path.len() {
        return Err(EditError::new("KDL assignment paths start with a node name"));
    }
    assert(p[i as int] == path@[i as int]@);
    let name = match &path[i] {
        Step::Field(name) => name,
        _ => {
            return Err(EditError::new("KDL assignment paths start with a node name"));
        },
    };
    let occ = find_nodes(&d.nodes, name);
    let ghost before = kns(d.nodes@);
    assert(ints(occ@).len() == occ.len());
    if occ.len() == 0 {
        if i + 1 < path.len() {
            let mut msg = "no node `".to_owned();
            msg.append(name);
            msg.append("`");
            return Err(EditError::of(msg));
        }
        let ks = value_to_nodes(name, v)?;
        proof {
            value_nodes_fresh(name@, v@);
        }
        let at: usize = d.nodes.len();
        insert_nodes(d, ks, at, depth, unit);
        return Ok(());
    }
    if occ.len() == 1 {
        let j: usize = occ[0];
        assert(ints(occ@)[0] == j);
        assert(before[j as int] == d.nodes@[j as int]@);
        let r = if i + 1 == path.len() {
            set_node(&mut d.nodes[j], v)
        } else {
            set_in_node(&mut d.nodes[j], path, i + 1, v, depth + 1, unit)
        };
        assert(kns(d.nodes@) =~= before.update(j as int, d.nodes@[j as int]@));
        assert(r is Err ==> kns(d.nodes@) =~= before);
        return r;
    }
    if i + 1 == path.len() {
        return extend_repeated(d, name, &occ, v, depth, unit);
    }
    assert(p[i + 1] == path@[i + 1]@);
    match &path[i + 1] {
        Step::Index(x) => match resolve_index(*x, occ.len()) {
            None => Err(refuse_beyond(name)),
            Some(at) => {
                let j: usize = occ[at];
                assert(ints(occ@)[at as int] == j);
                assert(before[j as int] == d.nodes@[j as int]@);
                let r = if i + 2 == path.len() {
                    set_node(&mut d.nodes[j], v)
                } else {
                    set_in_node(&mut d.nodes[j], path, i + 2, v, depth + 1, unit)
                };
                assert(kns(d.nodes@) =~= before.update(j as int, d.nodes@[j as int]@));
                assert(r is Err ==> kns(d.nodes@) =~= before);
                r
            },
        },
        _ => Err(refuse_ambiguous(name)),
    }
}

fn set_prop(n: &mut Knode, at: usize, v: &Value) -> (r: Result<(), EditError>)
    requires
        at < old(n).args.len(),
    ensures
        (final(n)@, done(r)) == attempt(
            old(n)@,
            match scalar_only_of(v@) {
                Err(e) => Err(e),
                Ok(x) => Ok(
                    Kn {
                        args: old(n)@.args.update(at as int, revalued(old(n)@.args[at as int], x)),
                        ..old(n)@
                    },
                ),
            },
        ),
{
    let x = scalar_only(v)?;
    let ghost before = kas(n.args@);
    assert(before[at as int] == n.args@[at as int]@);
    set_entry_value(&mut n.args[at], x);
    assert(kas(n.args@) =~= before.update(at as int, n.args@[at as int]@));
    Ok(())
}

fn open_block(n: &mut Knode, children: Kdoc)
    ensures
        final(n)@ == (Kn {
            children: Some(children@),
            ..opened(old(n)@, Seq::empty(), 0)
        }),
{
    if let Some(f) = &mut n.form {
        if f.before_children.as_str().unicode_len() == 0 {
            f.before_children = " ".to_owned();
            proof {
                reveal_strlit(" ");
                assert(" "@ =~= seq![' ']);
            }
        }
    }
    n.children = Some(children);
}

fn set_in_node(n: &mut Knode, path: &Vec<Step>, i: usize, v: &Value, depth: usize, unit: &str) -> (r:
    Result<(), EditError>)
    requires
        i < path.len(),
        0 < depth <= i,
    ensures
        (final(n)@, done(r)) == attempt(
            old(n)@,
            within(old(n)@, steps_of(path@), i as int, v@, depth as nat, unit@),
        ),
    decreases path.len() - i, 1int,
{
    let ghost p = steps_of(path@);
    assert(p[i as int] == path@[i as int]@);
    proof {
        reveal_strlit("-");
        assert("-"@ =~= args_key());
    }
    match &path[i] {
        Step::Field(k) => {
            if same(k, "-") {
                if i + 1 == path.len() {
                    return replace_args(n, v);
                }
                assert(p[i + 1] == path@[i + 1]@);
                if i + 2 == path.len() {
                    if let Step::Index(x) = &path[i + 1] {
                        return set_arg(n, *x, v);
                    }
                }
                return Err(EditError::new("arguments are scalars; cannot go deeper"));
            }
            if let Some(at) = find_prop(&n.args, k) {
                if i + 1 < path.len() {
                    let mut msg = "property `".to_owned();
                    msg.append(k);
                    msg.append("` is a scalar");
                    return Err(EditError::of(msg));
                }
                return set_prop(n, at, v);
            }
            if let Some(d) = &mut n.children {
                return set_in_doc(d, path, i, v, depth, unit);
            }
            assert(kas(n.args@).len() == n.args.len());
            if n.args.len() == 0 {
                let mut d = Kdoc {
                    nodes: Vec::new(),
                    form: Some(new_block_form(repeat(unit, depth - 1))),
                };
                assert(kns(d.nodes@) =~= Seq::<Kn>::empty());
                set_in_doc(&mut d, path, i, v, depth, unit)?;
                open_block(n, d);
                return Ok(());
            }
            let mut msg = "`".to_owned();
            msg.append(&n.name.value);
            msg.append("` holds arguments, not children; cannot create `");
            msg.append(k);
            msg.append("` inside it");
            Err(EditError::of(msg))
        },
        Step::Index(x) => set_arg(n, *x, v),
        Step::Iterate => Err(EditError::new("`[]` in assignment paths is not supported for KDL")),
        Step::Comment(_) => Err(
            EditError::new(
                "editing comments (`#`): the comment step must end the path and be edited on its own, e.g. `.foo.# = \"text\"`",
            ),
        ),
    }
}

/// The nodes without those at the first `n` of some positions, given in ascending
/// order.
pub open spec fn nodes_dropped(ns: Seq<Kn>, at: Seq<int>, n: nat) -> Seq<Kn>
    decreases at.len() - n,
{
    if n >= at.len() {
        ns
    } else {
        let rest = nodes_dropped(ns, at, n + 1);
        if 0 <= at[n as int] < rest.len() {
            rest.remove(at[n as int])
        } else {
            rest
        }
    }
}

/// The rest of the `{` line that stands before a block's first node: up to and with
/// its line break.
pub open spec fn brace_line(n: Kn) -> Seq<char> {
    match n.form {
        Some(f) => if eol_at(f.leading, 0) < f.leading.len() {
            f.leading.take(eol_at(f.leading, 0) + 1)
        } else {
            Seq::empty()
        },
        None => Seq::empty(),
    }
}

/// The nodes with a text in front of the first one.
pub open spec fn led(ns: Seq<Kn>, prefix: Seq<char>) -> Seq<Kn> {
    if ns.len() > 0 && ns[0].form is Some && prefix.len() > 0 {
        let f = ns[0].form->0;
        ns.update(0, Kn { form: Some(Nf { leading: prefix + f.leading, ..f }), ..ns[0] })
    } else {
        ns
    }
}

/// The document without the nodes at some positions. In a children block the rest
/// of the `{` line (its line break, and any comment trailing the brace) stands
/// before the first child; when that child goes, the first survivor inherits it, so
/// the block keeps its line break.
pub open spec fn nodes_removed(d: Kd, at: Seq<int>, in_children: bool) -> Kd {
    let left = nodes_dropped(d.nodes, at, 0);
    Kd {
        nodes: if in_children && at.len() > 0 && at[0] == 0 && d.nodes.len() > 0 {
            led(left, brace_line(d.nodes[0]))
        } else {
            left
        },
        form: d.form,
    }
}

/// The node without argument `i`.
pub open spec fn arg_removed(n: Kn, i: int) -> Kn {
    let slots = arg_slots(n.args, n.args.len());
    match resolved(i, slots.len() as int) {
        Some(at) => Kn { args: n.args.remove(slots[at]), ..n },
        None => n,
    }
}

/// Of the first `n` entries, those that are not the property `k`.
pub open spec fn without_prop(es: Seq<Ka>, k: Seq<char>, n: nat) -> Seq<Ka>
    decreases n,
{
    if n == 0 || n > es.len() {
        Seq::empty()
    } else if es[n - 1].name is Some && es[n - 1].name->0.value == k {
        without_prop(es, k, (n - 1) as nat)
    } else {
        without_prop(es, k, (n - 1) as nat).push(es[n - 1])
    }
}

/// The document without what the path from `i` on leads to; a miss changes nothing.
pub open spec fn doc_drop(d: Kd, p: Seq<St>, i: int, in_children: bool) -> Result<Kd, Er>
    decreases p.len() - i, 0int,
{
    if i >= p.len() || !(p[i] is Field) {
        Err(fail("KDL paths start with a node name"@))
    } else {
        let name = p[i]->Field_0;
        let occ = occurrences(d.nodes, name, d.nodes.len());
        if occ.len() == 0 {
            Ok(d)
        } else if i + 1 == p.len() {
            Ok(nodes_removed(d, occ, in_children))
        } else if p[i + 1] is Index {
            if occ.len() > 1 {
                match resolved(p[i + 1]->Index_0 as int, occ.len() as int) {
                    None => Ok(d),
                    Some(at) => if i + 2 == p.len() {
                        Ok(nodes_removed(d, seq![occ[at]], in_children))
                    } else {
                        with_node(d, occ[at], within_drop(d.nodes[occ[at]], p, i + 2))
                    },
                }
            } else {
                // A single occurrence's index names its arguments, at the end of a
                // path; further on it names the node itself.
                with_node(
                    d,
                    occ[0],
                    within_drop(
                        d.nodes[occ[0]],
                        p,
                        if i + 2 == p.len() {
                            i + 1
                        } else {
                            i + 2
                        },
                    ),
                )
            }
        } else if occ.len() > 1 {
            Err(ambiguous(name))
        } else {
            with_node(d, occ[0], within_drop(d.nodes[occ[0]], p, i + 1))
        }
    }
}

/// The node without what the path from `i` on, which leads into it, leads to.
pub open spec fn within_drop(n: Kn, p: Seq<St>, i: int) -> Result<Kn, Er>
    decreases p.len() - i, 1int,
{
    if i >= p.len() {
        Ok(n)
    } else {
        match p[i] {
            St::Field(k) => if k == args_key() {
                if i + 1 == p.len() {
                    Ok(Kn { args: props_only(n.args, n.args.len()), ..n })
                } else if i + 2 == p.len() && p[i + 1] is Index {
                    Ok(arg_removed(n, p[i + 1]->Index_0 as int))
                } else {
                    Err(fail("arguments are scalars; cannot go deeper"@))
                }
            } else if prop_slot(n.args, k, n.args.len()) >= 0 {
                if i + 1 < p.len() {
                    Err(fail("property `"@ + k + "` is a scalar"@))
                } else {
                    Ok(Kn { args: without_prop(n.args, k, n.args.len()), ..n })
                }
            } else {
                match n.children {
                    Some(d) => match doc_drop(d, p, i, true) {
                        Err(e) => Err(e),
                        Ok(x) => Ok(Kn { children: Some(x), ..n }),
                    },
                    None => Ok(n),
                }
            },
            St::Index(x) => Ok(arg_removed(n, x as int)),
            St::Iterate => Err(fail("del(.[]) is not supported for KDL"@)),
            St::Comment(_) => Err(
                fail(
                    "deleting comments (`#`): the comment step must end the path and be deleted on its own, e.g. `del(.foo.#)`"@,
                ),
            ),
        }
    }
}

proof fn dropped_len(ns: Seq<Kn>, at: Seq<int>, n: nat)
    requires
        n <= at.len(),
        forall|i: int| 0 <= i < at.len() ==> 0 <= #[trigger] at[i] < ns.len(),
        forall|i: int, j: int| 0 <= i < j < at.len() ==> at[i] < at[j],
    ensures
        nodes_dropped(ns, at, n).len() == ns.len() - (at.len() - n),
        n < at.len() ==> nodes_dropped(ns, at, n + 1).len() > at[n as int],
    decreases at.len() - n,
{
    if n < at.len() {
        dropped_len(ns, at, n + 1);
        spaced(at, n as int, ns.len() as int);
    }
}

proof fn spaced(at: Seq<int>, n: int, len: int)
    requires
        0 <= n < at.len(),
        forall|i: int| 0 <= i < at.len() ==> 0 <= #[trigger] at[i] < len,
        forall|i: int, j: int| 0 <= i < j < at.len() ==> at[i] < at[j],
    ensures
        at[n] + (at.len() - n) <= len,
    decreases at.len() - n,
{
    if n + 1 < at.len() {
        spaced(at, n + 1, len);
    }
}

fn drop_nodes(ns: &mut Vec<Knode>, at: &Vec<usize>)
    requires
        forall|i: int| 0 <= i < at.len() ==> #[trigger] at@[i] < old(ns).len(),
        forall|i: int, j: int| 0 <= i < j < at.len() ==> at@[i] < at@[j],
    ensures
        kns(final(ns)@) == nodes_dropped(kns(old(ns)@), ints(at@), 0),
{
    let ghost all = kns(ns@);
    let ghost ps = ints(at@);
    let mut i: usize = at.len();
    while i > 0
        invariant
            i <= at.len(),
            ps == ints(at@),
            all == kns(old(ns)@),
            forall|j: int| 0 <= j < at.len() ==> #[trigger] at@[j] < all.len(),
            forall|a: int, b: int| 0 <= a < b < at.len() ==> at@[a] < at@[b],
            kns(ns@) == nodes_dropped(all, ps, i as nat),
        decreases i,
    {
        proof {
            dropped_len(all, ps, (i - 1) as nat);
        }
        let ghost now = kns(ns@);
        let j: usize = at[i - 1];
        assert(ps[i - 1] == j);
        assert(now.len() == ns.len());
        ns.remove(j);
        assert(kns(ns@) =~= now.remove(j as int));
        i = i - 1;
    }
}

fn brace_line_of(n: &Knode) -> (r: String)
    ensures
        r@ == brace_line(n@),
{
    let none = String::new();
    assert(none@ =~= Seq::<char>::empty());
    match &n.form {
        Some(f) => {
            let cs = chars_of(&f.leading);
            let e: usize = skip_line(&cs, 0);
            if e < cs.len() {
                let r = slice_text(&cs, 0, e + 1);
                assert(r@ =~= f.leading@.take(e + 1));
                r
            } else {
                none
            }
        },
        None => none,
    }
}

fn lead(ns: &mut Vec<Knode>, prefix: &str)
    ensures
        kns(final(ns)@) == led(kns(old(ns)@), prefix@),
{
    if ns.len() > 0 && prefix.unicode_len() > 0 {
        let ghost before = kns(ns@);
        assert(before[0] == ns@[0]@);
        if let Some(f) = &mut ns[0].form {
            let text = cat(prefix, &f.leading);
            f.leading = text;
        }
        assert(kns(ns@) =~= before.update(0, ns@[0]@));
        assert(before[0].form is None ==> kns(ns@) =~= before);
    }
}

fn remove_nodes(d: &mut Kdoc, at: &Vec<usize>, in_children: bool)
    requires
        forall|i: int| 0 <= i < at.len() ==> #[trigger] at@[i] < old(d).nodes.len(),
        forall|i: int, j: int| 0 <= i < j < at.len() ==> at@[i] < at@[j],
    ensures
        final(d)@ == nodes_removed(old(d)@, ints(at@), in_children),
{
    assert(ints(at@).len() == at.len());
    if in_children && at.len() > 0 && at[0] == 0 {
        assert(ints(at@)[0] == 0);
        assert(kns(d.nodes@)[0] == d.nodes@[0]@);
        let prefix = brace_line_of(&d.nodes[0]);
        drop_nodes(&mut d.nodes, at);
        lead(&mut d.nodes, &prefix);
    } else {
        assert(at.len() > 0 ==> ints(at@)[0] == at@[0]);
        drop_nodes(&mut d.nodes, at);
    }
}

fn remove_arg(n: &mut Knode, i: i64)
    ensures
        final(n)@ == arg_removed(old(n)@, i as int),
{
    let slots = find_args(&n.args);
    if let Some(at) = resolve_index(i, slots.len()) {
        let ghost before = kas(n.args@);
        let j: usize = slots[at];
        assert(ints(slots@)[at as int] == j);
        n.args.remove(j);
        assert(kas(n.args@) =~= before.remove(j as int));
    }
}

fn drop_prop(es: &mut Vec<Arg>, k: &str)
    ensures
        kas(final(es)@) == without_prop(kas(old(es)@), k@, old(es).len() as nat),
{
    let ghost all = kas(es@);
    let n: usize = es.len();
    let mut seen: usize = 0;
    let mut at: usize = 0;
    assert(kas(es@) =~= without_prop(all, k@, 0) + all.skip(0));
    while seen < n
        invariant
            seen <= n == all.len(),
            es.len() == at + (n - seen),
            at == without_prop(all, k@, seen as nat).len(),
            kas(es@) == without_prop(all, k@, seen as nat) + all.skip(seen as int),
        decreases n - seen,
    {
        let ghost now = kas(es@);
        assert(now[at as int] == all[seen as int]);
        assert(now[at as int] == es@[at as int]@);
        let hit = match &es[at].name {
            Some(name) => same(&name.value, k),
            None => false,
        };
        if hit {
            es.remove(at);
            assert(kas(es@) =~= now.remove(at as int));
        } else {
            at = at + 1;
        }
        seen = seen + 1;
        assert(kas(es@) =~= without_prop(all, k@, seen as nat) + all.skip(seen as int));
    }
    assert(kas(es@) =~= without_prop(all, k@, n as nat));
}

/// Delete what the path from `i` on leads to.
pub fn delete_in_doc(d: &mut Kdoc, path: &Vec<Step>, i: usize, in_children: bool) -> (r: Result<
    (),
    EditError,
>)
    requires
        i <= path.len(),
    ensures
        (final(d)@, done(r)) == attempt(
            old(d)@,
            doc_drop(old(d)@, steps_of(path@), i as int, in_children),
        ),
    decreases path.len() - i, 0int,
{
    let ghost p = steps_of(path@);
    if i >= path.len() {
        return Err(EditError::new("KDL paths start with a node name"));
    }
    assert(p[i as int] == path@[i as int]@);
    let name = match &path[i] {
        Step::Field(name) => name,
        _ => {
            return Err(EditError::new("KDL paths start with a node name"));
        },
    };
    let occ = find_nodes(&d.nodes, name);
    let ghost before = kns(d.nodes@);
    assert(ints(occ@).len() == occ.len());
    if occ.len() == 0 {
        return Ok(());
    }
    if i + 1 == path.len() {
        remove_nodes(d, &occ, in_children);
        return Ok(());
    }
    assert(p[i + 1] == path@[i + 1]@);
    let mut at: usize = occ[0];
    let mut from: usize = i + 1;
    assert(ints(occ@)[0] == at);
    match &path[i + 1] {
        Step::Index(x) => {
            if occ.len() > 1 {
                match resolve_index(*x, occ.len()) {
                    None => {
                        return Ok(());
                    },
                    Some(k) => {
                        at = occ[k];
                        assert(ints(occ@)[k as int] == at);
                        if i + 2 == path.len() {
                            let mut one: Vec<usize> = Vec::new();
                            one.push(at);
                            assert(ints(one@) =~= seq![at as int]);
                            remove_nodes(d, &one, in_children);
                            return Ok(());
                        }
                        from = i + 2;
                    },
                }
            } else if i + 2 < path.len() {
                from = i + 2;
            }
        },
        _ => {
            if occ.len() > 1 {
                return Err(refuse_ambiguous(name));
            }
        },
    }
    assert(before[at as int] == d.nodes@[at as int]@);
    let r = delete_in_node(&mut d.nodes[at], path, from);
    assert(kns(d.nodes@) =~= before.update(at as int, d.nodes@[at as int]@));
    assert(r is Err ==> kns(d.nodes@) =~= before);
    r
}

fn delete_in_node(n: &mut Knode, path: &Vec<Step>, i: usize) -> (r: Result<(), EditError>)
    requires
        i < path.len(),
    ensures
        (final(n)@, done(r)) == attempt(old(n)@, within_drop(old(n)@, steps_of(path@), i as int)),
    decreases path.len() - i, 1int,
{
    let ghost p = steps_of(path@);
    assert(p[i as int] == path@[i as int]@);
    proof {
        reveal_strlit("-");
        assert("-"@ =~= args_key());
    }
    match &path[i] {
        Step::Field(k) => {
            if same(k, "-") {
                if i + 1 == path.len() {
                    drop_args(&mut n.args);
                    return Ok(());
                }
                assert(p[i + 1] == path@[i + 1]@);
                if i + 2 == path.len() {
                    if let Step::Index(x) = &path[i + 1] {
                        remove_arg(n, *x);
                        return Ok(());
                    }
                }
                return Err(EditError::new("arguments are scalars; cannot go deeper"));
            }
            if find_prop(&n.args, k).is_some() {
                if i + 1 < path.len() {
                    let mut msg = "property `".to_owned();
                    msg.append(k);
                    msg.append("` is a scalar");
                    return Err(EditError::of(msg));
                }
                drop_prop(&mut n.args, k);
                return Ok(());
            }
            if let Some(d) = &mut n.children {
                return delete_in_doc(d, path, i, true);
            }
            Ok(())
        },
        Step::Index(x) => {
            remove_arg(n, *x);
            Ok(())
        },
        Step::Iterate => Err(EditError::new("del(.[]) is not supported for KDL")),
        Step::Comment(_) => Err(
            EditError::new(
                "deleting comments (`#`): the comment step must end the path and be deleted on its own, e.g. `del(.foo.#)`",
            ),
        ),
    }
}

} // verus!
