//! What an edit of a JSON document keeps: every token outside the gap that the edit is
//! made in, and every comment but those inside a deleted entry.
use crate::float::Facts;
use crate::json_edit::{
    appended, before, break_behind, child, child_bounds, closed_up, created, dressed, end_space,
    entries_of, followed, fresh_items_bare, glued, inner_text, js_append, js_at, js_delete, js_set,
    member_node, nested, new_member, unled, unspaced, with_items, with_value_at, without_child,
    without_element, without_member, worded,
};
use crate::json_good_laws::{deleting_keeps_good, fit, fit_entries};
use crate::json_lexer::{json_tokens, Jt, Tok};
use crate::json_parser::trivial;
use crate::json_relex::tokens_read_back;
use crate::json_spell::{indent_from, line_space, multi_line, no_tokens, space};
use crate::json_text_laws::{
    comma_toks, doc_good, doc_reads, doc_toks, en_toks, es_toks, key_toks, mark, node_good,
    node_toks, opener, run_ok, shutter,
};
use crate::json_tree::{toks_text, En, Js, Ky};
use crate::jsonc::{jsonc_body, jsonc_delete, JsoncDoc};
use crate::model::{St, Val};
use crate::mutate::iterates;
use vstd::prelude::*;
use vstd::string::*;

verus! {

/// Is the token white space, a comment or a comma?
pub open spec fn loose(x: Jt) -> bool {
    trivial(x.kind) || x.kind == Tok::Comma
}

/// Are all tokens white space, comments and commas?
pub open spec fn all_loose(ts: Seq<Jt>) -> bool {
    forall|i: int| 0 <= i < ts.len() ==> loose(#[trigger] ts[i])
}

/// The tokens that are neither white space nor commas.
pub open spec fn words(ts: Seq<Jt>) -> Seq<Jt>
    decreases ts.len(),
{
    if ts.len() == 0 {
        Seq::empty()
    } else if ts.last().kind == Tok::Ws || ts.last().kind == Tok::Comma {
        words(ts.drop_last())
    } else {
        words(ts.drop_last()).push(ts.last())
    }
}

/// The comments among the tokens.
pub open spec fn notes(ts: Seq<Jt>) -> Seq<Jt>
    decreases ts.len(),
{
    if ts.len() == 0 {
        Seq::empty()
    } else if ts.last().kind == Tok::LineComment || ts.last().kind == Tok::BlockComment {
        notes(ts.drop_last()).push(ts.last())
    } else {
        notes(ts.drop_last())
    }
}

pub proof fn words_add(a: Seq<Jt>, b: Seq<Jt>)
    ensures
        words(a + b) == words(a) + words(b),
    decreases b.len(),
{
    if b.len() == 0 {
        assert(a + b =~= a);
        assert(words(a) + words(b) =~= words(a));
    } else {
        let c = b.drop_last();
        assert((a + b).drop_last() =~= a + c);
        words_add(a, c);
        assert(words(a + b) =~= words(a) + words(b));
    }
}

/// The comments are the comments among the words.
pub proof fn notes_of_words(ts: Seq<Jt>)
    ensures
        notes(ts) == notes(words(ts)),
    decreases ts.len(),
{
    if ts.len() > 0 {
        notes_of_words(ts.drop_last());
        if !(ts.last().kind == Tok::Ws || ts.last().kind == Tok::Comma) {
            assert(words(ts).drop_last() =~= words(ts.drop_last()));
        }
    }
}

proof fn words_one(x: Jt)
    ensures
        words(seq![x]) == (if x.kind == Tok::Ws || x.kind == Tok::Comma {
            Seq::empty()
        } else {
            seq![x]
        }),
{
    assert(seq![x].drop_last() =~= Seq::<Jt>::empty());
    assert(words(Seq::<Jt>::empty()) =~= Seq::<Jt>::empty());
    assert(Seq::<Jt>::empty().push(x) =~= seq![x]);
}

proof fn loose_add(a: Seq<Jt>, b: Seq<Jt>)
    requires
        all_loose(a),
        all_loose(b),
    ensures
        all_loose(a + b),
{
    let c = a + b;
    assert forall|i: int| 0 <= i < c.len() implies loose(#[trigger] c[i]) by {
        if i < a.len() {
            assert(c[i] == a[i]);
        } else {
            assert(c[i] == b[i - a.len()]);
        }
    }
}

proof fn loose_part(a: Seq<Jt>, i: int, j: int)
    requires
        all_loose(a),
        0 <= i <= j <= a.len(),
    ensures
        all_loose(a.subrange(i, j)),
{
    let c = a.subrange(i, j);
    assert forall|k: int| 0 <= k < c.len() implies loose(#[trigger] c[k]) by {
        assert(c[k] == a[i + k]);
    }
}

proof fn run_is_loose(r: Seq<Jt>)
    requires
        run_ok(r),
    ensures
        all_loose(r),
{
    assert forall|i: int| 0 <= i < r.len() implies loose(#[trigger] r[i]) by {
        assert(trivial(r[i].kind));
    }
}

proof fn comma_is_loose(c: Option<Seq<Jt>>)
    requires
        c is Some ==> all_loose(c->0),
    ensures
        all_loose(comma_toks(c)),
        words(comma_toks(c)) == (if c is Some {
            words(c->0)
        } else {
            Seq::empty()
        }),
{
    if let Some(ts) = c {
        let m = mark(Tok::Comma, ',');
        assert(all_loose(seq![m]));
        loose_add(ts, seq![m]);
        words_add(ts, seq![m]);
        words_one(m);
        assert(words(ts) + Seq::<Jt>::empty() =~= words(ts));
    }
}

proof fn unspaced_words(ts: Seq<Jt>)
    requires
        all_loose(ts),
    ensures
        words(unspaced(ts)) == words(ts),
        all_loose(unspaced(ts)),
        words(unled(ts)) == words(ts),
        all_loose(unled(ts)),
        words(end_space(ts)).len() == 0,
        all_loose(end_space(ts)),
{
    if ts.len() > 0 && ts.last().kind == Tok::Ws {
        loose_part(ts, 0, ts.len() - 1);
        assert(ts.subrange(0, ts.len() - 1) =~= ts.drop_last());
        words_one(ts.last());
        assert(loose(ts[ts.len() - 1]));
    }
    if ts.len() > 0 && ts[0].kind == Tok::Ws {
        loose_part(ts, 1, ts.len() as int);
        assert(ts.subrange(1, ts.len() as int) =~= ts.drop_first());
        assert(ts =~= seq![ts[0]] + ts.drop_first());
        words_add(seq![ts[0]], ts.drop_first());
        words_one(ts[0]);
        assert(Seq::<Jt>::empty() + words(ts.drop_first()) =~= words(ts.drop_first()));
    }
}

proof fn glued_words(a: Seq<Jt>, b: Seq<Jt>)
    requires
        all_loose(a),
        all_loose(b),
    ensures
        words(glued(a, b)) == words(a) + words(b),
        all_loose(glued(a, b)),
{
    words_add(a, b);
    loose_add(a, b);
    if a.len() > 0 && b.len() > 0 && a.last().kind == Tok::Ws && b[0].kind == Tok::Ws {
        let front = a.drop_last();
        let back = b.skip(1);
        let w = Jt { kind: Tok::Ws, text: a.last().text + b[0].text };
        unspaced_words(a);
        unspaced_words(b);
        assert(back =~= b.drop_first());
        words_one(w);
        assert(all_loose(seq![w]));
        loose_add(front, seq![w]);
        loose_add(front + seq![w], back);
        words_add(front, seq![w]);
        words_add(front + seq![w], back);
        assert(words(front) + Seq::<Jt>::empty() =~= words(front));
    }
}

proof fn closed_up_words(lead: Seq<Jt>, after: Seq<Jt>)
    requires
        all_loose(lead),
        all_loose(after),
    ensures
        words(closed_up(lead, after)) == words(lead) + words(after),
        all_loose(closed_up(lead, after)),
{
    let bare = unspaced(lead);
    unspaced_words(lead);
    unspaced_words(after);
    glued_words(lead, after);
    words_add(bare, after);
    loose_add(bare, after);
    if after.len() > 0 && after[0].kind == Tok::Ws {
        let w = Jt { kind: Tok::Ws, text: after[0].text.skip(1) };
        let rest = after.skip(1);
        assert(rest =~= after.drop_first());
        words_one(w);
        assert(all_loose(seq![w]));
        loose_add(bare, seq![w]);
        loose_add(bare + seq![w], rest);
        words_add(bare, seq![w]);
        words_add(bare + seq![w], rest);
        assert(words(bare) + Seq::<Jt>::empty() =~= words(bare));
    }
}

proof fn regroup_first(o: Seq<Jt>, p: Seq<Jt>, e: Seq<Jt>, y: Seq<Jt>, r: Seq<Jt>, s: Seq<Jt>)
    ensures
        o + p + Seq::<Jt>::empty() + (e + y) + r + s == o + p + e + y + (r + s),
        o + p + (Seq::<Jt>::empty() + r) + s == o + p + (r + s),
{
    assert(o + p + Seq::<Jt>::empty() + (e + y) + r + s =~= o + p + e + y + (r + s));
    assert(o + p + (Seq::<Jt>::empty() + r) + s =~= o + p + (r + s));
}

proof fn regroup_later(
    h: Seq<Jt>,
    g: Seq<Jt>,
    k: Seq<Jt>,
    v: Seq<Jt>,
    c: Seq<Jt>,
    a: Seq<Jt>,
    e: Seq<Jt>,
    y: Seq<Jt>,
    r: Seq<Jt>,
    s: Seq<Jt>,
)
    ensures
        h + (g + (k + v + c + a)) + (e + y) + r + s == h + g + k + v + (c + a) + e + y + (r + s),
        h + ((g + (k + v + c + a)) + r) + s == h + g + k + v + (c + a) + (r + s),
{
    assert(h + (g + (k + v + c + a)) + (e + y) + r + s =~= h + g + k + v + (c + a) + e + y + (r
        + s));
    assert(h + ((g + (k + v + c + a)) + r) + s =~= h + g + k + v + (c + a) + (r + s));
}

proof fn regroup_inner(
    h: Seq<Jt>,
    f: Seq<Jt>,
    x: Seq<Jt>,
    e: Seq<Jt>,
    y: Seq<Jt>,
    b: Seq<Jt>,
    c: Seq<Jt>,
    a: Seq<Jt>,
    r: Seq<Jt>,
    s: Seq<Jt>,
)
    ensures
        h + (f + x + e + y + b) + c + a + r + s == h + f + x + e + y + (b + c + a + r + s),
        h + (f + x + b) + c + a + r + s == h + f + x + (b + c + a + r + s),
{
    assert(h + (f + x + e + y + b) + c + a + r + s =~= h + f + x + e + y + (b + c + a + r + s));
    assert(h + (f + x + b) + c + a + r + s =~= h + f + x + (b + c + a + r + s));
}

proof fn regroup_entry(h: Seq<Jt>, k: Seq<Jt>, v: Seq<Jt>, c: Seq<Jt>, a: Seq<Jt>, r: Seq<Jt>, s: Seq<Jt>)
    ensures
        h + (k + v + c + a) + r + s == h + k + v + c + a + r + s,
        Seq::<Jt>::empty() + v + c + a == v + (c + a),
{
    assert(h + (k + v + c + a) + r + s =~= h + k + v + c + a + r + s);
    assert(Seq::<Jt>::empty() + v + c + a =~= v + (c + a));
}

proof fn regroup_words(a: Seq<Jt>, b: Seq<Jt>, c: Seq<Jt>, d: Seq<Jt>)
    ensures
        a + (b + c) == a + b + c,
        a + (b + (c + d)) == a + b + (c + d),
        a + b + c + d == a + b + (c + d),
        (a + (b + c)) + d == (a + b) + (c + d),
{
    assert(a + (b + c) =~= a + b + c);
    assert(a + (b + (c + d)) =~= a + b + (c + d));
    assert(a + b + c + d =~= a + b + (c + d));
    assert((a + (b + c)) + d =~= (a + b) + (c + d));
}

/// The tokens of the first `n` entries.
pub open spec fn first_toks(es: Seq<En>, n: nat) -> Seq<Jt>
    decreases n,
{
    if n == 0 || n > es.len() {
        Seq::empty()
    } else {
        first_toks(es, (n - 1) as nat) + en_toks(es[n - 1])
    }
}

pub proof fn toks_cut(es: Seq<En>, i: int)
    requires
        0 <= i <= es.len(),
    ensures
        es_toks(es, 0) == first_toks(es, i as nat) + es_toks(es, i),
    decreases i,
{
    if i == 0 {
        assert(first_toks(es, 0) + es_toks(es, 0) =~= es_toks(es, 0));
    } else {
        toks_cut(es, i - 1);
        let a = first_toks(es, (i - 1) as nat);
        let b = en_toks(es[i - 1]);
        assert(es_toks(es, i - 1) == b + es_toks(es, i));
        assert(a + (b + es_toks(es, i)) =~= a + b + es_toks(es, i));
    }
}

pub proof fn first_same(a: Seq<En>, b: Seq<En>, n: nat)
    requires
        n <= a.len(),
        n <= b.len(),
        forall|k: int| 0 <= k < n ==> #[trigger] a[k] == b[k],
    ensures
        first_toks(a, n) == first_toks(b, n),
    decreases n,
{
    if n > 0 {
        first_same(a, b, (n - 1) as nat);
        assert(a[n - 1] == b[n - 1]);
    }
}

proof fn rest_same(a: Seq<En>, i: int, b: Seq<En>, j: int)
    requires
        0 <= i <= a.len(),
        0 <= j <= b.len(),
        a.len() - i == b.len() - j,
        forall|k: int| i <= k < a.len() ==> #[trigger] a[k] == b[k - i + j],
    ensures
        es_toks(a, i) == es_toks(b, j),
    decreases a.len() - i,
{
    if i < a.len() {
        assert(a[i] == b[i - i + j]);
        rest_same(a, i + 1, b, j + 1);
    }
}

/// A container of either kind.
pub open spec fn container(object: bool, pre: Seq<Jt>, es: Seq<En>) -> Js {
    if object {
        Js::Object(pre, es)
    } else {
        Js::Array(pre, es)
    }
}

/// The trivia behind a container's opening bracket.
pub open spec fn pre_of(n: Js) -> Seq<Jt> {
    match n {
        Js::Object(p, _) => p,
        Js::Array(p, _) => p,
        Js::Scalar(_) => Seq::empty(),
    }
}

/// The tokens of a node around one of its entries: up to the entry before it, the gap in
/// front of it, the entry, the gap behind it, and the rest from the next entry on. Of a
/// member the entry is its key, its value and its comma; of an element, its value.
pub open spec fn parts_of(n: Js, i: int) -> (Seq<Jt>, Seq<Jt>, Seq<Jt>, Seq<Jt>, Seq<Jt>) {
    let es = entries_of(n);
    let object = n is Object;
    let head = seq![opener(object)] + pre_of(n);
    let e = es[i];
    (
        if i == 0 {
            seq![opener(object)]
        } else {
            head + first_toks(es, (i - 1) as nat) + key_toks(es[i - 1].key) + node_toks(
                es[i - 1].value,
            )
        },
        if i == 0 {
            pre_of(n)
        } else {
            comma_toks(es[i - 1].comma) + es[i - 1].after
        },
        if object {
            key_toks(e.key) + node_toks(e.value) + comma_toks(e.comma)
        } else {
            node_toks(e.value)
        },
        if object {
            e.after
        } else {
            comma_toks(e.comma) + e.after
        },
        es_toks(es, i + 1) + seq![shutter(object)],
    )
}

/// The tokens of a node around the entry that a path leads to.
pub open spec fn parts_at(n: Js, path: Seq<St>) -> (Seq<Jt>, Seq<Jt>, Seq<Jt>, Seq<Jt>, Seq<Jt>)
    decreases path.len(),
{
    let i = child(n, path[0])->0;
    if path.len() <= 1 {
        parts_of(n, i)
    } else {
        let es = entries_of(n);
        let (f, x, e, y, b) = parts_at(es[i].value, path.drop_first());
        (
            seq![opener(n is Object)] + pre_of(n) + first_toks(es, i as nat) + key_toks(es[i].key)
                + f,
            x,
            e,
            y,
            b + comma_toks(es[i].comma) + es[i].after + es_toks(es, i + 1) + seq![
                shutter(n is Object),
            ],
        )
    }
}

proof fn node_cut(n: Js, i: int)
    requires
        0 <= i < entries_of(n).len(),
        n is Object || n is Array,
    ensures
        node_toks(n) == seq![opener(n is Object)] + pre_of(n) + first_toks(entries_of(n), i as nat)
            + en_toks(entries_of(n)[i]) + es_toks(entries_of(n), i + 1) + seq![shutter(n is Object)],
{
    let es = entries_of(n);
    toks_cut(es, i);
    let a = first_toks(es, i as nat);
    let b = en_toks(es[i]);
    let c = es_toks(es, i + 1);
    assert(es_toks(es, i) == b + c);
    let h = seq![opener(n is Object)] + pre_of(n);
    let z = seq![shutter(n is Object)];
    assert(h + (a + (b + c)) + z == h + a + b + c + z) by {
        regroup_words(h, a, b, c);
        assert(h + (a + (b + c)) =~= h + a + b + c);
    }
}

#[verifier::rlimit(40)]
#[verifier::spinoff_prover]
proof fn parts_make_up(n: Js, i: int, fx: Facts)
    requires
        0 <= i < entries_of(n).len(),
        n is Object || n is Array,
        node_good(n, fx),
    ensures
        ({
            let (f, x, e, y, b) = parts_of(n, i);
            &&& node_toks(n) == f + x + e + y + b
            &&& all_loose(x) && all_loose(y)
            &&& f.len() > 0 && !loose(f.last())
            &&& b.len() > 0 && !loose(b[0])
        }),
{
    let es = entries_of(n);
    let object = n is Object;
    let (f, x, e, y, b) = parts_of(n, i);
    fit_entries(es, object, pre_of(n), fx);
    assert(fit(es[i], object, fx));
    node_cut(n, i);
    let h = seq![opener(object)] + pre_of(n);
    let z = seq![shutter(object)];
    let en = es[i];
    run_is_loose(en.after);
    if let Some(c) = en.comma {
        run_is_loose(c);
    }
    comma_is_loose(en.comma);
    loose_add(comma_toks(en.comma), en.after);
    if !object {
        assert(key_toks(en.key) == Seq::<Jt>::empty());
        regroup_entry(h, h, node_toks(en.value), comma_toks(en.comma), en.after, h, z);
    }
    assert(en_toks(en) == e + y);
    if i == 0 {
        run_is_loose(pre_of(n));
        regroup_first(seq![opener(object)], pre_of(n), e, y, es_toks(es, 1), z);
        assert(first_toks(es, 0) == Seq::<Jt>::empty());
    } else {
        let prev = es[i - 1];
        assert(fit(es[i - 1], object, fx));
        run_is_loose(prev.after);
        if let Some(c) = prev.comma {
            run_is_loose(c);
        }
        comma_is_loose(prev.comma);
        loose_add(comma_toks(prev.comma), prev.after);
        let g = first_toks(es, (i - 1) as nat);
        assert(first_toks(es, i as nat) == g + en_toks(prev));
        regroup_later(
            h,
            g,
            key_toks(prev.key),
            node_toks(prev.value),
            comma_toks(prev.comma),
            prev.after,
            e,
            y,
            es_toks(es, i + 1),
            z,
        );
        node_edges(prev.value, fx);
        assert(f.last() == node_toks(prev.value).last());
    }
    if i + 1 < es.len() {
        let next = es[i + 1];
        assert(fit(es[i + 1], object, fx));
        node_edges(next.value, fx);
        assert(es_toks(es, i + 1) == en_toks(next) + es_toks(es, i + 2));
        entry_edge(next, object, fx);
        assert(b[0] == en_toks(next)[0]);
    } else {
        assert(b =~= z);
    }
}

proof fn node_edges(n: Js, fx: Facts)
    requires
        node_good(n, fx),
    ensures
        node_toks(n).len() > 0,
        !loose(node_toks(n)[0]),
        !loose(node_toks(n).last()),
{
}

proof fn entry_edge(e: En, object: bool, fx: Facts)
    requires
        fit(e, object, fx),
    ensures
        en_toks(e).len() > 0,
        !loose(en_toks(e)[0]),
{
    node_edges(e.value, fx);
    if object {
        let k = e.key->0;
        assert(key_toks(e.key)[0] == k.token);
        assert(en_toks(e)[0] == k.token);
    } else {
        assert(key_toks(e.key) == Seq::<Jt>::empty());
        assert(en_toks(e)[0] == node_toks(e.value)[0]);
    }
}

/// A container with one entry taken out, token by token.
proof fn entry_taken(object: bool, pre: Seq<Jt>, es: Seq<En>, i: int, p: Seq<Jt>, now: Seq<En>, q: En)
    requires
        0 <= i < es.len(),
        i == 0 ==> now == es.remove(0),
        i > 0 ==> p == pre && now == es.update(i - 1, q).remove(i) && q.key == es[i - 1].key && q.value
            == es[i - 1].value,
    ensures
        ({
            let (f, x, e, y, b) = parts_of(container(object, pre, es), i);
            node_toks(container(object, p, now)) == f + (if i == 0 {
                p
            } else {
                comma_toks(q.comma) + q.after
            }) + b
        }),
{
    let n = container(object, p, now);
    let (f, x, e, y, b) = parts_of(container(object, pre, es), i);
    let o = seq![opener(object)];
    let s = seq![shutter(object)];
    rest_same(now, i, es, i + 1);
    toks_cut(now, i);
    if i == 0 {
        assert(first_toks(now, 0) == Seq::<Jt>::empty());
        regroup_first(o, p, o, o, es_toks(es, 1), s);
    } else {
        first_same(now, es, (i - 1) as nat);
        assert(now[i - 1] == q);
        let g = first_toks(es, (i - 1) as nat);
        assert(first_toks(now, i as nat) == g + en_toks(q));
        regroup_later(
            o + pre,
            g,
            key_toks(q.key),
            node_toks(q.value),
            comma_toks(q.comma),
            q.after,
            o,
            o,
            es_toks(es, i + 1),
            s,
        );
    }
}

/// What the gap around an entry is once its trivia is put in the place of the entry: the
/// comma and the trivia of the entry before it.
proof fn gap_words(q: En, c: Seq<Jt>, x: Seq<Jt>, y: Seq<Jt>)
    requires
        q.comma is Some ==> all_loose(q.comma->0),
        all_loose(q.after),
        c == (if q.comma is Some {
            words(q.comma->0)
        } else {
            Seq::empty()
        }),
        c + words(q.after) == words(x) + words(y),
    ensures
        all_loose(comma_toks(q.comma) + q.after),
        words(comma_toks(q.comma) + q.after) == words(x) + words(y),
{
    comma_is_loose(q.comma);
    loose_add(comma_toks(q.comma), q.after);
    words_add(comma_toks(q.comma), q.after);
}

/// The words of the gap in front of an entry.
proof fn front_words(prev: En)
    requires
        prev.comma is Some ==> all_loose(prev.comma->0),
        all_loose(prev.after),
    ensures
        words(comma_toks(prev.comma) + prev.after) == (if prev.comma is Some {
            words(prev.comma->0)
        } else {
            Seq::empty()
        }) + words(prev.after),
{
    comma_is_loose(prev.comma);
    words_add(comma_toks(prev.comma), prev.after);
}

/// Are the runs of trivia in an entry loose?
spec fn loosely(e: En) -> bool {
    all_loose(e.after) && (e.comma is Some ==> all_loose(e.comma->0))
}

proof fn fit_is_loose(e: En, object: bool, fx: Facts)
    requires
        fit(e, object, fx),
    ensures
        loosely(e),
{
    run_is_loose(e.after);
    if let Some(c) = e.comma {
        run_is_loose(c);
    }
}

proof fn none_add(a: Seq<Jt>)
    ensures
        Seq::<Jt>::empty() + a == a,
        a + Seq::<Jt>::empty() == a,
        words(Seq::<Jt>::empty()) == Seq::<Jt>::empty(),
{
    assert(Seq::<Jt>::empty() + a =~= a);
    assert(a + Seq::<Jt>::empty() =~= a);
}

/// Taking a member out keeps all tokens but the member's, white space and a comma.
#[verifier::rlimit(60)]
#[verifier::spinoff_prover]
proof fn member_taken(pre: Seq<Jt>, es: Seq<En>, i: int) -> (z: Seq<Jt>)
    requires
        0 <= i < es.len(),
        all_loose(pre),
        loosely(es[i]),
        i > 0 ==> loosely(es[i - 1]),
    ensures
        ({
            let (f, x, e, y, b) = parts_of(Js::Object(pre, es), i);
            let (p, now) = without_member(pre, es, i);
            &&& node_toks(Js::Object(p, now)) == f + z + b
            &&& all_loose(z)
            &&& words(z) == words(x) + words(y)
        }),
{
    let (f, x, g, y, b) = parts_of(Js::Object(pre, es), i);
    let (p, now) = without_member(pre, es, i);
    let e = es[i];
    let lead = before(pre, es, i);
    closed_up_words(lead, e.after);
    let trivia = closed_up(lead, e.after);
    if i == 0 {
        entry_taken(true, pre, es, i, p, now, e);
        trivia
    } else {
        let prev = es[i - 1];
        front_words(prev);
        if i == es.len() - 1 && e.comma is None && prev.comma is Some {
            let t = glued(prev.comma->0, trivia);
            glued_words(prev.comma->0, trivia);
            let q = En { comma: None, after: t, ..prev };
            assert(now =~= es.update(i - 1, q).remove(i));
            entry_taken(true, pre, es, i, p, now, q);
            regroup_words(words(prev.comma->0), words(prev.after), words(e.after), Seq::empty());
            none_add(words(t));
            gap_words(q, Seq::empty(), x, y);
            comma_toks(q.comma) + q.after
        } else {
            let q = En { after: trivia, ..prev };
            let c = if q.comma is Some {
                words(q.comma->0)
            } else {
                Seq::<Jt>::empty()
            };
            assert(now =~= es.update(i - 1, q).remove(i));
            entry_taken(true, pre, es, i, p, now, q);
            regroup_words(c, words(prev.after), words(e.after), Seq::empty());
            gap_words(q, c, x, y);
            comma_toks(q.comma) + q.after
        }
    }
}

/// Taking an element out keeps all tokens but the element's, white space and a comma.
#[verifier::rlimit(60)]
#[verifier::spinoff_prover]
proof fn element_taken(pre: Seq<Jt>, es: Seq<En>, i: int) -> (z: Seq<Jt>)
    requires
        0 <= i < es.len(),
        all_loose(pre),
        loosely(es[i]),
        i > 0 ==> loosely(es[i - 1]),
    ensures
        ({
            let (f, x, e, y, b) = parts_of(Js::Array(pre, es), i);
            let (p, now) = without_element(pre, es, i);
            &&& node_toks(Js::Array(p, now)) == f + z + b
            &&& all_loose(z)
            &&& words(z) == words(x) + words(y)
        }),
{
    let (f, x, g, y, b) = parts_of(Js::Array(pre, es), i);
    let (p, now) = without_element(pre, es, i);
    let e = es[i];
    let lead = before(pre, es, i);
    closed_up_words(lead, e.after);
    let trivia = closed_up(lead, e.after);
    let prev = es[i - 1];
    let pc = if i > 0 && prev.comma is Some {
        words(prev.comma->0)
    } else {
        Seq::<Jt>::empty()
    };
    if i > 0 {
        front_words(prev);
    }
    front_words(e);
    unspaced_words(lead);
    unspaced_words(e.after);
    none_add(words(e.after));
    let behind_comma = i > 0 && unspaced(lead).len() == 0 && prev.comma is Some;
    match e.comma {
        Some(c) => {
            unspaced_words(c);
            if unspaced(c).len() == 0 || !behind_comma {
                let w = worded(c);
                if unspaced(c).len() == 0 {
                    assert(unspaced(c) =~= Seq::<Jt>::empty());
                }
                assert(words(w) == words(c));
                assert(all_loose(w));
                glued_words(lead, w);
                let t = glued(lead, w) + unled(e.after);
                words_add(glued(lead, w), unled(e.after));
                loose_add(glued(lead, w), unled(e.after));
                regroup_words(words(lead), words(c), words(e.after), Seq::empty());
                if i == 0 {
                    entry_taken(false, pre, es, i, p, now, e);
                    t
                } else {
                    let q = En { after: t, ..prev };
                    assert(now =~= es.update(i - 1, q).remove(i));
                    entry_taken(false, pre, es, i, p, now, q);
                    regroup_words(pc, words(prev.after), words(c), words(e.after));
                    regroup_words(pc, words(prev.after), words(c) + words(e.after), Seq::empty());
                    gap_words(q, pc, x, y);
                    comma_toks(q.comma) + q.after
                }
            } else {
                let k = glued(prev.comma->0, c);
                glued_words(prev.comma->0, c);
                let q = En { comma: Some(k), after: e.after, ..prev };
                assert(now =~= es.update(i - 1, q).remove(i));
                entry_taken(false, pre, es, i, p, now, q);
                assert(unspaced(lead) =~= Seq::<Jt>::empty());
                assert(words(prev.after) == Seq::<Jt>::empty());
                none_add(pc);
                regroup_words(pc, words(c), words(e.after), Seq::empty());
                gap_words(q, pc + words(c), x, y);
                comma_toks(q.comma) + q.after
            }
        },
        None => {
            regroup_words(pc, words(lead), words(e.after), Seq::empty());
            if i == 0 {
                entry_taken(false, pre, es, i, p, now, e);
                trivia
            } else if prev.comma is Some {
                let t = glued(prev.comma->0, trivia);
                glued_words(prev.comma->0, trivia);
                let q = En { comma: None, after: t, ..prev };
                assert(now =~= es.update(i - 1, q).remove(i));
                entry_taken(false, pre, es, i, p, now, q);
                none_add(words(t));
                gap_words(q, Seq::empty(), x, y);
                comma_toks(q.comma) + q.after
            } else {
                let q = En { after: trivia, ..prev };
                assert(now =~= es.update(i - 1, q).remove(i));
                entry_taken(false, pre, es, i, p, now, q);
                gap_words(q, pc, x, y);
                comma_toks(q.comma) + q.after
            }
        },
    }
}

/// Taking a child out keeps all tokens but the child's, white space and a comma.
proof fn child_taken(n: Js, st: St, fx: Facts) -> (z: Seq<Jt>)
    requires
        node_good(n, fx),
        child(n, st) is Some,
    ensures
        without_child(n, st) is Ok,
        ({
            let (f, x, e, y, b) = parts_of(n, child(n, st)->0);
            &&& node_toks(without_child(n, st)->Ok_0) == f + z + b
            &&& all_loose(z)
            &&& words(z) == words(x) + words(y)
        }),
{
    child_bounds(n, st);
    let i = child(n, st)->0;
    let es = entries_of(n);
    fit_entries(es, n is Object, pre_of(n), fx);
    run_is_loose(pre_of(n));
    assert(fit(es[i], n is Object, fx));
    fit_is_loose(es[i], n is Object, fx);
    if i > 0 {
        assert(fit(es[i - 1], n is Object, fx));
        fit_is_loose(es[i - 1], n is Object, fx);
    }
    if n is Object {
        member_taken(pre_of(n), es, i)
    } else {
        element_taken(pre_of(n), es, i)
    }
}

/// A container with one value exchanged, token by token.
proof fn value_exchanged(n: Js, i: int, x: Js)
    requires
        0 <= i < entries_of(n).len(),
        n is Object || n is Array,
    ensures
        ({
            let es = entries_of(n);
            node_toks(with_value_at(n, i, x)) == seq![opener(n is Object)] + pre_of(n) + first_toks(
                es,
                i as nat,
            ) + key_toks(es[i].key) + node_toks(x) + comma_toks(es[i].comma) + es[i].after + es_toks(
                es,
                i + 1,
            ) + seq![shutter(n is Object)]
        }),
{
    let es = entries_of(n);
    let m = with_value_at(n, i, x);
    let fs = entries_of(m);
    node_cut(m, i);
    first_same(fs, es, i as nat);
    rest_same(fs, i + 1, es, i + 1);
    let h = seq![opener(n is Object)] + pre_of(n) + first_toks(es, i as nat);
    let k = key_toks(es[i].key);
    let t = es_toks(es, i + 1);
    let s = seq![shutter(n is Object)];
    regroup_entry(h, k, node_toks(x), comma_toks(es[i].comma), es[i].after, t, s);
}

/// Deleting what a path leads to changes nothing but the gap that the entry stood in: the
/// tokens in front of the gap and behind it are what they were, and the gap keeps all
/// that was in it but white space and a comma. Of a member its key, value and comma go,
/// with the comments inside them; of an element, its value.
#[verifier::rlimit(60)]
#[verifier::spinoff_prover]
pub proof fn deleting_keeps_the_rest(n: Js, path: Seq<St>, fx: Facts) -> (z: Seq<Jt>)
    requires
        node_good(n, fx),
        path.len() > 0,
        js_at(n, path) is Some,
        forall|i: int| 0 <= i < path.len() ==> !((#[trigger] path[i]) is Comment),
    ensures
        js_delete(n, path) is Ok,
        ({
            let (f, x, e, y, b) = parts_at(n, path);
            let t = node_toks(js_delete(n, path)->Ok_0);
            &&& node_toks(n) == f + x + e + y + b
            &&& exists|k: Option<Ky>, c: Option<Seq<Jt>>| #[trigger]
                entry_toks(k, js_at(n, path)->0, c) == e
            &&& all_loose(x) && all_loose(y)
            &&& f.len() > 0 && !loose(f.last()) && b.len() > 0 && !loose(b[0])
            &&& t == f + z + b
            &&& all_loose(z)
            &&& words(z) == words(x) + words(y)
            &&& words(t) == words(f + x) + words(y + b)
            &&& notes(t) == notes(f + x) + notes(y + b)
        }),
    decreases path.len(),
{
    let (f, x, e, y, b) = parts_at(n, path);
    child_bounds(n, path[0]);
    let i = child(n, path[0])->0;
    let es = entries_of(n);
    let rest = path.drop_first();
    fit_entries(es, n is Object, pre_of(n), fx);
    assert(fit(es[i], n is Object, fx));
    let v = js_at(n, path)->0;
    let z = if path.len() == 1 {
        parts_make_up(n, i, fx);
        let z = child_taken(n, path[0], fx);
        assert(rest =~= Seq::<St>::empty());
        assert(js_at(es[i].value, rest) == Some(es[i].value));
        if n is Object {
            assert(entry_toks(es[i].key, v, es[i].comma) == e);
        } else {
            let nk: Option<Ky> = None;
            let nc: Option<Seq<Jt>> = None;
            assert(entry_toks(nk, v, nc) =~= e);
        }
        z
    } else {
        assert forall|j: int| 0 <= j < rest.len() implies !((#[trigger] rest[j]) is Comment) by {
            assert(rest[j] == path[j + 1]);
        }
        let z = deleting_keeps_the_rest(es[i].value, rest, fx);
        let (f1, x1, e1, y1, b1) = parts_at(es[i].value, rest);
        let m = js_delete(es[i].value, rest)->Ok_0;
        node_cut(n, i);
        value_exchanged(n, i, m);
        let h = seq![opener(n is Object)] + pre_of(n) + first_toks(es, i as nat) + key_toks(es[i].key);
        let c = comma_toks(es[i].comma);
        let a = es[i].after;
        let r = es_toks(es, i + 1);
        let s = seq![shutter(n is Object)];
        let k = key_toks(es[i].key);
        regroup_entry(
            seq![opener(n is Object)] + pre_of(n) + first_toks(es, i as nat),
            k,
            node_toks(es[i].value),
            c,
            a,
            r,
            s,
        );
        regroup_inner(h, f1, x1, e1, y1, b1, c, a, r, s);
        regroup_inner(h, f1, z, e1, y1, b1, c, a, r, s);
        assert(f.last() == f1.last());
        assert(b[0] == b1[0]);
        z
    };
    let t = node_toks(js_delete(n, path)->Ok_0);
    words_add(f, z);
    words_add(f + z, b);
    words_add(f, x);
    words_add(y, b);
    regroup_words(words(f), words(x), words(y), words(b));
    notes_of_words(t);
    notes_of_words(f + x);
    notes_of_words(y + b);
    notes_add(words(f + x), words(y + b));
    z
}

pub proof fn notes_add(a: Seq<Jt>, b: Seq<Jt>)
    ensures
        notes(a + b) == notes(a) + notes(b),
    decreases b.len(),
{
    if b.len() == 0 {
        assert(a + b =~= a);
        assert(notes(a) + notes(b) =~= notes(a));
    } else {
        let c = b.drop_last();
        assert((a + b).drop_last() =~= a + c);
        notes_add(a, c);
        assert(notes(a + b) =~= notes(a) + notes(b));
    }
}

/// The tokens of an entry: its key, its value, and its comma.
pub open spec fn entry_toks(k: Option<Ky>, v: Js, c: Option<Seq<Jt>>) -> Seq<Jt> {
    key_toks(k) + node_toks(v) + comma_toks(c)
}

/// Deleting a path from a document keeps every comment outside the deleted entry, and
/// everything else but white space and a comma beside it: the text before is made of a
/// front, the entry and a back, and the comments of the text afterwards are those of the
/// front and those of the back; so are the other tokens, commas aside.
#[verifier::rlimit(60)]
#[verifier::spinoff_prover]
pub proof fn deleting_keeps_the_comments(d: JsoncDoc, path: Seq<St>, fx: Facts)
    requires
        doc_good(d, fx),
        path.len() > 0,
        js_at(d.value, path) is Some,
        forall|i: int| 0 <= i < path.len() ==> (#[trigger] path[i]) is Field || path[i] is Index,
    ensures
        ({
            let (now, r) = jsonc_delete(d, path);
            let old_toks = json_tokens(jsonc_body(d), 0);
            let new_toks = json_tokens(jsonc_body(now), 0);
            &&& r is Ok
            &&& exists|front: Seq<Jt>, k: Option<Ky>, c: Option<Seq<Jt>>, back: Seq<Jt>|
                {
                    &&& old_toks == front + #[trigger] entry_toks(k, js_at(d.value, path)->0, c)
                        + #[trigger] back.skip(0)
                    &&& notes(new_toks) == notes(#[trigger] front.skip(0)) + notes(back)
                    &&& words(new_toks) == words(front) + words(back)
                }
        }),
{
    let v = js_at(d.value, path)->0;
    assert(!iterates(path)) by {
        if iterates(path) {
            let i = choose|i: int| 0 <= i < path.len() && (#[trigger] path[i]) is Iterate;
            assert(path[i] is Field || path[i] is Index);
        }
    }
    assert forall|i: int| 0 <= i < path.len() implies !((#[trigger] path[i]) is Comment) by {
        assert(path[i] is Field || path[i] is Index);
    }
    let z = deleting_keeps_the_rest(d.value, path, fx);
    let (f, x, e, y, b) = parts_at(d.value, path);
    let (now, r) = jsonc_delete(d, path);
    deleting_keeps_good(d.value, path, fx);
    assert(now.head == d.head && now.tail == d.tail && now.value == js_delete(d.value, path)->Ok_0);
    doc_reads(d, fx);
    doc_reads(now, fx);
    tokens_read_back(doc_toks(d));
    tokens_read_back(doc_toks(now));
    let front = d.head + (f + x);
    let back = (y + b) + d.tail;
    let (k, c) = choose|k: Option<Ky>, c: Option<Seq<Jt>>| #[trigger] entry_toks(k, v, c) == e;
    assert(doc_toks(d) == front + entry_toks(k, v, c) + back) by {
        assert(d.head + (f + x + e + y + b) + d.tail =~= d.head + (f + x) + e + ((y + b) + d.tail));
    }
    let t = node_toks(now.value);
    words_add(d.head, t);
    words_add(d.head + t, d.tail);
    words_add(d.head, f + x);
    words_add(y + b, d.tail);
    regroup_words(words(d.head), words(f + x), words(y + b), words(d.tail));
    notes_of_words(doc_toks(now));
    notes_of_words(front);
    notes_of_words(back);
    notes_add(words(front), words(back));
    assert(back.skip(0) =~= back);
    assert(front.skip(0) =~= front);
}

/// Are the comma and the trivia of the entry white space alone?
spec fn spaced(e: En) -> bool {
    all_loose(e.after) && words(e.after).len() == 0 && (e.comma is Some ==> all_loose(e.comma->0)
        && words(e.comma->0).len() == 0)
}

proof fn entry_words(e: En)
    requires
        spaced(e),
    ensures
        words(en_toks(e)) == words(key_toks(e.key) + node_toks(e.value)),
{
    let kv = key_toks(e.key) + node_toks(e.value);
    let c = comma_toks(e.comma);
    comma_is_loose(e.comma);
    words_add(kv, c);
    words_add(kv + c, e.after);
    if e.comma is Some {
        assert(words(e.comma->0) =~= Seq::<Jt>::empty());
    }
    assert(words(e.after) =~= Seq::<Jt>::empty());
    none_add(words(kv));
}

/// Entries that differ in white space and commas alone have the same words.
proof fn entries_words(a: Seq<En>, b: Seq<En>, i: int)
    requires
        0 <= i <= a.len(),
        a.len() == b.len(),
        forall|k: int|
            0 <= k < a.len() ==> spaced(#[trigger] a[k]) && spaced(b[k]) && a[k].key == b[k].key
                && a[k].value == b[k].value,
    ensures
        words(es_toks(a, i)) == words(es_toks(b, i)),
    decreases a.len() - i,
{
    if i < a.len() {
        entries_words(a, b, i + 1);
        assert(spaced(a[i]));
        entry_words(a[i]);
        entry_words(b[i]);
        words_add(en_toks(a[i]), es_toks(a, i + 1));
        words_add(en_toks(b[i]), es_toks(b, i + 1));
    }
}

proof fn space_is_loose(t: Seq<char>)
    ensures
        all_loose(space(t)),
        words(space(t)).len() == 0,
{
    if t.len() > 0 {
        words_one(Jt { kind: Tok::Ws, text: t });
    }
}

/// The tokens of a container up to its last entry's value, and those from there to the
/// closing bracket.
pub open spec fn open_end(n: Js) -> (Seq<Jt>, Seq<Jt>) {
    let es = entries_of(n);
    let object = n is Object;
    if es.len() == 0 {
        (seq![opener(object)], pre_of(n))
    } else {
        let last = es.last();
        (
            seq![opener(object)] + pre_of(n) + first_toks(es, (es.len() - 1) as nat) + key_toks(
                last.key,
            ) + node_toks(last.value),
            comma_toks(last.comma) + last.after,
        )
    }
}

proof fn open_end_makes_up(n: Js, fx: Facts)
    requires
        node_good(n, fx),
        n is Object || n is Array,
    ensures
        node_toks(n) == open_end(n).0 + open_end(n).1 + seq![shutter(n is Object)],
        open_end(n).0.len() > 0,
        !loose(open_end(n).0.last()),
        all_loose(open_end(n).1),
{
    let es = entries_of(n);
    let object = n is Object;
    let s = seq![shutter(object)];
    fit_entries(es, object, pre_of(n), fx);
    run_is_loose(pre_of(n));
    if es.len() == 0 {
        assert(es_toks(es, 0) == Seq::<Jt>::empty());
        none_add(seq![opener(object)] + pre_of(n));
    } else {
        let i = es.len() - 1;
        let last = es[i];
        assert(fit(es[i], object, fx));
        fit_is_loose(last, object, fx);
        comma_is_loose(last.comma);
        loose_add(comma_toks(last.comma), last.after);
        node_edges(last.value, fx);
        toks_cut(es, es.len() as int);
        let g = first_toks(es, i as nat);
        regroup_later(
            seq![opener(object)] + pre_of(n),
            g,
            key_toks(last.key),
            node_toks(last.value),
            comma_toks(last.comma),
            last.after,
            s,
            s,
            Seq::empty(),
            s,
        );
        none_add(s);
        assert(es_toks(es, es.len() as int) == Seq::<Jt>::empty());
        assert(first_toks(es, es.len()) == g + en_toks(last));
    }
}

/// The white space in front of new entries and between them.
proof fn separators(pre: Seq<Jt>, es: Seq<En>, body: Seq<Jt>, eol: Seq<char>)
    ensures
        ({
            let inner = inner_text(pre, es);
            let indent = indent_from(inner, 0);
            let first = line_space(break_behind(toks_text(body), eol), indent);
            &&& all_loose(first) && words(first) == Seq::<Jt>::empty()
            &&& all_loose(line_space(eol, indent)) && words(line_space(eol, indent)) == Seq::<Jt>::empty()
            &&& all_loose(space(" "@)) && words(space(" "@)) == Seq::<Jt>::empty()
        }),
{
    let indent = indent_from(inner_text(pre, es), 0);
    space_is_loose(break_behind(toks_text(body), eol) + indent);
    space_is_loose(eol + indent);
    space_is_loose(" "@);
    assert(words(space(" "@)) =~= Seq::<Jt>::empty());
    assert(words(space(eol + indent)) =~= Seq::<Jt>::empty());
    assert(words(space(break_behind(toks_text(body), eol) + indent)) =~= Seq::<Jt>::empty());
}

proof fn dressed_words(new: Seq<En>, sep: Seq<Jt>, trailing: bool, tail: Seq<Jt>)
    requires
        forall|k: int| 0 <= k < new.len() ==> spaced(#[trigger] new[k]),
        all_loose(sep),
        words(sep).len() == 0,
        all_loose(tail),
        words(tail).len() == 0,
    ensures
        words(es_toks(dressed(new, sep, trailing, tail), 0)) == words(es_toks(new, 0)),
{
    let now = dressed(new, sep, trailing, tail);
    none_add(sep);
    assert forall|k: int| 0 <= k < new.len() implies spaced(#[trigger] now[k]) && spaced(new[k])
        && now[k].key == new[k].key && now[k].value == new[k].value by {
        assert(spaced(new[k]));
        assert(all_loose(no_tokens()));
    }
    entries_words(now, new, 0);
}

/// Entries put into a container that has none.
#[verifier::rlimit(40)]
#[verifier::spinoff_prover]
proof fn entries_put_in(object: bool, pre: Seq<Jt>, new: Seq<En>, eol: Seq<char>) -> (w: Seq<Jt>)
    requires
        all_loose(pre),
        new.len() > 0,
        forall|k: int| 0 <= k < new.len() ==> spaced(#[trigger] new[k]),
    ensures
        ({
            let (p, all) = appended(pre, Seq::empty(), new, eol);
            &&& node_toks(container(object, p, all)) == seq![opener(object)] + w + seq![
                shutter(object),
            ]
            &&& words(w) == words(pre) + words(es_toks(new, 0))
        }),
{
    let es = Seq::<En>::empty();
    let (p, all) = appended(pre, es, new, eol);
    let body = unspaced(pre);
    unspaced_words(pre);
    separators(pre, es, body, eol);
    let inner = inner_text(pre, es);
    let indent = indent_from(inner, 0);
    let multi = multi_line(inner);
    let sep = if multi {
        line_space(eol, indent)
    } else {
        space(" "@)
    };
    let first = if multi {
        line_space(break_behind(toks_text(body), eol), indent)
    } else {
        space(" "@)
    };
    none_add(words(body));
    if pre.len() > 0 {
        words_add(body, first);
        dressed_words(new, sep, false, end_space(pre));
    } else {
        assert(pre =~= Seq::<Jt>::empty());
        assert(all_loose(no_tokens()));
        dressed_words(new, space(" "@), false, no_tokens());
    }
    assert(words(p) == words(pre));
    let r = es_toks(all, 0);
    words_add(p, r);
    regroup_words(seq![opener(object)], p, r, r);
    p + r
}

/// Entries put behind the last one of a container.
#[verifier::rlimit(60)]
#[verifier::spinoff_prover]
proof fn entries_put_behind(object: bool, pre: Seq<Jt>, es: Seq<En>, new: Seq<En>, eol: Seq<char>) -> (w: Seq<
    Jt,
>)
    requires
        es.len() > 0,
        loosely(es.last()),
        new.len() > 0,
        forall|k: int| 0 <= k < new.len() ==> spaced(#[trigger] new[k]),
    ensures
        ({
            let (p, all) = appended(pre, es, new, eol);
            let (f, x) = open_end(container(object, pre, es));
            &&& node_toks(container(object, p, all)) == f + w + seq![shutter(object)]
            &&& words(w) == words(x) + words(es_toks(new, 0))
        }),
{
    let (p, all) = appended(pre, es, new, eol);
    let (f, x) = open_end(container(object, pre, es));
    let o = seq![opener(object)];
    let s = seq![shutter(object)];
    let at = es.len() - 1;
    let last = es[at];
    let body = unspaced(last.after);
    unspaced_words(last.after);
    separators(pre, es, body, eol);
    let inner = inner_text(pre, es);
    let indent = indent_from(inner, 0);
    let multi = multi_line(inner);
    let sep = if multi {
        line_space(eol, indent)
    } else {
        space(" "@)
    };
    let first = if multi {
        line_space(break_behind(toks_text(body), eol), indent)
    } else {
        space(" "@)
    };
    let q = followed(last, first);
    let tail = dressed(new, sep, last.comma is Some, end_space(last.after));
    assert(all == es.update(at, q) + tail);
    dressed_words(new, sep, last.comma is Some, end_space(last.after));
    toks_cut(all, es.len() as int);
    first_same(all, es, at as nat);
    assert(all[at] == q);
    let g = first_toks(es, at as nat);
    assert(first_toks(all, es.len()) == g + en_toks(q));
    rest_same(all, es.len() as int, tail, 0);
    let r = es_toks(tail, 0);
    let gap = comma_toks(q.comma) + q.after;
    regroup_later(
        o + pre,
        g,
        key_toks(q.key),
        node_toks(q.value),
        comma_toks(q.comma),
        q.after,
        s,
        s,
        r,
        s,
    );
    regroup_words(f, gap, r, s);
    words_add(gap, r);
    front_words(last);
    words_add(body, first);
    loose_add(body, first);
    none_add(words(body));
    none_add(words(x));
    let qc = if q.comma is Some {
        words(q.comma->0)
    } else {
        Seq::<Jt>::empty()
    };
    assert(all_loose(no_tokens()));
    gap_words(q, qc, x, Seq::empty());
    gap + r
}

/// A container with entries added at its end: the tokens up to the last entry's value are
/// what they were, and behind them come the comments that were there and then the new
/// entries, besides white space and commas.
proof fn entries_added(object: bool, pre: Seq<Jt>, es: Seq<En>, new: Seq<En>, eol: Seq<char>, fx: Facts) -> (w: Seq<
    Jt,
>)
    requires
        node_good(container(object, pre, es), fx),
        forall|k: int| 0 <= k < new.len() ==> spaced(#[trigger] new[k]),
    ensures
        ({
            let (p, all) = appended(pre, es, new, eol);
            let (f, x) = open_end(container(object, pre, es));
            &&& node_toks(container(object, p, all)) == f + w + seq![shutter(object)]
            &&& words(w) == words(x) + words(es_toks(new, 0))
        }),
{
    let n = container(object, pre, es);
    let (f, x) = open_end(n);
    open_end_makes_up(n, fx);
    fit_entries(es, object, pre, fx);
    run_is_loose(pre);
    if new.len() == 0 {
        assert(es_toks(new, 0) == Seq::<Jt>::empty());
        none_add(words(x));
        x
    } else if es.len() == 0 {
        assert(es =~= Seq::<En>::empty());
        entries_put_in(object, pre, new, eol)
    } else {
        assert(fit(es[es.len() - 1], object, fx));
        fit_is_loose(es.last(), object, fx);
        entries_put_behind(object, pre, es, new, eol)
    }
}

/// The tokens of a node around the node that a path leads to.
pub open spec fn hull(n: Js, path: Seq<St>) -> (Seq<Jt>, Seq<Jt>)
    decreases path.len(),
{
    if path.len() == 0 {
        (Seq::empty(), Seq::empty())
    } else {
        let i = child(n, path[0])->0;
        let es = entries_of(n);
        let (f, b) = hull(es[i].value, path.drop_first());
        (
            seq![opener(n is Object)] + pre_of(n) + first_toks(es, i as nat) + key_toks(es[i].key)
                + f,
            b + comma_toks(es[i].comma) + es[i].after + es_toks(es, i + 1) + seq![
                shutter(n is Object),
            ],
        )
    }
}

/// The node with another one in the place that a path leads to.
pub open spec fn with_at(n: Js, path: Seq<St>, x: Js) -> Js
    decreases path.len(),
{
    if path.len() == 0 {
        x
    } else {
        let i = child(n, path[0])->0;
        with_value_at(n, i, with_at(entries_of(n)[i].value, path.drop_first(), x))
    }
}

/// Exchanging a node keeps all tokens around it.
proof fn hull_stays(n: Js, path: Seq<St>, x: Js)
    requires
        js_at(n, path) is Some,
    ensures
        node_toks(n) == hull(n, path).0 + node_toks(js_at(n, path)->0) + hull(n, path).1,
        node_toks(with_at(n, path, x)) == hull(n, path).0 + node_toks(x) + hull(n, path).1,
    decreases path.len(),
{
    if path.len() == 0 {
        none_add(node_toks(n));
        none_add(node_toks(x));
    } else {
        child_bounds(n, path[0]);
        let i = child(n, path[0])->0;
        let es = entries_of(n);
        let rest = path.drop_first();
        hull_stays(es[i].value, rest, x);
        let (f, b) = hull(es[i].value, rest);
        let m = with_at(es[i].value, rest, x);
        node_cut(n, i);
        value_exchanged(n, i, m);
        let h0 = seq![opener(n is Object)] + pre_of(n) + first_toks(es, i as nat);
        let k = key_toks(es[i].key);
        let c = comma_toks(es[i].comma);
        let a = es[i].after;
        let r = es_toks(es, i + 1);
        let s = seq![shutter(n is Object)];
        regroup_entry(h0, k, node_toks(es[i].value), c, a, r, s);
        regroup_inner(h0 + k, f, node_toks(js_at(n, path)->0), s, s, b, c, a, r, s);
        regroup_inner(h0 + k, f, node_toks(x), s, s, b, c, a, r, s);
    }
}

proof fn append_goes(n: Js, path: Seq<St>, items: Seq<Val>, json5: bool, eol: Seq<char>)
    requires
        js_append(n, path, items, json5, eol) is Ok,
    ensures
        js_at(n, path) is Some,
        js_at(n, path)->0 is Array,
        with_items(js_at(n, path)->0, items, json5, eol) is Ok,
        js_append(n, path, items, json5, eol)->Ok_0 == with_at(
            n,
            path,
            with_items(js_at(n, path)->0, items, json5, eol)->Ok_0,
        ),
    decreases path.len(),
{
    if path.len() > 0 {
        child_bounds(n, path[0]);
        append_goes(entries_of(n)[child(n, path[0])->0].value, path.drop_first(), items, json5, eol);
    }
}

proof fn set_goes(n: Js, path: Seq<St>, at: int, v: Val, json5: bool, eol: Seq<char>)
    requires
        0 <= at < path.len(),
        js_at(n, path.take(at)) is Some,
        child(js_at(n, path.take(at))->0, path[at]) is None,
        js_set(n, path, v, json5, eol) is Ok,
    ensures
        ({
            let m = js_at(n, path.take(at))->0;
            &&& created(m, path.skip(at), v, json5, eol) is Ok
            &&& js_set(n, path, v, json5, eol)->Ok_0 == with_at(
                n,
                path.take(at),
                created(m, path.skip(at), v, json5, eol)->Ok_0,
            )
        }),
    decreases path.len(),
{
    if at == 0 {
        assert(path.take(0) =~= Seq::<St>::empty());
        assert(path.skip(0) =~= path);
        assert(js_at(n, path.take(0)) == Some(n));
    } else {
        child_bounds(n, path[0]);
        let i = child(n, path[0])->0;
        let rest = path.drop_first();
        assert(path.take(at).drop_first() =~= rest.take(at - 1));
        assert(path.take(at)[0] == path[0]);
        assert(rest.skip(at - 1) =~= path.skip(at));
        assert(rest[at - 1] == path[at]);
        set_goes(entries_of(n)[i].value, rest, at - 1, v, json5, eol);
    }
}

proof fn good_at(n: Js, path: Seq<St>, fx: Facts)
    requires
        node_good(n, fx),
        js_at(n, path) is Some,
    ensures
        node_good(js_at(n, path)->0, fx),
    decreases path.len(),
{
    if path.len() > 0 {
        child_bounds(n, path[0]);
        let i = child(n, path[0])->0;
        fit_entries(entries_of(n), n is Object, pre_of(n), fx);
        assert(fit(entries_of(n)[i], n is Object, fx));
        good_at(entries_of(n)[i].value, path.drop_first(), fx);
    }
}

/// Items appended to an array leave every token that was there as it was and in its place,
/// white space and commas behind the last element aside: the document's tokens are those
/// in front, then the new elements', then those behind.
pub proof fn appending_keeps_the_rest(
    n: Js,
    path: Seq<St>,
    items: Seq<Val>,
    json5: bool,
    eol: Seq<char>,
    fx: Facts,
) -> (w: Seq<Jt>)
    requires
        node_good(n, fx),
        js_append(n, path, items, json5, eol) is Ok,
    ensures
        ({
            let (front, back) = hull(n, path);
            let (f, x) = open_end(js_at(n, path)->0);
            let s = seq![shutter(false)];
            &&& node_toks(n) == front + (f + x + s) + back
            &&& !loose(f.last()) && all_loose(x)
            &&& node_toks(js_append(n, path, items, json5, eol)->Ok_0) == front + (f + w + s) + back
            &&& words(w) == words(x) + words(es_toks(fresh_items_bare(items, json5), 0))
        }),
{
    append_goes(n, path, items, json5, eol);
    good_at(n, path, fx);
    let m = js_at(n, path)->0;
    let new = fresh_items_bare(items, json5);
    hull_stays(n, path, with_items(m, items, json5, eol)->Ok_0);
    open_end_makes_up(m, fx);
    none_add(Seq::empty());
    assert forall|k: int| 0 <= k < new.len() implies spaced(#[trigger] new[k]) by {}
    let w = entries_added(false, pre_of(m), entries_of(m), new, eol, fx);
    w
}

/// A member created in an object leaves every token that was there as it was and in its
/// place, white space and commas behind the last member aside: the document's tokens are
/// those in front, then the new member's, then those behind.
pub proof fn creating_keeps_the_rest(
    n: Js,
    path: Seq<St>,
    at: int,
    v: Val,
    json5: bool,
    eol: Seq<char>,
    fx: Facts,
) -> (w: Seq<Jt>)
    requires
        node_good(n, fx),
        0 <= at < path.len(),
        js_at(n, path.take(at)) is Some,
        child(js_at(n, path.take(at))->0, path[at]) is None,
        js_set(n, path, v, json5, eol) is Ok,
    ensures
        ({
            let (front, back) = hull(n, path.take(at));
            let m = js_at(n, path.take(at))->0;
            let (f, x) = open_end(m);
            let s = seq![shutter(true)];
            let key = path[at]->Field_0;
            let x_new = nested(path.skip(at + 1), v)->Ok_0;
            let e = new_member(key, member_node(inner_text(pre_of(m), entries_of(m)), x_new, json5, eol));
            &&& m is Object
            &&& path[at] is Field
            &&& nested(path.skip(at + 1), v) is Ok
            &&& node_toks(n) == front + (f + x + s) + back
            &&& !loose(f.last()) && all_loose(x)
            &&& node_toks(js_set(n, path, v, json5, eol)->Ok_0) == front + (f + w + s) + back
            &&& words(w) == words(x) + words(en_toks(e))
        }),
{
    let m = js_at(n, path.take(at))->0;
    set_goes(n, path, at, v, json5, eol);
    good_at(n, path.take(at), fx);
    let rest = path.skip(at);
    assert(rest[0] == path[at]);
    assert(rest.drop_first() =~= path.skip(at + 1));
    let key = path[at]->Field_0;
    let x_new = nested(path.skip(at + 1), v)->Ok_0;
    let e = new_member(key, member_node(inner_text(pre_of(m), entries_of(m)), x_new, json5, eol));
    hull_stays(n, path.take(at), created(m, rest, v, json5, eol)->Ok_0);
    open_end_makes_up(m, fx);
    none_add(en_toks(e));
    assert(spaced(e));
    let w = entries_added(true, pre_of(m), entries_of(m), seq![e], eol, fx);
    assert(es_toks(seq![e], 1) == Seq::<Jt>::empty());
    assert(es_toks(seq![e], 0) == en_toks(e) + es_toks(seq![e], 1));
    w
}

} // verus!
