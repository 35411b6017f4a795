//! What a value or a document is said to hold, it holds.
use crate::comment::{annotated, annotated_member, with_foot};
use crate::convert::{container, holds_array, nests};
use crate::env::{env_annotated, env_commented, env_style, scheme, EnvDoc};
use crate::feature::{feature_text, Feature};
use crate::flat_laws::inside;
use crate::json_keep_laws::{notes, notes_add};
use crate::json_lexer::{Jt, Tok};
use crate::json_text_laws::{comma_toks, doc_toks, en_toks, es_toks, key_toks, node_toks};
use crate::json_tree::{En, Js};
use crate::jsonc::JsoncDoc;
use crate::jsonc_comments::{en_annotated, es_annotated, js_annotated, jsonc_annotated};
use crate::line_comment::newlines;
use crate::model::{Cmt, CmtNode, Val};
use crate::rows::{row_kind, walked, RowKind, Scheme};
use vstd::prelude::*;
use vstd::string::*;

verus! {

/// Do positions lead to an array?
pub open spec fn leads_to_array(v: Val, p: Seq<int>) -> bool {
    inside(v, p) is Some && inside(v, p)->Some_0 is Array
}

proof fn array_is_there(v: Val) -> (p: Seq<int>)
    requires
        holds_array(v),
    ensures
        leads_to_array(v, p),
    decreases v,
{
    match v {
        Val::Object(m) => {
            let i = choose|i: int| 0 <= i < m.len() && holds_array((#[trigger] m[i]).1);
            let q = array_is_there(m[i].1);
            let p = seq![i] + q;
            assert(p.drop_first() =~= q);
            p
        },
        _ => Seq::empty(),
    }
}

proof fn array_is_seen(v: Val, p: Seq<int>)
    requires
        leads_to_array(v, p),
    ensures
        holds_array(v),
    decreases p.len(),
{
    if p.len() > 0 {
        match v {
            Val::Object(m) => {
                array_is_seen(m[p[0]].1, p.drop_first());
                assert(holds_array(m[p[0]].1));
            },
            _ => {},
        }
    }
}

/// A value is said to hold an array if and only if one can be reached in it.
pub proof fn arrays_are_reached(v: Val)
    ensures
        holds_array(v) <==> exists|p: Seq<int>| #[trigger] leads_to_array(v, p),
{
    if holds_array(v) {
        let p = array_is_there(v);
    }
    if exists|p: Seq<int>| #[trigger] leads_to_array(v, p) {
        let p = choose|p: Seq<int>| #[trigger] leads_to_array(v, p);
        array_is_seen(v, p);
    }
}

/// Do positions lead to a list or an object that stands in another one?
pub open spec fn leads_deep(v: Val, p: Seq<int>) -> bool {
    p.len() > 0 && inside(v, p) is Some && (inside(v, p)->Some_0 is Array || inside(v, p)->Some_0 is Object)
}

/// A value is said to be nested if and only if a list or an object can be reached inside it.
pub proof fn nesting_is_reached(v: Val)
    ensures
        nests(v) <==> exists|p: Seq<int>| #[trigger] leads_deep(v, p),
{
    if nests(v) {
        let i = match v {
            Val::Object(m) => choose|i: int| 0 <= i < m.len() && container((#[trigger] m[i]).1),
            Val::Array(a) => choose|i: int| 0 <= i < a.len() && container(#[trigger] a[i]),
            _ => 0,
        };
        let p = seq![i];
        assert(p.drop_first() =~= Seq::<int>::empty());
        let w = match v {
            Val::Object(m) => m[i].1,
            Val::Array(a) => a[i],
            _ => v,
        };
        assert(inside(w, p.drop_first()) == Some(w));
        assert(leads_deep(v, p));
    }
    if exists|p: Seq<int>| #[trigger] leads_deep(v, p) {
        let p = choose|p: Seq<int>| #[trigger] leads_deep(v, p);
        let w = match v {
            Val::Object(m) => m[p[0]].1,
            Val::Array(a) => a[p[0]],
            _ => v,
        };
        assert(inside(w, p.drop_first()) is Some);
        assert(container(w));
        match v {
            Val::Object(m) => assert(container(m[p[0]].1)),
            Val::Array(a) => assert(container(a[p[0]])),
            _ => {},
        }
    }
}

proof fn noted_run(ts: Seq<Jt>)
    ensures
        crate::json_edit::has_note(ts) <==> notes(ts).len() > 0,
    decreases ts.len(),
{
    if ts.len() > 0 {
        let b = ts.drop_last();
        noted_run(b);
        if crate::json_edit::has_note(b) {
            let i = choose|i: int|
                0 <= i < b.len() && ((#[trigger] b[i]).kind == Tok::LineComment || b[i].kind
                    == Tok::BlockComment);
            assert(ts[i] == b[i]);
        }
        if crate::json_edit::has_note(ts) {
            let i = choose|i: int|
                0 <= i < ts.len() && ((#[trigger] ts[i]).kind == Tok::LineComment || ts[i].kind
                    == Tok::BlockComment);
            if i < b.len() {
                assert(b[i] == ts[i]);
            }
        } else {
            let x = ts[ts.len() - 1];
            assert(x == ts.last());
        }
    }
}

proof fn quiet(x: Jt)
    requires
        x.kind != Tok::LineComment,
        x.kind != Tok::BlockComment,
    ensures
        notes(seq![x]).len() == 0,
{
    assert(seq![x].drop_last() =~= Seq::<Jt>::empty());
    assert(notes(seq![x].drop_last()).len() == 0);
}

/// Is every literal and every key of the node a token of its own, and no comment?
pub open spec fn worded(n: Js) -> bool
    decreases n,
{
    match n {
        Js::Scalar(l) => l.token.kind != Tok::LineComment && l.token.kind != Tok::BlockComment,
        Js::Object(_, es) => forall|i: int|
            0 <= i < es.len() ==> worded((#[trigger] es[i]).value) && (es[i].key is Some ==> (
            es[i].key->0.token.kind != Tok::LineComment && es[i].key->0.token.kind
                != Tok::BlockComment)),
        Js::Array(_, es) => forall|i: int|
            0 <= i < es.len() ==> worded((#[trigger] es[i]).value) && (es[i].key is Some ==> (
            es[i].key->0.token.kind != Tok::LineComment && es[i].key->0.token.kind
                != Tok::BlockComment)),
    }
}

proof fn entry_noted(e: En)
    requires
        worded(e.value),
        e.key is Some ==> (e.key->0.token.kind != Tok::LineComment && e.key->0.token.kind
            != Tok::BlockComment),
    ensures
        en_annotated(e) <==> notes(en_toks(e)).len() > 0,
    decreases e, 0int,
{
    node_noted(e.value);
    let k = key_toks(e.key);
    let v = node_toks(e.value);
    let c = comma_toks(e.comma);
    notes_add(k + v + c, e.after);
    notes_add(k + v, c);
    notes_add(k, v);
    noted_run(e.after);
    match e.key {
        Some(x) => {
            let colon = seq![crate::json_text_laws::mark(Tok::Colon, ':')];
            notes_add(seq![x.token] + x.gap + colon, x.lead);
            notes_add(seq![x.token] + x.gap, colon);
            notes_add(seq![x.token], x.gap);
            quiet(x.token);
            quiet(colon[0]);
            noted_run(x.gap);
            noted_run(x.lead);
        },
        None => {},
    }
    match e.comma {
        Some(ts) => {
            let comma = seq![crate::json_text_laws::mark(Tok::Comma, ',')];
            notes_add(ts, comma);
            quiet(comma[0]);
            noted_run(ts);
        },
        None => {},
    }
}

proof fn entries_noted(es: Seq<En>, i: int)
    requires
        0 <= i <= es.len(),
        forall|j: int|
            0 <= j < es.len() ==> worded((#[trigger] es[j]).value) && (es[j].key is Some ==> (
            es[j].key->0.token.kind != Tok::LineComment && es[j].key->0.token.kind
                != Tok::BlockComment)),
    ensures
        notes(es_toks(es, i)).len() > 0 <==> exists|j: int| i <= j < es.len() && en_annotated(#[trigger] es[j]),
    decreases es, es.len() - i,
{
    if i < es.len() {
        assert(worded(es[i].value));
        entry_noted(es[i]);
        entries_noted(es, i + 1);
        notes_add(en_toks(es[i]), es_toks(es, i + 1));
    }
}

proof fn first_noted(es: Seq<En>, n: nat)
    requires
        n <= es.len(),
    ensures
        es_annotated(es, n) <==> exists|j: int| 0 <= j < n && en_annotated(#[trigger] es[j]),
    decreases n,
{
    if n > 0 {
        first_noted(es, (n - 1) as nat);
        if en_annotated(es[n - 1]) {
            assert(es_annotated(es, n));
        }
    }
}

proof fn node_noted(n: Js)
    requires
        worded(n),
    ensures
        js_annotated(n) <==> notes(node_toks(n)).len() > 0,
    decreases n, 1int,
{
    match n {
        Js::Scalar(l) => {
            quiet(l.token);
        },
        Js::Object(p, es) => {
            let o = true;
            let a = seq![crate::json_text_laws::opener(o)];
            let b = seq![crate::json_text_laws::shutter(o)];
            notes_add(a + p + es_toks(es, 0), b);
            notes_add(a + p, es_toks(es, 0));
            notes_add(a, p);
            quiet(a[0]);
            quiet(b[0]);
            noted_run(p);
            entries_noted(es, 0);
            first_noted(es, es.len());
        },
        Js::Array(p, es) => {
            let o = false;
            let a = seq![crate::json_text_laws::opener(o)];
            let b = seq![crate::json_text_laws::shutter(o)];
            notes_add(a + p + es_toks(es, 0), b);
            notes_add(a + p, es_toks(es, 0));
            notes_add(a, p);
            quiet(a[0]);
            quiet(b[0]);
            noted_run(p);
            entries_noted(es, 0);
            first_noted(es, es.len());
        },
    }
}

/// A JSON document is said to have comments if and only if there is a comment among its
/// tokens.
pub proof fn json_comments_are_there(d: JsoncDoc)
    requires
        worded(d.value),
    ensures
        jsonc_annotated(d) <==> exists|i: int|
            0 <= i < doc_toks(d).len() && ((#[trigger] doc_toks(d)[i]).kind == Tok::LineComment
                || doc_toks(d)[i].kind == Tok::BlockComment),
{
    node_noted(d.value);
    noted_run(d.head);
    noted_run(d.tail);
    noted_run(doc_toks(d));
    notes_add(d.head + node_toks(d.value), d.tail);
    notes_add(d.head, node_toks(d.value));
}

proof fn foot_is_noted(c: Cmt, lines: Seq<Seq<char>>)
    requires
        lines.len() > 0,
    ensures
        annotated(with_foot(c, lines)),
    decreases c,
{
    let r = with_foot(c, lines);
    match c.node {
        CmtNode::Object(m) => {
            if m.len() > 0 {
                foot_is_noted(m[m.len() - 1].1, lines);
                let n = r.node->Object_0;
                assert(annotated(n[m.len() - 1].1));
            }
        },
        CmtNode::Array(a) => {
            if a.len() > 0 {
                foot_is_noted(a[a.len() - 1], lines);
                let n = r.node->Array_0;
                assert(annotated(n[a.len() - 1]));
            }
        },
        CmtNode::Scalar(_) => {},
    }
}

/// Is one of the first `n` lines a comment?
spec fn note_among(lines: Seq<Seq<char>>, g: Scheme, n: int) -> bool {
    exists|i: int| 0 <= i < n && row_kind(#[trigger] lines[i], g) == RowKind::Note
}

proof fn walked_is_noted(lines: Seq<Seq<char>>, g: Scheme, n: int)
    requires
        0 <= n <= lines.len(),
        g != Scheme::Sections,
    ensures
        ({
            let (o, p) = walked(env_style(), lines, g, 0, n, Seq::empty(), Seq::empty());
            annotated_member(o) || p.len() > 0 <==> note_among(lines, g, n)
        }),
    decreases n,
{
    if n > 0 {
        walked_is_noted(lines, g, n - 1);
        let (o, p) = walked(env_style(), lines, g, 0, n - 1, Seq::empty(), Seq::empty());
        let (q, r) = walked(env_style(), lines, g, 0, n, Seq::empty(), Seq::empty());
        let t = lines[n - 1];
        if note_among(lines, g, n - 1) {
            let i = choose|i: int| 0 <= i < n - 1 && row_kind(#[trigger] lines[i], g) == RowKind::Note;
            assert(note_among(lines, g, n));
        }
        if row_kind(t, g) == RowKind::Entry {
            assert(crate::rows::inline_text(t, g) is None);
            let x = q[q.len() - 1].1;
            assert(annotated(x) <==> p.len() > 0);
            if annotated_member(o) {
                let i = choose|i: int| 0 <= i < o.len() && annotated((#[trigger] o[i]).1);
                assert(q[i] == o[i]);
            }
            if annotated_member(q) {
                let i = choose|i: int| 0 <= i < q.len() && annotated((#[trigger] q[i]).1);
                if i < o.len() {
                    assert(q[i] == o[i]);
                }
            }
        } else if row_kind(t, g) == RowKind::Note {
            assert(note_among(lines, g, n));
        }
    }
}

/// A flat file is said to have comments if and only if reading it with its comments gives
/// one.
pub proof fn env_comments_are_there(d: EnvDoc)
    ensures
        env_annotated(d) <==> annotated(env_commented(d)),
{
    let g = scheme(d.dialect);
    let n = d.lines.len() as int;
    walked_is_noted(d.lines, g, n);
    let (o, p) = walked(env_style(), d.lines, g, 0, n, Seq::empty(), Seq::empty());
    let root = Cmt { notes: crate::model::no_notes(), node: CmtNode::Object(o) };
    if p.len() > 0 {
        foot_is_noted(root, p);
    }
    assert(env_annotated(d) <==> note_among(d.lines, g, n));
    assert(annotated(root) <==> annotated_member(o));
}

/// The lines in front of a place are counted: each line feed counts once, and nothing else
/// does.
pub proof fn line_feeds_are_counted(a: Seq<u8>, b: Seq<u8>)
    ensures
        newlines(a + b) == newlines(a) + newlines(b),
        newlines(seq![10u8]) == 1,
        newlines(a) == 0 <==> !a.contains(10u8),
    decreases b.len(), a.len(),
{
    assert(seq![10u8].drop_last() =~= Seq::<u8>::empty());
    assert(newlines(seq![10u8].drop_last()) == 0);
    if a.len() > 0 {
        no_feeds(a);
    }
    if b.len() == 0 {
        assert(a + b =~= a);
    } else {
        assert((a + b).drop_last() =~= a + b.drop_last());
        line_feeds_are_counted(a, b.drop_last());
    }
}

proof fn no_feeds(a: Seq<u8>)
    ensures
        newlines(a) == 0 <==> !a.contains(10u8),
    decreases a.len(),
{
    if a.len() > 0 {
        let c = a.drop_last();
        no_feeds(c);
        if c.contains(10u8) {
            let i = choose|i: int| 0 <= i < c.len() && c[i] == 10u8;
            assert(a[i] == 10u8);
        }
        if a.contains(10u8) {
            let i = choose|i: int| 0 <= i < a.len() && a[i] == 10u8;
            if i < c.len() {
                assert(c[i] == 10u8);
            }
        } else {
            assert(a.last() == a[a.len() - 1]);
        }
    }
}

/// No two features have one name.
pub proof fn feature_names_differ(f: Feature, g: Feature)
    requires
        feature_text(f) == feature_text(g),
    ensures
        f == g,
{
    reveal_strlit("comments");
    reveal_strlit("nesting");
    reveal_strlit("arrays");
    reveal_strlit("typed scalars");
    reveal_strlit("sections");
    reveal_strlit("non-finite numbers (degraded to null)");
    let a = feature_text(f);
    assert(a.len() > 0);
    assert("comments"@[0] == 'c');
    assert("sections"@[0] == 's');
}

} // verus!
