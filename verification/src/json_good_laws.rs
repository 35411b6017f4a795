//! What parsing gives, and what a deletion leaves, is a JSON document that its own
//! text parses back as.
use crate::eval_laws::plain_path;
use crate::float::Facts;
use crate::json_delete_laws::{js_ok, jsonc_delete_agrees};
use crate::json_edit::{
    before, child, child_bounds, closed_up, entries_of, glued, js_delete, unled, unspaced,
    without_element, without_entry, without_member, worded,
};
use crate::json_lexer::{
    json_space, json_token, json_token_bounds, json_tokens, space_end, Jt, Tok,
};
use crate::json_nodes::{js_val, literal_val};
use crate::json_parser::{
    closer, j_entries, j_entry, j_key, j_value, kind, opens_object, trivia_end, trivia_end_bounds,
    trivial,
};
use crate::json_relex::{met, parts, self_lexed, token_alone};
use crate::json_text_laws::{
    doc_good, good_text_parses_back, key_good, node_good, run_ok, run_read, scalar_good, tail_good,
};
use crate::json_tree::{En, Js};
use crate::jsonc::{jsonc_delete, jsonc_parsed, jsonc_source, JsoncDoc};
use crate::model::St;
use crate::semantics::{del_at, starts};
use crate::toml_laws::unique_keys;
use vstd::prelude::*;
use vstd::string::*;

verus! {

/// Tokens as lexing makes them.
spec fn lexed(t: Seq<Jt>) -> bool {
    &&& forall|i: int|
        0 <= i < t.len() ==> (#[trigger] t[i]).text.len() > 0 && (t[i].kind == Tok::Error || self_lexed(
            t[i],
        )) && (json_space(t[i].text[0]) ==> t[i].kind == Tok::Ws)
    &&& forall|i: int|
        0 <= i < t.len() - 1 && (t[i].kind == Tok::Ws || t[i].kind == Tok::LineComment)
            ==> #[trigger] met(t, i)
}

proof fn tokens_lexed(s: Seq<char>, i: int)
    requires
        0 <= i <= s.len(),
    ensures
        lexed(json_tokens(s, i)),
        i < s.len() ==> json_tokens(s, i).len() > 0 && json_tokens(s, i)[0].text.len() > 0
            && json_tokens(s, i)[0].text[0] == s[i],
    decreases s.len() - i,
{
    if i < s.len() {
        json_token_bounds(s, i);
        let (k, e) = json_token(s, i);
        tokens_lexed(s, e);
        let x = Jt { kind: k, text: s.subrange(i, e) };
        let rest = json_tokens(s, e);
        let t = json_tokens(s, i);
        assert(t == seq![x] + rest);
        if k != Tok::Error {
            token_alone(s, i);
        }
        assert(x.text[0] == s[i]);
        assert forall|j: int| 0 <= j < t.len() implies (#[trigger] t[j]).text.len() > 0 && (t[j].kind
            == Tok::Error || self_lexed(t[j])) && (json_space(t[j].text[0]) ==> t[j].kind == Tok::Ws) by {
            if j > 0 {
                assert(t[j] == rest[j - 1]);
            }
        }
        assert forall|j: int|
            0 <= j < t.len() - 1 && (t[j].kind == Tok::Ws || t[j].kind == Tok::LineComment) implies #[trigger] met(
            t,
            j,
        ) by {
            if j > 0 {
                assert(t[j] == rest[j - 1]);
                assert(met(rest, j - 1));
            } else {
                assert(t[1] == rest[0]);
                assert(e < s.len());
            }
        }
    }
}

proof fn trivia_all(t: Seq<Jt>, i: int)
    requires
        0 <= i <= t.len(),
    ensures
        forall|k: int| i <= k < trivia_end(t, i) ==> trivial((#[trigger] t[k]).kind),
    decreases t.len() - i,
{
    if i < t.len() && trivial(t[i].kind) {
        trivia_all(t, i + 1);
    }
}

/// A run of trivia in lexed tokens is read back, and in front of another token it does
/// not end with a line comment.
proof fn run_lexed(t: Seq<Jt>, a: int)
    requires
        lexed(t),
        0 <= a <= t.len(),
    ensures
        a <= trivia_end(t, a) <= t.len(),
        run_read(t.subrange(a, trivia_end(t, a))),
        trivia_end(t, a) < t.len() ==> run_ok(t.subrange(a, trivia_end(t, a))),
{
    trivia_end_bounds(t, a);
    trivia_all(t, a);
    let e = trivia_end(t, a);
    let r = t.subrange(a, e);
    assert forall|i: int| 0 <= i < r.len() implies trivial((#[trigger] r[i]).kind) && self_lexed(r[i]) by {
        assert(r[i] == t[a + i]);
    }
    assert forall|i: int| 0 <= i < r.len() - 1 implies #[trigger] met(r, i) by {
        assert(r[i] == t[a + i] && r[i + 1] == t[a + i + 1]);
        if t[a + i].kind != Tok::BlockComment {
            assert(trivial(t[a + i].kind));
            assert(met(t, a + i));
        }
    }
    if e < t.len() && r.len() > 0 && r.last().kind == Tok::LineComment {
        assert(r.last() == t[e - 1]);
        assert(met(t, e - 1));
        assert(t[e].text[0] == '\n');
        assert(t[e].kind == Tok::Ws);
    }
}

/// An entry that reads back, apart from being the last.
pub open spec fn fit(e: En, object: bool, fx: Facts) -> bool {
    (if object {
        e.key is Some && key_good(e.key->0)
    } else {
        e.key is None
    }) && node_good(e.value, fx) && tail_good(e, true)
}

/// Entries that read back, all with a comma but for the last.
pub open spec fn all_fit(es: Seq<En>, object: bool, fx: Facts) -> bool {
    &&& forall|k: int| 0 <= k < es.len() ==> fit(#[trigger] es[k], object, fx)
    &&& forall|k: int| 0 <= k < es.len() - 1 ==> (#[trigger] es[k]).comma is Some
}

pub proof fn fit_entries(es: Seq<En>, object: bool, p: Seq<Jt>, fx: Facts)
    requires
        run_ok(p),
    ensures
        object ==> (all_fit(es, true, fx) <==> node_good(Js::Object(p, es), fx)),
        !object ==> (all_fit(es, false, fx) <==> node_good(Js::Array(p, es), fx)),
{
    if object && node_good(Js::Object(p, es), fx) {
        assert forall|k: int| 0 <= k < es.len() implies fit(#[trigger] es[k], true, fx) && (k < es.len() - 1
            ==> es[k].comma is Some) by {
            assert(tail_good(es[k], k + 1 == es.len()));
        }
    }
    if !object && node_good(Js::Array(p, es), fx) {
        assert forall|k: int| 0 <= k < es.len() implies fit(#[trigger] es[k], false, fx) && (k < es.len() - 1
            ==> es[k].comma is Some) by {
            assert(tail_good(es[k], k + 1 == es.len()));
        }
    }
    if all_fit(es, object, fx) {
        assert forall|k: int| 0 <= k < es.len() implies fit(#[trigger] es[k], object, fx) && tail_good(
            es[k],
            k + 1 == es.len(),
        ) by {}
    }
}

proof fn value_good(t: Seq<Jt>, i: int, fx: Facts)
    requires
        lexed(t),
        0 <= i <= t.len(),
        j_value(t, i, fx) is Ok,
    ensures
        node_good(j_value(t, i, fx)->Ok_0.0, fx),
        i < j_value(t, i, fx)->Ok_0.1 <= t.len(),
    decreases t.len() - i, 3int,
{
    let (n, k) = j_value(t, i, fx)->Ok_0;
    if kind(t, i) == Some(Tok::LBrace) || kind(t, i) == Some(Tok::LBracket) {
        run_lexed(t, i + 1);
        let p = trivia_end(t, i + 1);
        entries_good(t, i, p, Seq::empty(), fx);
        let es = j_entries(t, i, p, Seq::empty(), fx)->Ok_0.0;
        assert(p < t.len());
        fit_entries(es, opens_object(t, i), t.subrange(i + 1, p), fx);
    } else {
        assert(self_lexed(t[i]));
    }
}

proof fn entries_good(t: Seq<Jt>, open: int, i: int, es: Seq<En>, fx: Facts)
    requires
        lexed(t),
        0 <= open < i <= t.len(),
        open < t.len(),
        t[open].kind == Tok::LBrace || t[open].kind == Tok::LBracket,
        all_fit(es, opens_object(t, open), fx),
        es.len() > 0 && es.last().comma is None ==> i >= t.len() || kind(t, i) == Some(closer(t, open)),
        j_entries(t, open, i, es, fx) is Ok,
    ensures
        all_fit(j_entries(t, open, i, es, fx)->Ok_0.0, opens_object(t, open), fx),
        i < j_entries(t, open, i, es, fx)->Ok_0.1 <= t.len(),
    decreases t.len() - i, 5int,
{
    if kind(t, i) != Some(closer(t, open)) {
        let (e, m) = j_entry(t, open, i, fx)->Ok_0;
        assert(m < t.len()) by {
            if m >= t.len() {
                assert(j_entries(t, open, m, es.push(e), fx) is Err);
            }
        }
        entry_good(t, open, i, fx);
        let all = es.push(e);
        assert forall|k: int| 0 <= k < all.len() implies fit(#[trigger] all[k], opens_object(t, open), fx) by {
            if k < es.len() {
                assert(all[k] == es[k]);
            }
        }
        assert forall|k: int| 0 <= k < all.len() - 1 implies (#[trigger] all[k]).comma is Some by {
            assert(all[k] == es[k]);
        }
        entries_good(t, open, m, all, fx);
    }
}

proof fn entry_good(t: Seq<Jt>, open: int, i: int, fx: Facts)
    requires
        lexed(t),
        0 <= open < i < t.len(),
        j_entry(t, open, i, fx) is Ok,
        j_entry(t, open, i, fx)->Ok_0.1 < t.len(),
    ensures
        fit(j_entry(t, open, i, fx)->Ok_0.0, opens_object(t, open), fx),
        i < j_entry(t, open, i, fx)->Ok_0.1,
        j_entry(t, open, i, fx)->Ok_0.0.comma is None ==> kind(t, j_entry(t, open, i, fx)->Ok_0.1)
            == Some(closer(t, open)),
    decreases t.len() - i, 4int,
{
    let (e, m) = j_entry(t, open, i, fx)->Ok_0;
    let v = if opens_object(t, open) {
        let (key, v) = j_key(t, i)->Ok_0;
        run_lexed(t, i + 1);
        let g = trivia_end(t, i + 1);
        run_lexed(t, g + 1);
        assert(self_lexed(t[i]));
        v
    } else {
        i
    };
    value_good(t, v, fx);
    let k = j_value(t, v, fx)->Ok_0.1;
    run_lexed(t, k);
    let n = trivia_end(t, k);
    if kind(t, n) == Some(Tok::Comma) {
        run_lexed(t, n + 1);
    }
}

/// A parsed document is one that its own text parses back as.
pub proof fn parsed_is_good(src: Seq<char>, fx: Facts)
    requires
        jsonc_parsed(src, fx) is Ok,
    ensures
        doc_good(jsonc_parsed(src, fx)->Ok_0, fx),
{
    let s = if src.len() > 0 && src[0] == '\u{feff}' {
        src.drop_first()
    } else {
        src
    };
    let t = json_tokens(s, 0);
    tokens_lexed(s, 0);
    let d = jsonc_parsed(src, fx)->Ok_0;
    run_lexed(t, 0);
    let i = trivia_end(t, 0);
    assert(t.subrange(0, i) =~= t.take(i));
    value_good(t, i, fx);
    let k = j_value(t, i, fx)->Ok_0.1;
    run_lexed(t, k);
    let n = trivia_end(t, k);
    assert(t.subrange(k, n) =~= t.skip(k));
}

/// A good node is one that a document can have.
proof fn good_is_ok(n: Js, fx: Facts)
    requires
        node_good(n, fx),
    ensures
        js_ok(n),
    decreases n,
{
    match n {
        Js::Scalar(l) => {
            literal_is_plain(l, fx);
        },
        Js::Object(_, es) => {
            assert forall|i: int| 0 <= i < es.len() implies (#[trigger] es[i]).key is Some && js_ok(es[i].value) by {
                assert(node_good(es[i].value, fx));
                assert(decreases_to!(n => es[i]));
                assert(decreases_to!(n => es[i].value));
                good_is_ok(es[i].value, fx);
            }
        },
        Js::Array(_, es) => {
            assert forall|i: int| 0 <= i < es.len() implies (#[trigger] es[i]).key is None && js_ok(es[i].value) by {
                assert(node_good(es[i].value, fx));
                assert(decreases_to!(n => es[i]));
                assert(decreases_to!(n => es[i].value));
                good_is_ok(es[i].value, fx);
            }
        },
    }
}

proof fn literal_is_plain(l: crate::json_tree::Lt, fx: Facts)
    requires
        scalar_good(l, fx),
    ensures
        !(literal_val(l) is Array) && !(literal_val(l) is Object),
{
}

proof fn spaces_end(t: Seq<char>, i: int)
    requires
        0 <= i <= t.len(),
        forall|k: int| i <= k < t.len() ==> json_space(#[trigger] t[k]),
    ensures
        space_end(t, i) == t.len(),
    decreases t.len() - i,
{
    if i < t.len() {
        assert(json_space(t[i]));
        spaces_end(t, i + 1);
    }
}

proof fn all_spaces(t: Seq<char>, i: int)
    requires
        0 <= i <= t.len(),
        space_end(t, i) == t.len(),
    ensures
        forall|k: int| i <= k < t.len() ==> json_space(#[trigger] t[k]),
    decreases t.len() - i,
{
    if i < t.len() {
        all_spaces(t, i + 1);
    }
}

pub proof fn space_is_spaces(x: Jt)
    requires
        self_lexed(x),
        x.kind == Tok::Ws,
    ensures
        forall|k: int| 0 <= k < x.text.len() ==> json_space(#[trigger] x.text[k]),
{
    assert(json_space(x.text[0]));
    all_spaces(x.text, 0);
}

pub proof fn spaces_are_space(x: Jt)
    requires
        x.kind == Tok::Ws,
        x.text.len() > 0,
        forall|k: int| 0 <= k < x.text.len() ==> json_space(#[trigger] x.text[k]),
    ensures
        self_lexed(x),
{
    assert(json_space(x.text[0]));
    spaces_end(x.text, 0);
}

pub proof fn run_add(a: Seq<Jt>, b: Seq<Jt>)
    requires
        run_read(a),
        run_read(b),
        a.len() > 0 && b.len() > 0 ==> parts(a.last(), b[0].text[0]),
    ensures
        run_read(a + b),
        run_ok(b) && (b.len() > 0 || run_ok(a)) ==> run_ok(a + b),
{
    let c = a + b;
    assert forall|i: int| 0 <= i < c.len() implies trivial((#[trigger] c[i]).kind) && self_lexed(c[i]) by {
        if i < a.len() {
            assert(c[i] == a[i]);
        } else {
            assert(c[i] == b[i - a.len()]);
        }
    }
    assert forall|i: int| 0 <= i < c.len() - 1 implies #[trigger] met(c, i) by {
        if i < a.len() - 1 {
            assert(met(a, i));
        } else if i >= a.len() {
            assert(met(b, i - a.len()));
        }
    }
    if b.len() > 0 {
        assert(c.last() == b.last());
    } else {
        assert(c =~= a);
    }
}

pub proof fn run_part(r: Seq<Jt>, a: int, b: int)
    requires
        run_read(r),
        0 <= a <= b <= r.len(),
    ensures
        run_read(r.subrange(a, b)),
        run_ok(r) && b == r.len() ==> run_ok(r.subrange(a, b)),
{
    let q = r.subrange(a, b);
    assert forall|i: int| 0 <= i < q.len() implies trivial((#[trigger] q[i]).kind) && self_lexed(q[i]) by {
        assert(q[i] == r[a + i]);
    }
    assert forall|i: int| 0 <= i < q.len() - 1 implies #[trigger] met(q, i) by {
        assert(met(r, a + i));
    }
}

proof fn glued_ok(a: Seq<Jt>, b: Seq<Jt>)
    requires
        run_ok(a),
        run_ok(b),
    ensures
        run_ok(glued(a, b)),
{
    if a.len() > 0 {
        assert(trivial(a[a.len() - 1].kind) && self_lexed(a[a.len() - 1]));
    }
    if b.len() > 0 {
        assert(trivial(b[0].kind) && self_lexed(b[0]));
    }
    if a.len() > 0 && b.len() > 0 && a.last().kind == Tok::Ws && b[0].kind == Tok::Ws {
        let x = a.last();
        let y = b[0];
        let w = Jt { kind: Tok::Ws, text: x.text + y.text };
        space_is_spaces(x);
        space_is_spaces(y);
        assert forall|k: int| 0 <= k < w.text.len() implies json_space(#[trigger] w.text[k]) by {
            if k < x.text.len() {
                assert(w.text[k] == x.text[k]);
            } else {
                assert(w.text[k] == y.text[k - x.text.len()]);
            }
        }
        spaces_are_space(w);
        let front = a.drop_last();
        let back = b.skip(1);
        run_part(a, 0, a.len() - 1);
        assert(a.subrange(0, a.len() - 1) =~= front);
        run_part(b, 1, b.len() as int);
        assert(b.subrange(1, b.len() as int) =~= back);
        let one = seq![w];
        assert(run_ok(one)) by {
            assert(one.last() == w);
        }
        assert(front.len() > 0 ==> parts(front.last(), w.text[0])) by {
            if front.len() > 0 {
                assert(met(a, a.len() - 2));
                assert(w.text[0] == x.text[0]);
            }
        }
        run_add(front, one);
        assert(back.len() > 0 ==> parts(w, back[0].text[0])) by {
            if back.len() > 0 {
                assert(met(b, 0));
            }
        }
        assert((front + one).last() == w);
        run_add(front + one, back);
    } else {
        assert(a.len() > 0 && b.len() > 0 ==> parts(a.last(), b[0].text[0]));
        run_add(a, b);
    }
}

#[verifier::rlimit(40)]
#[verifier::spinoff_prover]
proof fn closed_up_ok(lead: Seq<Jt>, after: Seq<Jt>)
    requires
        run_ok(lead),
        run_ok(after),
    ensures
        run_ok(closed_up(lead, after)),
{
    reveal_strlit("\n");
    reveal_strlit("\r\n");
    let bare = unspaced(lead);
    let n = lead.len() as int;
    run_part(
        lead,
        0,
        if n > 0 && lead.last().kind == Tok::Ws {
            n - 1
        } else {
            n
        },
    );
    assert(bare =~= lead.subrange(0, bare.len() as int));
    if bare.len() > 0 {
        assert(bare.last() == lead[bare.len() - 1]);
        assert(trivial(lead[bare.len() - 1].kind) && self_lexed(lead[bare.len() - 1]));
    }
    if after.len() > 0 {
        assert(trivial(after[0].kind) && self_lexed(after[0]));
    }
    if bare.len() > 0 && bare.last().kind == Tok::LineComment {
        if after.len() > 0 && after[0].kind == Tok::Ws && starts(after[0].text, "\n"@) {
            assert(after[0].text.take(1)[0] == '\n');
            run_add(bare, after);
        } else if after.len() > 0 && after[0].kind == Tok::Ws && starts(after[0].text, "\r\n"@) {
            let x = after[0];
            let w = Jt { kind: Tok::Ws, text: x.text.skip(1) };
            assert(x.text.take(2)[1] == '\n');
            space_is_spaces(x);
            assert forall|k: int| 0 <= k < w.text.len() implies json_space(#[trigger] w.text[k]) by {
                assert(w.text[k] == x.text[k + 1]);
            }
            spaces_are_space(w);
            let one = seq![w];
            let back = after.skip(1);
            run_part(after, 1, after.len() as int);
            assert(after.subrange(1, after.len() as int) =~= back);
            assert(run_ok(one)) by {
                assert(one.last() == w);
            }
            assert(w.text[0] == '\n');
            run_add(bare, one);
            assert((bare + one).last() == w);
            if back.len() > 0 {
                assert(met(after, 0));
            }
            run_add(bare + one, back);
        } else {
            glued_ok(lead, after);
        }
    } else {
        // What is left in front does not end with whitespace.
        if bare.len() > 0 && bare.last().kind == Tok::Ws {
            assert(bare.len() == n - 1);
            assert(met(lead, n - 2));
            assert(self_lexed(lead[n - 1]));
            space_is_spaces(lead[n - 1]);
        }
        assert(bare.len() > 0 && after.len() > 0 ==> parts(bare.last(), after[0].text[0]));
        run_add(bare, after);
        assert(run_ok(bare));
    }
}

proof fn unled_ok(r: Seq<Jt>)
    requires
        run_ok(r),
    ensures
        run_ok(unled(r)),
        unled(r).len() > 0 ==> !json_space(unled(r)[0].text[0]),
{
    let a: int = if r.len() > 0 && r[0].kind == Tok::Ws {
        1
    } else {
        0
    };
    run_part(r, a, r.len() as int);
    assert(unled(r) =~= r.subrange(a, r.len() as int));
    if unled(r).len() > 0 {
        assert(unled(r)[0] == r[a]);
        assert(trivial(r[a].kind) && self_lexed(r[a]));
        if a == 1 {
            assert(met(r, 0));
        }
    }
}

/// Taking entry `i` out, with good trivia in its place and a good comma in front.
proof fn entry_out(pre: Seq<Jt>, es: Seq<En>, i: int, prev: Option<Seq<Jt>>, trivia: Seq<Jt>, object: bool, fx: Facts)
    requires
        run_ok(pre),
        run_ok(trivia),
        all_fit(es, object, fx),
        0 <= i < es.len(),
        i > 0 && prev is Some ==> run_ok(prev->0),
        i > 0 && prev is None ==> i == es.len() - 1,
    ensures
        ({
            let fs = if i > 0 {
                es.update(i - 1, En { comma: prev, ..es[i - 1] })
            } else {
                es
            };
            let (p, now) = without_entry(pre, fs, i, trivia);
            run_ok(p) && all_fit(now, object, fx)
        }),
{
    let fs = if i > 0 {
        es.update(i - 1, En { comma: prev, ..es[i - 1] })
    } else {
        es
    };
    let (p, now) = without_entry(pre, fs, i, trivia);
    assert forall|k: int| 0 <= k < now.len() implies fit(#[trigger] now[k], object, fx) && (k < now.len() - 1
        ==> now[k].comma is Some) by {
        let o = if k < i {
            k
        } else {
            k + 1
        };
        assert(fit(es[o], object, fx));
        if k + 1 == i {
            assert(now[k].key == es[o].key && now[k].value == es[o].value && now[k].after == trivia);
            assert(now[k].comma == prev);
        } else {
            assert(now[k] == es[o]);
        }
    }
}

proof fn comma_kept(es: Seq<En>, i: int)
    requires
        0 < i < es.len(),
    ensures
        es.update(i - 1, En { comma: es[i - 1].comma, ..es[i - 1] }) == es,
{
    assert(es.update(i - 1, En { comma: es[i - 1].comma, ..es[i - 1] }) =~= es);
}

#[verifier::rlimit(40)]
#[verifier::spinoff_prover]
proof fn member_out(pre: Seq<Jt>, es: Seq<En>, i: int, fx: Facts)
    requires
        run_ok(pre),
        all_fit(es, true, fx),
        0 <= i < es.len(),
    ensures
        run_ok(without_member(pre, es, i).0),
        all_fit(without_member(pre, es, i).1, true, fx),
{
    let e = es[i];
    assert(fit(es[i], true, fx));
    let lead = before(pre, es, i);
    if i > 0 {
        assert(fit(es[i - 1], true, fx));
        comma_kept(es, i);
    }
    closed_up_ok(lead, e.after);
    let trivia = closed_up(lead, e.after);
    if i > 0 && i == es.len() - 1 && e.comma is None && es[i - 1].comma is Some {
        glued_ok(es[i - 1].comma->0, trivia);
        entry_out(pre, es, i, None, glued(es[i - 1].comma->0, trivia), true, fx);
    } else {
        entry_out(
            pre,
            es,
            i,
            if i > 0 {
                es[i - 1].comma
            } else {
                None
            },
            trivia,
            true,
            fx,
        );
    }
}

#[verifier::rlimit(60)]
#[verifier::spinoff_prover]
proof fn element_out(pre: Seq<Jt>, es: Seq<En>, i: int, fx: Facts)
    requires
        run_ok(pre),
        all_fit(es, false, fx),
        0 <= i < es.len(),
    ensures
        run_ok(without_element(pre, es, i).0),
        all_fit(without_element(pre, es, i).1, false, fx),
{
    let e = es[i];
    assert(fit(es[i], false, fx));
    let lead = before(pre, es, i);
    if i > 0 {
        assert(fit(es[i - 1], false, fx));
        comma_kept(es, i);
    }
    let behind_comma = i > 0 && unspaced(lead).len() == 0 && es[i - 1].comma is Some;
    let same = if i > 0 {
        es[i - 1].comma
    } else {
        None
    };
    closed_up_ok(lead, e.after);
    match e.comma {
        Some(c) => {
            if unspaced(c).len() == 0 || !behind_comma {
                assert(run_ok(worded(c)));
                glued_ok(lead, worded(c));
                unled_ok(e.after);
                let g = glued(lead, worded(c));
                let u = unled(e.after);
                assert(g.len() > 0 && u.len() > 0 ==> parts(g.last(), u[0].text[0])) by {
                    if g.len() > 0 {
                        assert(trivial(g[g.len() - 1].kind));
                    }
                }
                run_add(g, u);
                entry_out(pre, es, i, same, g + u, false, fx);
            } else {
                glued_ok(es[i - 1].comma->0, c);
                entry_out(pre, es, i, Some(glued(es[i - 1].comma->0, c)), e.after, false, fx);
            }
        },
        None => {
            assert(i == es.len() - 1);
            let trivia = closed_up(lead, e.after);
            if i > 0 && es[i - 1].comma is Some {
                glued_ok(es[i - 1].comma->0, trivia);
                entry_out(pre, es, i, None, glued(es[i - 1].comma->0, trivia), false, fx);
            } else {
                entry_out(pre, es, i, same, trivia, false, fx);
            }
        },
    }
}

/// A deletion leaves a good node good.
pub proof fn deleting_keeps_good(n: Js, path: Seq<St>, fx: Facts)
    requires
        node_good(n, fx),
        js_delete(n, path) is Ok,
    ensures
        node_good(js_delete(n, path)->Ok_0, fx),
    decreases path.len(),
{
    if path.len() == 1 {
        child_bounds(n, path[0]);
        if let Some(i) = child(n, path[0]) {
            match n {
                Js::Object(pre, es) => {
                    fit_entries(es, true, pre, fx);
                    member_out(pre, es, i, fx);
                    let (p, now) = without_member(pre, es, i);
                    fit_entries(now, true, p, fx);
                },
                Js::Array(pre, es) => {
                    fit_entries(es, false, pre, fx);
                    element_out(pre, es, i, fx);
                    let (p, now) = without_element(pre, es, i);
                    fit_entries(now, false, p, fx);
                },
                Js::Scalar(_) => {},
            }
        }
    } else if path.len() > 1 {
        child_bounds(n, path[0]);
        if let Some(i) = child(n, path[0]) {
            let es = entries_of(n);
            let object = n is Object;
            let pre = match n {
                Js::Object(p, _) => p,
                Js::Array(p, _) => p,
                Js::Scalar(_) => Seq::empty(),
            };
            fit_entries(es, object, pre, fx);
            assert(fit(es[i], object, fx));
            deleting_keeps_good(es[i].value, path.drop_first(), fx);
            let x = js_delete(es[i].value, path.drop_first())->Ok_0;
            let now = es.update(i, En { value: x, ..es[i] });
            assert forall|k: int| 0 <= k < now.len() implies fit(#[trigger] now[k], object, fx) && (k < now.len()
                - 1 ==> now[k].comma is Some) by {
                assert(fit(es[k], object, fx));
                assert(now[k].comma == es[k].comma);
            }
            fit_entries(now, object, pre, fx);
        }
    }
}

/// Deleting a path from a parsed document gives the value that `del` gives, and a
/// text that parses back with that value. It is stated of documents in which no
/// object has a key twice.
pub proof fn deleted_text_parses_back(d: JsoncDoc, path: Seq<St>, fx: Facts)
    requires
        doc_good(d, fx),
        unique_keys(js_val(d.value)),
        plain_path(path),
        path.len() > 0,
        del_at(js_val(d.value), path) is Ok,
    ensures
        jsonc_delete(d, path).1 is Ok,
        doc_good(jsonc_delete(d, path).0, fx),
        js_val(jsonc_delete(d, path).0.value) == del_at(js_val(d.value), path)->Ok_0,
        jsonc_parsed(jsonc_source(jsonc_delete(d, path).0), fx) is Ok,
        js_val(jsonc_parsed(jsonc_source(jsonc_delete(d, path).0), fx)->Ok_0.value) == del_at(
            js_val(d.value),
            path,
        )->Ok_0,
{
    good_is_ok(d.value, fx);
    jsonc_delete_agrees(d, path);
    assert(!crate::mutate::iterates(path)) by {
        if crate::mutate::iterates(path) {
            let i = choose|i: int| 0 <= i < path.len() && (#[trigger] path[i]) is Iterate;
            assert(path[i] is Field || path[i] is Index);
        }
    }
    deleting_keeps_good(d.value, path, fx);
    let now = jsonc_delete(d, path).0;
    assert(now.head == d.head && now.tail == d.tail);
    good_text_parses_back(now, fx);
}

} // verus!
