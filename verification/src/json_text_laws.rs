//! The text of a JSON document, edited or not, parses back as that document.
use crate::float::Facts;
use crate::json_edit::es_text_from;
use crate::json_laws::{es_text_cut, toks_add, toks_none, toks_one};
use crate::json_lexer::{json_space, Jt, Tok};
use crate::json_nodes::number_val;
use crate::json_parser::{
    closer, j_document, j_entries, j_entry, j_key, j_tail, j_value, keyish, kind, opens_object,
    trivia_end, trivial, Se,
};
use crate::json_relex::{ends, met, parts, readable, self_lexed, tokens_read_back};
use crate::json_tree::{comma_source, es_text, js_text, key_source, toks_text, En, Js, Ky, Lt};
use crate::jsonc::{jsonc_body, jsonc_parsed, jsonc_source, JsoncDoc};
use vstd::prelude::*;
use vstd::string::*;

verus! {

/// A token of one character.
pub open spec fn mark(kind: Tok, c: char) -> Jt {
    Jt { kind, text: seq![c] }
}

/// The tokens of a key and its colon.
pub open spec fn key_toks(k: Option<Ky>) -> Seq<Jt> {
    match k {
        Some(x) => seq![x.token] + x.gap + seq![mark(Tok::Colon, ':')] + x.lead,
        None => Seq::empty(),
    }
}

/// The tokens of a comma.
pub open spec fn comma_toks(c: Option<Seq<Jt>>) -> Seq<Jt> {
    match c {
        Some(ts) => ts + seq![mark(Tok::Comma, ',')],
        None => Seq::empty(),
    }
}

/// The token that opens a container.
pub open spec fn opener(object: bool) -> Jt {
    if object {
        mark(Tok::LBrace, '{')
    } else {
        mark(Tok::LBracket, '[')
    }
}

/// The token that closes a container.
pub open spec fn shutter(object: bool) -> Jt {
    if object {
        mark(Tok::RBrace, '}')
    } else {
        mark(Tok::RBracket, ']')
    }
}

/// The tokens of a node.
pub open spec fn node_toks(n: Js) -> Seq<Jt>
    decreases n, 0int, 0int,
{
    match n {
        Js::Scalar(l) => seq![l.token],
        Js::Object(p, es) => seq![opener(true)] + p + es_toks(es, 0) + seq![shutter(true)],
        Js::Array(p, es) => seq![opener(false)] + p + es_toks(es, 0) + seq![shutter(false)],
    }
}

/// The tokens of an entry.
pub open spec fn en_toks(e: En) -> Seq<Jt>
    decreases e, 0int, 0int,
{
    key_toks(e.key) + node_toks(e.value) + comma_toks(e.comma) + e.after
}

/// The tokens of the entries from `i` on.
pub open spec fn es_toks(es: Seq<En>, i: int) -> Seq<Jt>
    decreases es, 1int, es.len() - i,
{
    if i < 0 || i >= es.len() {
        Seq::empty()
    } else {
        en_toks(es[i]) + es_toks(es, i + 1)
    }
}

/// A run of trivia that is read back.
pub open spec fn run_read(r: Seq<Jt>) -> bool {
    &&& forall|i: int| 0 <= i < r.len() ==> trivial((#[trigger] r[i]).kind) && self_lexed(r[i])
    &&& forall|i: int| 0 <= i < r.len() - 1 ==> #[trigger] met(r, i)
}

/// A run of trivia that is read back in front of what is no trivia.
pub open spec fn run_ok(r: Seq<Jt>) -> bool {
    run_read(r) && (r.len() > 0 ==> r.last().kind != Tok::LineComment)
}

/// A scalar whose token is read back.
pub open spec fn scalar_good(l: Lt, fx: Facts) -> bool {
    self_lexed(l.token) && match l.token.kind {
        Tok::Num => l.num is Some && number_val(l.token.text, fx) == Ok::<_, crate::float::Need>(l.num->0),
        Tok::True | Tok::False | Tok::Null | Tok::Str | Tok::SingleStr => l.num is None,
        _ => false,
    }
}

/// A key whose tokens are read back.
pub open spec fn key_good(k: Ky) -> bool {
    self_lexed(k.token) && keyish(k.token.kind) && run_ok(k.gap) && run_ok(k.lead)
}

/// An entry whose tokens behind the value are read back; only the last entry has no
/// comma.
pub open spec fn tail_good(e: En, last: bool) -> bool {
    run_ok(e.after) && match e.comma {
        Some(c) => run_ok(c),
        None => last,
    }
}

/// A node whose tokens are read back as that node.
pub open spec fn node_good(n: Js, fx: Facts) -> bool
    decreases n,
{
    match n {
        Js::Scalar(l) => scalar_good(l, fx),
        Js::Object(p, es) => run_ok(p) && forall|i: int|
            0 <= i < es.len() ==> (#[trigger] es[i]).key is Some && key_good(es[i].key->0) && node_good(
                es[i].value,
                fx,
            ) && tail_good(es[i], i + 1 == es.len()),
        Js::Array(p, es) => run_ok(p) && forall|i: int|
            0 <= i < es.len() ==> (#[trigger] es[i]).key is None && node_good(es[i].value, fx)
                && tail_good(es[i], i + 1 == es.len()),
    }
}

/// A document that its own text parses back as.
pub open spec fn doc_good(d: JsoncDoc, fx: Facts) -> bool {
    run_ok(d.head) && node_good(d.value, fx) && run_read(d.tail)
}

proof fn readable_add(a: Seq<Jt>, b: Seq<Jt>)
    requires
        readable(a),
        readable(b),
        a.len() > 0 && b.len() > 0 ==> parts(a.last(), b[0].text[0]),
    ensures
        readable(a + b),
{
    let c = a + b;
    assert forall|i: int| 0 <= i < c.len() implies self_lexed(#[trigger] c[i]) by {
        if i < a.len() {
            assert(c[i] == a[i]);
        } else {
            assert(c[i] == b[i - a.len()]);
        }
    }
    assert forall|i: int| 0 <= i < c.len() - 1 implies #[trigger] met(c, i) by {
        if i < a.len() - 1 {
            assert(met(a, i));
        } else if i >= a.len() {
            assert(met(b, i - a.len()));
        }
    }
}

/// The first character of trivia, and of anything else.
proof fn first_char(x: Jt)
    requires
        self_lexed(x),
    ensures
        trivial(x.kind) ==> ends(x.text[0]),
        x.kind != Tok::Ws ==> !json_space(x.text[0]),
{
}

/// What does not let a number or a word go on does not let any value go on.
spec fn closes(x: Jt) -> bool {
    !trivial(x.kind) && forall|c: char| ends(c) ==> #[trigger] parts(x, c)
}

proof fn run_readable(r: Seq<Jt>)
    requires
        run_read(r),
    ensures
        readable(r),
{
    assert forall|i: int| 0 <= i < r.len() implies self_lexed(#[trigger] r[i]) by {}
}

/// A run behind tokens that end in no trivia.
proof fn add_run(a: Seq<Jt>, r: Seq<Jt>)
    requires
        readable(a),
        a.len() > 0 ==> closes(a.last()),
        run_read(r),
    ensures
        readable(a + r),
        run_ok(r) ==> forall|c: char|
            (a + r).len() > 0 && !json_space(c) && (a.len() > 0 && r.len() == 0 ==> parts(a.last(), c)) ==> #[trigger] parts(
                (a + r).last(),
                c,
            ),
{
    run_readable(r);
    if r.len() > 0 {
        assert(self_lexed(r[0]));
        first_char(r[0]);
        assert(trivial(r[r.len() - 1].kind));
        assert((a + r).last() == r.last());
        assert(trivial(r[0].kind));
    } else {
        assert(a + r =~= a);
    }
    readable_add(a, r);
}

proof fn one_readable(x: Jt)
    requires
        self_lexed(x),
    ensures
        readable(seq![x]),
{
}

proof fn marks_read(k: Tok, c: char)
    requires
        crate::json_lexer::punct(c) == Some(k),
    ensures
        self_lexed(mark(k, c)),
        closes(mark(k, c)),
        ends(c),
        !json_space(c),
{
    assert(mark(k, c).text[0] == c);
}

proof fn value_token_closes(x: Jt)
    requires
        self_lexed(x),
        !trivial(x.kind),
    ensures
        closes(x),
{
}

/// A node's tokens are read back; it neither starts nor ends with trivia.
proof fn node_readable(n: Js, fx: Facts)
    requires
        node_good(n, fx),
    ensures
        readable(node_toks(n)),
        node_toks(n).len() > 0,
        !trivial(node_toks(n)[0].kind),
        self_lexed(node_toks(n)[0]),
        closes(node_toks(n).last()),
    decreases n, 0int, 0int,
{
    match n {
        Js::Scalar(l) => {
            one_readable(l.token);
            value_token_closes(l.token);
        },
        Js::Object(p, es) => {
            entries_readable(es, 0, true, fx);
            container_readable(true, p, es);
            assert(node_toks(n) =~= seq![opener(true)] + p + (es_toks(es, 0) + seq![shutter(true)]));
        },
        Js::Array(p, es) => {
            entries_readable(es, 0, false, fx);
            container_readable(false, p, es);
            assert(node_toks(n) =~= seq![opener(false)] + p + (es_toks(es, 0) + seq![shutter(false)]));
        },
    }
}

proof fn container_readable(object: bool, p: Seq<Jt>, es: Seq<En>)
    requires
        run_ok(p),
        readable(es_toks(es, 0) + seq![shutter(object)]),
        (es_toks(es, 0) + seq![shutter(object)]).len() > 0,
        !trivial((es_toks(es, 0) + seq![shutter(object)])[0].kind),
        self_lexed((es_toks(es, 0) + seq![shutter(object)])[0]),
    ensures
        ({
            let all = seq![opener(object)] + p + (es_toks(es, 0) + seq![shutter(object)]);
            readable(all) && all[0] == opener(object) && all.last() == shutter(object) && closes(
                all.last(),
            ) && self_lexed(all[0]) && !trivial(all[0].kind)
        }),
{
    marks_read(Tok::LBrace, '{');
    marks_read(Tok::LBracket, '[');
    marks_read(Tok::RBrace, '}');
    marks_read(Tok::RBracket, ']');
    let a = seq![opener(object)];
    let b = es_toks(es, 0) + seq![shutter(object)];
    one_readable(opener(object));
    assert(a.last() == opener(object));
    add_run(a, p);
    first_char(b[0]);
    assert(parts((a + p).last(), b[0].text[0]));
    readable_add(a + p, b);
    let all = a + p + b;
    assert(all.last() == b.last());
    assert(b.last() == shutter(object));
}

/// Are the entries from `i` on, of an object or of an array, good?
spec fn entries_good(es: Seq<En>, i: int, object: bool, fx: Facts) -> bool {
    forall|k: int|
        i <= k < es.len() ==> (if object {
            (#[trigger] es[k]).key is Some && key_good(es[k].key->0)
        } else {
            es[k].key is None
        }) && node_good(es[k].value, fx) && tail_good(es[k], k + 1 == es.len())
}

#[verifier::rlimit(60)]
#[verifier::spinoff_prover]
proof fn entries_readable(es: Seq<En>, i: int, object: bool, fx: Facts)
    requires
        0 <= i <= es.len(),
        entries_good(es, i, object, fx),
    ensures
        ({
            let b = es_toks(es, i) + seq![shutter(object)];
            readable(b) && b.len() > 0 && !trivial(b[0].kind) && self_lexed(b[0])
        }),
    decreases es, 1int, es.len() - i,
{
    marks_read(Tok::RBrace, '}');
    marks_read(Tok::RBracket, ']');
    marks_read(Tok::Colon, ':');
    marks_read(Tok::Comma, ',');
    let shut = seq![shutter(object)];
    one_readable(shutter(object));
    if i == es.len() {
        assert(es_toks(es, i) + shut =~= shut);
    } else {
        let e = es[i];
        assert(if object {
            e.key is Some && key_good(e.key->0)
        } else {
            e.key is None
        });
        assert(node_good(e.value, fx) && tail_good(e, i + 1 == es.len()));
        entries_readable(es, i + 1, object, fx);
        let rest = es_toks(es, i + 1) + shut;
        first_char(rest[0]);
        assert(decreases_to!(es => es[i]));
        assert(decreases_to!(es => es[i].value));
        node_readable(e.value, fx);
        let v = node_toks(e.value);
        first_char(v[0]);
        let k = key_toks(e.key);
        // The key.
        if let Some(x) = e.key {
            let a = seq![x.token];
            one_readable(x.token);
            value_token_closes(x.token);
            assert(a.last() == x.token);
            add_run(a, x.gap);
            assert(parts((a + x.gap).last(), ':'));
            let colon = seq![mark(Tok::Colon, ':')];
            one_readable(mark(Tok::Colon, ':'));
            readable_add(a + x.gap, colon);
            let b = a + x.gap + colon;
            assert(b.last() == mark(Tok::Colon, ':'));
            add_run(b, x.lead);
            assert(k == b + x.lead);
            assert(parts(k.last(), v[0].text[0]));
            assert(k[0] == x.token);
        } else {
            assert(readable(k));
        }
        readable_add(k, v);
        let kv = k + v;
        assert(kv.last() == v.last());
        assert(kv[0] == (if k.len() > 0 {
            k[0]
        } else {
            v[0]
        }));
        // The comma.
        let head = match e.comma {
            Some(c) => {
                add_run(kv, c);
                assert(parts((kv + c).last(), ','));
                one_readable(mark(Tok::Comma, ','));
                readable_add(kv + c, seq![mark(Tok::Comma, ',')]);
                let h = kv + c + seq![mark(Tok::Comma, ',')];
                assert(h.last() == mark(Tok::Comma, ','));
                h
            },
            None => kv,
        };
        assert(head =~= kv + comma_toks(e.comma));
        assert(closes(head.last()));
        add_run(head, e.after);
        let whole = head + e.after;
        assert(whole =~= en_toks(e));
        assert(parts(whole.last(), rest[0].text[0])) by {
            if e.comma is None {
                assert(es_toks(es, i + 1) =~= Seq::<Jt>::empty());
                assert(rest[0] == shutter(object));
                assert(ends(rest[0].text[0]));
                assert(parts(head.last(), rest[0].text[0]));
            } else {
                assert(parts(head.last(), rest[0].text[0]));
            }
        }
        readable_add(whole, rest);
        assert(es_toks(es, i) + shut =~= whole + rest);
        assert(whole[0] == kv[0]);
    }
}

/// A node's tokens have the node's text.
pub proof fn node_text(n: Js)
    ensures
        toks_text(node_toks(n)) == js_text(n),
    decreases n, 0int, 0int,
{
    match n {
        Js::Scalar(l) => {
            toks_one(l.token);
        },
        Js::Object(p, es) => {
            container_text_is(true, p, es);
        },
        Js::Array(p, es) => {
            container_text_is(false, p, es);
        },
    }
}

proof fn container_text_is(object: bool, p: Seq<Jt>, es: Seq<En>)
    ensures
        toks_text(seq![opener(object)] + p + es_toks(es, 0) + seq![shutter(object)]) == opener(
            object,
        ).text + toks_text(p) + es_text(es, es.len()) + shutter(object).text,
    decreases es, 2int, 0int,
{
    let a = seq![opener(object)];
    let b = es_toks(es, 0);
    let c = seq![shutter(object)];
    entries_text(es, 0);
    es_text_cut(es, 0);
    assert(es_text(es, 0) + es_text_from(es, 0) =~= es_text_from(es, 0));
    toks_one(opener(object));
    toks_one(shutter(object));
    toks_add(a, p);
    toks_add(a + p, b);
    toks_add(a + p + b, c);
}

proof fn entries_text(es: Seq<En>, i: int)
    requires
        0 <= i <= es.len(),
    ensures
        toks_text(es_toks(es, i)) == es_text_from(es, i),
    decreases es, 1int, es.len() - i,
{
    if i == es.len() {
        toks_none();
        assert(es_toks(es, i) =~= Seq::<Jt>::empty());
        assert(toks_text(es_toks(es, i)) =~= es_text_from(es, i));
    } else {
        let e = es[i];
        assert(decreases_to!(es => es[i]));
        assert(decreases_to!(es => es[i].value));
        node_text(e.value);
        entries_text(es, i + 1);
        toks_none();
        let k = key_toks(e.key);
        if let Some(x) = e.key {
            let colon = seq![mark(Tok::Colon, ':')];
            toks_one(x.token);
            toks_one(mark(Tok::Colon, ':'));
            toks_add(seq![x.token], x.gap);
            toks_add(seq![x.token] + x.gap, colon);
            toks_add(seq![x.token] + x.gap + colon, x.lead);
        }
        assert(toks_text(k) =~= key_source(e.key));
        let c = comma_toks(e.comma);
        if let Some(ts) = e.comma {
            toks_one(mark(Tok::Comma, ','));
            toks_add(ts, seq![mark(Tok::Comma, ',')]);
        }
        assert(toks_text(c) =~= comma_source(e.comma));
        toks_add(k, node_toks(e.value));
        toks_add(k + node_toks(e.value), c);
        toks_add(k + node_toks(e.value) + c, e.after);
        toks_add(en_toks(e), es_toks(es, i + 1));
    }
}

/// Do the tokens stand at `i`?
spec fn toks_at(t: Seq<Jt>, i: int, part: Seq<Jt>) -> bool {
    0 <= i && i + part.len() <= t.len() && t.subrange(i, i + part.len()) == part
}

proof fn split_at(t: Seq<Jt>, i: int, a: Seq<Jt>, b: Seq<Jt>)
    requires
        toks_at(t, i, a + b),
    ensures
        toks_at(t, i, a),
        toks_at(t, i + a.len(), b),
{
    let whole = t.subrange(i, i + (a + b).len());
    assert(t.subrange(i, i + a.len()) =~= a) by {
        assert forall|k: int| 0 <= k < a.len() implies t.subrange(i, i + a.len())[k] == a[k] by {
            assert(whole[k] == (a + b)[k]);
        }
    }
    assert(t.subrange(i + a.len(), i + a.len() + b.len()) =~= b) by {
        assert forall|k: int| 0 <= k < b.len() implies t.subrange(i + a.len(), i + a.len() + b.len())[k]
            == b[k] by {
            assert(whole[a.len() + k] == (a + b)[a.len() + k]);
        }
    }
}

proof fn first_at(t: Seq<Jt>, i: int, x: Jt)
    requires
        toks_at(t, i, seq![x]),
    ensures
        i < t.len(),
        t[i] == x,
{
    assert(t.subrange(i, i + 1)[0] == seq![x][0]);
}

/// Trivia ends where a run of it does, in front of what is none.
proof fn trivia_is(t: Seq<Jt>, i: int, r: Seq<Jt>)
    requires
        toks_at(t, i, r),
        forall|k: int| 0 <= k < r.len() ==> trivial((#[trigger] r[k]).kind),
        i + r.len() < t.len() ==> !trivial(t[i + r.len()].kind),
    ensures
        trivia_end(t, i) == i + r.len(),
    decreases r.len(),
{
    if r.len() > 0 {
        assert(t.subrange(i, i + r.len())[0] == r[0]);
        let s = r.skip(1);
        assert(t.subrange(i + 1, i + 1 + s.len()) =~= s) by {
            assert forall|k: int| 0 <= k < s.len() implies t.subrange(i + 1, i + 1 + s.len())[k] == s[k] by {
                assert(t.subrange(i, i + r.len())[k + 1] == r[k + 1]);
            }
        }
        assert forall|k: int| 0 <= k < s.len() implies trivial((#[trigger] s[k]).kind) by {
            assert(s[k] == r[k + 1]);
        }
        trivia_is(t, i + 1, s);
    }
}

/// A node's tokens parse as that node.
proof fn node_parses(t: Seq<Jt>, i: int, n: Js, fx: Facts)
    requires
        node_good(n, fx),
        toks_at(t, i, node_toks(n)),
    ensures
        j_value(t, i, fx) == Ok::<(Js, int), Se>((n, i + node_toks(n).len())),
    decreases n, 0int, 0int,
{
    match n {
        Js::Scalar(l) => {
            first_at(t, i, l.token);
        },
        Js::Object(p, es) => {
            container_parses(t, i, true, p, es, fx);
        },
        Js::Array(p, es) => {
            container_parses(t, i, false, p, es, fx);
        },
    }
}

proof fn container_parses(t: Seq<Jt>, i: int, object: bool, p: Seq<Jt>, es: Seq<En>, fx: Facts)
    requires
        run_ok(p),
        entries_good(es, 0, object, fx),
        toks_at(t, i, seq![opener(object)] + p + es_toks(es, 0) + seq![shutter(object)]),
    ensures
        ({
            let len = (seq![opener(object)] + p + es_toks(es, 0) + seq![shutter(object)]).len();
            let n = if object {
                Js::Object(p, es)
            } else {
                Js::Array(p, es)
            };
            j_value(t, i, fx) == Ok::<(Js, int), Se>((n, i + len))
        }),
    decreases es, 2int, 0int,
{
    let a = seq![opener(object)];
    let b = es_toks(es, 0);
    let c = seq![shutter(object)];
    assert(a + p + b + c =~= a + (p + (b + c)));
    split_at(t, i, a, p + (b + c));
    split_at(t, i + 1, p, b + c);
    first_at(t, i, opener(object));
    let k = i + 1 + p.len();
    entries_readable(es, 0, object, fx);
    assert(t.subrange(k, k + (b + c).len())[0] == (b + c)[0]);
    trivia_is(t, i + 1, p);
    assert(t.subrange(i + 1, k) =~= p);
    entries_parse(t, i, k, object, es, 0, Seq::empty(), fx);
    assert(Seq::<En>::empty() + es.skip(0) =~= es);
}

#[verifier::rlimit(80)]
#[verifier::spinoff_prover]
proof fn entries_parse(
    t: Seq<Jt>,
    open: int,
    i: int,
    object: bool,
    es: Seq<En>,
    m: int,
    acc: Seq<En>,
    fx: Facts,
)
    requires
        0 <= open < i,
        open < t.len(),
        t[open] == opener(object),
        0 <= m <= es.len(),
        entries_good(es, m, object, fx),
        toks_at(t, i, es_toks(es, m) + seq![shutter(object)]),
    ensures
        j_entries(t, open, i, acc, fx) == Ok::<(Seq<En>, int), Se>(
            (acc + es.skip(m), i + es_toks(es, m).len() + 1),
        ),
    decreases es, 1int, es.len() - m,
{
    let shut = seq![shutter(object)];
    let rest = es_toks(es, m) + shut;
    if m == es.len() {
        assert(rest =~= shut);
        first_at(t, i, shutter(object));
        assert(acc + es.skip(m) =~= acc);
    } else {
        let e = es[m];
        let after = es_toks(es, m + 1) + shut;
        assert(rest =~= en_toks(e) + after);
        split_at(t, i, en_toks(e), after);
        let k = i + en_toks(e).len();
        assert(node_good(e.value, fx)) by {
            assert(es[m] == e);
        }
        entries_readable(es, m, object, fx);
        entries_readable(es, m + 1, object, fx);
        assert(t.subrange(k, k + after.len())[0] == after[0]);
        assert(t[k] == after[0]);
        assert(t.subrange(i, i + rest.len())[0] == rest[0]);
        assert(e.comma is None ==> t[k] == shutter(object)) by {
            if e.comma is None {
                assert(tail_good(es[m], m + 1 == es.len()));
                assert(es_toks(es, m + 1) =~= Seq::<Jt>::empty());
            }
        }
        entry_parses(t, open, i, object, es, m, fx);
        en_len(e, fx, object);
        // An entry does not start with what closes the container.
        assert(kind(t, i) != Some(closer(t, open))) by {
            entry_start(e, object, fx);
            assert(rest[0] == en_toks(e)[0]);
        }
        entries_parse(t, open, k, object, es, m + 1, acc.push(e), fx);
        assert(acc.push(e) + es.skip(m + 1) =~= acc + es.skip(m));
    }
}

/// Is the entry good, apart from being the last?
spec fn entry_good(e: En, object: bool, fx: Facts) -> bool {
    (if object {
        e.key is Some && key_good(e.key->0)
    } else {
        e.key is None
    }) && node_good(e.value, fx) && tail_good(e, true)
}

proof fn en_len(e: En, fx: Facts, object: bool)
    requires
        entry_good(e, object, fx),
    ensures
        en_toks(e).len() > 0,
{
    node_readable(e.value, fx);
}

proof fn entry_start(e: En, object: bool, fx: Facts)
    requires
        entry_good(e, object, fx),
    ensures
        en_toks(e).len() > 0,
        en_toks(e)[0].kind != Tok::RBrace,
        en_toks(e)[0].kind != Tok::RBracket,
{
    node_readable(e.value, fx);
    let v = node_toks(e.value);
    match e.value {
        Js::Scalar(l) => {
            assert(v[0] == l.token);
        },
        Js::Object(p, es) => {
            assert(v[0] == opener(true));
        },
        Js::Array(p, es) => {
            assert(v[0] == opener(false));
        },
    }
    let k = key_toks(e.key);
    if let Some(x) = e.key {
        assert(k[0] == x.token);
        assert(en_toks(e)[0] == k[0]);
    } else {
        assert(en_toks(e)[0] == v[0]);
    }
}

#[verifier::rlimit(80)]
#[verifier::spinoff_prover]
proof fn entry_parses(t: Seq<Jt>, open: int, i: int, object: bool, es: Seq<En>, m: int, fx: Facts)
    requires
        0 <= open < i,
        open < t.len(),
        t[open] == opener(object),
        0 <= m < es.len(),
        entry_good(es[m], object, fx),
        toks_at(t, i, en_toks(es[m])),
        i + en_toks(es[m]).len() < t.len(),
        !trivial(t[i + en_toks(es[m]).len()].kind),
        es[m].comma is None ==> t[i + en_toks(es[m]).len()] == shutter(object),
    ensures
        j_entry(t, open, i, fx) == Ok::<(En, int), Se>((es[m], i + en_toks(es[m]).len())),
    decreases es, 0int, 0int,
{
    let e = es[m];
    let k = key_toks(e.key);
    let v = node_toks(e.value);
    let c = comma_toks(e.comma);
    let end = i + en_toks(e).len();
    node_readable(e.value, fx);
    assert(en_toks(e) =~= k + (v + (c + e.after)));
    split_at(t, i, k, v + (c + e.after));
    let vi = i + k.len();
    split_at(t, vi, v, c + e.after);
    let ci = vi + v.len();
    split_at(t, ci, c, e.after);
    assert(t.subrange(vi, ci)[0] == v[0]);
    assert(opens_object(t, open) == object);
    // The key.
    if let Some(x) = e.key {
        let a = seq![x.token];
        let colon = seq![mark(Tok::Colon, ':')];
        assert(k =~= a + (x.gap + (colon + x.lead)));
        split_at(t, i, a, x.gap + (colon + x.lead));
        split_at(t, i + 1, x.gap, colon + x.lead);
        let g = i + 1 + x.gap.len();
        split_at(t, g, colon, x.lead);
        first_at(t, i, x.token);
        first_at(t, g, mark(Tok::Colon, ':'));
        trivia_is(t, i + 1, x.gap);
        trivia_is(t, g + 1, x.lead);
        assert(t.subrange(i + 1, g) =~= x.gap);
        assert(t.subrange(g + 1, vi) =~= x.lead);
        assert(j_key(t, i) == Ok::<(Ky, int), Se>((x, vi)));
    } else {
        assert(vi == i);
    }
    // The value.
    assert(decreases_to!(es => es[m]));
    assert(decreases_to!(es => es[m].value));
    node_parses(t, vi, e.value, fx);
    // What follows.
    match e.comma {
        Some(ts) => {
            let comma = seq![mark(Tok::Comma, ',')];
            split_at(t, ci, ts, comma);
            let n = ci + ts.len();
            first_at(t, n, mark(Tok::Comma, ','));
            trivia_is(t, ci, ts);
            trivia_is(t, n + 1, e.after);
            assert(t.subrange(ci, n) =~= ts);
            assert(t.subrange(n + 1, end) =~= e.after);
            assert(j_tail(t, open, ci) == Ok::<(Option<Seq<Jt>>, Seq<Jt>, int), Se>(
                (e.comma, e.after, end),
            ));
        },
        None => {
            trivia_is(t, ci, e.after);
            assert(t.subrange(ci, end) =~= e.after);
            assert(j_tail(t, open, ci) == Ok::<(Option<Seq<Jt>>, Seq<Jt>, int), Se>(
                (e.comma, e.after, end),
            ));
        },
    }
}

/// The tokens of a document.
pub open spec fn doc_toks(d: JsoncDoc) -> Seq<Jt> {
    d.head + node_toks(d.value) + d.tail
}

#[verifier::rlimit(40)]
#[verifier::spinoff_prover]
pub proof fn doc_reads(d: JsoncDoc, fx: Facts)
    requires
        doc_good(d, fx),
    ensures
        toks_text(doc_toks(d)) == jsonc_body(d),
        readable(doc_toks(d)),
        doc_toks(d).len() > 0,
{
    let v = node_toks(d.value);
    node_readable(d.value, fx);
    node_text(d.value);
    toks_add(d.head, v);
    toks_add(d.head + v, d.tail);
    let none = Seq::<Jt>::empty();
    assert(readable(none));
    add_run(none, d.head);
    assert(none + d.head =~= d.head);
    first_char(v[0]);
    if d.head.len() > 0 {
        assert((none + d.head).last() == d.head.last());
        assert(parts(d.head.last(), v[0].text[0]));
    }
    readable_add(d.head, v);
    assert((d.head + v).last() == v.last());
    add_run(d.head + v, d.tail);
}

#[verifier::rlimit(40)]
#[verifier::spinoff_prover]
proof fn doc_parses(d: JsoncDoc, fx: Facts)
    requires
        doc_good(d, fx),
    ensures
        j_document(doc_toks(d), fx) == Ok::<Option<(Seq<Jt>, Js, Seq<Jt>)>, Se>(
            Some((d.head, d.value, d.tail)),
        ),
{
    let v = node_toks(d.value);
    let t = doc_toks(d);
    node_readable(d.value, fx);
    let n = t.len() as int;
    let i = d.head.len() as int;
    assert(t =~= d.head + (v + d.tail));
    assert(t.subrange(0, n) =~= t);
    split_at(t, 0, d.head, v + d.tail);
    split_at(t, i, v, d.tail);
    assert(t[i] == v[0]);
    trivia_is(t, 0, d.head);
    node_parses(t, i, d.value, fx);
    let k = i + v.len();
    trivia_is(t, k, d.tail);
    assert(t.take(i) =~= d.head);
    assert(t.skip(k) =~= d.tail);
}

proof fn starts_unmarked(t: Seq<Jt>)
    requires
        t.len() > 0,
        self_lexed(t[0]),
    ensures
        toks_text(t).len() > 0,
        toks_text(t)[0] != '\u{feff}',
{
    let rest = t.skip(1);
    assert(t =~= seq![t[0]] + rest);
    toks_add(seq![t[0]], rest);
    toks_one(t[0]);
    no_token_is_marked(t[0]);
}

/// The text of a good document parses back as that document: the same tokens in the
/// same places, and so the same value.
pub proof fn good_text_parses_back(d: JsoncDoc, fx: Facts)
    requires
        doc_good(d, fx),
    ensures
        jsonc_parsed(jsonc_source(d), fx) is Ok,
        ({
            let back = jsonc_parsed(jsonc_source(d), fx)->Ok_0;
            back.head == d.head && back.value == d.value && back.tail == d.tail && back.bom == d.bom
        }),
{
    let t = doc_toks(d);
    let s = jsonc_body(d);
    doc_reads(d, fx);
    tokens_read_back(t);
    doc_parses(d, fx);
    assert(self_lexed(t[0]));
    starts_unmarked(t);
    if d.bom {
        assert(jsonc_source(d).drop_first() =~= s);
    } else {
        assert(jsonc_source(d) =~= s);
    }
}

proof fn no_token_is_marked(x: Jt)
    requires
        self_lexed(x),
    ensures
        x.text[0] != '\u{feff}',
{
    reveal_strlit("Infinity");
    if x.text[0] == '\u{feff}' {
        assert(crate::json_lexer::num_end(x.text, 0) is None) by {
            if crate::json_lexer::infinity_at(x.text, 0) {
                assert(x.text.subrange(0, 8)[0] == "Infinity"@[0]);
            }
        }
    }
}

} // verus!
