//! A JSON document that was set or extended anywhere is one whose text parses back with
//! its value.
use crate::float::Facts;
use crate::json_edit::{
    appended, break_behind, child, child_bounds, created, dressed, end_space, entries_of,
    fresh_items_bare, has_line_note, inner_text, js_append, js_set, member_node, nested, new_member,
    unspaced, with_items, with_value_at,
};
use crate::json_good_laws::{
    all_fit, fit, fit_entries, run_add, run_part, space_is_spaces, spaces_are_space,
};
use crate::json_laws::{members_are, toks_add, toks_none, toks_one, vals_are};
use crate::json_lexer::{eol_at, json_space, Jt, Tok};
use crate::json_nodes::{es_members, es_vals, js_val};
use crate::json_parser::trivial;
use crate::json_relex::{met, self_lexed};
use crate::json_set_laws::{fresh_good, numbers_good, string_reads};
use crate::json_spell::{
    indent_from, indent_unit, laid_items, laid_members, laid_out, line_space, multi_line,
    no_tokens, replacement, space,
};
use crate::json_text_laws::{doc_good, good_text_parses_back, node_good, run_ok, run_read};
use crate::json_tree::{comma_source, en_text, es_text, js_text, key_source, toks_text, En, Js};
use crate::jsonc::{
    jsonc_append, jsonc_eol, jsonc_parsed, jsonc_set, jsonc_source, JsoncDoc,
};
use crate::model::{St, Val};
use crate::rows::white_from;
use crate::strs::white_space;
use vstd::prelude::*;
use vstd::string::*;

verus! {

/// Is the text white space of JSON?
pub open spec fn spaces(t: Seq<char>) -> bool {
    forall|k: int| 0 <= k < t.len() ==> json_space(#[trigger] t[k])
}

/// Is the text a line ending?
pub open spec fn ending(t: Seq<char>) -> bool {
    t == "\n"@ || t == "\r\n"@
}

/// Do the nodes have one text and one value?
spec fn twins(a: Js, b: Js) -> bool {
    js_text(a) == js_text(b) && js_val(a) == js_val(b)
}

pub proof fn space_run(t: Seq<char>)
    requires
        spaces(t),
    ensures
        run_ok(space(t)),
        toks_text(space(t)) == t,
{
    let r = space(t);
    if t.len() > 0 {
        let x = Jt { kind: Tok::Ws, text: t };
        spaces_are_space(x);
        assert(r =~= seq![x]);
        assert(r[0] == x && r.last() == x);
        toks_one(x);
    } else {
        toks_none();
        assert(t =~= Seq::<char>::empty());
    }
}

proof fn no_break(t: Seq<char>, i: int)
    requires
        0 <= i <= t.len(),
        eol_at(t, i) == t.len(),
    ensures
        forall|k: int| i <= k < t.len() ==> #[trigger] t[k] != '\n',
    decreases t.len() - i,
{
    if i < t.len() {
        no_break(t, i + 1);
    }
}

proof fn break_at_end(t: Seq<char>, i: int)
    requires
        0 <= i <= t.len(),
        forall|k: int| i <= k < t.len() ==> #[trigger] t[k] != '\n',
    ensures
        eol_at(t, i) == t.len(),
    decreases t.len() - i,
{
    if i < t.len() {
        assert(t[i] != '\n');
        break_at_end(t, i + 1);
    }
}

/// A line comment takes a carriage return along.
proof fn comment_grows(x: Jt)
    requires
        self_lexed(x),
        x.kind == Tok::LineComment,
    ensures
        self_lexed(Jt { kind: Tok::LineComment, text: x.text.push('\r') }),
{
    let t = x.text;
    let u = t.push('\r');
    assert(t[0] == '/' && t.len() > 1 && t[1] == '/');
    no_break(t, 0);
    assert forall|k: int| 0 <= k < u.len() implies #[trigger] u[k] != '\n' by {
        if k < t.len() {
            assert(u[k] == t[k]);
        }
    }
    break_at_end(u, 0);
    assert(u[0] == '/' && u[1] == '/');
}

/// White space behind trivia, as it is read: a carriage return behind a line comment is
/// part of the comment.
proof fn mended(body: Seq<Jt>, first: Seq<char>) -> (r: Seq<Jt>)
    requires
        run_read(body),
        body.len() > 0 ==> body.last().kind != Tok::Ws,
        spaces(first),
        first.len() > 0,
        body.len() > 0 && body.last().kind == Tok::LineComment ==> first[0] == '\n' || (first.len()
            >= 2 && first[0] == '\r' && first[1] == '\n'),
    ensures
        run_ok(r),
        toks_text(r) == toks_text(body + space(first)),
{
    space_run(first);
    toks_add(body, space(first));
    if body.len() > 0 && body.last().kind == Tok::LineComment && first[0] == '\r' {
        let x = body.last();
        assert(self_lexed(body[body.len() - 1]));
        comment_grows(x);
        let y = Jt { kind: Tok::LineComment, text: x.text.push('\r') };
        let front = body.drop_last();
        let one = seq![y];
        let rest = first.skip(1);
        run_part(body, 0, body.len() - 1);
        assert(body.subrange(0, body.len() - 1) =~= front);
        assert(run_read(one));
        if front.len() > 0 {
            assert(met(body, body.len() - 2));
            assert(y.text[0] == x.text[0]);
        }
        run_add(front, one);
        assert(spaces(rest)) by {
            assert forall|k: int| 0 <= k < rest.len() implies json_space(#[trigger] rest[k]) by {
                assert(rest[k] == first[k + 1]);
            }
        }
        space_run(rest);
        assert(rest[0] == '\n');
        assert((front + one).last() == y);
        run_add(front + one, space(rest));
        assert(body =~= front + seq![x]);
        toks_add(front, seq![x]);
        toks_one(x);
        toks_add(front, one);
        toks_one(y);
        toks_add(front + one, space(rest));
        let r = front + one + space(rest);
        assert(toks_text(r) =~= toks_text(body + space(first)));
        r
    } else {
        run_add(body, space(first));
        body + space(first)
    }
}

/// Trivia without its last white space.
proof fn unspaced_run(r: Seq<Jt>)
    requires
        run_ok(r),
    ensures
        run_read(unspaced(r)),
        run_ok(end_space(r)),
        unspaced(r).len() > 0 ==> unspaced(r).last().kind != Tok::Ws,
        unspaced(r).len() > 0 && unspaced(r).last().kind == Tok::LineComment ==> toks_text(
            r,
        ).contains('\n'),
{
    if r.len() > 0 && r.last().kind == Tok::Ws {
        let n = r.len() - 1;
        let x = r[n];
        let body = unspaced(r);
        assert(self_lexed(x));
        space_is_spaces(x);
        run_part(r, 0, n);
        assert(r.subrange(0, n) =~= body);
        assert(end_space(r)[0] == x);
        assert(json_space(x.text[0]));
        if n > 0 {
            assert(met(r, n - 1));
            assert(trivial(r[n - 1].kind));
            if body.last().kind == Tok::LineComment {
                assert(r =~= body + seq![x]);
                toks_add(body, seq![x]);
                toks_one(x);
                assert(toks_text(r)[toks_text(body).len() as int] == '\n');
            }
        }
    }
}

/// The text in front of new entries starts a line, where it follows a line comment.
proof fn break_starts(text: Seq<char>, eol: Seq<char>, indent: Seq<char>)
    requires
        ending(eol),
        spaces(indent),
    ensures
        ({
            let t = break_behind(text, eol) + indent;
            &&& spaces(t)
            &&& t.len() > 0
            &&& t[0] == '\n' || (t.len() >= 2 && t[0] == '\r' && t[1] == '\n')
        }),
        spaces(eol + indent),
{
    reveal_strlit("\n");
    reveal_strlit("\r\n");
    let b = break_behind(text, eol);
    let t = b + indent;
    assert forall|k: int| 0 <= k < t.len() implies json_space(#[trigger] t[k]) by {
        if k >= b.len() {
            assert(t[k] == indent[k - b.len()]);
        }
    }
    let u = eol + indent;
    assert forall|k: int| 0 <= k < u.len() implies json_space(#[trigger] u[k]) by {
        if k >= eol.len() {
            assert(u[k] == indent[k - eol.len()]);
        }
    }
}

/// The first character of a token that is no white space is none either.
proof fn token_starts(x: Jt)
    requires
        self_lexed(x),
        x.kind != Tok::Ws,
    ensures
        !white_space(x.text[0]),
{
    reveal_strlit("Infinity");
    let t = x.text;
    if crate::json_lexer::infinity_at(t, 0) {
        assert(t.subrange(0, 8)[0] == t[0]);
    }
}

/// Does the text start with white space of JSON up to `n`, and then with something else?
spec fn leads(s: Seq<char>, n: int) -> bool {
    &&& 0 <= n <= s.len()
    &&& forall|k: int| 0 <= k < n ==> json_space(#[trigger] s[k])
    &&& n < s.len() ==> !white_space(s[n])
}

proof fn white_run(s: Seq<char>, i: int, e: int)
    requires
        0 <= i <= e <= s.len(),
    ensures
        i <= white_from(s, i, e) <= e,
        forall|k: int| i <= k < white_from(s, i, e) ==> white_space(#[trigger] s[k]),
        white_from(s, i, e) < e ==> !white_space(s[white_from(s, i, e)]),
    decreases e - i,
{
    if i < e && white_space(s[i]) {
        white_run(s, i + 1, e);
    }
}

proof fn eol_bounds(s: Seq<char>, i: int)
    requires
        0 <= i <= s.len(),
    ensures
        i <= eol_at(s, i) <= s.len(),
        eol_at(s, i) < s.len() ==> s[eol_at(s, i)] == '\n',
    decreases s.len() - i,
{
    if i < s.len() && s[i] != '\n' {
        eol_bounds(s, i + 1);
    }
}

proof fn indent_spaces(s: Seq<char>, n: int, i: int)
    requires
        leads(s, n),
        0 <= i <= n,
    ensures
        spaces(indent_from(s, i)),
    decreases s.len() - i,
{
    reveal_strlit("  ");
    let e = eol_at(s, i);
    eol_bounds(s, i);
    let a = white_from(s, i, e);
    white_run(s, i, e);
    assert forall|k: int| 0 <= k < n implies white_space(#[trigger] s[k]) by {
        assert(json_space(s[k]));
    }
    if a < e {
        assert(a == n) by {
            if a < n {
                assert(white_space(s[a]));
            }
            if a > n {
                assert(white_space(s[n]));
            }
        }
        let t = s.subrange(i, a);
        assert forall|k: int| 0 <= k < t.len() implies json_space(#[trigger] t[k]) by {
            assert(t[k] == s[i + k]);
        }
    } else if e < s.len() {
        assert(e < n) by {
            if e >= n {
                assert(white_space(s[e]));
                if e > n {
                    assert(white_space(s[n]));
                }
            }
        }
        indent_spaces(s, n, e + 1);
    }
}

proof fn unit_spaces(s: Seq<char>, n: int)
    requires
        leads(s, n),
    ensures
        spaces(indent_unit(s)),
{
    reveal_strlit("  ");
    indent_spaces(s, n, 0);
    let entry = indent_from(s, 0);
    let u = indent_unit(s);
    assert forall|k: int| 0 <= k < u.len() implies json_space(#[trigger] u[k]) by {
        if u.len() < entry.len() {
            let cut = entry.len() - u.len();
            if u == entry.skip(cut) {
                assert(u[k] == entry[k + cut]);
            }
        }
    }
}

/// A container.
spec fn holder(object: bool, pre: Seq<Jt>, es: Seq<En>) -> Js {
    if object {
        Js::Object(pre, es)
    } else {
        Js::Array(pre, es)
    }
}

/// A node's text starts with no white space.
proof fn node_starts(n: Js, fx: Facts)
    requires
        node_good(n, fx),
    ensures
        js_text(n).len() > 0,
        !white_space(js_text(n)[0]),
{
    if let Js::Scalar(l) = n {
        token_starts(l.token);
    }
}

proof fn entry_starts(e: En, object: bool, fx: Facts)
    requires
        fit(e, object, fx),
    ensures
        en_text(e).len() > 0,
        !white_space(en_text(e)[0]),
{
    node_starts(e.value, fx);
    if object {
        let k = e.key->0;
        token_starts(k.token);
        assert(key_source(e.key)[0] == k.token.text[0]);
        assert(en_text(e)[0] == key_source(e.key)[0]);
    } else {
        assert(key_source(e.key).len() == 0);
        assert(en_text(e)[0] == js_text(e.value)[0]);
    }
}

proof fn entries_start(es: Seq<En>, object: bool, n: nat, fx: Facts)
    requires
        0 < n <= es.len(),
        all_fit(es, object, fx),
    ensures
        es_text(es, n).len() > 0,
        !white_space(es_text(es, n)[0]),
    decreases n,
{
    assert(fit(es[n - 1], object, fx));
    if n == 1 {
        entry_starts(es[0], object, fx);
        assert(es_text(es, 0).len() == 0);
        assert(es_text(es, 1)[0] == en_text(es[0])[0]);
    } else {
        entries_start(es, object, (n - 1) as nat, fx);
        assert(es_text(es, n)[0] == es_text(es, (n - 1) as nat)[0]);
    }
}

/// The text between the brackets of a container starts with white space of JSON and then
/// something else.
proof fn inner_leads(object: bool, pre: Seq<Jt>, es: Seq<En>, fx: Facts) -> (n: int)
    requires
        run_ok(pre),
        all_fit(es, object, fx),
    ensures
        leads(inner_text(pre, es), n),
{
    let s = inner_text(pre, es);
    let body = es_text(es, es.len());
    if es.len() > 0 {
        entries_start(es, object, es.len(), fx);
    }
    if pre.len() == 0 {
        assert(pre =~= Seq::<Jt>::empty());
        toks_none();
        assert(s =~= body);
        0
    } else {
        let x = pre[0];
        let rest = pre.skip(1);
        assert(self_lexed(x));
        assert(pre =~= seq![x] + rest);
        toks_add(seq![x], rest);
        toks_one(x);
        assert(s =~= x.text + (toks_text(rest) + body));
        if x.kind == Tok::Ws {
            space_is_spaces(x);
            let n = x.text.len() as int;
            assert forall|k: int| 0 <= k < n implies json_space(#[trigger] s[k]) by {
                assert(s[k] == x.text[k]);
            }
            if rest.len() > 0 {
                let y = rest[0];
                assert(y == pre[1]);
                assert(met(pre, 0));
                assert(self_lexed(y));
                assert(y.kind != Tok::Ws) by {
                    if y.kind == Tok::Ws {
                        space_is_spaces(y);
                        assert(json_space(y.text[0]));
                    }
                }
                token_starts(y);
                let more = rest.skip(1);
                assert(rest =~= seq![y] + more);
                toks_add(seq![y], more);
                toks_one(y);
                assert(toks_text(rest)[0] == y.text[0]);
                assert(s[n] == y.text[0]);
            } else {
                assert(rest =~= Seq::<Jt>::empty());
                toks_none();
                assert(s =~= x.text + body);
            }
            n
        } else {
            token_starts(x);
            assert(s[0] == x.text[0]);
            0
        }
    }
}

proof fn entries_alike(a: Seq<En>, b: Seq<En>, n: nat)
    requires
        n <= a.len(),
        n <= b.len(),
        forall|k: int| 0 <= k < n ==> en_text(#[trigger] a[k]) == en_text(b[k]),
    ensures
        es_text(a, n) == es_text(b, n),
    decreases n,
{
    if n > 0 {
        entries_alike(a, b, (n - 1) as nat);
        assert(en_text(a[n - 1]) == en_text(b[n - 1]));
    }
}

/// Containers whose entries have the same texts, keys and values are twins.
proof fn twins_from(object: bool, p: Seq<Jt>, a: Seq<En>, q: Seq<Jt>, b: Seq<En>)
    requires
        toks_text(p) == toks_text(q),
        a.len() == b.len(),
        forall|k: int|
            0 <= k < a.len() ==> en_text(#[trigger] a[k]) == en_text(b[k]) && a[k].key == b[k].key
                && js_val(a[k].value) == js_val(b[k].value),
    ensures
        twins(holder(object, p, a), holder(object, q, b)),
{
    entries_alike(a, b, a.len());
    if object {
        members_are(a, a.len());
        members_are(b, b.len());
        assert forall|k: int| 0 <= k < a.len() implies #[trigger] es_members(a, a.len())[k]
            == es_members(b, b.len())[k] by {
            assert(a[k].key == b[k].key);
        }
        assert(es_members(a, a.len()) =~= es_members(b, b.len()));
    } else {
        vals_are(a, a.len());
        vals_are(b, b.len());
        assert forall|k: int| 0 <= k < a.len() implies #[trigger] es_vals(a, a.len())[k]
            == es_vals(b, b.len())[k] by {
            assert(a[k].key == b[k].key);
        }
        assert(es_vals(a, a.len()) =~= es_vals(b, b.len()));
    }
}

proof fn dressed_fit(new: Seq<En>, sep: Seq<Jt>, trailing: bool, tail: Seq<Jt>, object: bool, fx: Facts)
    requires
        run_ok(sep),
        run_ok(tail),
        forall|k: int| 0 <= k < new.len() ==> fit(#[trigger] new[k], object, fx),
    ensures
        all_fit(dressed(new, sep, trailing, tail), object, fx),
{
    let now = dressed(new, sep, trailing, tail);
    assert forall|k: int| 0 <= k < now.len() implies fit(#[trigger] now[k], object, fx) by {
        assert(fit(new[k], object, fx));
    }
}

/// A container with new entries has a twin that is read back.
#[verifier::rlimit(60)]
#[verifier::spinoff_prover]
proof fn appended_good(
    object: bool,
    pre: Seq<Jt>,
    es: Seq<En>,
    new: Seq<En>,
    eol: Seq<char>,
    fx: Facts,
) -> (m: Js)
    requires
        run_ok(pre),
        all_fit(es, object, fx),
        ending(eol),
        forall|k: int| 0 <= k < new.len() ==> fit(#[trigger] new[k], object, fx),
    ensures
        node_good(m, fx),
        twins(m, holder(object, appended(pre, es, new, eol).0, appended(pre, es, new, eol).1)),
{
    let (p, all) = appended(pre, es, new, eol);
    let inner = inner_text(pre, es);
    let multi = multi_line(inner);
    let indent = indent_from(inner, 0);
    let n = inner_leads(object, pre, es, fx);
    indent_spaces(inner, n, 0);
    reveal_strlit(" ");
    assert(spaces(" "@));
    space_run(" "@);
    break_starts(Seq::empty(), eol, indent);
    space_run(eol + indent);
    let sep = if multi {
        line_space(eol, indent)
    } else {
        space(" "@)
    };
    if new.len() == 0 {
        fit_entries(es, object, pre, fx);
        holder(object, pre, es)
    } else if es.len() == 0 {
        if pre.len() > 0 {
            let body = unspaced(pre);
            unspaced_run(pre);
            break_starts(toks_text(body), eol, indent);
            let first = if multi {
                break_behind(toks_text(body), eol) + indent
            } else {
                " "@
            };
            if body.len() > 0 && body.last().kind == Tok::LineComment {
                let i = choose|i: int| 0 <= i < toks_text(pre).len() && toks_text(pre)[i] == '\n';
                assert(inner[i] == '\n');
            }
            let q = mended(body, first);
            dressed_fit(new, sep, false, end_space(pre), object, fx);
            fit_entries(all, object, q, fx);
            twins_from(object, q, all, p, all);
            holder(object, q, all)
        } else {
            dressed_fit(new, space(" "@), false, no_tokens(), object, fx);
            fit_entries(all, object, p, fx);
            holder(object, p, all)
        }
    } else {
        let last = es.last();
        let at = es.len() - 1;
        assert(fit(es[at], object, fx));
        let body = unspaced(last.after);
        unspaced_run(last.after);
        break_starts(toks_text(body), eol, indent);
        let first = if multi {
            break_behind(toks_text(body), eol) + indent
        } else {
            " "@
        };
        space_run(first);
        if body.len() > 0 && body.last().kind == Tok::LineComment {
            let t = toks_text(last.after);
            let i = choose|i: int| 0 <= i < t.len() && t[i] == '\n';
            let front = toks_text(pre) + es_text(es, at as nat) + key_source(last.key) + js_text(
                last.value,
            ) + comma_source(last.comma);
            assert(inner =~= front + t) by {
                assert(es_text(es, es.len()) == es_text(es, at as nat) + en_text(es[at]));
                assert(en_text(es[at]) == key_source(last.key) + js_text(last.value)
                    + comma_source(last.comma) + t);
            }
            assert(inner[front.len() + i] == t[i]);
        }
        let q = mended(body, first);
        let was = all[at];
        let now = if last.comma is Some || has_line_note(body) {
            En { after: q, ..was }
        } else {
            was
        };
        let tail = dressed(new, sep, last.comma is Some, end_space(last.after));
        dressed_fit(new, sep, last.comma is Some, end_space(last.after), object, fx);
        let fixed = all.update(at, now);
        assert(fit(now, object, fx)) by {
            if last.comma is None && !has_line_note(body) {
                if body.len() > 0 {
                    assert(body[body.len() - 1].kind != Tok::LineComment);
                }
            }
        }
        assert forall|k: int| 0 <= k < fixed.len() implies fit(#[trigger] fixed[k], object, fx) && (k < fixed.len()
            - 1 ==> fixed[k].comma is Some) by {
            if k < at {
                assert(fixed[k] == es[k]);
                assert(fit(es[k], object, fx));
            } else if k > at {
                assert(fixed[k] == tail[k - es.len()]);
            }
        }
        fit_entries(fixed, object, pre, fx);
        twins_from(object, pre, fixed, pre, all);
        holder(object, pre, fixed)
    }
}

/// A value laid out on lines is read back.
pub proof fn laid_good(v: Val, base: Seq<char>, unit: Seq<char>, json5: bool, eol: Seq<char>, fx: Facts)
    requires
        numbers_good(v, json5, fx),
        spaces(base),
        spaces(unit),
        ending(eol),
    ensures
        node_good(laid_out(v, base, unit, json5, eol), fx),
    decreases v, 0int, 0int,
{
    let deep = base + unit;
    deeper(base, unit);
    break_starts(Seq::empty(), eol, deep);
    space_run(eol + deep);
    match v {
        Val::Array(a) => if a.len() == 0 {
            fresh_good(v, json5, fx);
        } else {
            laid_items_good(a, base, unit, json5, eol, a.len(), fx);
            let es = laid_items(a, base, unit, json5, eol, a.len());
            fit_entries(es, false, line_space(eol, deep), fx);
        },
        Val::Object(m) => if m.len() == 0 {
            fresh_good(v, json5, fx);
        } else {
            laid_members_good(m, base, unit, json5, eol, m.len(), fx);
            let es = laid_members(m, base, unit, json5, eol, m.len());
            fit_entries(es, true, line_space(eol, deep), fx);
        },
        _ => {
            fresh_good(v, json5, fx);
        },
    }
}

proof fn deeper(base: Seq<char>, unit: Seq<char>)
    requires
        spaces(base),
        spaces(unit),
    ensures
        spaces(base + unit),
{
    let t = base + unit;
    assert forall|k: int| 0 <= k < t.len() implies json_space(#[trigger] t[k]) by {
        if k < base.len() {
            assert(t[k] == base[k]);
        } else {
            assert(t[k] == unit[k - base.len()]);
        }
    }
}

proof fn laid_items_good(
    a: Seq<Val>,
    base: Seq<char>,
    unit: Seq<char>,
    json5: bool,
    eol: Seq<char>,
    n: nat,
    fx: Facts,
)
    requires
        n <= a.len(),
        forall|i: int| 0 <= i < a.len() ==> numbers_good(#[trigger] a[i], json5, fx),
        spaces(base),
        spaces(unit),
        ending(eol),
    ensures
        laid_items(a, base, unit, json5, eol, n).len() == n,
        forall|k: int|
            0 <= k < n ==> fit(#[trigger] laid_items(a, base, unit, json5, eol, n)[k], false, fx)
                && (k + 1 < a.len() ==> laid_items(a, base, unit, json5, eol, n)[k].comma is Some),
    decreases a, 1int, n,
{
    if n > 0 {
        laid_items_good(a, base, unit, json5, eol, (n - 1) as nat, fx);
        assert(numbers_good(a[n - 1], json5, fx));
        deeper(base, unit);
        laid_good(a[n - 1], base + unit, unit, json5, eol, fx);
        break_starts(Seq::empty(), eol, base + unit);
        break_starts(Seq::empty(), eol, base);
        space_run(eol + (base + unit));
        space_run(eol + base);
    }
}

proof fn laid_members_good(
    m: Seq<(Seq<char>, Val)>,
    base: Seq<char>,
    unit: Seq<char>,
    json5: bool,
    eol: Seq<char>,
    n: nat,
    fx: Facts,
)
    requires
        n <= m.len(),
        forall|i: int| 0 <= i < m.len() ==> numbers_good((#[trigger] m[i]).1, json5, fx),
        spaces(base),
        spaces(unit),
        ending(eol),
    ensures
        laid_members(m, base, unit, json5, eol, n).len() == n,
        forall|k: int|
            0 <= k < n ==> fit(#[trigger] laid_members(m, base, unit, json5, eol, n)[k], true, fx)
                && (k + 1 < m.len() ==> laid_members(m, base, unit, json5, eol, n)[k].comma is Some),
    decreases m, 1int, n,
{
    if n > 0 {
        laid_members_good(m, base, unit, json5, eol, (n - 1) as nat, fx);
        assert(numbers_good(m[n - 1].1, json5, fx));
        deeper(base, unit);
        laid_good(m[n - 1].1, base + unit, unit, json5, eol, fx);
        string_reads(m[n - 1].0);
        reveal_strlit(" ");
        assert(spaces(" "@));
        space_run(" "@);
        break_starts(Seq::empty(), eol, base + unit);
        break_starts(Seq::empty(), eol, base);
        space_run(eol + (base + unit));
        space_run(eol + base);
    }
}

proof fn nested_numbers(steps: Seq<St>, v: Val, json5: bool, fx: Facts)
    requires
        numbers_good(v, json5, fx),
        nested(steps, v) is Ok,
    ensures
        numbers_good(nested(steps, v)->Ok_0, json5, fx),
    decreases steps.len(),
{
    if steps.len() > 0 {
        nested_numbers(steps.drop_first(), v, json5, fx);
    }
}

/// A container with the value of an entry exchanged for a twin of what it is to be.
proof fn exchanged_good(n: Js, i: int, x: Js, want: Js, fx: Facts) -> (m: Js)
    requires
        node_good(n, fx),
        n is Object || n is Array,
        0 <= i < entries_of(n).len(),
        node_good(x, fx),
        twins(x, want),
    ensures
        node_good(m, fx),
        twins(m, with_value_at(n, i, want)),
{
    let es = entries_of(n);
    let object = n is Object;
    let pre = match n {
        Js::Object(p, _) => p,
        Js::Array(p, _) => p,
        Js::Scalar(_) => Seq::empty(),
    };
    fit_entries(es, object, pre, fx);
    let now = es.update(i, En { value: x, ..es[i] });
    let meant = es.update(i, En { value: want, ..es[i] });
    assert forall|k: int| 0 <= k < now.len() implies fit(#[trigger] now[k], object, fx) && (k < now.len() - 1
        ==> now[k].comma is Some) by {
        assert(fit(es[k], object, fx));
        assert(now[k].comma == es[k].comma);
    }
    fit_entries(now, object, pre, fx);
    assert forall|k: int| 0 <= k < now.len() implies en_text(#[trigger] now[k]) == en_text(meant[k])
        && now[k].key == meant[k].key && js_val(now[k].value) == js_val(meant[k].value) by {}
    twins_from(object, pre, now, pre, meant);
    assert(with_value_at(n, i, want) == holder(object, pre, meant));
    holder(object, pre, now)
}

#[verifier::rlimit(60)]
#[verifier::spinoff_prover]
proof fn set_good(n: Js, path: Seq<St>, v: Val, json5: bool, eol: Seq<char>, fx: Facts) -> (m: Js)
    requires
        node_good(n, fx),
        numbers_good(v, json5, fx),
        ending(eol),
        js_set(n, path, v, json5, eol) is Ok,
    ensures
        node_good(m, fx),
        twins(m, js_set(n, path, v, json5, eol)->Ok_0),
    decreases path.len(),
{
    if path.len() == 0 {
        fresh_good(v, json5, fx);
        if let Val::Str(s) = v {
            string_reads(s);
        }
        replacement(n, v, json5)
    } else {
        child_bounds(n, path[0]);
        match child(n, path[0]) {
            Some(i) => {
                let es = entries_of(n);
                let rest = path.drop_first();
                assert(node_good(es[i].value, fx));
                let x = set_good(es[i].value, rest, v, json5, eol, fx);
                exchanged_good(n, i, x, js_set(es[i].value, rest, v, json5, eol)->Ok_0, fx)
            },
            None => {
                assert(created(n, path, v, json5, eol) is Ok);
                let key = path[0]->Field_0;
                let pre = n->Object_0;
                let es = n->Object_1;
                let w = nested(path.drop_first(), v)->Ok_0;
                nested_numbers(path.drop_first(), v, json5, fx);
                fit_entries(es, true, pre, fx);
                let inner = inner_text(pre, es);
                let k = inner_leads(true, pre, es, fx);
                indent_spaces(inner, k, 0);
                unit_spaces(inner, k);
                fresh_good(w, json5, fx);
                laid_good(w, indent_from(inner, 0), indent_unit(inner), json5, eol, fx);
                string_reads(key);
                reveal_strlit(" ");
                assert(spaces(" "@));
                space_run(" "@);
                let e = new_member(key, member_node(inner, w, json5, eol));
                assert(fit(e, true, fx));
                appended_good(true, pre, es, seq![e], eol, fx)
            },
        }
    }
}

proof fn append_good(n: Js, path: Seq<St>, items: Seq<Val>, json5: bool, eol: Seq<char>, fx: Facts) -> (m: Js)
    requires
        node_good(n, fx),
        forall|i: int| 0 <= i < items.len() ==> numbers_good(#[trigger] items[i], json5, fx),
        ending(eol),
        js_append(n, path, items, json5, eol) is Ok,
    ensures
        node_good(m, fx),
        twins(m, js_append(n, path, items, json5, eol)->Ok_0),
    decreases path.len(),
{
    if path.len() == 0 {
        assert(with_items(n, items, json5, eol) is Ok);
        let pre = n->Array_0;
        let es = n->Array_1;
        let new = fresh_items_bare(items, json5);
        fit_entries(es, false, pre, fx);
        assert forall|k: int| 0 <= k < new.len() implies fit(#[trigger] new[k], false, fx) by {
            assert(numbers_good(items[k], json5, fx));
            fresh_good(items[k], json5, fx);
        }
        appended_good(false, pre, es, new, eol, fx)
    } else {
        child_bounds(n, path[0]);
        let i = child(n, path[0])->0;
        let es = entries_of(n);
        let rest = path.drop_first();
        assert(node_good(es[i].value, fx));
        let x = append_good(es[i].value, rest, items, json5, eol, fx);
        exchanged_good(n, i, x, js_append(es[i].value, rest, items, json5, eol)->Ok_0, fx)
    }
}

proof fn twin_text_parses_back(d: JsoncDoc, m: Js, fx: Facts)
    requires
        run_ok(d.head),
        run_read(d.tail),
        node_good(m, fx),
        twins(m, d.value),
    ensures
        jsonc_parsed(jsonc_source(d), fx) is Ok,
        js_val(jsonc_parsed(jsonc_source(d), fx)->Ok_0.value) == js_val(d.value),
        doc_good(jsonc_parsed(jsonc_source(d), fx)->Ok_0, fx),
{
    let e = JsoncDoc { value: m, ..d };
    good_text_parses_back(e, fx);
    assert(jsonc_source(e) == jsonc_source(d));
}

/// Setting a value anywhere, where something is there or is created, leaves a document
/// whose text parses back with the document's value.
pub proof fn set_text_parses_back(d: JsoncDoc, path: Seq<St>, v: Val, fx: Facts)
    requires
        doc_good(d, fx),
        numbers_good(v, d.json5, fx),
        jsonc_set(d, path, v) is Ok,
    ensures
        ({
            let now = jsonc_set(d, path, v)->Ok_0;
            let back = jsonc_parsed(jsonc_source(now), fx);
            back is Ok && js_val(back->Ok_0.value) == js_val(now.value) && doc_good(back->Ok_0, fx)
        }),
{
    let m = set_good(d.value, path, v, d.json5, jsonc_eol(d), fx);
    twin_text_parses_back(jsonc_set(d, path, v)->Ok_0, m, fx);
}

/// Appending items to an array leaves a document whose text parses back with the
/// document's value.
pub proof fn appended_text_parses_back(d: JsoncDoc, path: Seq<St>, items: Seq<Val>, fx: Facts)
    requires
        doc_good(d, fx),
        forall|i: int| 0 <= i < items.len() ==> numbers_good(#[trigger] items[i], d.json5, fx),
        jsonc_append(d, path, items) is Ok,
    ensures
        ({
            let now = jsonc_append(d, path, items)->Ok_0;
            let back = jsonc_parsed(jsonc_source(now), fx);
            back is Ok && js_val(back->Ok_0.value) == js_val(now.value) && doc_good(back->Ok_0, fx)
        }),
{
    let m = append_good(d.value, path, items, d.json5, jsonc_eol(d), fx);
    twin_text_parses_back(jsonc_append(d, path, items)->Ok_0, m, fx);
}

} // verus!
