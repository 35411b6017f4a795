//! A JSON document in which a value was replaced is one that its own text parses back
//! as.
use crate::float::Facts;
use crate::json_edit::{child, child_bounds, entries_of, js_at, js_set};
use crate::json_good_laws::{fit, fit_entries};
use crate::json_laws::{body_front, int_reads_back, nat_digits_spell, single_front};
use crate::json_lexer::{hex_at, num_end, number_end, string_end, word_end, Jt, Tok};
use crate::json_relex::self_lexed;
use crate::json_spell::{
    fresh, fresh_items, fresh_members, no_tokens, num_js, single_body, single_char, single_string,
    spelled_float,
};
use crate::json_text_laws::{doc_good, good_text_parses_back, node_good, scalar_good};
use crate::json_tree::{En, Js};
use crate::jsonc::{jsonc_parsed, jsonc_set, jsonc_source, JsoncDoc};
use crate::model::{St, Val};
use crate::strs::{int_digits, is_digit, nat_digits};
use crate::value::{hex_digit, json_body, json_char, json_string};
use vstd::prelude::*;
use vstd::string::*;

verus! {

/// A character as it stands between quotes.
spec fn piece(c: char, single: bool) -> Seq<char> {
    if single {
        single_char(c)
    } else {
        json_char(c)
    }
}

/// A text as it stands between quotes.
spec fn pieces(s: Seq<char>, single: bool) -> Seq<char> {
    if single {
        single_body(s)
    } else {
        json_body(s)
    }
}

/// The quote.
spec fn quote(single: bool) -> char {
    if single {
        '\''
    } else {
        '"'
    }
}

proof fn hex_digit_is_plain(d: int)
    requires
        0 <= d < 16,
    ensures
        hex_digit(d) != '"',
        hex_digit(d) != '\'',
        hex_digit(d) != '\\',
{
}

proof fn piece_skipped(t: Seq<char>, off: int, c: char, single: bool)
    requires
        0 <= off,
        off + piece(c, single).len() <= t.len(),
        forall|k: int| 0 <= k < piece(c, single).len() ==> #[trigger] piece(c, single)[k] == t[off + k],
    ensures
        string_end(t, quote(single), off) == string_end(t, quote(single), off + piece(c, single).len()),
        piece(c, single).len() > 0,
{
    let w = piece(c, single);
    let q = quote(single);
    assert(w[0] == t[off]);
    if w.len() == 2 {
        assert(w[1] == t[off + 1]);
    } else if w.len() == 6 {
        hex_digit_is_plain(c as int / 16);
        hex_digit_is_plain(c as int % 16);
        assert(w[1] == t[off + 1] && w[2] == t[off + 2] && w[3] == t[off + 3] && w[4] == t[off + 4] && w[5]
            == t[off + 5]);
        assert(string_end(t, q, off) == string_end(t, q, off + 2));
        assert(string_end(t, q, off + 2) == string_end(t, q, off + 3));
        assert(string_end(t, q, off + 3) == string_end(t, q, off + 4));
        assert(string_end(t, q, off + 4) == string_end(t, q, off + 5));
        assert(string_end(t, q, off + 5) == string_end(t, q, off + 6));
    }
}

proof fn body_ends(t: Seq<char>, off: int, s: Seq<char>, single: bool)
    requires
        0 <= off <= t.len(),
        t.skip(off) == pieces(s, single) + seq![quote(single)],
    ensures
        string_end(t, quote(single), off) == Some(t.len() as int),
    decreases s.len(),
{
    let tail = t.skip(off);
    if s.len() == 0 {
        assert(pieces(s, single) =~= Seq::<char>::empty());
        assert(tail =~= seq![quote(single)]);
        assert(tail[0] == t[off]);
        assert(tail.len() == 1);
    } else {
        if single {
            single_front(s);
        } else {
            body_front(s);
        }
        let w = piece(s[0], single);
        let rest = pieces(s.drop_first(), single) + seq![quote(single)];
        assert(tail =~= w + rest);
        assert forall|k: int| 0 <= k < w.len() implies #[trigger] w[k] == t[off + k] by {
            assert(tail[k] == w[k]);
        }
        assert(tail.len() == w.len() + rest.len());
        piece_skipped(t, off, s[0], single);
        assert(t.skip(off + w.len()) =~= rest) by {
            assert forall|k: int| 0 <= k < rest.len() implies t.skip(off + w.len())[k] == rest[k] by {
                assert(tail[w.len() + k] == rest[k]);
            }
        }
        body_ends(t, off + w.len(), s.drop_first(), single);
    }
}

pub proof fn string_reads(s: Seq<char>)
    ensures
        self_lexed(Jt { kind: Tok::Str, text: json_string(s) }),
        self_lexed(Jt { kind: Tok::SingleStr, text: single_string(s) }),
{
    let a = json_string(s);
    assert(a.skip(1) =~= pieces(s, false) + seq!['"']);
    assert(a[0] == '"');
    body_ends(a, 1, s, false);
    let b = single_string(s);
    assert(b.skip(1) =~= pieces(s, true) + seq!['\'']);
    assert(b[0] == '\'');
    body_ends(b, 1, s, true);
}

proof fn word_reads()
    ensures
        self_lexed(Jt { kind: Tok::Null, text: "null"@ }),
        self_lexed(Jt { kind: Tok::True, text: "true"@ }),
        self_lexed(Jt { kind: Tok::False, text: "false"@ }),
{
    reveal_strlit("null");
    reveal_strlit("true");
    reveal_strlit("false");
    reveal_with_fuel(word_end, 6);
    assert("null"@.subrange(0, 4) =~= "null"@);
    assert("true"@.subrange(0, 4) =~= "true"@);
    assert("false"@.subrange(0, 5) =~= "false"@);
    assert("null"@[0] == 'n' && "true"@[0] == 't' && "false"@[0] == 'f');
    assert(word_end("null"@, 0) == 4);
    assert(word_end("true"@, 0) == 4);
    assert(word_end("false"@, 0) == 5);
    assert("null"@ != "true"@ && "null"@ != "false"@ && "false"@ != "true"@);
}

proof fn digits_run(t: Seq<char>, i: int)
    requires
        0 <= i <= t.len(),
        forall|k: int| i <= k < t.len() ==> is_digit(#[trigger] t[k]),
    ensures
        number_end(t, i) == t.len(),
    decreases t.len() - i,
{
    if i < t.len() {
        assert(is_digit(t[i]));
        digits_run(t, i + 1);
    }
}

proof fn int_reads(i: i64)
    ensures
        self_lexed(Jt { kind: Tok::Num, text: int_digits(i as int) }),
{
    let t = int_digits(i as int);
    let m: int = if i < 0 {
        -(i as int)
    } else {
        i as int
    };
    let d = nat_digits(m as nat);
    nat_digits_spell(m as nat);
    let j: int = if i < 0 {
        1
    } else {
        0
    };
    assert(t =~= (if i < 0 {
        seq!['-'] + d
    } else {
        d
    }));
    assert forall|k: int| j <= k < t.len() implies is_digit(#[trigger] t[k]) by {
        assert(t[k] == d[k - j]);
        assert(is_digit(d[k - j]));
    }
    digits_run(t, j);
    assert(is_digit(t[j]));
    assert(!hex_at(t, j)) by {
        if j + 1 < t.len() {
            assert(is_digit(t[j + 1]));
        }
    }
    assert(num_end(t, 0) == Some(t.len() as int));
}

/// Do the numbers of the value read back, once they are spelled? An integer does unless
/// only a double can hold it; a double does where its text is a number that the facts
/// know to be that double.
pub open spec fn numbers_good(v: Val, json5: bool, fx: Facts) -> bool
    decreases v,
{
    match v {
        Val::Int(i) => i != i64::MIN,
        Val::Float(f) => scalar_good(num_js(spelled_float(f, json5), f)->Scalar_0, fx),
        Val::Array(a) => forall|i: int| 0 <= i < a.len() ==> numbers_good(#[trigger] a[i], json5, fx),
        Val::Object(m) => forall|i: int|
            0 <= i < m.len() ==> numbers_good((#[trigger] m[i]).1, json5, fx),
        _ => true,
    }
}

/// A freshly spelled value is read back.
pub proof fn fresh_good(v: Val, json5: bool, fx: Facts)
    requires
        numbers_good(v, json5, fx),
    ensures
        node_good(fresh(v, json5), fx),
    decreases v, 0int, 0int,
{
    word_reads();
    match v {
        Val::Int(i) => {
            int_reads(i);
            int_reads_back(i);
        },
        Val::Str(s) => {
            string_reads(s);
        },
        Val::Array(a) => {
            items_good(a, json5, a.len(), fx);
            let es = fresh_items(a, json5, a.len());
            fit_entries(es, false, no_tokens(), fx);
        },
        Val::Object(m) => {
            members_good(m, json5, m.len(), fx);
            let es = fresh_members(m, json5, m.len());
            fit_entries(es, true, no_tokens(), fx);
        },
        _ => {},
    }
}

proof fn items_good(a: Seq<Val>, json5: bool, n: nat, fx: Facts)
    requires
        n <= a.len(),
        forall|i: int| 0 <= i < a.len() ==> numbers_good(#[trigger] a[i], json5, fx),
    ensures
        fresh_items(a, json5, n).len() == n,
        forall|k: int|
            0 <= k < n ==> fit(#[trigger] fresh_items(a, json5, n)[k], false, fx) && (k + 1 < a.len()
                ==> fresh_items(a, json5, n)[k].comma is Some),
    decreases a, 1int, n,
{
    if n > 0 {
        items_good(a, json5, (n - 1) as nat, fx);
        assert(numbers_good(a[n - 1], json5, fx));
        fresh_good(a[n - 1], json5, fx);
    }
}

proof fn members_good(m: Seq<(Seq<char>, Val)>, json5: bool, n: nat, fx: Facts)
    requires
        n <= m.len(),
        forall|i: int| 0 <= i < m.len() ==> numbers_good((#[trigger] m[i]).1, json5, fx),
    ensures
        fresh_members(m, json5, n).len() == n,
        forall|k: int|
            0 <= k < n ==> fit(#[trigger] fresh_members(m, json5, n)[k], true, fx) && (k + 1 < m.len()
                ==> fresh_members(m, json5, n)[k].comma is Some),
    decreases m, 1int, n,
{
    if n > 0 {
        members_good(m, json5, (n - 1) as nat, fx);
        assert(numbers_good(m[n - 1].1, json5, fx));
        fresh_good(m[n - 1].1, json5, fx);
        string_reads(m[n - 1].0);
    }
}

proof fn replaced_good(n: Js, path: Seq<St>, v: Val, json5: bool, eol: Seq<char>, fx: Facts)
    requires
        node_good(n, fx),
        numbers_good(v, json5, fx),
        js_at(n, path) is Some,
        js_set(n, path, v, json5, eol) is Ok,
    ensures
        node_good(js_set(n, path, v, json5, eol)->Ok_0, fx),
    decreases path.len(),
{
    if path.len() == 0 {
        fresh_good(v, json5, fx);
        if let Val::Str(s) = v {
            string_reads(s);
        }
    } else {
        child_bounds(n, path[0]);
        let i = child(n, path[0])->0;
        let es = entries_of(n);
        let object = n is Object;
        let pre = match n {
            Js::Object(p, _) => p,
            Js::Array(p, _) => p,
            Js::Scalar(_) => Seq::empty(),
        };
        fit_entries(es, object, pre, fx);
        assert(fit(es[i], object, fx));
        replaced_good(es[i].value, path.drop_first(), v, json5, eol, fx);
        let x = js_set(es[i].value, path.drop_first(), v, json5, eol)->Ok_0;
        let now = es.update(i, En { value: x, ..es[i] });
        assert forall|k: int| 0 <= k < now.len() implies fit(#[trigger] now[k], object, fx) && (k < now.len() - 1
            ==> now[k].comma is Some) by {
            assert(fit(es[k], object, fx));
            assert(now[k].comma == es[k].comma);
        }
        fit_entries(now, object, pre, fx);
    }
}

/// Replacing a value that is there leaves a document whose text parses back as that
/// document.
pub proof fn replaced_text_parses_back(d: JsoncDoc, path: Seq<St>, v: Val, fx: Facts)
    requires
        doc_good(d, fx),
        numbers_good(v, d.json5, fx),
        js_at(d.value, path) is Some,
        jsonc_set(d, path, v) is Ok,
    ensures
        doc_good(jsonc_set(d, path, v)->Ok_0, fx),
        jsonc_parsed(jsonc_source(jsonc_set(d, path, v)->Ok_0), fx) is Ok,
        jsonc_parsed(jsonc_source(jsonc_set(d, path, v)->Ok_0), fx)->Ok_0.value == jsonc_set(
            d,
            path,
            v,
        )->Ok_0.value,
{
    replaced_good(d.value, path, v, d.json5, crate::jsonc::jsonc_eol(d), fx);
    good_text_parses_back(jsonc_set(d, path, v)->Ok_0, fx);
}

} // verus!
