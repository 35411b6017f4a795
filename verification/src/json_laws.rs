//! What holds of JSONC documents as a whole: parsing loses nothing, what is
//! written reads back, and an edit leaves everything else as it was.
use crate::float::Facts;
use crate::grammar::{hex_digits_value, hex_end, hex_value, looks_float};
use crate::json_edit::{
    appended, child, child_bounds, created, entries_of, fresh_items_bare, inner_text, closing,
    es_text_from, js_at, js_set, member_node, opening, text_before, text_behind, named_entry,
    named_entry_bounds, nested, new_member, with_items, with_value_at, without_element,
    without_member,
};
use crate::json_lexer::{json_token, json_tokens, punct, token_texts, tokens_round_trip, Jt, Tok};
use crate::json_nodes::{
    en_val, entry_name, es_members, es_vals, is_hex, js_val, json_unescaped, json_unquoted,
    number_kind, string_val, unsigned, NumKind,
};
use crate::json_parser::{
    closer, j_document, j_entries, j_entry, j_key, j_value, kind, opens_object, trivia_end,
    trivia_end_bounds,
};
use crate::json_spell::{
    fresh, fresh_items, fresh_key, fresh_members, laid_items, laid_members, laid_out, no_tokens,
    replacement, single_body, single_char, single_string, space, spelled_float,
};
use crate::json_tree::{comma_source, en_text, es_text, js_text, key_source, toks_text, En, Js};
use crate::jsonc::{jsonc_parsed, jsonc_source};
use crate::lines::{flat_add, flat_one};
use crate::model::{St, Val};
use crate::strs::{all_digits, digits_value, int_digits, nat_digits, parse_i64};
use crate::value::{hex_digit, json_body, json_char, json_string};
use vstd::prelude::*;

verus! {

/// The text of two runs of tokens together.
pub proof fn toks_add(a: Seq<Jt>, b: Seq<Jt>)
    ensures
        toks_text(a + b) == toks_text(a) + toks_text(b),
{
    assert(token_texts(a + b) =~= token_texts(a) + token_texts(b));
    flat_add(token_texts(a), token_texts(b));
}

/// The text of one token.
pub proof fn toks_one(x: Jt)
    ensures
        toks_text(seq![x]) == x.text,
{
    assert(token_texts(seq![x]) =~= seq![x.text]);
    flat_one(x.text);
}

pub proof fn toks_none()
    ensures
        toks_text(Seq::<Jt>::empty()) == Seq::<char>::empty(),
{
    assert(token_texts(Seq::<Jt>::empty()) =~= Seq::<Seq<char>>::empty());
}

/// The text of a run of tokens is that of its two halves.
proof fn toks_split(t: Seq<Jt>, a: int, b: int, c: int)
    requires
        0 <= a <= b <= c <= t.len(),
    ensures
        toks_text(t.subrange(a, c)) == toks_text(t.subrange(a, b)) + toks_text(t.subrange(b, c)),
{
    assert(t.subrange(a, c) =~= t.subrange(a, b) + t.subrange(b, c));
    toks_add(t.subrange(a, b), t.subrange(b, c));
}

proof fn toks_at(t: Seq<Jt>, i: int)
    requires
        0 <= i < t.len(),
    ensures
        toks_text(t.subrange(i, i + 1)) == t[i].text,
{
    assert(t.subrange(i, i + 1) =~= seq![t[i]]);
    toks_one(t[i]);
}

/// Punctuation tokens have the text of their kind.
spec fn spelled_out(t: Seq<Jt>) -> bool {
    forall|i: int|
        0 <= i < t.len() ==> {
            let x = #[trigger] t[i];
            &&& x.kind == Tok::LBrace ==> x.text == seq!['{']
            &&& x.kind == Tok::RBrace ==> x.text == seq!['}']
            &&& x.kind == Tok::LBracket ==> x.text == seq!['[']
            &&& x.kind == Tok::RBracket ==> x.text == seq![']']
            &&& x.kind == Tok::Colon ==> x.text == seq![':']
            &&& x.kind == Tok::Comma ==> x.text == seq![',']
        }
}

proof fn tokens_spelled_out(s: Seq<char>, i: int)
    requires
        0 <= i <= s.len(),
    ensures
        spelled_out(json_tokens(s, i)),
    decreases s.len() - i,
{
    if i < s.len() {
        crate::json_lexer::json_token_bounds(s, i);
        let (k, e) = json_token(s, i);
        tokens_spelled_out(s, e);
        let one = Jt { kind: k, text: s.subrange(i, e) };
        if punct(s[i]) is Some {
            assert(one.text =~= seq![s[i]]);
        }
        let rest = json_tokens(s, e);
        assert(json_tokens(s, i) =~= seq![one] + rest);
    }
}

/// The text of the first entries does not depend on those behind them.
pub proof fn es_text_prefix(a: Seq<En>, b: Seq<En>, n: nat)
    requires
        n <= a.len(),
        n <= b.len(),
        forall|k: int| 0 <= k < n ==> a[k] == b[k],
    ensures
        es_text(a, n) == es_text(b, n),
    decreases n,
{
    if n > 0 {
        es_text_prefix(a, b, (n - 1) as nat);
    }
}

proof fn es_text_push(es: Seq<En>, e: En)
    ensures
        es_text(es.push(e), es.len() + 1) == es_text(es, es.len()) + en_text(e),
{
    es_text_prefix(es.push(e), es, es.len());
}

proof fn value_keeps_text(t: Seq<Jt>, i: int, fx: Facts)
    requires
        spelled_out(t),
        0 <= i <= t.len(),
        j_value(t, i, fx) is Ok,
    ensures
        ({
            let (n, k) = j_value(t, i, fx)->Ok_0;
            i < k <= t.len() && js_text(n) == toks_text(t.subrange(i, k))
        }),
    decreases t.len() - i, 3int,
{
    let (n, k) = j_value(t, i, fx)->Ok_0;
    if kind(t, i) == Some(Tok::LBrace) || kind(t, i) == Some(Tok::LBracket) {
        trivia_end_bounds(t, i + 1);
        let p = trivia_end(t, i + 1);
        entries_keep_text(t, i, p, Seq::empty(), fx);
        let (es, m) = j_entries(t, i, p, Seq::empty(), fx)->Ok_0;
        toks_split(t, i, i + 1, k);
        toks_split(t, i + 1, p, k);
        toks_split(t, p, k - 1, k);
        toks_at(t, i);
        toks_at(t, k - 1);
        assert(es_text(Seq::<En>::empty(), 0) =~= Seq::<char>::empty());
        assert(js_text(n) =~= toks_text(t.subrange(i, k)));
    } else {
        toks_at(t, i);
    }
}

proof fn entries_keep_text(t: Seq<Jt>, open: int, i: int, es: Seq<En>, fx: Facts)
    requires
        spelled_out(t),
        0 <= open < i <= t.len(),
        j_entries(t, open, i, es, fx) is Ok,
    ensures
        ({
            let (all, k) = j_entries(t, open, i, es, fx)->Ok_0;
            &&& i < k <= t.len()
            &&& es_text(all, all.len()) == es_text(es, es.len()) + toks_text(t.subrange(i, k - 1))
            &&& t[k - 1].kind == closer(t, open)
        }),
    decreases t.len() - i, 5int,
{
    let (all, k) = j_entries(t, open, i, es, fx)->Ok_0;
    if kind(t, i) == Some(closer(t, open)) {
        assert(t.subrange(i, i) =~= Seq::<Jt>::empty());
        toks_none();
        assert(es_text(all, all.len()) =~= es_text(es, es.len()) + toks_text(t.subrange(i, k - 1)));
    } else {
        entry_keeps_text(t, open, i, fx);
        let (e, m) = j_entry(t, open, i, fx)->Ok_0;
        entries_keep_text(t, open, m, es.push(e), fx);
        es_text_push(es, e);
        toks_split(t, i, m, k - 1);
        assert(es_text(all, all.len()) =~= es_text(es, es.len()) + toks_text(t.subrange(i, k - 1)));
    }
}

#[verifier::rlimit(60)]
#[verifier::spinoff_prover]
proof fn entry_keeps_text(t: Seq<Jt>, open: int, i: int, fx: Facts)
    requires
        spelled_out(t),
        0 <= open < i < t.len(),
        j_entry(t, open, i, fx) is Ok,
    ensures
        ({
            let (e, k) = j_entry(t, open, i, fx)->Ok_0;
            i < k <= t.len() && en_text(e) == toks_text(t.subrange(i, k))
        }),
    decreases t.len() - i, 4int,
{
    let (e, m) = j_entry(t, open, i, fx)->Ok_0;
    let v = if opens_object(t, open) {
        let (key, v) = j_key(t, i)->Ok_0;
        trivia_end_bounds(t, i + 1);
        let g = trivia_end(t, i + 1);
        trivia_end_bounds(t, g + 1);
        toks_split(t, i, i + 1, v);
        toks_split(t, i + 1, g, v);
        toks_split(t, g, g + 1, v);
        toks_at(t, i);
        toks_at(t, g);
        assert(key_source(Some(key)) =~= toks_text(t.subrange(i, v)));
        v
    } else {
        assert(t.subrange(i, i) =~= Seq::<Jt>::empty());
        toks_none();
        i
    };
    assert(key_source(e.key) == toks_text(t.subrange(i, v)));
    value_keeps_text(t, v, fx);
    let (value, k) = j_value(t, v, fx)->Ok_0;
    trivia_end_bounds(t, k);
    let n = trivia_end(t, k);
    if kind(t, n) == Some(Tok::Comma) {
        trivia_end_bounds(t, n + 1);
        toks_split(t, k, n, m);
        toks_split(t, n, n + 1, m);
        toks_at(t, n);
        assert(comma_source(e.comma) + toks_text(e.after) =~= toks_text(t.subrange(k, m)));
    } else {
        assert(comma_source(e.comma) + toks_text(e.after) =~= toks_text(t.subrange(k, m)));
    }
    toks_split(t, i, v, m);
    toks_split(t, v, k, m);
    assert(en_text(e) =~= toks_text(t.subrange(i, m)));
}

proof fn document_keeps_text(t: Seq<Jt>, fx: Facts, h: Seq<Jt>, v: Js, tl: Seq<Jt>)
    requires
        spelled_out(t),
        j_document(t, fx) == Ok::<Option<(Seq<Jt>, Js, Seq<Jt>)>, crate::json_parser::Se>(
            Some((h, v, tl)),
        ),
    ensures
        toks_text(h) + js_text(v) + toks_text(tl) == toks_text(t),
{
    trivia_end_bounds(t, 0);
    let i = trivia_end(t, 0);
    value_keeps_text(t, i, fx);
    let (w, k) = j_value(t, i, fx)->Ok_0;
    let n = t.len() as int;
    toks_split(t, 0, i, n);
    toks_split(t, i, k, n);
    assert(t.subrange(0, n) =~= t);
    assert(t.subrange(0, i) =~= t.take(i));
    assert(t.subrange(k, n) =~= t.skip(k));
    assert(toks_text(h) + js_text(v) + toks_text(tl) =~= toks_text(t));
}

/// Parsing loses nothing: a parsed document's text is its source, character for
/// character.
pub proof fn jsonc_round_trips(src: Seq<char>, fx: Facts)
    requires
        jsonc_parsed(src, fx) is Ok,
    ensures
        jsonc_source(jsonc_parsed(src, fx)->Ok_0) == src,
{
    let bom = src.len() > 0 && src[0] == '\u{feff}';
    let s = if bom {
        src.drop_first()
    } else {
        src
    };
    let t = json_tokens(s, 0);
    tokens_spelled_out(s, 0);
    tokens_round_trip(s, 0);
    assert(s.skip(0) =~= s);
    let d = jsonc_parsed(src, fx)->Ok_0;
    document_keeps_text(t, fx, d.head, d.value, d.tail);
    assert(jsonc_source(d) =~= src);
}

pub proof fn en_val_is(e: En)
    ensures
        en_val(e) == js_val(e.value),
{
}

/// The names and values of an object's entries.
pub proof fn members_are(es: Seq<En>, n: nat)
    requires
        n <= es.len(),
    ensures
        es_members(es, n).len() == n,
        forall|i: int|
            0 <= i < n ==> #[trigger] es_members(es, n)[i] == (entry_name(es[i]), js_val(
                es[i].value,
            )),
    decreases n,
{
    if n > 0 {
        members_are(es, (n - 1) as nat);
        en_val_is(es[n - 1]);
    }
}

/// The values of an array's entries.
pub proof fn vals_are(es: Seq<En>, n: nat)
    requires
        n <= es.len(),
    ensures
        es_vals(es, n).len() == n,
        forall|i: int| 0 <= i < n ==> #[trigger] es_vals(es, n)[i] == js_val(es[i].value),
    decreases n,
{
    if n > 0 {
        vals_are(es, (n - 1) as nat);
        en_val_is(es[n - 1]);
    }
}

/// Do two entries have the same key and value?
pub open spec fn same_entry(a: En, b: En) -> bool {
    a.key == b.key && a.value == b.value
}

/// Deleting a member of an object removes that member from its value and nothing
/// else.
pub proof fn deleting_removes_the_member(pre: Seq<Jt>, es: Seq<En>, i: int)
    requires
        0 <= i < es.len(),
    ensures
        ({
            let (p, now) = without_member(pre, es, i);
            js_val(Js::Object(p, now)) == Val::Object(es_members(es, es.len()).remove(i))
        }),
{
    let (p, now) = without_member(pre, es, i);
    members_are(es, es.len());
    members_are(now, now.len());
    assert(now.len() == es.len() - 1);
    assert forall|k: int| 0 <= k < now.len() implies same_entry(
        #[trigger] now[k],
        es[if k < i {
            k
        } else {
            k + 1
        }],
    ) by {}
    assert(es_members(now, now.len()) =~= es_members(es, es.len()).remove(i));
}

/// Deleting an element of an array removes that element from its value and
/// nothing else.
pub proof fn deleting_removes_the_element(pre: Seq<Jt>, es: Seq<En>, i: int)
    requires
        0 <= i < es.len(),
    ensures
        ({
            let (p, now) = without_element(pre, es, i);
            js_val(Js::Array(p, now)) == Val::Array(es_vals(es, es.len()).remove(i))
        }),
{
    let (p, now) = without_element(pre, es, i);
    vals_are(es, es.len());
    vals_are(now, now.len());
    assert(now.len() == es.len() - 1);
    assert forall|k: int| 0 <= k < now.len() implies same_entry(
        #[trigger] now[k],
        es[if k < i {
            k
        } else {
            k + 1
        }],
    ) by {}
    assert(es_vals(now, now.len()) =~= es_vals(es, es.len()).remove(i));
}

/// Appending entries keeps the keys and values of those that were there, and
/// adds the new ones at the end.
proof fn appending_keeps(pre: Seq<Jt>, es: Seq<En>, new: Seq<En>, eol: Seq<char>)
    ensures
        ({
            let now = appended(pre, es, new, eol).1;
            &&& now.len() == es.len() + new.len()
            &&& forall|k: int| 0 <= k < es.len() ==> same_entry(#[trigger] now[k], es[k])
            &&& forall|k: int|
                es.len() <= k < now.len() ==> same_entry(#[trigger] now[k], new[k - es.len()])
        }),
{
}

/// Appending items to an array adds their values behind those that were there.
pub proof fn appending_extends_the_value(n: Js, items: Seq<Val>, json5: bool, eol: Seq<char>)
    requires
        n is Array,
        with_items(n, items, json5, eol) is Ok,
        forall|i: int| 0 <= i < items.len() ==> reads_alike(#[trigger] items[i], json5),
    ensures
        js_val(with_items(n, items, json5, eol)->Ok_0) == Val::Array(
            es_vals(entries_of(n), entries_of(n).len()) + items,
        ),
{
    let es = entries_of(n);
    let pre = n->Array_0;
    let new = fresh_items_bare(items, json5);
    let now = appended(pre, es, new, eol).1;
    appending_keeps(pre, es, new, eol);
    vals_are(es, es.len());
    vals_are(now, now.len());
    assert forall|k: int| es.len() <= k < now.len() implies js_val(#[trigger] now[k].value)
        == items[k - es.len()] by {
        assert(same_entry(now[k], new[k - es.len()]));
        fresh_reads_back(items[k - es.len()], json5);
    }
    assert forall|k: int| 0 <= k < es.len() implies js_val(#[trigger] now[k].value) == js_val(
        es[k].value,
    ) by {
        assert(same_entry(now[k], es[k]));
    }
    assert(es_vals(now, now.len()) =~= es_vals(es, es.len()) + items);
}

/// Does a value read back as itself once it is spelled? An integer that only a
/// double can hold and a double that prints as an integer do not.
pub open spec fn reads_alike(v: Val, json5: bool) -> bool
    decreases v,
{
    match v {
        Val::Int(i) => i != i64::MIN,
        Val::Float(f) => number_kind(spelled_float(f, json5)) is Lookup,
        Val::Array(a) => forall|i: int| 0 <= i < a.len() ==> reads_alike(#[trigger] a[i], json5),
        Val::Object(m) => forall|i: int|
            0 <= i < m.len() ==> reads_alike((#[trigger] m[i]).1, json5),
        _ => true,
    }
}

/// What a fresh node denotes is the value it was made of.
pub proof fn fresh_reads_back(v: Val, json5: bool)
    requires
        reads_alike(v, json5),
    ensures
        js_val(fresh(v, json5)) == v,
    decreases v,
{
    match v {
        Val::Int(i) => {
            int_reads_back(i);
        },
        Val::Str(s) => {
            string_reads_back(s);
        },
        Val::Array(a) => {
            fresh_items_are(a, json5, a.len());
            let es = fresh_items(a, json5, a.len());
            vals_are(es, es.len());
            assert forall|i: int| 0 <= i < a.len() implies js_val(#[trigger] es[i].value)
                == a[i] by {
                fresh_reads_back(a[i], json5);
            }
            assert(es_vals(es, es.len()) =~= a);
        },
        Val::Object(m) => {
            fresh_members_are(m, json5, m.len());
            let es = fresh_members(m, json5, m.len());
            members_are(es, es.len());
            assert forall|i: int| 0 <= i < m.len() implies #[trigger] es_members(es, es.len())[i]
                == m[i] by {
                fresh_reads_back(m[i].1, json5);
                string_reads_back(m[i].0);
            }
            assert(es_members(es, es.len()) =~= m);
        },
        _ => {},
    }
}

proof fn fresh_items_are(a: Seq<Val>, json5: bool, n: nat)
    requires
        n <= a.len(),
    ensures
        fresh_items(a, json5, n).len() == n,
        forall|i: int|
            0 <= i < n ==> (#[trigger] fresh_items(a, json5, n)[i]).value == fresh(a[i], json5),
    decreases n,
{
    if n > 0 {
        fresh_items_are(a, json5, (n - 1) as nat);
    }
}

proof fn fresh_members_are(m: Seq<(Seq<char>, Val)>, json5: bool, n: nat)
    requires
        n <= m.len(),
    ensures
        fresh_members(m, json5, n).len() == n,
        forall|i: int|
            0 <= i < n ==> {
                let e = #[trigger] fresh_members(m, json5, n)[i];
                e.value == fresh(m[i].1, json5) && e.key == Some(fresh_key(m[i].0, no_tokens()))
            },
    decreases n,
{
    if n > 0 {
        fresh_members_are(m, json5, (n - 1) as nat);
    }
}

/// An integer's digits denote it.
pub proof fn int_reads_back(i: i64)
    requires
        i != i64::MIN,
    ensures
        number_kind(int_digits(i as int)) == NumKind::Known(Val::Int(i)),
{
    let t = int_digits(i as int);
    let m: int = if i < 0 {
        -i
    } else {
        i as int
    };
    let d = nat_digits(m as nat);
    nat_digits_spell(m as nat);
    assert(t == (if i < 0 {
        seq!['-'] + d
    } else {
        d
    }));
    assert(unsigned(t) =~= d);
    reveal_strlit("Infinity");
    reveal_strlit("+Infinity");
    reveal_strlit("-Infinity");
    reveal_strlit("NaN");
    assert(d[0] != 'I' && d[0] != 'N');
    assert(t != "Infinity"@ && t != "NaN"@ && t != "+Infinity"@) by {
        assert("Infinity"@[0] == 'I');
        assert("NaN"@[0] == 'N');
        assert("+Infinity"@[0] == '+');
    }
    assert(t != "-Infinity"@) by {
        assert("-Infinity"@[1] == 'I');
        if i < 0 {
            assert(t[1] == d[0]);
        }
    }
    assert(!is_hex(d)) by {
        if d.len() >= 2 {
            assert(crate::strs::is_digit(d[1]));
        }
    }
    assert(!looks_float(t)) by {
        assert forall|k: int| 0 <= k < t.len() implies (#[trigger] t[k]) != '.' && t[k] != 'e'
            && t[k] != 'E' by {
            if i < 0 {
                if k > 0 {
                    assert(t[k] == d[k - 1]);
                    assert(crate::strs::is_digit(d[k - 1]));
                }
            } else {
                assert(crate::strs::is_digit(d[k]));
            }
        }
    }
    assert(crate::strs::is_digit(d[0]));
    assert(parse_i64(d) == Some(m as i64));
}

/// The digits of a number are digits and spell it.
pub proof fn nat_digits_spell(n: nat)
    ensures
        nat_digits(n).len() > 0,
        all_digits(nat_digits(n)),
        digits_value(nat_digits(n)) == n,
    decreases n,
{
    if n >= 10 {
        nat_digits_spell(n / 10);
        let d = nat_digits(n / 10);
        assert(nat_digits(n).drop_last() =~= d);
        assert(crate::strs::digit((n % 10) as int) as int == 48 + n % 10);
        assert(nat_digits(n).last() as int == 48 + n % 10);
        assert(n == (n / 10) * 10 + n % 10);
    } else {
        let d = nat_digits(n);
        assert(d.len() == 1);
        assert(d.drop_last() =~= Seq::<char>::empty());
        assert(digits_value(d.drop_last()) == 0);
        assert(d.last() as int == 48 + n);
    }
}

/// Does `part` stand at `off` in `b`?
spec fn stands(b: Seq<char>, off: int, part: Seq<char>) -> bool {
    0 <= off && off + part.len() <= b.len() && b.subrange(off, off + part.len()) == part
}

proof fn hex_digit_reads(d: int)
    requires
        0 <= d < 16,
    ensures
        crate::grammar::hex_digit_value(hex_digit(d)) == Some(d),
        hex_digit(d) != '+',
{
}

/// An escaped character is read back as itself.
proof fn char_reads_back(b: Seq<char>, off: int, c: char)
    requires
        stands(b, off, json_char(c)),
    ensures
        json_unescaped(b, off) == seq![c] + json_unescaped(b, off + json_char(c).len()),
{
    let part = json_char(c);
    assert(forall|k: int| 0 <= k < part.len() ==> #[trigger] part[k] == b[off + k]) by {
        assert forall|k: int| 0 <= k < part.len() implies #[trigger] part[k] == b[off + k] by {
            assert(b.subrange(off, off + part.len())[k] == b[off + k]);
        }
    }
    assert(part[0] == b[off]);
    if part.len() == 2 {
        assert(part[1] == b[off + 1]);
    } else if part.len() == 6 {
        assert(part[1] == b[off + 1]);
        assert(part[2] == b[off + 2]);
        assert(part[3] == b[off + 3]);
        assert(part[4] == b[off + 4]);
        assert(part[5] == b[off + 5]);
        let x = c as int;
        hex_digit_reads(x / 16);
        hex_digit_reads(x % 16);
        let h = b.subrange(off + 2, off + 6);
        assert(hex_end(b, off + 2) == off + 6);
        let h1 = h.drop_last();
        let h2 = h1.drop_last();
        let h3 = h2.drop_last();
        let h4 = h3.drop_last();
        assert(h4 =~= Seq::<char>::empty());
        assert(hex_digits_value(h4) == Some(0int));
        assert(h3.last() == '0' && h2.last() == '0');
        assert(h1.last() == hex_digit(x / 16));
        assert(h.last() == hex_digit(x % 16));
        assert(hex_digits_value(h3) == Some(0int));
        assert(hex_digits_value(h2) == Some(0int));
        assert(hex_digits_value(h1) == Some(x / 16));
        assert(hex_digits_value(h) == Some(x));
        assert(hex_value(h) == Some(x));
        assert(x as char == c);
    }
}

pub proof fn body_front(s: Seq<char>)
    requires
        s.len() > 0,
    ensures
        json_body(s) == json_char(s[0]) + json_body(s.drop_first()),
    decreases s.len(),
{
    if s.len() == 1 {
        assert(s.drop_last() =~= Seq::<char>::empty());
        assert(s.drop_first() =~= Seq::<char>::empty());
        assert(json_body(s) =~= json_char(s[0]) + json_body(s.drop_first()));
    } else {
        body_front(s.drop_last());
        assert(s.drop_last().drop_first() =~= s.drop_first().drop_last());
        assert(json_body(s) =~= json_char(s[0]) + json_body(s.drop_first()));
    }
}

proof fn body_reads_back(b: Seq<char>, off: int, s: Seq<char>)
    requires
        0 <= off <= b.len(),
        b.skip(off) == json_body(s),
    ensures
        json_unescaped(b, off) == s,
    decreases s.len(),
{
    if s.len() > 0 {
        body_front(s);
        let w = json_char(s[0]).len();
        assert(b.skip(off).len() == b.len() - off);
        assert(w <= json_body(s).len());
        assert(b.subrange(off, off + w) =~= json_char(s[0])) by {
            assert forall|k: int| 0 <= k < w implies b.subrange(off, off + w)[k] == json_char(
                s[0],
            )[k] by {
                assert(b.skip(off)[k] == json_body(s)[k]);
            }
        }
        char_reads_back(b, off, s[0]);
        assert(b.skip(off + w) =~= json_body(s.drop_first())) by {
            assert(b.skip(off).skip(w as int) =~= b.skip(off + w));
            assert((json_char(s[0]) + json_body(s.drop_first())).skip(w as int) =~= json_body(
                s.drop_first(),
            ));
        }
        body_reads_back(b, off + w, s.drop_first());
        assert(seq![s[0]] + s.drop_first() =~= s);
    } else {
        assert(b.skip(off).len() == 0);
    }
}

/// A string literal denotes the string it was made of.
pub proof fn string_reads_back(s: Seq<char>)
    ensures
        string_val(json_string(s)) == s,
{
    let t = json_string(s);
    assert(t[0] == '"');
    assert(t.last() == '"');
    assert(json_unquoted(t) =~= json_body(s));
    assert(json_body(s).skip(0) =~= json_body(s));
    body_reads_back(json_body(s), 0, s);
}

pub proof fn single_front(s: Seq<char>)
    requires
        s.len() > 0,
    ensures
        single_body(s) == single_char(s[0]) + single_body(s.drop_first()),
    decreases s.len(),
{
    if s.len() == 1 {
        assert(s.drop_last() =~= Seq::<char>::empty());
        assert(s.drop_first() =~= Seq::<char>::empty());
        assert(single_body(s) =~= single_char(s[0]) + single_body(s.drop_first()));
    } else {
        single_front(s.drop_last());
        assert(s.drop_last().drop_first() =~= s.drop_first().drop_last());
        assert(single_body(s) =~= single_char(s[0]) + single_body(s.drop_first()));
    }
}

proof fn single_char_reads_back(b: Seq<char>, off: int, c: char)
    requires
        stands(b, off, single_char(c)),
    ensures
        json_unescaped(b, off) == seq![c] + json_unescaped(b, off + single_char(c).len()),
{
    if c == '\'' {
        assert(b.subrange(off, off + 2)[0] == b[off]);
        assert(b.subrange(off, off + 2)[1] == b[off + 1]);
    } else if c == '"' {
        assert(b.subrange(off, off + 1)[0] == b[off]);
    } else {
        char_reads_back(b, off, c);
    }
}

proof fn single_body_reads_back(b: Seq<char>, off: int, s: Seq<char>)
    requires
        0 <= off <= b.len(),
        b.skip(off) == single_body(s),
    ensures
        json_unescaped(b, off) == s,
    decreases s.len(),
{
    if s.len() > 0 {
        single_front(s);
        let w = single_char(s[0]).len();
        assert(b.skip(off).len() == b.len() - off);
        assert(w <= single_body(s).len());
        assert(b.subrange(off, off + w) =~= single_char(s[0])) by {
            assert forall|k: int| 0 <= k < w implies b.subrange(off, off + w)[k] == single_char(
                s[0],
            )[k] by {
                assert(b.skip(off)[k] == single_body(s)[k]);
            }
        }
        single_char_reads_back(b, off, s[0]);
        assert(b.skip(off + w) =~= single_body(s.drop_first())) by {
            assert(b.skip(off).skip(w as int) =~= b.skip(off + w));
            assert((single_char(s[0]) + single_body(s.drop_first())).skip(w as int)
                =~= single_body(s.drop_first()));
        }
        single_body_reads_back(b, off + w, s.drop_first());
        assert(seq![s[0]] + s.drop_first() =~= s);
    } else {
        assert(b.skip(off).len() == 0);
    }
}

/// A single-quoted string literal denotes the string it was made of.
pub proof fn single_string_reads_back(s: Seq<char>)
    ensures
        string_val(single_string(s)) == s,
{
    let t = single_string(s);
    assert(t[0] == '\'');
    assert(t.last() == '\'');
    assert(json_unquoted(t) =~= single_body(s));
    assert(single_body(s).skip(0) =~= single_body(s));
    single_body_reads_back(single_body(s), 0, s);
}

proof fn laid_items_are(
    a: Seq<Val>,
    base: Seq<char>,
    unit: Seq<char>,
    json5: bool,
    eol: Seq<char>,
    n: nat,
)
    requires
        n <= a.len(),
    ensures
        laid_items(a, base, unit, json5, eol, n).len() == n,
        forall|i: int|
            0 <= i < n ==> (#[trigger] laid_items(a, base, unit, json5, eol, n)[i]).value
                == laid_out(a[i], base + unit, unit, json5, eol),
    decreases n,
{
    if n > 0 {
        laid_items_are(a, base, unit, json5, eol, (n - 1) as nat);
    }
}

proof fn laid_members_are(
    m: Seq<(Seq<char>, Val)>,
    base: Seq<char>,
    unit: Seq<char>,
    json5: bool,
    eol: Seq<char>,
    n: nat,
)
    requires
        n <= m.len(),
    ensures
        laid_members(m, base, unit, json5, eol, n).len() == n,
        forall|i: int|
            0 <= i < n ==> {
                let e = #[trigger] laid_members(m, base, unit, json5, eol, n)[i];
                e.value == laid_out(m[i].1, base + unit, unit, json5, eol) && e.key == Some(
                    fresh_key(m[i].0, space(" "@)),
                )
            },
    decreases n,
{
    if n > 0 {
        laid_members_are(m, base, unit, json5, eol, (n - 1) as nat);
    }
}

/// What a laid-out node denotes is the value it was made of.
pub proof fn laid_out_reads_back(v: Val, base: Seq<char>, unit: Seq<char>, json5: bool, eol: Seq<char>)
    requires
        reads_alike(v, json5),
    ensures
        js_val(laid_out(v, base, unit, json5, eol)) == v,
    decreases v,
{
    match v {
        Val::Array(a) => if a.len() == 0 {
            fresh_reads_back(v, json5);
        } else {
            laid_items_are(a, base, unit, json5, eol, a.len());
            let es = laid_items(a, base, unit, json5, eol, a.len());
            vals_are(es, es.len());
            assert forall|i: int| 0 <= i < a.len() implies js_val(#[trigger] es[i].value)
                == a[i] by {
                laid_out_reads_back(a[i], base + unit, unit, json5, eol);
            }
            assert(es_vals(es, es.len()) =~= a);
        },
        Val::Object(m) => if m.len() == 0 {
            fresh_reads_back(v, json5);
        } else {
            laid_members_are(m, base, unit, json5, eol, m.len());
            let es = laid_members(m, base, unit, json5, eol, m.len());
            members_are(es, es.len());
            assert forall|i: int| 0 <= i < m.len() implies #[trigger] es_members(es, es.len())[i]
                == m[i] by {
                laid_out_reads_back(m[i].1, base + unit, unit, json5, eol);
                string_reads_back(m[i].0);
            }
            assert(es_members(es, es.len()) =~= m);
        },
        _ => {
            fresh_reads_back(v, json5);
        },
    }
}

pub proof fn named_entry_is(es: Seq<En>, name: Seq<char>, i: int, r: int)
    requires
        0 <= i <= r <= es.len(),
        forall|k: int|
            i <= k < r ==> !((#[trigger] es[k]).key is Some && entry_name(es[k]) == name),
        r < es.len() ==> es[r].key is Some && entry_name(es[r]) == name,
    ensures
        named_entry(es, name, i) == r,
    decreases es.len() - i,
{
    if i < r {
        named_entry_is(es, name, i + 1, r);
    }
}

/// Replacing a value leaves every step where it led.
pub proof fn steps_stay(n: Js, i: int, x: Js, st: St)
    requires
        0 <= i < entries_of(n).len(),
    ensures
        child(with_value_at(n, i, x), st) == child(n, st),
        entries_of(with_value_at(n, i, x)).len() == entries_of(n).len(),
        entries_of(with_value_at(n, i, x))[i].value == x,
        forall|j: int|
            0 <= j < entries_of(n).len() && j != i ==> #[trigger] entries_of(
                with_value_at(n, i, x),
            )[j] == entries_of(n)[j],
{
    let now = with_value_at(n, i, x);
    if let (Js::Object(_, es), St::Field(k)) = (n, st) {
        named_entry_bounds(es, k, 0);
        named_entry_is(entries_of(now), k, 0, named_entry(es, k, 0));
    }
}

/// A single-member object as a fresh node.
proof fn fresh_single(k: Seq<char>, w: Val, json5: bool)
    ensures
        ({
            let n = fresh(Val::Object(seq![(k, w)]), json5);
            child(n, St::Field(k)) == Some(0int) && entries_of(n).len() == 1 && entries_of(
                n,
            )[0].value == fresh(w, json5)
        }),
{
    let m = seq![(k, w)];
    let n = fresh(Val::Object(m), json5);
    fresh_members_are(m, json5, 1);
    string_reads_back(k);
    let es = entries_of(n);
    assert(es == fresh_members(m, json5, 1));
    named_entry_is(es, k, 0, 0);
}

/// A single-member object as a laid-out node.
proof fn laid_single(k: Seq<char>, w: Val, base: Seq<char>, unit: Seq<char>, json5: bool, eol: Seq<char>)
    ensures
        ({
            let n = laid_out(Val::Object(seq![(k, w)]), base, unit, json5, eol);
            child(n, St::Field(k)) == Some(0int) && entries_of(n).len() == 1 && entries_of(
                n,
            )[0].value == laid_out(w, base + unit, unit, json5, eol)
        }),
{
    let m = seq![(k, w)];
    let n = laid_out(Val::Object(m), base, unit, json5, eol);
    laid_members_are(m, base, unit, json5, eol, 1);
    string_reads_back(k);
    let es = entries_of(n);
    assert(es == laid_members(m, base, unit, json5, eol, 1));
    named_entry_is(es, k, 0, 0);
}

/// Does the node hold the value at the path?
spec fn holds(n: Js, path: Seq<St>, v: Val) -> bool {
    js_at(n, path) is Some && js_val(js_at(n, path)->0) == v
}

proof fn fresh_nested(steps: Seq<St>, v: Val, json5: bool)
    requires
        nested(steps, v) is Ok,
        reads_alike(v, json5),
    ensures
        holds(fresh(nested(steps, v)->Ok_0, json5), steps, v),
    decreases steps.len(),
{
    if steps.len() == 0 {
        fresh_reads_back(v, json5);
    } else {
        let k = steps[0]->Field_0;
        fresh_nested(steps.drop_first(), v, json5);
        fresh_single(k, nested(steps.drop_first(), v)->Ok_0, json5);
    }
}

proof fn laid_nested(
    steps: Seq<St>,
    v: Val,
    base: Seq<char>,
    unit: Seq<char>,
    json5: bool,
    eol: Seq<char>,
)
    requires
        nested(steps, v) is Ok,
        reads_alike(v, json5),
    ensures
        holds(laid_out(nested(steps, v)->Ok_0, base, unit, json5, eol), steps, v),
    decreases steps.len(),
{
    if steps.len() == 0 {
        laid_out_reads_back(v, base, unit, json5, eol);
    } else {
        let k = steps[0]->Field_0;
        laid_nested(steps.drop_first(), v, base + unit, unit, json5, eol);
        laid_single(k, nested(steps.drop_first(), v)->Ok_0, base, unit, json5, eol);
    }
}

proof fn created_reads_back(n: Js, path: Seq<St>, v: Val, json5: bool, eol: Seq<char>)
    requires
        path.len() > 0,
        child(n, path[0]) is None,
        created(n, path, v, json5, eol) is Ok,
        reads_alike(v, json5),
    ensures
        holds(created(n, path, v, json5, eol)->Ok_0, path, v),
{
    let now = created(n, path, v, json5, eol)->Ok_0;
    let key = path[0]->Field_0;
    let rest = path.drop_first();
    let w = nested(rest, v)->Ok_0;
    let pre = n->Object_0;
    let es = n->Object_1;
    let inner = inner_text(pre, es);
    let node = member_node(inner, w, json5, eol);
    let new = seq![new_member(key, node)];
    appending_keeps(pre, es, new, eol);
    let all = appended(pre, es, new, eol).1;
    assert(entries_of(now) == all);
    named_entry_bounds(es, key, 0);
    string_reads_back(key);
    assert forall|k: int| 0 <= k < es.len() implies !((#[trigger] all[k]).key is Some && entry_name(
        all[k],
    ) == key) by {
        assert(same_entry(all[k], es[k]));
    }
    assert(same_entry(all[es.len() as int], new[0]));
    named_entry_is(all, key, 0, es.len() as int);
    if crate::json_spell::multi_line(inner) {
        laid_nested(
            rest,
            v,
            crate::json_spell::indent_from(inner, 0),
            crate::json_spell::indent_unit(inner),
            json5,
            eol,
        );
    } else {
        fresh_nested(rest, v, json5);
    }
}

/// What is written reads back: after a value is set at a path, that path holds
/// exactly that value.
pub proof fn set_reads_back(n: Js, path: Seq<St>, v: Val, json5: bool, eol: Seq<char>)
    requires
        js_set(n, path, v, json5, eol) is Ok,
        reads_alike(v, json5),
    ensures
        js_at(js_set(n, path, v, json5, eol)->Ok_0, path) is Some,
        js_val(js_at(js_set(n, path, v, json5, eol)->Ok_0, path)->0) == v,
    decreases path.len(),
{
    let now = js_set(n, path, v, json5, eol)->Ok_0;
    if path.len() == 0 {
        fresh_reads_back(v, json5);
        if let Val::Str(s) = v {
            single_string_reads_back(s);
        }
    } else {
        child_bounds(n, path[0]);
        match child(n, path[0]) {
            Some(i) => {
                let sub = entries_of(n)[i].value;
                set_reads_back(sub, path.drop_first(), v, json5, eol);
                steps_stay(
                    n,
                    i,
                    js_set(sub, path.drop_first(), v, json5, eol)->Ok_0,
                    path[0],
                );
            },
            None => {
                created_reads_back(n, path, v, json5, eol);
            },
        }
    }
}

/// Do two paths part ways inside the document: along them, is there a container
/// in which they lead to different entries?
pub open spec fn apart(n: Js, a: Seq<St>, b: Seq<St>) -> bool
    decreases a.len(),
{
    if a.len() == 0 || b.len() == 0 {
        false
    } else {
        match (child(n, a[0]), child(n, b[0])) {
            (Some(i), Some(j)) => i != j || apart(
                entries_of(n)[i].value,
                a.drop_first(),
                b.drop_first(),
            ),
            (None, Some(_)) => true,
            _ => false,
        }
    }
}

/// An edit leaves everything else as it was: the node at a path that parts ways
/// with the edited one stays the same, text and all.
pub proof fn set_leaves_the_rest(n: Js, path: Seq<St>, other: Seq<St>, v: Val, json5: bool, eol: Seq<char>)
    requires
        js_set(n, path, v, json5, eol) is Ok,
        apart(n, path, other),
    ensures
        js_at(js_set(n, path, v, json5, eol)->Ok_0, other) == js_at(n, other),
    decreases path.len(),
{
    let now = js_set(n, path, v, json5, eol)->Ok_0;
    child_bounds(n, path[0]);
    child_bounds(n, other[0]);
    let j = child(n, other[0])->0;
    match child(n, path[0]) {
        Some(i) => {
            let x = js_set(entries_of(n)[i].value, path.drop_first(), v, json5, eol)->Ok_0;
            steps_stay(n, i, x, other[0]);
            if i == j {
                set_leaves_the_rest(
                    entries_of(n)[i].value,
                    path.drop_first(),
                    other.drop_first(),
                    v,
                    json5,
                    eol,
                );
            } else {
                assert(entries_of(now)[j] == entries_of(n)[j]);
            }
        },
        None => {
            let pre = n->Object_0;
            let es = n->Object_1;
            let w = nested(path.drop_first(), v)->Ok_0;
            let new = seq![
                new_member(path[0]->Field_0, member_node(inner_text(pre, es), w, json5, eol)),
            ];
            appending_keeps(pre, es, new, eol);
            let all = appended(pre, es, new, eol).1;
            assert(entries_of(now) == all);
            let k = other[0]->Field_0;
            named_entry_bounds(es, k, 0);
            assert forall|m: int| 0 <= m < es.len() implies same_entry(
                #[trigger] all[m],
                es[m],
            ) by {}
            assert forall|m: int| 0 <= m < j implies !((#[trigger] all[m]).key is Some
                && entry_name(all[m]) == k) by {
                assert(same_entry(all[m], es[m]));
            }
            assert(same_entry(all[j], es[j]));
            named_entry_is(all, k, 0, j);
        },
    }
}

pub proof fn es_text_cut(es: Seq<En>, i: int)
    requires
        0 <= i <= es.len(),
    ensures
        es_text(es, es.len()) == es_text(es, i as nat) + es_text_from(es, i),
    decreases es.len() - i,
{
    if i < es.len() {
        es_text_cut(es, i + 1);
        assert(es_text(es, (i + 1) as nat) == es_text(es, i as nat) + en_text(es[i]));
        assert(es_text(es, es.len()) =~= es_text(es, i as nat) + es_text_from(es, i));
    } else {
        assert(es_text(es, es.len()) =~= es_text(es, i as nat) + es_text_from(es, i));
    }
}

proof fn regroup(
    o: Seq<char>,
    e: Seq<char>,
    k: Seq<char>,
    b: Seq<char>,
    x: Seq<char>,
    a: Seq<char>,
    c: Seq<char>,
    t: Seq<char>,
    f: Seq<char>,
    z: Seq<char>,
)
    ensures
        o + (e + (k + (b + x + a) + c + t + f)) + z == (o + e + k + b) + x + (a + c + t + f + z),
{
    assert(o + (e + (k + (b + x + a) + c + t + f)) + z =~= (o + e + k + b) + x + (a + c + t + f
        + z));
}

/// A container's text, cut around entry `i`.
pub proof fn container_text(n: Js, i: int)
    requires
        0 <= i < entries_of(n).len(),
    ensures
        js_text(n) == opening(n) + (es_text(entries_of(n), i as nat) + (key_source(
            entries_of(n)[i].key,
        ) + js_text(entries_of(n)[i].value) + comma_source(entries_of(n)[i].comma) + toks_text(
            entries_of(n)[i].after,
        ) + es_text_from(entries_of(n), i + 1))) + closing(n),
{
    let es = entries_of(n);
    es_text_cut(es, i);
    assert(es_text_from(es, i) == en_text(es[i]) + es_text_from(es, i + 1));
    assert(en_text(es[i]) == key_source(es[i].key) + js_text(es[i].value) + comma_source(
        es[i].comma,
    ) + toks_text(es[i].after));
}

/// A document is the text in front of a node, the node's text, and the text
/// behind it.
pub proof fn text_around(n: Js, path: Seq<St>)
    requires
        js_at(n, path) is Some,
    ensures
        js_text(n) == text_before(n, path) + js_text(js_at(n, path)->0) + text_behind(n, path),
    decreases path.len(),
{
    if path.len() == 0 {
        assert(js_text(n) =~= text_before(n, path) + js_text(js_at(n, path)->0) + text_behind(
            n,
            path,
        ));
    } else {
        child_bounds(n, path[0]);
        let i = child(n, path[0])->0;
        let es = entries_of(n);
        let rest = path.drop_first();
        text_around(es[i].value, rest);
        container_text(n, i);
        regroup(
            opening(n),
            es_text(es, i as nat),
            key_source(es[i].key),
            text_before(es[i].value, rest),
            js_text(js_at(n, path)->0),
            text_behind(es[i].value, rest),
            comma_source(es[i].comma),
            toks_text(es[i].after),
            es_text_from(es, i + 1),
            closing(n),
        );
    }
}

proof fn es_text_from_same(a: Seq<En>, b: Seq<En>, i: int)
    requires
        a.len() == b.len(),
        0 <= i,
        forall|k: int| i <= k < a.len() ==> a[k] == b[k],
    ensures
        es_text_from(a, i) == es_text_from(b, i),
    decreases a.len() - i,
{
    if i < a.len() {
        es_text_from_same(a, b, i + 1);
    }
}

/// Setting a value that is there changes the text of that value and no other
/// character of the document.
pub proof fn set_is_a_splice(n: Js, path: Seq<St>, v: Val, json5: bool, eol: Seq<char>)
    requires
        js_at(n, path) is Some,
        js_set(n, path, v, json5, eol) is Ok,
    ensures
        js_text(js_set(n, path, v, json5, eol)->Ok_0) == text_before(n, path) + js_text(
            replacement(js_at(n, path)->0, v, json5),
        ) + text_behind(n, path),
    decreases path.len(),
{
    let now = js_set(n, path, v, json5, eol)->Ok_0;
    if path.len() == 0 {
        assert(js_text(now) =~= text_before(n, path) + js_text(
            replacement(js_at(n, path)->0, v, json5),
        ) + text_behind(n, path));
    } else {
        child_bounds(n, path[0]);
        let i = child(n, path[0])->0;
        let es = entries_of(n);
        let rest = path.drop_first();
        set_is_a_splice(es[i].value, rest, v, json5, eol);
        let x = js_set(es[i].value, rest, v, json5, eol)->Ok_0;
        let all = es.update(i, En { value: x, ..es[i] });
        assert(entries_of(now) == all);
        es_text_prefix(all, es, i as nat);
        es_text_from_same(all, es, i + 1);
        container_text(now, i);
        regroup(
            opening(n),
            es_text(es, i as nat),
            key_source(es[i].key),
            text_before(es[i].value, rest),
            js_text(replacement(js_at(n, path)->0, v, json5)),
            text_behind(es[i].value, rest),
            comma_source(es[i].comma),
            toks_text(es[i].after),
            es_text_from(es, i + 1),
            closing(n),
        );
    }
}

} // verus!
