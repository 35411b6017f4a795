//! What is written as JSON parses back as the value it was written for.
use crate::convert::{comma, pretty_elements, pretty_members, pretty_text};
use crate::float::{small_integer, Facts};
use crate::json_grow_laws::{ending, laid_good, space_run, spaces};
use crate::json_laws::{laid_out_reads_back, reads_alike, toks_none, toks_one};
use crate::json_lexer::{Jt, Tok};
use crate::json_nodes::{js_val, number_kind, number_val};
use crate::json_relex::self_lexed;
use crate::json_set_laws::{fresh_good, numbers_good};
use crate::json_spell::{
    fresh, fresh_items, fresh_members, laid_items, laid_members, laid_out, line_space, space,
};
use crate::json_text_laws::{doc_good, good_text_parses_back, run_ok};
use crate::json_tree::{comma_source, en_text, es_text, js_text, key_source, toks_text, En};
use crate::jsonc::{jsonc_parsed, jsonc_source, JsoncDoc};
use crate::model::Val;
use crate::seqs::joined;
use crate::value::{json_items, json_members, json_string, json_text};
use vstd::prelude::*;
use vstd::string::*;

verus! {

/// Has every number of the value a text that reads as it? An integer has, but for the
/// least one; a double has whose text is a number with a fraction or an exponent that
/// the facts know to be that double.
pub open spec fn numbers_read(v: Val, fx: Facts) -> bool
    decreases v,
{
    match v {
        Val::Int(i) => i != i64::MIN,
        Val::Float(f) => small_integer(f.bits) is None && self_lexed(
            Jt { kind: Tok::Num, text: f.text },
        ) && number_kind(f.text) is Lookup && number_val(f.text, fx) == Ok::<
            Val,
            crate::float::Need,
        >(v),
        Val::Array(a) => forall|i: int| 0 <= i < a.len() ==> numbers_read(#[trigger] a[i], fx),
        Val::Object(m) => forall|i: int| 0 <= i < m.len() ==> numbers_read((#[trigger] m[i]).1, fx),
        _ => true,
    }
}

pub proof fn numbers_fit(v: Val, fx: Facts)
    requires
        numbers_read(v, fx),
    ensures
        numbers_good(v, false, fx),
        reads_alike(v, false),
    decreases v,
{
    match v {
        Val::Array(a) => {
            assert forall|i: int| 0 <= i < a.len() implies numbers_good(#[trigger] a[i], false, fx)
                && reads_alike(a[i], false) by {
                numbers_fit(a[i], fx);
            }
        },
        Val::Object(m) => {
            assert forall|i: int| 0 <= i < m.len() implies numbers_good(
                (#[trigger] m[i]).1,
                false,
                fx,
            ) && reads_alike(m[i].1, false) by {
                numbers_fit(m[i].1, fx);
            }
        },
        _ => {},
    }
}

proof fn line_text(indent: Seq<char>)
    ensures
        toks_text(line_space("\n"@, indent)) == seq!['\n'] + indent,
{
    reveal_strlit("\n");
    let t = "\n"@ + indent;
    assert(t =~= seq!['\n'] + indent);
    assert(line_space("\n"@, indent) == seq![Jt { kind: Tok::Ws, text: t }]);
    toks_one(Jt { kind: Tok::Ws, text: t });
}

pub proof fn comma_text(n: nat, len: nat)
    ensures
        comma_source(crate::json_spell::comma_after(n, len)) == comma(n as int, len as int),
{
    toks_none();
    assert(comma_source(Some(Seq::<Jt>::empty())) =~= seq![',']);
}

/// The printed elements are those of the laid-out array, a line break further on.
proof fn elements_printed(a: Seq<Val>, base: Seq<char>, n: nat)
    requires
        n <= a.len(),
    ensures
        ({
            let deep = base + "  "@;
            let t = es_text(laid_items(a, base, "  "@, false, "\n"@, n), n);
            &&& laid_items(a, base, "  "@, false, "\n"@, n).len() == n
            &&& pretty_elements(a, deep, n) + (if n < a.len() || n == 0 {
                deep
            } else {
                base
            }) == (if n == 0 {
                deep
            } else {
                deep + t
            })
        }),
    decreases a, 1int, n,
{
    let deep = base + "  "@;
    let es = laid_items(a, base, "  "@, false, "\n"@, n);
    if n > 0 {
        elements_printed(a, base, (n - 1) as nat);
        let init = laid_items(a, base, "  "@, false, "\n"@, (n - 1) as nat);
        value_printed(a[n - 1], deep);
        comma_text(n, a.len());
        line_text(deep);
        line_text(base);
        let e = es[n - 1];
        assert(es =~= init.push(e));
        crate::json_laws::es_text_prefix(es, init, (n - 1) as nat);
        let ind = if n < a.len() {
            deep
        } else {
            base
        };
        assert(en_text(e) =~= pretty_text(a[n - 1], deep) + comma(n as int, a.len() as int)
            + seq!['\n'] + ind);
        let t0 = es_text(init, (n - 1) as nat);
        assert(es_text(es, n) == t0 + en_text(e));
        if n == 1 {
            assert(t0 =~= Seq::<char>::empty());
            assert(pretty_elements(a, deep, 0) =~= Seq::<char>::empty());
            assert(pretty_elements(a, deep, 1) + ind =~= deep + es_text(es, 1));
        } else {
            assert(pretty_elements(a, deep, n) + ind =~= (pretty_elements(a, deep, (n - 1) as nat)
                + deep) + en_text(e));
            assert(deep + t0 + en_text(e) =~= deep + es_text(es, n));
        }
    } else {
        assert(pretty_elements(a, deep, 0) + deep =~= deep);
    }
}

/// The printed members are those of the laid-out object, a line break further on.
proof fn members_printed(m: Seq<(Seq<char>, Val)>, base: Seq<char>, n: nat)
    requires
        n <= m.len(),
    ensures
        ({
            let deep = base + "  "@;
            let t = es_text(laid_members(m, base, "  "@, false, "\n"@, n), n);
            &&& laid_members(m, base, "  "@, false, "\n"@, n).len() == n
            &&& pretty_members(m, deep, n) + (if n < m.len() || n == 0 {
                deep
            } else {
                base
            }) == (if n == 0 {
                deep
            } else {
                deep + t
            })
        }),
    decreases m, 1int, n,
{
    let deep = base + "  "@;
    let es = laid_members(m, base, "  "@, false, "\n"@, n);
    if n > 0 {
        members_printed(m, base, (n - 1) as nat);
        let init = laid_members(m, base, "  "@, false, "\n"@, (n - 1) as nat);
        value_printed(m[n - 1].1, deep);
        comma_text(n, m.len());
        line_text(deep);
        line_text(base);
        let e = es[n - 1];
        assert(es =~= init.push(e));
        crate::json_laws::es_text_prefix(es, init, (n - 1) as nat);
        let ind = if n < m.len() {
            deep
        } else {
            base
        };
        reveal_strlit(" ");
        reveal_strlit(": ");
        toks_none();
        toks_one(Jt { kind: Tok::Ws, text: " "@ });
        assert(space(" "@) == seq![Jt { kind: Tok::Ws, text: " "@ }]);
        assert(key_source(e.key) =~= json_string(m[n - 1].0) + ": "@);
        assert(en_text(e) =~= json_string(m[n - 1].0) + ": "@ + pretty_text(m[n - 1].1, deep)
            + comma(n as int, m.len() as int) + seq!['\n'] + ind);
        let t0 = es_text(init, (n - 1) as nat);
        assert(es_text(es, n) == t0 + en_text(e));
        if n == 1 {
            assert(t0 =~= Seq::<char>::empty());
            assert(pretty_members(m, deep, 0) =~= Seq::<char>::empty());
            assert(pretty_members(m, deep, 1) + ind =~= deep + es_text(es, 1));
        } else {
            assert(pretty_members(m, deep, n) + ind =~= (pretty_members(m, deep, (n - 1) as nat)
                + deep) + en_text(e));
            assert(deep + t0 + en_text(e) =~= deep + es_text(es, n));
        }
    } else {
        assert(pretty_members(m, deep, 0) + deep =~= deep);
    }
}

/// The printed value is the text of the laid-out one.
pub proof fn value_printed(v: Val, base: Seq<char>)
    ensures
        js_text(laid_out(v, base, "  "@, false, "\n"@)) == pretty_text(v, base),
    decreases v, 2int, 0nat,
{
    let deep = base + "  "@;
    reveal_strlit("{}");
    reveal_strlit("[]");
    reveal_strlit("{\n");
    reveal_strlit("[\n");
    toks_none();
    match v {
        Val::Array(a) => if a.len() == 0 {
            assert(es_text(Seq::<En>::empty(), 0) =~= Seq::<char>::empty());
            assert(js_text(fresh(v, false)) =~= "[]"@);
        } else {
            elements_printed(a, base, a.len());
            line_text(deep);
            let es = laid_items(a, base, "  "@, false, "\n"@, a.len());
            assert(js_text(laid_out(v, base, "  "@, false, "\n"@)) =~= seq!['[', '\n'] + (deep
                + es_text(es, a.len())) + seq![']']);
            assert(pretty_text(v, base) =~= seq!['[', '\n'] + (pretty_elements(a, deep, a.len())
                + base) + seq![']']);
        },
        Val::Object(m) => if m.len() == 0 {
            assert(es_text(Seq::<En>::empty(), 0) =~= Seq::<char>::empty());
            assert(js_text(fresh(v, false)) =~= "{}"@);
        } else {
            members_printed(m, base, m.len());
            line_text(deep);
            let es = laid_members(m, base, "  "@, false, "\n"@, m.len());
            assert(js_text(laid_out(v, base, "  "@, false, "\n"@)) =~= seq!['{', '\n'] + (deep
                + es_text(es, m.len())) + seq!['}']);
            assert(pretty_text(v, base) =~= seq!['{', '\n'] + (pretty_members(m, deep, m.len())
                + base) + seq!['}']);
        },
        _ => {},
    }
}

/// What is printed as JSON, over many lines, is JSON and parses back as the value.
pub proof fn pretty_json_parses_back(v: Val, fx: Facts)
    requires
        numbers_read(v, fx),
    ensures
        ({
            let back = jsonc_parsed(pretty_text(v, ""@).push('\n'), fx);
            back is Ok && js_val(back->Ok_0.value) == v
        }),
{
    reveal_strlit("");
    reveal_strlit("  ");
    reveal_strlit("\n");
    numbers_fit(v, fx);
    assert(spaces(""@) && spaces("  "@) && spaces("\n"@));
    assert(ending("\n"@));
    laid_good(v, ""@, "  "@, false, "\n"@, fx);
    laid_out_reads_back(v, ""@, "  "@, false, "\n"@);
    value_printed(v, ""@);
    space_run("\n"@);
    toks_none();
    let d = JsoncDoc {
        head: Seq::empty(),
        value: laid_out(v, ""@, "  "@, false, "\n"@),
        tail: space("\n"@),
        json5: false,
        bom: false,
    };
    assert(run_ok(d.head));
    assert(doc_good(d, fx));
    good_text_parses_back(d, fx);
    assert(jsonc_source(d) =~= pretty_text(v, ""@).push('\n'));
}

proof fn joined_entries(es: Seq<En>, parts: Seq<Seq<char>>, n: nat)
    requires
        n <= es.len(),
        es.len() == parts.len(),
        forall|i: int|
            0 <= i < es.len() ==> en_text(#[trigger] es[i]) == parts[i] + comma(
                i + 1,
                es.len() as int,
            ),
    ensures
        es_text(es, n) == joined(parts.take(n as int), seq![',']) + (if 0 < n < es.len() {
            seq![',']
        } else {
            Seq::empty()
        }),
    decreases n,
{
    if n == 0 {
        assert(parts.take(0) =~= Seq::<Seq<char>>::empty());
        assert(es_text(es, 0) =~= joined(parts.take(0), seq![',']) + Seq::<char>::empty());
    } else {
        joined_entries(es, parts, (n - 1) as nat);
        crate::seqs::joined_step(parts, seq![','], n - 1);
        assert(en_text(es[n - 1]) == parts[n - 1] + comma(n as int, es.len() as int));
        let tail = if n < es.len() {
            seq![',']
        } else {
            Seq::<char>::empty()
        };
        assert(es_text(es, n) =~= joined(parts.take(n as int), seq![',']) + tail);
    }
}

/// The compact text of a value is that of the fresh node.
pub proof fn compact_printed(v: Val)
    ensures
        js_text(fresh(v, false)) == json_text(v),
    decreases v,
{
    toks_none();
    match v {
        Val::Array(a) => {
            let es = fresh_items(a, false, a.len());
            let parts = json_items(a);
            items_shaped(a, a.len());
            assert forall|i: int| 0 <= i < es.len() implies en_text(#[trigger] es[i]) == parts[i]
                + comma(i + 1, es.len() as int) by {
                compact_printed(a[i]);
                comma_text((i + 1) as nat, a.len());
                assert(es[i].value == fresh(a[i], false));
                assert(en_text(es[i]) =~= parts[i] + comma(i + 1, es.len() as int));
            }
            joined_entries(es, parts, es.len());
            assert(parts.take(es.len() as int) =~= parts);
            assert(js_text(fresh(v, false)) =~= json_text(v));
        },
        Val::Object(m) => {
            let es = fresh_members(m, false, m.len());
            let parts = json_members(m);
            members_shaped(m, m.len());
            assert forall|i: int| 0 <= i < es.len() implies en_text(#[trigger] es[i]) == parts[i]
                + comma(i + 1, es.len() as int) by {
                compact_printed(m[i].1);
                comma_text((i + 1) as nat, m.len());
                assert(es[i].value == fresh(m[i].1, false));
                assert(key_source(es[i].key) =~= json_string(m[i].0) + seq![':']);
                assert(en_text(es[i]) =~= parts[i] + comma(i + 1, es.len() as int));
            }
            joined_entries(es, parts, es.len());
            assert(parts.take(es.len() as int) =~= parts);
            assert(js_text(fresh(v, false)) =~= json_text(v));
        },
        _ => {},
    }
}

proof fn items_shaped(a: Seq<Val>, n: nat)
    requires
        n <= a.len(),
    ensures
        fresh_items(a, false, n).len() == n,
        forall|i: int|
            0 <= i < n ==> #[trigger] fresh_items(a, false, n)[i] == (En {
                key: None,
                value: fresh(a[i], false),
                comma: crate::json_spell::comma_after((i + 1) as nat, a.len()),
                after: Seq::empty(),
            }),
    decreases n,
{
    if n > 0 {
        items_shaped(a, (n - 1) as nat);
    }
}

proof fn members_shaped(m: Seq<(Seq<char>, Val)>, n: nat)
    requires
        n <= m.len(),
    ensures
        fresh_members(m, false, n).len() == n,
        forall|i: int|
            0 <= i < n ==> #[trigger] fresh_members(m, false, n)[i] == (En {
                key: Some(crate::json_spell::fresh_key(m[i].0, Seq::empty())),
                value: fresh(m[i].1, false),
                comma: crate::json_spell::comma_after((i + 1) as nat, m.len()),
                after: Seq::empty(),
            }),
    decreases n,
{
    if n > 0 {
        members_shaped(m, (n - 1) as nat);
    }
}

/// The compact JSON of a value, which is what a query prints, parses back as the value.
pub proof fn compact_json_parses_back(v: Val, fx: Facts)
    requires
        numbers_read(v, fx),
    ensures
        ({
            let back = jsonc_parsed(json_text(v), fx);
            back is Ok && js_val(back->Ok_0.value) == v
        }),
{
    numbers_fit(v, fx);
    fresh_good(v, false, fx);
    crate::json_laws::fresh_reads_back(v, false);
    compact_printed(v);
    toks_none();
    let d = JsoncDoc {
        head: Seq::empty(),
        value: fresh(v, false),
        tail: Seq::empty(),
        json5: false,
        bom: false,
    };
    assert(run_ok(d.head));
    assert(doc_good(d, fx));
    good_text_parses_back(d, fx);
    assert(jsonc_source(d) =~= json_text(v));
}

} // verus!
