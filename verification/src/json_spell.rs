//! Fresh nodes for a JSONC tree: how a value is spelled, and how a new entry is
//! laid out to match the container it goes into.
use crate::convert::{contains_non_finite, holds_non_finite};
use crate::error::{fail, EditError, Er};
use crate::float::{double_of, finite, float_text, format_float, is_finite, is_nan, is_negative, nan, nearest_double, Float, Flt};
use crate::json_lexer::{eol_at, jts, Jt, Tok, Token};
use crate::json_nodes::{number_kind, read_number, NumKind, NumText};
use crate::json_tree::{ens, group_json_views, En, Entry, Js, Json, MemberKey, Ky, Literal, Lt};
use crate::model::{group_value_views, members, vals, Val, Value};
use crate::rows::{white_back, white_from};
use crate::strs::{chars_of, int_digits, int_text, slice_text};
use crate::value::{json_char, json_string, write_json_string};
use vstd::prelude::*;

verus! {

broadcast use {group_value_views, group_json_views};

/// No tokens.
pub open spec fn no_tokens() -> Seq<Jt> {
    Seq::empty()
}

/// Whitespace, if there is any.
pub open spec fn space(text: Seq<char>) -> Seq<Jt> {
    if text.len() == 0 {
        Seq::empty()
    } else {
        seq![Jt { kind: Tok::Ws, text }]
    }
}

/// Whitespace, if there is any.
pub fn space_tokens(text: &str) -> (r: Vec<Token>)
    ensures
        jts(r@) == space(text@),
{
    let mut r: Vec<Token> = Vec::new();
    if text.unicode_len() > 0 {
        r.push(Token { kind: Tok::Ws, text: text.to_owned() });
    }
    assert(jts(r@) =~= space(text@));
    r
}

/// No tokens.
pub fn nothing() -> (r: Vec<Token>)
    ensures
        jts(r@) == no_tokens(),
{
    let r: Vec<Token> = Vec::new();
    assert(jts(r@) =~= no_tokens());
    r
}

/// A literal that is no number.
pub open spec fn word_js(kind: Tok, text: Seq<char>) -> Js {
    Js::Scalar(Lt { token: Jt { kind, text }, num: None })
}

fn word(kind: Tok, text: String) -> (r: Json)
    ensures
        r@ == word_js(kind, text@),
{
    Json::Scalar(Literal { token: Token { kind, text }, num: None })
}

/// A number with the text `t`, which reads back as `own` where only a double can
/// hold it.
pub open spec fn num_js(t: Seq<char>, own: Flt) -> Js {
    Js::Scalar(
        Lt {
            token: Jt { kind: Tok::Num, text: t },
            num: Some(
                match number_kind(t) {
                    NumKind::Known(v) => v,
                    NumKind::Lookup(_, _) => Val::Float(own),
                },
            ),
        },
    )
}

fn num(t: String, own: Float) -> (r: Json)
    ensures
        r@ == num_js(t@, own@),
{
    let v = match read_number(&t) {
        NumText::Known(v) => v,
        NumText::Lookup(_, _) => Value::Float(own),
    };
    Json::Scalar(Literal { token: Token { kind: Tok::Num, text: t }, num: Some(v) })
}

/// An integer as the double nearest to it.
pub open spec fn int_double(i: i64) -> Flt {
    Flt { bits: nearest_double(i), text: int_digits(i as int) }
}

/// A double as JSON5 spells it: the non-finite ones have literals there.
pub open spec fn float5_text(f: Flt) -> Seq<char> {
    if is_nan(f.bits) {
        "NaN"@
    } else if is_finite(f.bits) {
        float_text(f)
    } else if is_negative(f.bits) {
        "-Infinity"@
    } else {
        "Infinity"@
    }
}

/// A double as a document spells it.
pub open spec fn spelled_float(f: Flt, json5: bool) -> Seq<char> {
    if json5 {
        float5_text(f)
    } else {
        float_text(f)
    }
}

/// A double as JSON5 spells it.
pub fn format_float5(f: &Float) -> (r: String)
    ensures
        r@ == float5_text(f@),
{
    if nan(f.bits) {
        "NaN".to_owned()
    } else if finite(f.bits) {
        format_float(f)
    } else if f.bits >= 0x8000_0000_0000_0000 {
        "-Infinity".to_owned()
    } else {
        "Infinity".to_owned()
    }
}

/// The comma behind entry `n` (counted from one) of `len`.
pub open spec fn comma_after(n: nat, len: nat) -> Option<Seq<Jt>> {
    if n < len {
        Some(no_tokens())
    } else {
        None
    }
}

fn comma(more: bool) -> (r: Option<Vec<Token>>)
    ensures
        crate::json_tree::opt_comma(r) == (if more {
            Some(no_tokens())
        } else {
            None
        }),
{
    if more {
        Some(nothing())
    } else {
        None
    }
}

/// The key of a fresh member, with the trivia behind its colon.
pub open spec fn fresh_key(k: Seq<char>, lead: Seq<Jt>) -> Ky {
    Ky { token: Jt { kind: Tok::Str, text: json_string(k) }, gap: no_tokens(), lead }
}

fn quoted(s: &str) -> (r: String)
    ensures
        r@ == json_string(s@),
{
    let mut out = String::new();
    write_json_string(s, &mut out);
    assert(out@ =~= json_string(s@));
    out
}

/// The key of a fresh member.
pub fn new_key(k: &str, lead: Vec<Token>) -> (r: MemberKey)
    ensures
        r@ == fresh_key(k@, jts(lead@)),
{
    MemberKey { token: Token { kind: Tok::Str, text: quoted(k) }, gap: nothing(), lead }
}

/// A value as a fresh node, spelled compactly.
pub open spec fn fresh(v: Val, json5: bool) -> Js
    decreases v, 0int, 0int,
{
    match v {
        Val::Null => word_js(Tok::Null, "null"@),
        Val::Bool(b) => if b {
            word_js(Tok::True, "true"@)
        } else {
            word_js(Tok::False, "false"@)
        },
        Val::Int(i) => num_js(int_digits(i as int), int_double(i)),
        Val::Float(f) => num_js(spelled_float(f, json5), f),
        Val::Str(s) => word_js(Tok::Str, json_string(s)),
        Val::Array(a) => Js::Array(no_tokens(), fresh_items(a, json5, a.len())),
        Val::Object(m) => Js::Object(no_tokens(), fresh_members(m, json5, m.len())),
    }
}

/// The first `n` elements as fresh entries.
pub open spec fn fresh_items(a: Seq<Val>, json5: bool, n: nat) -> Seq<En>
    decreases a, 1int, n,
{
    if n == 0 || n > a.len() {
        Seq::empty()
    } else {
        fresh_items(a, json5, (n - 1) as nat).push(
            En {
                key: None,
                value: fresh(a[n - 1], json5),
                comma: comma_after(n, a.len()),
                after: no_tokens(),
            },
        )
    }
}

/// The first `n` members as fresh entries.
pub open spec fn fresh_members(m: Seq<(Seq<char>, Val)>, json5: bool, n: nat) -> Seq<En>
    decreases m, 1int, n,
{
    if n == 0 || n > m.len() {
        Seq::empty()
    } else {
        fresh_members(m, json5, (n - 1) as nat).push(
            En {
                key: Some(fresh_key(m[n - 1].0, no_tokens())),
                value: fresh(m[n - 1].1, json5),
                comma: comma_after(n, m.len()),
                after: no_tokens(),
            },
        )
    }
}

/// A value as a fresh node, spelled compactly.
#[verifier::loop_isolation(false)]
pub fn fresh_node(v: &Value, json5: bool) -> (r: Json)
    ensures
        r@ == fresh(v@, json5),
    decreases v,
{
    match v {
        Value::Null => word(Tok::Null, "null".to_owned()),
        Value::Bool(b) => if *b {
            word(Tok::True, "true".to_owned())
        } else {
            word(Tok::False, "false".to_owned())
        },
        Value::Int(i) => num(
            int_text(*i),
            Float { bits: double_of(*i), text: int_text(*i) },
        ),
        Value::Float(f) => {
            let t = if json5 {
                format_float5(f)
            } else {
                format_float(f)
            };
            num(t, f.clone())
        },
        Value::Str(s) => word(Tok::Str, quoted(s)),
        Value::Array(a) => {
            let ghost all = vals(a@);
            let mut es: Vec<Entry> = Vec::new();
            assert(ens(es@) =~= Seq::<En>::empty());
            let mut i: usize = 0;
            while i < a.len()
                invariant
                    i <= a.len(),
                    ens(es@) == fresh_items(all, json5, i as nat),
                decreases a.len() - i,
            {
                assert(all[i as int] == a@[i as int]@);
                let value = fresh_node(&a[i], json5);
                let e = Entry { key: None, value, comma: comma(i + 1 < a.len()), after: nothing() };
                es.push(e);
                i = i + 1;
            }
            Json::Array(nothing(), es)
        },
        Value::Object(m) => {
            let ghost all = members(m@);
            let mut es: Vec<Entry> = Vec::new();
            assert(ens(es@) =~= Seq::<En>::empty());
            let mut i: usize = 0;
            while i < m.len()
                invariant
                    i <= m.len(),
                    ens(es@) == fresh_members(all, json5, i as nat),
                decreases m.len() - i,
            {
                assert(all[i as int] == (m@[i as int].0@, m@[i as int].1@));
                let value = fresh_node(&m[i].1, json5);
                let e = Entry {
                    key: Some(new_key(&m[i].0, nothing())),
                    value,
                    comma: comma(i + 1 < m.len()),
                    after: nothing(),
                };
                es.push(e);
                i = i + 1;
            }
            Json::Object(nothing(), es)
        },
    }
}

/// The line break in front of an entry at an indentation.
pub open spec fn line_space(eol: Seq<char>, indent: Seq<char>) -> Seq<Jt> {
    space(eol + indent)
}

/// The line break in front of an entry at an indentation.
pub fn line_tokens(eol: &str, indent: &str) -> (r: Vec<Token>)
    ensures
        jts(r@) == line_space(eol@, indent@),
{
    let mut t = eol.to_owned();
    t.append(indent);
    space_tokens(&t)
}

/// What follows entry `n` (counted from one) of `len` of a laid-out container.
pub open spec fn line_after(n: nat, len: nat, eol: Seq<char>, inner: Seq<char>, base: Seq<char>) -> Seq<Jt> {
    if n < len {
        line_space(eol, inner)
    } else {
        line_space(eol, base)
    }
}

/// A value as a fresh node laid out at `base`, one level being `unit`. Scalars
/// and empty containers are spelled as compactly as ever; only composites gain
/// the line breaks.
pub open spec fn laid_out(v: Val, base: Seq<char>, unit: Seq<char>, json5: bool, eol: Seq<char>) -> Js
    decreases v, 0int, 0int,
{
    match v {
        Val::Array(a) => if a.len() == 0 {
            fresh(v, json5)
        } else {
            Js::Array(
                line_space(eol, base + unit),
                laid_items(a, base, unit, json5, eol, a.len()),
            )
        },
        Val::Object(m) => if m.len() == 0 {
            fresh(v, json5)
        } else {
            Js::Object(
                line_space(eol, base + unit),
                laid_members(m, base, unit, json5, eol, m.len()),
            )
        },
        _ => fresh(v, json5),
    }
}

pub open spec fn laid_items(
    a: Seq<Val>,
    base: Seq<char>,
    unit: Seq<char>,
    json5: bool,
    eol: Seq<char>,
    n: nat,
) -> Seq<En>
    decreases a, 1int, n,
{
    if n == 0 || n > a.len() {
        Seq::empty()
    } else {
        laid_items(a, base, unit, json5, eol, (n - 1) as nat).push(
            En {
                key: None,
                value: laid_out(a[n - 1], base + unit, unit, json5, eol),
                comma: comma_after(n, a.len()),
                after: line_after(n, a.len(), eol, base + unit, base),
            },
        )
    }
}

pub open spec fn laid_members(
    m: Seq<(Seq<char>, Val)>,
    base: Seq<char>,
    unit: Seq<char>,
    json5: bool,
    eol: Seq<char>,
    n: nat,
) -> Seq<En>
    decreases m, 1int, n,
{
    if n == 0 || n > m.len() {
        Seq::empty()
    } else {
        laid_members(m, base, unit, json5, eol, (n - 1) as nat).push(
            En {
                key: Some(fresh_key(m[n - 1].0, space(" "@))),
                value: laid_out(m[n - 1].1, base + unit, unit, json5, eol),
                comma: comma_after(n, m.len()),
                after: line_after(n, m.len(), eol, base + unit, base),
            },
        )
    }
}

/// A value as a fresh node laid out at `base`, one level being `unit`.
#[verifier::loop_isolation(false)]
pub fn lay_out(v: &Value, base: &str, unit: &str, json5: bool, eol: &str) -> (r: Json)
    ensures
        r@ == laid_out(v@, base@, unit@, json5, eol@),
    decreases v,
{
    let inner = crate::strs::cat(base, unit);
    match v {
        Value::Array(a) => {
            if a.len() == 0 {
                return fresh_node(v, json5);
            }
            let ghost all = vals(a@);
            let mut es: Vec<Entry> = Vec::new();
            assert(ens(es@) =~= Seq::<En>::empty());
            let mut i: usize = 0;
            while i < a.len()
                invariant
                    i <= a.len(),
                    ens(es@) == laid_items(all, base@, unit@, json5, eol@, i as nat),
                decreases a.len() - i,
            {
                assert(all[i as int] == a@[i as int]@);
                let value = lay_out(&a[i], &inner, unit, json5, eol);
                let more = i + 1 < a.len();
                let after = if more {
                    line_tokens(eol, &inner)
                } else {
                    line_tokens(eol, base)
                };
                es.push(Entry { key: None, value, comma: comma(more), after });
                i = i + 1;
            }
            Json::Array(line_tokens(eol, &inner), es)
        },
        Value::Object(m) => {
            if m.len() == 0 {
                return fresh_node(v, json5);
            }
            let ghost all = members(m@);
            let mut es: Vec<Entry> = Vec::new();
            assert(ens(es@) =~= Seq::<En>::empty());
            let mut i: usize = 0;
            while i < m.len()
                invariant
                    i <= m.len(),
                    ens(es@) == laid_members(all, base@, unit@, json5, eol@, i as nat),
                decreases m.len() - i,
            {
                assert(all[i as int] == (m@[i as int].0@, m@[i as int].1@));
                let value = lay_out(&m[i].1, &inner, unit, json5, eol);
                let more = i + 1 < m.len();
                let after = if more {
                    line_tokens(eol, &inner)
                } else {
                    line_tokens(eol, base)
                };
                let key = new_key(&m[i].0, space_tokens(" "));
                es.push(Entry { key: Some(key), value, comma: comma(more), after });
                i = i + 1;
            }
            Json::Object(line_tokens(eol, &inner), es)
        },
        _ => fresh_node(v, json5),
    }
}

/// A character as it stands in a single-quoted JSON5 string.
pub open spec fn single_char(c: char) -> Seq<char> {
    if c == '\'' {
        seq!['\\', '\'']
    } else if c == '"' {
        seq!['"']
    } else {
        json_char(c)
    }
}

/// The characters of a single-quoted string between its quotes.
pub open spec fn single_body(s: Seq<char>) -> Seq<char>
    decreases s.len(),
{
    if s.len() == 0 {
        Seq::empty()
    } else {
        single_body(s.drop_last()) + single_char(s.last())
    }
}

/// A string as a single-quoted JSON5 string literal.
pub open spec fn single_string(s: Seq<char>) -> Seq<char> {
    seq!['\''] + single_body(s) + seq!['\'']
}

fn single_quoted(s: &str) -> (r: String)
    ensures
        r@ == single_string(s@),
{
    let cs = chars_of(s);
    let mut out = "'".to_owned();
    proof {
        reveal_strlit("'");
    }
    assert(cs@.take(0) =~= Seq::<char>::empty());
    assert(out@ =~= seq!['\''] + single_body(cs@.take(0)));
    let mut i: usize = 0;
    while i < cs.len()
        invariant
            i <= cs.len(),
            out@ == seq!['\''] + single_body(cs@.take(i as int)),
        decreases cs.len() - i,
    {
        let ghost held = out@;
        let c = cs[i];
        assert(cs@.take(i + 1).drop_last() =~= cs@.take(i as int));
        assert(cs@.take(i + 1).last() == c);
        if c == '\'' {
            out.push('\\');
            out.push('\'');
        } else if c == '"' {
            out.push('"');
        } else {
            crate::value::write_json_char(c, &mut out);
        }
        assert(out@ =~= seq!['\''] + single_body(cs@.take(i + 1)));
        i = i + 1;
    }
    assert(cs@.take(i as int) =~= cs@);
    out.push('\'');
    assert(out@ =~= single_string(s@));
    out
}

/// The refusal to write a non-finite number into strict JSON, which has no
/// literal for it.
pub open spec fn writable(v: Val, json5: bool) -> Result<(), Er> {
    if !json5 && holds_non_finite(v) {
        Err(
            fail(
                "cannot write Infinity/NaN here: this document is strict JSON, which has no literal for it; use `Infinity` only in a JSON5 document (unquoted keys, single quotes, or a non-finite literal already present)"@,
            ),
        )
    } else {
        Ok(())
    }
}

/// Refuse to write a non-finite number into strict JSON.
pub fn check_writable(v: &Value, json5: bool) -> (r: Result<(), EditError>)
    ensures
        crate::mutate::done(r) == writable(v@, json5),
{
    if !json5 && contains_non_finite(v) {
        Err(
            EditError::new(
                "cannot write Infinity/NaN here: this document is strict JSON, which has no literal for it; use `Infinity` only in a JSON5 document (unquoted keys, single quotes, or a non-finite literal already present)",
            ),
        )
    } else {
        Ok(())
    }
}

/// The node that takes the place of `old`: a string keeps the quotes it had.
pub open spec fn replacement(old: Js, v: Val, json5: bool) -> Js {
    match (old, v) {
        (Js::Scalar(l), Val::Str(s)) => if l.token.kind == Tok::SingleStr {
            word_js(Tok::SingleStr, single_string(s))
        } else {
            fresh(v, json5)
        },
        _ => fresh(v, json5),
    }
}

/// The node that takes the place of `old`.
pub fn replacement_node(old: &Json, v: &Value, json5: bool) -> (r: Json)
    ensures
        r@ == replacement(old@, v@, json5),
{
    if let Json::Scalar(l) = old {
        if let Value::Str(s) = v {
            if l.token.kind == Tok::SingleStr {
                return word(Tok::SingleStr, single_quoted(s));
            }
        }
    }
    fresh_node(v, json5)
}

/// The indentation of the first line from `i` on that is not blank.
pub open spec fn indent_from(s: Seq<char>, i: int) -> Seq<char>
    decreases s.len() - i,
{
    let e = eol_at(s, i);
    let a = white_from(s, i, e);
    if a < e {
        s.subrange(i, a)
    } else if i <= e < s.len() {
        indent_from(s, e + 1)
    } else {
        "  "@
    }
}

/// The indentation of the first non-blank line inside a container's body.
pub fn detect_indent(cs: &[char]) -> (r: String)
    ensures
        r@ == indent_from(cs@, 0),
{
    let n: usize = cs.len();
    let mut i: usize = 0;
    loop
        invariant
            i <= n,
            n == cs.len(),
            indent_from(cs@, 0) == indent_from(cs@, i as int),
        decreases n - i,
    {
        let e: usize = crate::json_lexer::skip_line(cs, i);
        let a: usize = crate::rows::skip_white(cs, i, e);
        if a < e {
            return slice_text(cs, i, a);
        }
        if e >= n {
            return "  ".to_owned();
        }
        i = e + 1;
    }
}

/// Is there a line break in the text?
pub open spec fn multi_line(s: Seq<char>) -> bool {
    s.contains('\n')
}

/// Is there a line break in the text?
pub fn has_line_break(cs: &[char]) -> (r: bool)
    ensures
        r == multi_line(cs@),
{
    let mut i: usize = 0;
    while i < cs.len()
        invariant
            i <= cs.len(),
            forall|k: int| 0 <= k < i ==> (#[trigger] cs@[k]) != '\n',
        decreases cs.len() - i,
    {
        if cs[i] == '\n' {
            return true;
        }
        i = i + 1;
    }
    false
}

/// Where the last line of `s` before `e` starts.
pub open spec fn last_line(s: Seq<char>, e: int) -> int
    decreases e,
{
    if e <= 0 {
        0
    } else if s[e - 1] == '\n' {
        e
    } else {
        last_line(s, e - 1)
    }
}

/// The whitespace on the line a container closes on.
pub open spec fn close_indent(inner: Seq<char>) -> Seq<char> {
    let tail = inner.skip(white_back(inner, 0, inner.len() as int));
    tail.skip(last_line(tail, tail.len() as int))
}

fn closing_indent(cs: &[char]) -> (r: String)
    ensures
        r@ == close_indent(cs@),
{
    let n: usize = cs.len();
    let b: usize = crate::rows::trim_white(cs, 0, n);
    let ghost tail = cs@.skip(b as int);
    let mut e: usize = n;
    while e > b && cs[e - 1] != '\n'
        invariant
            b <= e <= n,
            n == cs.len(),
            tail == cs@.skip(b as int),
            last_line(tail, tail.len() as int) == last_line(tail, e - b),
        decreases e,
    {
        assert(tail[e - b - 1] == cs@[e - 1]);
        e = e - 1;
    }
    assert(e > b ==> tail[e - b - 1] == cs@[e - 1]);
    assert(cs@.subrange(e as int, n as int) =~= tail.skip(e - b));
    slice_text(cs, e, n)
}

/// One level of indentation inside a multi-line container: what its entries are
/// indented past the line it closes on, or two spaces where that gives nothing
/// to imitate.
pub open spec fn indent_unit(inner: Seq<char>) -> Seq<char> {
    let entry = indent_from(inner, 0);
    let base = close_indent(inner);
    let unit = if base.len() <= entry.len() && entry.take(base.len() as int) == base {
        entry.skip(base.len() as int)
    } else {
        entry
    };
    if unit.len() == 0 {
        "  "@
    } else {
        unit
    }
}

/// One level of indentation inside a multi-line container.
pub fn unit_of(cs: &[char]) -> (r: String)
    ensures
        r@ == indent_unit(cs@),
{
    let entry = detect_indent(cs);
    let base = closing_indent(cs);
    let es = chars_of(&entry);
    let bs = chars_of(&base);
    let unit = if crate::builtins::begins(&es, &bs) {
        assert(es@.subrange(bs.len() as int, es.len() as int) =~= es@.skip(bs.len() as int));
        slice_text(&es, bs.len(), es.len())
    } else {
        entry
    };
    if unit.as_str().unicode_len() == 0 {
        "  ".to_owned()
    } else {
        unit
    }
}

} // verus!
