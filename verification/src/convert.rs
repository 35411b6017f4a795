//! Data-model helpers for format conversion.
//!
//! Conversion projects a source document to [`Value`] and re-emits it in another
//! format. Formats with less structure than the source must flatten. These
//! helpers are the shared machinery; the per-format emitters live in the format
//! modules.
use crate::comment::{dotted, join_key};
use crate::error::{fail, EditError, Er};
use crate::float::{finite, is_finite};
use crate::model::{group_value_views, members, vals, Val, Value};
use crate::strs::{nat_digits, nat_text};
use crate::value::{json_string, json_text, raw_text, write_json_string};
use vstd::prelude::*;
use vstd::string::*;

verus! {

broadcast use group_value_views;

/// The comma behind all entries but the last.
pub open spec fn comma(n: int, len: int) -> Seq<char> {
    if n < len {
        seq![',']
    } else {
        Seq::empty()
    }
}

/// The first `n` elements of a pretty-printed array, a line each.
pub open spec fn pretty_elements(a: Seq<Val>, indent: Seq<char>, n: nat) -> Seq<char>
    decreases a, 0int, n,
{
    if n == 0 || n > a.len() {
        Seq::empty()
    } else {
        pretty_elements(a, indent, (n - 1) as nat) + indent + pretty_text(
            a[n - 1],
            indent,
        ) + comma(n as int, a.len() as int) + seq!['\n']
    }
}

/// The first `n` members of a pretty-printed object, a line each.
pub open spec fn pretty_members(m: Seq<(Seq<char>, Val)>, indent: Seq<char>, n: nat) -> Seq<char>
    decreases m, 0int, n,
{
    if n == 0 || n > m.len() {
        Seq::empty()
    } else {
        pretty_members(m, indent, (n - 1) as nat) + indent + json_string(m[n - 1].0)
            + ": "@ + pretty_text(m[n - 1].1, indent) + comma(n as int, m.len() as int) + seq!['\n']
    }
}

/// A value as pretty (2-space) JSON below an indent.
pub open spec fn pretty_text(v: Val, indent: Seq<char>) -> Seq<char>
    decreases v, 1int, 0int,
{
    match v {
        Val::Object(m) => if m.len() == 0 {
            "{}"@
        } else {
            "{\n"@ + pretty_members(m, indent + "  "@, m.len()) + indent + seq!['}']
        },
        Val::Array(a) => if a.len() == 0 {
            "[]"@
        } else {
            "[\n"@ + pretty_elements(a, indent + "  "@, a.len()) + indent + seq![']']
        },
        _ => json_text(v),
    }
}

fn write_pretty_members(m: &Vec<(String, Value)>, indent: &str, out: &mut String)
    ensures
        final(out)@ == old(out)@ + pretty_members(members(m@), indent@, m@.len()),
    decreases m, 0int,
{
    let ghost before = out@;
    let ghost all = members(m@);
    let mut i: usize = 0;
    assert(out@ =~= before + pretty_members(all, indent@, 0));
    while i < m.len()
        invariant
            i <= m.len(),
            all == members(m@),
            out@ == before + pretty_members(all, indent@, i as nat),
        decreases m.len() - i,
    {
        let ghost held = out@;
        out.append(indent);
        write_json_string(&m[i].0, out);
        out.append(": ");
        write_pretty(&m[i].1, indent, out);
        if i + 1 < m.len() {
            out.push(',');
        }
        out.push('\n');
        assert(out@ =~= held + (indent@ + json_string(all[i as int].0) + ": "@ + pretty_text(
            all[i as int].1,
            indent@,
        ) + comma(i + 1, all.len() as int) + seq!['\n']));
        assert(out@ =~= before + pretty_members(all, indent@, (i + 1) as nat));
        i = i + 1;
    }
}

fn write_pretty_elements(a: &Vec<Value>, indent: &str, out: &mut String)
    ensures
        final(out)@ == old(out)@ + pretty_elements(vals(a@), indent@, a@.len()),
    decreases a, 0int,
{
    let ghost before = out@;
    let ghost all = vals(a@);
    let mut i: usize = 0;
    assert(out@ =~= before + pretty_elements(all, indent@, 0));
    while i < a.len()
        invariant
            i <= a.len(),
            all == vals(a@),
            out@ == before + pretty_elements(all, indent@, i as nat),
        decreases a.len() - i,
    {
        let ghost held = out@;
        out.append(indent);
        write_pretty(&a[i], indent, out);
        if i + 1 < a.len() {
            out.push(',');
        }
        out.push('\n');
        assert(out@ =~= held + (indent@ + pretty_text(all[i as int], indent@) + comma(
            i + 1,
            all.len() as int,
        ) + seq!['\n']));
        assert(out@ =~= before + pretty_elements(all, indent@, (i + 1) as nat));
        i = i + 1;
    }
}

fn write_pretty(value: &Value, indent: &str, out: &mut String)
    ensures
        final(out)@ == old(out)@ + pretty_text(value@, indent@),
    decreases value, 1int,
{
    let ghost before = out@;
    match value {
        Value::Object(m) => {
            if m.len() == 0 {
                out.append("{}");
                return;
            }
            let mut deeper = indent.to_owned();
            deeper.append("  ");
            out.append("{\n");
            write_pretty_members(m, &deeper, out);
            out.append(indent);
            out.push('}');
            assert(out@ =~= before + pretty_text(value@, indent@));
        },
        Value::Array(a) => {
            if a.len() == 0 {
                out.append("[]");
                return;
            }
            let mut deeper = indent.to_owned();
            deeper.append("  ");
            out.append("[\n");
            write_pretty_elements(a, &deeper, out);
            out.append(indent);
            out.push(']');
            assert(out@ =~= before + pretty_text(value@, indent@));
        },
        _ => value.write_json(out),
    }
}

/// Render a value as pretty (2-space) JSON with a trailing newline.
pub fn to_pretty_json(value: &Value) -> (r: String)
    ensures
        r@ == pretty_text(value@, ""@).push('\n'),
{
    let mut out = String::new();
    write_pretty(value, "", &mut out);
    assert(out@ =~= pretty_text(value@, ""@));
    out.push('\n');
    out
}

/// A value as `(dotted.key, string)` pairs.
pub open spec fn flat_pairs(prefix: Seq<char>, v: Val) -> Seq<(Seq<char>, Seq<char>)>
    decreases v, 1int, 0int,
{
    match v {
        Val::Object(m) => flat_member_pairs(prefix, m, m.len()),
        Val::Array(a) => flat_element_pairs(prefix, a, a.len()),
        _ => seq![(prefix, raw_text(v))],
    }
}

pub open spec fn flat_member_pairs(prefix: Seq<char>, m: Seq<(Seq<char>, Val)>, n: nat) -> Seq<
    (Seq<char>, Seq<char>),
>
    decreases m, 0int, n,
{
    if n == 0 || n > m.len() {
        Seq::empty()
    } else {
        flat_member_pairs(prefix, m, (n - 1) as nat) + flat_pairs(
            dotted(prefix, m[n - 1].0),
            m[n - 1].1,
        )
    }
}

pub open spec fn flat_element_pairs(prefix: Seq<char>, a: Seq<Val>, n: nat) -> Seq<
    (Seq<char>, Seq<char>),
>
    decreases a, 0int, n,
{
    if n == 0 || n > a.len() {
        Seq::empty()
    } else {
        flat_element_pairs(prefix, a, (n - 1) as nat) + flat_pairs(
            dotted(prefix, nat_digits((n - 1) as nat)),
            a[n - 1],
        )
    }
}

/// The contents of a list of string pairs.
pub open spec fn pairs_view(s: Seq<(String, String)>) -> Seq<(Seq<char>, Seq<char>)> {
    Seq::new(s.len(), |i: int| (s[i].0@, s[i].1@))
}

#[verifier::loop_isolation(false)]
fn walk(prefix: &str, value: &Value, out: &mut Vec<(String, String)>)
    ensures
        pairs_view(final(out)@) == pairs_view(old(out)@) + flat_pairs(prefix@, value@),
    decreases value,
{
    let ghost before = pairs_view(out@);
    match value {
        Value::Object(m) => {
            let ghost all = members(m@);
            assert(pairs_view(out@) =~= before + flat_member_pairs(prefix@, all, 0));
            let mut i: usize = 0;
            while i < m.len()
                invariant
                    i <= m.len(),
                    pairs_view(out@) == before + flat_member_pairs(prefix@, all, i as nat),
                decreases m.len() - i,
            {
                walk(&join_key(prefix, &m[i].0), &m[i].1, out);
                assert(pairs_view(out@) =~= before + flat_member_pairs(
                    prefix@,
                    all,
                    (i + 1) as nat,
                ));
                i = i + 1;
            }
        },
        Value::Array(a) => {
            let ghost all = vals(a@);
            assert(pairs_view(out@) =~= before + flat_element_pairs(prefix@, all, 0));
            let mut i: usize = 0;
            while i < a.len()
                invariant
                    i <= a.len(),
                    pairs_view(out@) == before + flat_element_pairs(prefix@, all, i as nat),
                decreases a.len() - i,
            {
                walk(&join_key(prefix, &nat_text(i as u64)), &a[i], out);
                assert(pairs_view(out@) =~= before + flat_element_pairs(
                    prefix@,
                    all,
                    (i + 1) as nat,
                ));
                i = i + 1;
            }
        },
        _ => {
            out.push((prefix.to_owned(), value.to_raw_string()));
            assert(pairs_view(out@) =~= before + flat_pairs(prefix@, value@));
        },
    }
}

/// Flatten a value to `(dotted.key, string)` pairs (`{a:{b:1}}` is `a.b = "1"`;
/// arrays index: `{a:[1,2]}` is `a.0`, `a.1`). Used by the flat emitters.
pub fn flatten(value: &Value) -> (r: Vec<(String, String)>)
    ensures
        pairs_view(r@) == flat_pairs(""@, value@),
{
    let mut out: Vec<(String, String)> = Vec::new();
    walk("", value, &mut out);
    assert(pairs_view(out@) =~= flat_pairs(""@, value@));
    out
}

/// An array or an object.
pub open spec fn container(v: Val) -> bool {
    v is Array || v is Object
}

/// The string form of a scalar for a flat format.
pub open spec fn scalar_text(v: Val, format: Seq<char>) -> Result<Seq<char>, Er> {
    if container(v) {
        Err(
            fail(
                format + " is flat and string-only; cannot store an array or object"@,
            ),
        )
    } else {
        Ok(raw_text(v))
    }
}

/// The string form of a scalar (`Str` without quotes; numbers/bools/null as
/// text) for the flat format named `format`, which holds no containers.
pub fn scalar_string(value: &Value, format: &str) -> (r: Result<String, EditError>)
    ensures
        match r {
            Ok(t) => scalar_text(value@, format@) == Ok::<Seq<char>, Er>(t@),
            Err(e) => scalar_text(value@, format@) == Err::<Seq<char>, Er>(e@),
        },
{
    match value {
        Value::Array(_) | Value::Object(_) => {
            let mut m = format.to_owned();
            m.append(" is flat and string-only; cannot store an array or object");
            Err(EditError::of(m))
        },
        _ => Ok(value.to_raw_string()),
    }
}

fn is_container(value: &Value) -> (r: bool)
    ensures
        r == container(value@),
{
    match value {
        Value::Array(_) => true,
        Value::Object(_) => true,
        _ => false,
    }
}

/// Does the value hold a container inside a container?
pub open spec fn nests(v: Val) -> bool {
    match v {
        Val::Object(m) => member_container(m),
        Val::Array(a) => element_container(a),
        _ => false,
    }
}

pub open spec fn member_container(m: Seq<(Seq<char>, Val)>) -> bool {
    exists|i: int| 0 <= i < m.len() && container((#[trigger] m[i]).1)
}

pub open spec fn element_container(a: Seq<Val>) -> bool {
    exists|i: int| 0 <= i < a.len() && container(#[trigger] a[i])
}

/// Does `value` contain nesting (an object/array inside an object/array)?
#[verifier::loop_isolation(false)]
pub fn has_nesting(value: &Value) -> (r: bool)
    ensures
        r == nests(value@),
{
    match value {
        Value::Object(m) => {
            let mut i: usize = 0;
            while i < m.len()
                invariant
                    i <= m.len(),
                    forall|j: int| 0 <= j < i ==> !container((#[trigger] members(m@)[j]).1),
                decreases m.len() - i,
            {
                assert(members(m@)[i as int].1 == m@[i as int].1@);
                if is_container(&m[i].1) {
                    assert(member_container(members(m@)));
                    return true;
                }
                i = i + 1;
            }
            false
        },
        Value::Array(a) => {
            let mut i: usize = 0;
            while i < a.len()
                invariant
                    i <= a.len(),
                    forall|j: int| 0 <= j < i ==> !container(#[trigger] vals(a@)[j]),
                decreases a.len() - i,
            {
                assert(vals(a@)[i as int] == a@[i as int]@);
                if is_container(&a[i]) {
                    assert(element_container(vals(a@)));
                    return true;
                }
                i = i + 1;
            }
            false
        },
        _ => false,
    }
}

/// Does the value hold an array, itself or in an object at any depth?
pub open spec fn holds_array(v: Val) -> bool
    decreases v, 1int,
{
    match v {
        Val::Array(_) => true,
        Val::Object(m) => member_holds_array(m),
        _ => false,
    }
}

pub open spec fn member_holds_array(m: Seq<(Seq<char>, Val)>) -> bool
    decreases m, 0int,
{
    exists|i: int| 0 <= i < m.len() && holds_array((#[trigger] m[i]).1)
}

/// Does `value` contain an array anywhere?
#[verifier::loop_isolation(false)]
pub fn has_array(value: &Value) -> (r: bool)
    ensures
        r == holds_array(value@),
    decreases value,
{
    match value {
        Value::Array(_) => true,
        Value::Object(m) => {
            let mut i: usize = 0;
            while i < m.len()
                invariant
                    i <= m.len(),
                    forall|j: int| 0 <= j < i ==> !holds_array((#[trigger] members(m@)[j]).1),
                decreases m.len() - i,
            {
                assert(members(m@)[i as int].1 == m@[i as int].1@);
                if has_array(&m[i].1) {
                    return true;
                }
                i = i + 1;
            }
            false
        },
        _ => false,
    }
}

/// Does the value hold a number that is not finite, at any depth?
pub open spec fn holds_non_finite(v: Val) -> bool
    decreases v, 1int,
{
    match v {
        Val::Float(f) => !is_finite(f.bits),
        Val::Array(a) => element_non_finite(a),
        Val::Object(m) => member_non_finite(m),
        _ => false,
    }
}

pub open spec fn element_non_finite(a: Seq<Val>) -> bool
    decreases a, 0int,
{
    exists|i: int| 0 <= i < a.len() && holds_non_finite(#[trigger] a[i])
}

pub open spec fn member_non_finite(m: Seq<(Seq<char>, Val)>) -> bool
    decreases m, 0int,
{
    exists|i: int| 0 <= i < m.len() && holds_non_finite((#[trigger] m[i]).1)
}

/// Does `value` contain `Infinity`, `-Infinity` or `NaN` anywhere?
#[verifier::loop_isolation(false)]
pub fn contains_non_finite(value: &Value) -> (r: bool)
    ensures
        r == holds_non_finite(value@),
    decreases value,
{
    match value {
        Value::Float(f) => !finite(f.bits),
        Value::Array(a) => {
            let mut i: usize = 0;
            while i < a.len()
                invariant
                    i <= a.len(),
                    forall|j: int| 0 <= j < i ==> !holds_non_finite(#[trigger] vals(a@)[j]),
                decreases a.len() - i,
            {
                assert(vals(a@)[i as int] == a@[i as int]@);
                if contains_non_finite(&a[i]) {
                    return true;
                }
                i = i + 1;
            }
            false
        },
        Value::Object(m) => {
            let mut i: usize = 0;
            while i < m.len()
                invariant
                    i <= m.len(),
                    forall|j: int| 0 <= j < i ==> !holds_non_finite((#[trigger] members(m@)[j]).1),
                decreases m.len() - i,
            {
                assert(members(m@)[i as int].1 == m@[i as int].1@);
                if contains_non_finite(&m[i].1) {
                    return true;
                }
                i = i + 1;
            }
            false
        },
        _ => false,
    }
}

} // verus!
