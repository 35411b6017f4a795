//! Format-preserving edits of a JSONC tree.
//!
//! An edit replaces one value node, adds entries at the end of a container, or
//! takes an entry out with its separator. We format what we insert, never what we
//! did not touch.
use crate::error::{fail, EditError, Er};
use crate::index::{resolve_index, resolved};
use crate::json_lexer::{jts, Jt, Tok, Token};
use crate::json_nodes::{entry_name, key_text};
use crate::json_spell::{
    check_writable, detect_indent, fresh, fresh_key, fresh_node, has_line_break, indent_from, indent_unit, laid_out,
    lay_out, line_space, line_tokens, multi_line, new_key, no_tokens, nothing, replacement, replacement_node, space,
    space_tokens, unit_of, writable,
};
use crate::json_tree::{
    comma_source, en_text, ens, es_text, group_json_views, key_source, opt_comma, toks_text, En,
    Entry, Js, Json,
};
use crate::json_nodes::write_tokens;
use crate::model::{group_value_views, steps_of, vals, members, St, Step, Val, Value};
use crate::mutate::done;
use crate::semantics::starts;
use crate::strs::{chars_of, same, slice_text};
use vstd::prelude::*;

verus! {

broadcast use {group_value_views, group_json_views};

/// The entries of a container; a scalar has none.
pub open spec fn entries_of(n: Js) -> Seq<En> {
    match n {
        Js::Scalar(_) => Seq::empty(),
        Js::Object(_, es) => es,
        Js::Array(_, es) => es,
    }
}

/// The first entry from `i` on with a name; the number of entries when there is
/// none.
pub open spec fn named_entry(es: Seq<En>, name: Seq<char>, i: int) -> int
    decreases es.len() - i,
{
    if i < es.len() && !(es[i].key is Some && entry_name(es[i]) == name) {
        named_entry(es, name, i + 1)
    } else {
        i
    }
}

pub proof fn named_entry_bounds(es: Seq<En>, name: Seq<char>, i: int)
    requires
        0 <= i <= es.len(),
    ensures
        i <= named_entry(es, name, i) <= es.len(),
        forall|k: int|
            i <= k < named_entry(es, name, i) ==> !((#[trigger] es[k]).key is Some && entry_name(
                es[k],
            ) == name),
        named_entry(es, name, i) < es.len() ==> es[named_entry(es, name, i)].key is Some
            && entry_name(es[named_entry(es, name, i)]) == name,
    decreases es.len() - i,
{
    if i < es.len() && !(es[i].key is Some && entry_name(es[i]) == name) {
        named_entry_bounds(es, name, i + 1);
    }
}

/// The entry a step leads to.
pub open spec fn child(n: Js, st: St) -> Option<int> {
    match (n, st) {
        (Js::Object(_, es), St::Field(k)) => {
            let i = named_entry(es, k, 0);
            if i < es.len() {
                Some(i)
            } else {
                None
            }
        },
        (Js::Array(_, es), St::Index(i)) => resolved(i as int, es.len() as int),
        _ => None,
    }
}

pub proof fn child_bounds(n: Js, st: St)
    ensures
        match child(n, st) {
            Some(i) => 0 <= i < entries_of(n).len(),
            None => true,
        },
{
    if let (Js::Object(_, es), St::Field(k)) = (n, st) {
        named_entry_bounds(es, k, 0);
    }
}

fn find_name(es: &Vec<Entry>, name: &str) -> (r: Option<usize>)
    ensures
        ({
            let i = named_entry(ens(es@), name@, 0);
            if i < es.len() {
                r == Some(i as usize) && i >= 0
            } else {
                r is None
            }
        }),
{
    let ghost all = ens(es@);
    let mut i: usize = 0;
    while i < es.len()
        invariant
            i <= es.len(),
            all == ens(es@),
            named_entry(all, name@, 0) == named_entry(all, name@, i as int),
        decreases es.len() - i,
    {
        assert(all[i as int] == es@[i as int]@);
        if let Some(k) = &es[i].key {
            if same(&key_text(&k.token), name) {
                return Some(i);
            }
        }
        i = i + 1;
    }
    None
}

impl Json {
    /// The entry a step leads to.
    pub fn step(&self, st: &Step) -> (r: Option<usize>)
        ensures
            match child(self@, st@) {
                Some(i) => r is Some && r->0 == i && 0 <= i < entries_of(self@).len(),
                None => r is None,
            },
    {
        proof {
            child_bounds(self@, st@);
        }
        match self {
            Json::Object(_, es) => match st {
                Step::Field(k) => find_name(es, k),
                _ => None,
            },
            Json::Array(_, es) => match st {
                Step::Index(i) => resolve_index(*i, es.len()),
                _ => None,
            },
            Json::Scalar(_) => None,
        }
    }

    /// Entry `i` of a container.
    pub fn entry(&self, i: usize) -> (r: Option<&Entry>)
        ensures
            i < entries_of(self@).len() ==> r is Some && r->0@ == entries_of(self@)[i as int],
    {
        match self {
            Json::Object(_, es) => if i < es.len() {
                assert(ens(es@)[i as int] == es@[i as int]@);
                Some(&es[i])
            } else {
                None
            },
            Json::Array(_, es) => if i < es.len() {
                assert(ens(es@)[i as int] == es@[i as int]@);
                Some(&es[i])
            } else {
                None
            },
            Json::Scalar(_) => None,
        }
    }

    /// The node at a path.
    pub fn at(&self, path: &[Step]) -> (r: Option<&Json>)
        ensures
            match js_at(self@, steps_of(path@)) {
                Some(n) => r is Some && r->0@ == n,
                None => r is None,
            },
    {
        let ghost all = steps_of(path@);
        let mut cur: &Json = self;
        let mut i: usize = 0;
        assert(all.skip(0) =~= all);
        while i < path.len()
            invariant
                i <= path.len(),
                all == steps_of(path@),
                js_at(self@, all) == js_at(cur@, all.skip(i as int)),
            decreases path.len() - i,
        {
            assert(all[i as int] == path@[i as int]@);
            assert(all.skip(i as int).drop_first() =~= all.skip(i + 1));
            assert(all.skip(i as int)[0] == all[i as int]);
            match cur.step(&path[i]) {
                None => {
                    return None;
                },
                Some(k) => match cur.entry(k) {
                    None => {
                        return None;
                    },
                    Some(e) => {
                        assert(e@.value == e.value@);
                        cur = &e.value;
                    },
                },
            }
            i = i + 1;
        }
        Some(cur)
    }
}

/// The node at a path.
pub open spec fn js_at(n: Js, path: Seq<St>) -> Option<Js>
    decreases path.len(),
{
    if path.len() == 0 {
        Some(n)
    } else {
        match child(n, path[0]) {
            Some(i) => js_at(entries_of(n)[i].value, path.drop_first()),
            None => None,
        }
    }
}

/// A container's opening bracket and leading trivia.
pub open spec fn opening(n: Js) -> Seq<char> {
    match n {
        Js::Object(p, _) => seq!['{'] + toks_text(p),
        Js::Array(p, _) => seq!['['] + toks_text(p),
        Js::Scalar(_) => Seq::empty(),
    }
}

/// A container's closing bracket.
pub open spec fn closing(n: Js) -> Seq<char> {
    match n {
        Js::Object(_, _) => seq!['}'],
        Js::Array(_, _) => seq![']'],
        Js::Scalar(_) => Seq::empty(),
    }
}

/// The text in front of the node at a path.
pub open spec fn text_before(n: Js, path: Seq<St>) -> Seq<char>
    decreases path.len(),
{
    if path.len() == 0 {
        Seq::empty()
    } else {
        let i = child(n, path[0])->0;
        let es = entries_of(n);
        opening(n) + es_text(es, i as nat) + key_source(es[i].key) + text_before(
            es[i].value,
            path.drop_first(),
        )
    }
}

/// The text of the entries from `i` on.
pub open spec fn es_text_from(es: Seq<En>, i: int) -> Seq<char>
    decreases es.len() - i,
{
    if i < 0 || i >= es.len() {
        Seq::empty()
    } else {
        en_text(es[i]) + es_text_from(es, i + 1)
    }
}

/// The text behind the node at a path.
pub open spec fn text_behind(n: Js, path: Seq<St>) -> Seq<char>
    decreases path.len(),
{
    if path.len() == 0 {
        Seq::empty()
    } else {
        let i = child(n, path[0])->0;
        let es = entries_of(n);
        text_behind(es[i].value, path.drop_first()) + comma_source(es[i].comma) + toks_text(
            es[i].after,
        ) + es_text_from(es, i + 1) + closing(n)
    }
}

/// A container with other entries.
pub open spec fn with_entries(n: Js, es: Seq<En>) -> Js {
    match n {
        Js::Scalar(l) => Js::Scalar(l),
        Js::Object(p, _) => Js::Object(p, es),
        Js::Array(p, _) => Js::Array(p, es),
    }
}

/// A container with the value of entry `i` replaced.
pub open spec fn with_value_at(n: Js, i: int, v: Js) -> Js {
    with_entries(n, entries_of(n).update(i, En { value: v, ..entries_of(n)[i] }))
}

/// Is there a comment among the tokens?
pub open spec fn has_note(ts: Seq<Jt>) -> bool {
    exists|i: int|
        0 <= i < ts.len() && ((#[trigger] ts[i]).kind == Tok::LineComment || ts[i].kind
            == Tok::BlockComment)
}

/// Is there a line comment among the tokens?
pub open spec fn has_line_note(ts: Seq<Jt>) -> bool {
    exists|i: int| 0 <= i < ts.len() && (#[trigger] ts[i]).kind == Tok::LineComment
}

/// The tokens without the whitespace they end with.
pub open spec fn unspaced(ts: Seq<Jt>) -> Seq<Jt> {
    if ts.len() > 0 && ts.last().kind == Tok::Ws {
        ts.drop_last()
    } else {
        ts
    }
}

/// The whitespace the tokens end with.
pub open spec fn end_space(ts: Seq<Jt>) -> Seq<Jt> {
    if ts.len() > 0 && ts.last().kind == Tok::Ws {
        seq![ts.last()]
    } else {
        Seq::empty()
    }
}

/// The tokens without the whitespace they start with.
pub open spec fn unled(ts: Seq<Jt>) -> Seq<Jt> {
    if ts.len() > 0 && ts[0].kind == Tok::Ws {
        ts.drop_first()
    } else {
        ts
    }
}

/// The line break behind a text: behind a carriage return only the line feed is
/// missing.
pub open spec fn break_behind(text: Seq<char>, eol: Seq<char>) -> Seq<char> {
    if text.len() > 0 && text.last() == '\r' {
        "\n"@
    } else {
        eol
    }
}

/// The text between a container's brackets.
pub open spec fn inner_text(pre: Seq<Jt>, es: Seq<En>) -> Seq<char> {
    toks_text(pre) + es_text(es, es.len())
}

/// New entries with their separators.
pub open spec fn dressed(new: Seq<En>, sep: Seq<Jt>, trailing: bool, tail: Seq<Jt>) -> Seq<En> {
    Seq::new(
        new.len(),
        |i: int|
            En {
                comma: if i + 1 < new.len() || trailing {
                    Some(no_tokens())
                } else {
                    None
                },
                after: if i + 1 < new.len() {
                    sep
                } else {
                    tail
                },
                ..new[i]
            },
    )
}

/// A container's entry that others follow from now on: it has a comma, and
/// `first` behind it. The comma goes behind the trivia that is there, unless that
/// holds a line comment, which would swallow it.
pub open spec fn followed(last: En, first: Seq<Jt>) -> En {
    let body = unspaced(last.after);
    match last.comma {
        Some(_) => En { after: body + first, ..last },
        None => if has_line_note(body) {
            En { comma: Some(no_tokens()), after: body + first, ..last }
        } else {
            En { comma: Some(body), after: first, ..last }
        },
    }
}

/// A container's leading trivia and entries with new entries at the end, in the
/// container's style: on one line behind `, `, or on a line each at the
/// indentation of the first, with a trailing comma where there was one. What
/// stands between the brackets stays, around the new entries.
pub open spec fn appended(pre: Seq<Jt>, es: Seq<En>, new: Seq<En>, eol: Seq<char>) -> (
    Seq<Jt>,
    Seq<En>,
) {
    let inner = inner_text(pre, es);
    let multi = multi_line(inner);
    let indent = indent_from(inner, 0);
    let sep = if multi {
        line_space(eol, indent)
    } else {
        space(" "@)
    };
    if new.len() == 0 {
        (pre, es)
    } else if es.len() == 0 {
        if pre.len() > 0 {
            let body = unspaced(pre);
            let first = if multi {
                line_space(break_behind(toks_text(body), eol), indent)
            } else {
                space(" "@)
            };
            (body + first, dressed(new, sep, false, end_space(pre)))
        } else {
            (no_tokens(), dressed(new, space(" "@), false, no_tokens()))
        }
    } else {
        let last = es.last();
        let first = if multi {
            line_space(break_behind(toks_text(unspaced(last.after)), eol), indent)
        } else {
            space(" "@)
        };
        (
            pre,
            es.update(es.len() - 1, followed(last, first)) + dressed(
                new,
                sep,
                last.comma is Some,
                end_space(last.after),
            ),
        )
    }
}

/// Is there a comment among the tokens?
pub fn any_note(ts: &Vec<Token>) -> (r: bool)
    ensures
        r == has_note(jts(ts@)),
{
    let ghost all = jts(ts@);
    let mut i: usize = 0;
    while i < ts.len()
        invariant
            i <= ts.len(),
            all == jts(ts@),
            forall|k: int|
                0 <= k < i ==> (#[trigger] all[k]).kind != Tok::LineComment && all[k].kind
                    != Tok::BlockComment,
        decreases ts.len() - i,
    {
        assert(all[i as int] == ts@[i as int]@);
        if ts[i].kind == Tok::LineComment || ts[i].kind == Tok::BlockComment {
            return true;
        }
        i = i + 1;
    }
    false
}

fn any_line_note(ts: &Vec<Token>) -> (r: bool)
    ensures
        r == has_line_note(jts(ts@)),
{
    let ghost all = jts(ts@);
    let mut i: usize = 0;
    while i < ts.len()
        invariant
            i <= ts.len(),
            all == jts(ts@),
            forall|k: int| 0 <= k < i ==> (#[trigger] all[k]).kind != Tok::LineComment,
        decreases ts.len() - i,
    {
        assert(all[i as int] == ts@[i as int]@);
        if ts[i].kind == Tok::LineComment {
            return true;
        }
        i = i + 1;
    }
    false
}

/// Take the whitespace off the end of a run of tokens.
fn cut_space(ts: &mut Vec<Token>) -> (r: Vec<Token>)
    ensures
        jts(final(ts)@) == unspaced(jts(old(ts)@)),
        jts(r@) == end_space(jts(old(ts)@)),
{
    let ghost all = jts(ts@);
    let mut r: Vec<Token> = Vec::new();
    let n: usize = ts.len();
    if n > 0 {
        assert(all.last() == ts@[n - 1]@);
        if ts[n - 1].kind == Tok::Ws {
            if let Some(x) = ts.pop() {
                r.push(x);
            }
        }
    }
    assert(jts(ts@) =~= unspaced(all));
    assert(jts(r@) =~= end_space(all));
    r
}

fn cut_lead(ts: &mut Vec<Token>)
    ensures
        jts(final(ts)@) == unled(jts(old(ts)@)),
{
    let ghost all = jts(ts@);
    if ts.len() > 0 {
        assert(all[0] == ts@[0]@);
        if ts[0].kind == Tok::Ws {
            let _ = ts.remove(0);
        }
    }
    assert(jts(ts@) =~= unled(all));
}

fn join(ts: &mut Vec<Token>, more: Vec<Token>)
    ensures
        jts(final(ts)@) == jts(old(ts)@) + jts(more@),
{
    let mut more = more;
    let ghost a = jts(ts@);
    let ghost b = jts(more@);
    ts.append(&mut more);
    assert(jts(ts@) =~= a + b);
}

fn text_of_tokens(ts: &Vec<Token>) -> (r: String)
    ensures
        r@ == toks_text(jts(ts@)),
{
    let mut out = String::new();
    write_tokens(&mut out, ts);
    assert(out@ =~= toks_text(jts(ts@)));
    out
}

fn line_break_behind(text: &str, eol: &str) -> (r: String)
    ensures
        r@ == break_behind(text@, eol@),
{
    let n: usize = text.unicode_len();
    if n > 0 && text.get_char(n - 1) == '\r' {
        "\n".to_owned()
    } else {
        eol.to_owned()
    }
}

/// The text between a container's brackets.
pub fn inner_source(pre: &Vec<Token>, es: &Vec<Entry>) -> (r: String)
    ensures
        r@ == inner_text(jts(pre@), ens(es@)),
{
    let ghost all = ens(es@);
    let mut out = text_of_tokens(pre);
    let ghost head = out@;
    let mut i: usize = 0;
    assert(out@ =~= head + es_text(all, 0));
    while i < es.len()
        invariant
            i <= es.len(),
            all == ens(es@),
            out@ == head + es_text(all, i as nat),
        decreases es.len() - i,
    {
        assert(all[i as int] == es@[i as int]@);
        es[i].write(&mut out);
        assert(out@ =~= head + es_text(all, (i + 1) as nat));
        i = i + 1;
    }
    out
}

/// Give each new entry its separators.
fn dress(new: &mut Vec<Entry>, multi: bool, eol: &str, indent: &str, trailing: bool, tail: Vec<Token>)
    ensures
        ens(final(new)@) == dressed(
            ens(old(new)@),
            if multi {
                line_space(eol@, indent@)
            } else {
                space(" "@)
            },
            trailing,
            jts(tail@),
        ),
{
    let ghost was = ens(new@);
    let ghost sep = if multi {
        line_space(eol@, indent@)
    } else {
        space(" "@)
    };
    let ghost all = dressed(was, sep, trailing, jts(tail@));
    let n: usize = new.len();
    let mut i: usize = 0;
    assert(all.take(0) + was.skip(0) =~= was);
    while i < n
        invariant
            i <= n,
            n == new.len(),
            n == was.len(),
            all == dressed(was, sep, trailing, jts(tail@)),
            sep == (if multi {
                line_space(eol@, indent@)
            } else {
                space(" "@)
            }),
            ens(new@) == all.take(i as int) + was.skip(i as int),
        decreases n - i,
    {
        let ghost before = ens(new@);
        let more = i + 1 < n;
        let comma = if more || trailing {
            Some(nothing())
        } else {
            None
        };
        let after = if more {
            if multi {
                line_tokens(eol, indent)
            } else {
                space_tokens(" ")
            }
        } else {
            copy_all(&tail)
        };
        assert(before[i as int] == new@[i as int]@);
        let ghost key = new@[i as int].key;
        let ghost value = new@[i as int].value;
        new[i].comma = comma;
        new[i].after = after;
        assert(new@[i as int]@ == all[i as int]);
        assert(ens(new@) =~= before.update(i as int, all[i as int]));
        assert(ens(new@) =~= all.take(i + 1) + was.skip(i + 1));
        i = i + 1;
    }
    assert(all.take(i as int) + was.skip(i as int) =~= all);
}

fn copy_all(ts: &Vec<Token>) -> (r: Vec<Token>)
    ensures
        jts(r@) == jts(ts@),
{
    let mut out: Vec<Token> = Vec::new();
    let mut i: usize = 0;
    assert(jts(out@) =~= jts(ts@).take(0));
    while i < ts.len()
        invariant
            i <= ts.len(),
            jts(out@) == jts(ts@).take(i as int),
        decreases ts.len() - i,
    {
        out.push(ts[i].clone());
        assert(jts(out@) =~= jts(ts@).take(i + 1));
        i = i + 1;
    }
    assert(jts(ts@).take(i as int) =~= jts(ts@));
    out
}

/// Add entries at the end of a container, in its style.
fn append_entries(pre: &mut Vec<Token>, es: &mut Vec<Entry>, new: Vec<Entry>, eol: &str)
    ensures
        (jts(final(pre)@), ens(final(es)@)) == appended(
            jts(old(pre)@),
            ens(old(es)@),
            ens(new@),
            eol@,
        ),
{
    let mut new = new;
    if new.len() == 0 {
        return;
    }
    let inner = chars_of(&inner_source(pre, es));
    let multi = has_line_break(&inner);
    let indent = detect_indent(&inner);
    let ghost was = ens(es@);
    let ghost add = ens(new@);
    let n: usize = es.len();
    if n == 0 {
        if pre.len() > 0 {
            let tail = cut_space(pre);
            let first = if multi {
                let b = line_break_behind(&text_of_tokens(pre), eol);
                line_tokens(&b, &indent)
            } else {
                space_tokens(" ")
            };
            join(pre, first);
            dress(&mut new, multi, eol, &indent, false, tail);
        } else {
            assert(jts(pre@) =~= no_tokens());
            dress(&mut new, false, eol, &indent, false, nothing());
        }
        let ghost now = ens(new@);
        es.append(&mut new);
        assert(ens(es@) =~= was + now);
        assert(was + now =~= now);
    } else {
        assert(was.last() == es@[n - 1]@);
        let trailing = es[n - 1].comma.is_some();
        let mut after = copy_all(&es[n - 1].after);
        let tail = cut_space(&mut after);
        let first = if multi {
            let b = line_break_behind(&text_of_tokens(&after), eol);
            line_tokens(&b, &indent)
        } else {
            space_tokens(" ")
        };
        let ghost f = jts(first@);
        if trailing || any_line_note(&after) {
            if !trailing {
                es[n - 1].comma = Some(nothing());
            }
            join(&mut after, first);
            es[n - 1].after = after;
        } else {
            es[n - 1].comma = Some(after);
            es[n - 1].after = first;
        }
        assert(es@[n - 1]@ == followed(was.last(), f));
        assert(ens(es@) =~= was.update(n - 1, followed(was.last(), f)));
        dress(&mut new, multi, eol, &indent, trailing, tail);
        let ghost front = ens(es@);
        let ghost now = ens(new@);
        es.append(&mut new);
        assert(ens(es@) =~= front + now);
    }
}

/// A value below keys that are not there yet: `[.b, .c]` with value `v` becomes
/// `{ "b": { "c": v } }`.
pub open spec fn nested(steps: Seq<St>, v: Val) -> Result<Val, Er>
    decreases steps.len(),
{
    if steps.len() == 0 {
        Ok(v)
    } else {
        match steps[0] {
            St::Field(k) => match nested(steps.drop_first(), v) {
                Ok(x) => Ok(Val::Object(seq![(k, x)])),
                Err(e) => Err(e),
            },
            St::Index(_) => Err(fail("cannot create array elements by index"@)),
            St::Iterate => Err(fail("cannot create through `[]`"@)),
            St::Comment(_) => Err(
                fail(
                    "editing comments (`#`): the comment step must end the path and be edited on its own, e.g. `.foo.# = \"text\"`"@,
                ),
            ),
        }
    }
}

/// Build a nested value for the not-yet-existing tail of a path.
fn nest_value(path: &Vec<Step>, from: usize, v: &Value) -> (r: Result<Value, EditError>)
    requires
        from <= path.len(),
    ensures
        match r {
            Ok(x) => nested(steps_of(path@).skip(from as int), v@) == Ok::<Val, Er>(x@),
            Err(e) => nested(steps_of(path@).skip(from as int), v@) == Err::<Val, Er>(e@),
        },
    decreases path.len() - from,
{
    let ghost all = steps_of(path@);
    if from == path.len() {
        return Ok(v.clone());
    }
    assert(all[from as int] == path@[from as int]@);
    assert(all.skip(from as int).drop_first() =~= all.skip(from + 1));
    match &path[from] {
        Step::Field(k) => {
            let x = nest_value(path, from + 1, v)?;
            let ghost one = (k@, x@);
            let mut m: Vec<(String, Value)> = Vec::new();
            m.push((k.clone(), x));
            assert(members(m@) =~= seq![one]);
            Ok(Value::Object(m))
        },
        Step::Index(_) => Err(EditError::new("cannot create array elements by index")),
        Step::Iterate => Err(EditError::new("cannot create through `[]`")),
        Step::Comment(_) => Err(
            EditError::new(
                "editing comments (`#`): the comment step must end the path and be edited on its own, e.g. `.foo.# = \"text\"`",
            ),
        ),
    }
}

/// The node of a new member's value: laid out in the object's own style where it
/// stands on several lines, compact otherwise.
pub open spec fn member_node(inner: Seq<char>, v: Val, json5: bool, eol: Seq<char>) -> Js {
    if multi_line(inner) {
        laid_out(v, indent_from(inner, 0), indent_unit(inner), json5, eol)
    } else {
        fresh(v, json5)
    }
}

/// A new member.
pub open spec fn new_member(key: Seq<char>, value: Js) -> En {
    En { key: Some(fresh_key(key, space(" "@))), value, comma: None, after: no_tokens() }
}

/// An object with a new member.
pub open spec fn with_member(n: Js, key: Seq<char>, v: Val, json5: bool, eol: Seq<char>) -> Result<
    Js,
    Er,
> {
    match n {
        Js::Object(pre, es) => match writable(v, json5) {
            Err(e) => Err(e),
            Ok(_) => {
                let (p, all) = appended(
                    pre,
                    es,
                    seq![new_member(key, member_node(inner_text(pre, es), v, json5, eol))],
                    eol,
                );
                Ok(Js::Object(p, all))
            },
        },
        _ => Err(fail("cannot create a key inside a non-object"@)),
    }
}

/// What creating the rest of a path below a node leads to.
pub open spec fn created(n: Js, rest: Seq<St>, v: Val, json5: bool, eol: Seq<char>) -> Result<Js, Er> {
    match rest[0] {
        St::Field(key) => if !(n is Object) {
            Err(fail("cannot create a key inside a non-object"@))
        } else {
            match nested(rest.drop_first(), v) {
                Err(e) => Err(e),
                Ok(x) => with_member(n, key, x, json5, eol),
            }
        },
        _ => Err(fail("can only create object keys, not array indices"@)),
    }
}

/// The node with the value at a path set. If the path resolves, only that value
/// changes; otherwise a member is added to the deepest object it reaches.
pub open spec fn js_set(n: Js, path: Seq<St>, v: Val, json5: bool, eol: Seq<char>) -> Result<Js, Er>
    decreases path.len(),
{
    if path.len() == 0 {
        match writable(v, json5) {
            Err(e) => Err(e),
            Ok(_) => Ok(replacement(n, v, json5)),
        }
    } else {
        match child(n, path[0]) {
            Some(i) => match js_set(entries_of(n)[i].value, path.drop_first(), v, json5, eol) {
                Err(e) => Err(e),
                Ok(x) => Ok(with_value_at(n, i, x)),
            },
            None => created(n, path, v, json5, eol),
        }
    }
}

/// The node after an attempt.
pub open spec fn after_attempt(n: Js, r: Result<Js, Er>) -> Js {
    match r {
        Ok(x) => x,
        Err(_) => n,
    }
}

/// Whether an attempt succeeded.
pub open spec fn attempted(r: Result<Js, Er>) -> Result<(), Er> {
    match r {
        Ok(_) => Ok(()),
        Err(e) => Err(e),
    }
}

impl Json {
    fn create(&mut self, path: &Vec<Step>, from: usize, v: &Value, json5: bool, eol: &str) -> (r: Result<
        (),
        EditError,
    >)
        requires
            from < path.len(),
        ensures
            final(self)@ == after_attempt(
                old(self)@,
                created(old(self)@, steps_of(path@).skip(from as int), v@, json5, eol@),
            ),
            done(r) == attempted(
                created(old(self)@, steps_of(path@).skip(from as int), v@, json5, eol@),
            ),
    {
        let ghost rest = steps_of(path@).skip(from as int);
        assert(rest[0] == path@[from as int]@);
        assert(rest.drop_first() =~= steps_of(path@).skip(from + 1));
        let key = match &path[from] {
            Step::Field(k) => k,
            _ => {
                return Err(EditError::new("can only create object keys, not array indices"));
            },
        };
        match self {
            Json::Object(pre, es) => {
                let ghost p0 = jts(pre@);
                let ghost e0 = ens(es@);
                let x = nest_value(path, from + 1, v)?;
                check_writable(&x, json5)?;
                let inner = chars_of(&inner_source(pre, es));
                let node = if has_line_break(&inner) {
                    lay_out(&x, &detect_indent(&inner), &unit_of(&inner), json5, eol)
                } else {
                    fresh_node(&x, json5)
                };
                let ghost value = node@;
                let mut new: Vec<Entry> = Vec::new();
                let e = Entry {
                    key: Some(new_key(key, space_tokens(" "))),
                    value: node,
                    comma: None,
                    after: nothing(),
                };
                new.push(e);
                assert(ens(new@) =~= seq![new_member(key@, value)]);
                append_entries(pre, es, new, eol);
                Ok(())
            },
            _ => Err(EditError::new("cannot create a key inside a non-object")),
        }
    }

    /// Set the value at the path's steps from `from` on.
    pub fn set(&mut self, path: &Vec<Step>, from: usize, v: &Value, json5: bool, eol: &str) -> (r: Result<
        (),
        EditError,
    >)
        requires
            from <= path.len(),
        ensures
            final(self)@ == after_attempt(
                old(self)@,
                js_set(old(self)@, steps_of(path@).skip(from as int), v@, json5, eol@),
            ),
            done(r) == attempted(
                js_set(old(self)@, steps_of(path@).skip(from as int), v@, json5, eol@),
            ),
        decreases path.len() - from,
    {
        let ghost all = steps_of(path@);
        let ghost n = self@;
        if from == path.len() {
            check_writable(v, json5)?;
            let node = replacement_node(self, v, json5);
            *self = node;
            return Ok(());
        }
        assert(all.skip(from as int)[0] == path@[from as int]@);
        assert(all.skip(from as int).drop_first() =~= all.skip(from + 1));
        let i = match self.step(&path[from]) {
            None => {
                return self.create(path, from, v, json5, eol);
            },
            Some(i) => i,
        };
        match self {
            Json::Object(pre, es) => {
                let ghost e0 = ens(es@);
                assert(e0[i as int] == es@[i as int]@);
                let r = es[i].value.set(path, from + 1, v, json5, eol);
                assert(ens(es@) =~= e0.update(
                    i as int,
                    En { value: es@[i as int].value@, ..e0[i as int] },
                ));
                assert(r is Err ==> ens(es@) =~= e0);
                r
            },
            Json::Array(pre, es) => {
                let ghost e0 = ens(es@);
                assert(e0[i as int] == es@[i as int]@);
                let r = es[i].value.set(path, from + 1, v, json5, eol);
                assert(ens(es@) =~= e0.update(
                    i as int,
                    En { value: es@[i as int].value@, ..e0[i as int] },
                ));
                assert(r is Err ==> ens(es@) =~= e0);
                r
            },
            Json::Scalar(_) => Ok(()),
        }
    }
}

/// An array with items appended.
pub open spec fn with_items(n: Js, items: Seq<Val>, json5: bool, eol: Seq<char>) -> Result<Js, Er> {
    match n {
        Js::Array(pre, es) => match writable(Val::Array(items), json5) {
            Err(e) => Err(e),
            Ok(_) => {
                let (p, all) = appended(pre, es, fresh_items_bare(items, json5), eol);
                Ok(Js::Array(p, all))
            },
        },
        _ => Err(fail("`+= [..]` target is not an array"@)),
    }
}

/// Items as fresh entries, without separators.
pub open spec fn fresh_items_bare(items: Seq<Val>, json5: bool) -> Seq<En> {
    Seq::new(
        items.len(),
        |i: int|
            En { key: None, value: fresh(items[i], json5), comma: None, after: no_tokens() },
    )
}

/// The node with items appended to the array at a path.
pub open spec fn js_append(n: Js, path: Seq<St>, items: Seq<Val>, json5: bool, eol: Seq<char>) -> Result<
    Js,
    Er,
>
    decreases path.len(),
{
    if path.len() == 0 {
        with_items(n, items, json5, eol)
    } else {
        match child(n, path[0]) {
            Some(i) => match js_append(
                entries_of(n)[i].value,
                path.drop_first(),
                items,
                json5,
                eol,
            ) {
                Err(e) => Err(e),
                Ok(x) => Ok(with_value_at(n, i, x)),
            },
            None => Err(fail("path not found"@)),
        }
    }
}

impl Json {
    #[verifier::loop_isolation(false)]
    fn extend(&mut self, items: &Vec<Value>, json5: bool, eol: &str) -> (r: Result<(), EditError>)
        ensures
            final(self)@ == after_attempt(
                old(self)@,
                with_items(old(self)@, vals(items@), json5, eol@),
            ),
            done(r) == attempted(with_items(old(self)@, vals(items@), json5, eol@)),
    {
        match self {
            Json::Array(pre, es) => {
                let mut i: usize = 0;
                let ghost all = vals(items@);
                while i < items.len()
                    invariant
                        i <= items.len(),
                        all == vals(items@),
                        !json5 ==> forall|k: int|
                            0 <= k < i ==> !crate::convert::holds_non_finite(#[trigger] all[k]),
                    decreases items.len() - i,
                {
                    assert(all[i as int] == items@[i as int]@);
                    if let Err(e) = check_writable(&items[i], json5) {
                        proof {
                            assert(crate::convert::holds_non_finite(all[i as int]));
                            assert(crate::convert::element_non_finite(all));
                        }
                        return Err(e);
                    }
                    i = i + 1;
                }
                assert(!json5 ==> !crate::convert::element_non_finite(all));
                let mut new: Vec<Entry> = Vec::new();
                let ghost want = fresh_items_bare(all, json5);
                let mut k: usize = 0;
                assert(ens(new@) =~= want.take(0));
                while k < items.len()
                    invariant
                        k <= items.len(),
                        all == vals(items@),
                        want == fresh_items_bare(all, json5),
                        ens(new@) == want.take(k as int),
                    decreases items.len() - k,
                {
                    assert(all[k as int] == items@[k as int]@);
                    let value = fresh_node(&items[k], json5);
                    new.push(Entry { key: None, value, comma: None, after: nothing() });
                    assert(ens(new@) =~= want.take(k + 1));
                    k = k + 1;
                }
                assert(want.take(k as int) =~= want);
                append_entries(pre, es, new, eol);
                Ok(())
            },
            _ => Err(EditError::new("`+= [..]` target is not an array")),
        }
    }

    /// Append to the array at the path's steps from `from` on.
    pub fn append(&mut self, path: &Vec<Step>, from: usize, items: &Vec<Value>, json5: bool, eol: &str) -> (r: Result<
        (),
        EditError,
    >)
        requires
            from <= path.len(),
        ensures
            final(self)@ == after_attempt(
                old(self)@,
                js_append(old(self)@, steps_of(path@).skip(from as int), vals(items@), json5, eol@),
            ),
            done(r) == attempted(
                js_append(old(self)@, steps_of(path@).skip(from as int), vals(items@), json5, eol@),
            ),
        decreases path.len() - from,
    {
        let ghost all = steps_of(path@);
        if from == path.len() {
            return self.extend(items, json5, eol);
        }
        assert(all.skip(from as int)[0] == path@[from as int]@);
        assert(all.skip(from as int).drop_first() =~= all.skip(from + 1));
        let i = match self.step(&path[from]) {
            None => {
                return Err(EditError::new("path not found"));
            },
            Some(i) => i,
        };
        match self {
            Json::Object(pre, es) => {
                let ghost e0 = ens(es@);
                assert(e0[i as int] == es@[i as int]@);
                let r = es[i].value.append(path, from + 1, items, json5, eol);
                assert(ens(es@) =~= e0.update(
                    i as int,
                    En { value: es@[i as int].value@, ..e0[i as int] },
                ));
                assert(r is Err ==> ens(es@) =~= e0);
                r
            },
            Json::Array(pre, es) => {
                let ghost e0 = ens(es@);
                assert(e0[i as int] == es@[i as int]@);
                let r = es[i].value.append(path, from + 1, items, json5, eol);
                assert(ens(es@) =~= e0.update(
                    i as int,
                    En { value: es@[i as int].value@, ..e0[i as int] },
                ));
                assert(r is Err ==> ens(es@) =~= e0);
                r
            },
            Json::Scalar(_) => Ok(()),
        }
    }
}

/// The trivia in front of entry `i`.
pub open spec fn before(pre: Seq<Jt>, es: Seq<En>, i: int) -> Seq<Jt> {
    if i == 0 {
        pre
    } else {
        es[i - 1].after
    }
}

/// Two runs of trivia as one: whitespace that meets whitespace is one token.
pub open spec fn glued(a: Seq<Jt>, b: Seq<Jt>) -> Seq<Jt> {
    if a.len() > 0 && b.len() > 0 && a.last().kind == Tok::Ws && b[0].kind == Tok::Ws {
        a.drop_last() + seq![Jt { kind: Tok::Ws, text: a.last().text + b[0].text }] + b.skip(1)
    } else {
        a + b
    }
}

/// Trivia in front of an entry and behind it, with the entry gone: the whitespace in
/// front of it goes too, but for a line break that ends a line comment.
pub open spec fn closed_up(lead: Seq<Jt>, after: Seq<Jt>) -> Seq<Jt> {
    let bare = unspaced(lead);
    if bare.len() > 0 && bare.last().kind == Tok::LineComment {
        if after.len() > 0 && after[0].kind == Tok::Ws && starts(after[0].text, "\n"@) {
            bare + after
        } else if after.len() > 0 && after[0].kind == Tok::Ws && starts(after[0].text, "\r\n"@) {
            // The comment reaches up to the line feed.
            bare + seq![Jt { kind: Tok::Ws, text: after[0].text.skip(1) }] + after.skip(1)
        } else {
            glued(lead, after)
        }
    } else {
        bare + after
    }
}

/// A container's leading trivia and entries without entry `i`, and with other
/// trivia where it stood.
pub open spec fn without_entry(pre: Seq<Jt>, es: Seq<En>, i: int, trivia: Seq<Jt>) -> (
    Seq<Jt>,
    Seq<En>,
) {
    if i == 0 {
        (trivia, es.remove(0))
    } else {
        (pre, es.update(i - 1, En { after: trivia, ..es[i - 1] }).remove(i))
    }
}

/// An object without member `i`: its line goes with it. The last member has no
/// comma of its own, so the one in front of it would be left dangling and goes
/// too; a trailing comma keeps the style.
pub open spec fn without_member(pre: Seq<Jt>, es: Seq<En>, i: int) -> (Seq<Jt>, Seq<En>) {
    let e = es[i];
    let trivia = closed_up(before(pre, es, i), e.after);
    if i > 0 && i == es.len() - 1 && e.comma is None && es[i - 1].comma is Some {
        let prev = En { comma: None, ..es[i - 1] };
        without_entry(pre, es.update(i - 1, prev), i, glued(es[i - 1].comma->0, trivia))
    } else {
        without_entry(pre, es, i, trivia)
    }
}

/// Trivia, unless it is whitespace alone.
pub open spec fn worded(ts: Seq<Jt>) -> Seq<Jt> {
    if unspaced(ts).len() == 0 {
        no_tokens()
    } else {
        ts
    }
}

/// An array without element `i` and exactly one separator. The last element has no
/// comma of its own, so the one in front of it goes.
pub open spec fn without_element(pre: Seq<Jt>, es: Seq<En>, i: int) -> (Seq<Jt>, Seq<En>) {
    let e = es[i];
    let lead = before(pre, es, i);
    let behind_comma = i > 0 && unspaced(lead).len() == 0 && es[i - 1].comma is Some;
    match e.comma {
        Some(c) => if unspaced(c).len() == 0 || !behind_comma {
            without_entry(pre, es, i, glued(lead, worded(c)) + unled(e.after))
        } else {
            let prev = En { comma: Some(glued(es[i - 1].comma->0, c)), ..es[i - 1] };
            without_entry(pre, es.update(i - 1, prev), i, e.after)
        },
        None => if i > 0 && es[i - 1].comma is Some {
            let prev = En { comma: None, ..es[i - 1] };
            without_entry(
                pre,
                es.update(i - 1, prev),
                i,
                glued(es[i - 1].comma->0, closed_up(lead, e.after)),
            )
        } else {
            without_entry(pre, es, i, closed_up(lead, e.after))
        },
    }
}

/// The node without the entry a step leads to; a step that leads nowhere changes
/// nothing.
pub open spec fn without_child(n: Js, st: St) -> Result<Js, Er> {
    match st {
        St::Comment(_) => Err(
            fail(
                "deleting comments (`#`): the comment step must end the path and be deleted on its own, e.g. `del(.foo.#)`"@,
            ),
        ),
        _ => match child(n, st) {
            None => Ok(n),
            Some(i) => match n {
                Js::Object(pre, es) => {
                    let (p, all) = without_member(pre, es, i);
                    Ok(Js::Object(p, all))
                },
                Js::Array(pre, es) => {
                    let (p, all) = without_element(pre, es, i);
                    Ok(Js::Array(p, all))
                },
                Js::Scalar(_) => Ok(n),
            },
        },
    }
}

/// The node with the value at a path deleted. A missing key or an index out of
/// range changes nothing.
pub open spec fn js_delete(n: Js, path: Seq<St>) -> Result<Js, Er>
    decreases path.len(),
{
    if path.len() == 0 {
        Err(fail("del(.) is not allowed"@))
    } else if path.len() == 1 {
        without_child(n, path[0])
    } else {
        match child(n, path[0]) {
            None => Ok(n),
            Some(i) => match js_delete(entries_of(n)[i].value, path.drop_first()) {
                Err(e) => Err(e),
                Ok(x) => Ok(with_value_at(n, i, x)),
            },
        }
    }
}

fn take_out(pre: &mut Vec<Token>, es: &mut Vec<Entry>, i: usize, trivia: Vec<Token>)
    requires
        i < old(es).len(),
    ensures
        (jts(final(pre)@), ens(final(es)@)) == without_entry(
            jts(old(pre)@),
            ens(old(es)@),
            i as int,
            jts(trivia@),
        ),
{
    let ghost all = ens(es@);
    let ghost t = jts(trivia@);
    if i == 0 {
        *pre = trivia;
        let _ = es.remove(0);
        assert(ens(es@) =~= all.remove(0));
    } else {
        assert(all[i - 1] == es@[i - 1]@);
        es[i - 1].after = trivia;
        assert(ens(es@) =~= all.update(i - 1, En { after: t, ..all[i - 1] }));
        let ghost now = ens(es@);
        let _ = es.remove(i);
        assert(ens(es@) =~= now.remove(i as int));
    }
}

fn tokens_before(pre: &Vec<Token>, es: &Vec<Entry>, i: usize) -> (r: Vec<Token>)
    requires
        i <= es.len(),
    ensures
        jts(r@) == before(jts(pre@), ens(es@), i as int),
{
    if i == 0 {
        copy_all(pre)
    } else {
        assert(ens(es@)[i - 1] == es@[i - 1]@);
        copy_all(&es[i - 1].after)
    }
}

/// Set the comma of an entry.
fn recomma(es: &mut Vec<Entry>, i: usize, comma: Option<Vec<Token>>)
    requires
        i < old(es).len(),
    ensures
        ens(final(es)@) == ens(old(es)@).update(
            i as int,
            En { comma: opt_comma(comma), ..ens(old(es)@)[i as int] },
        ),
        final(es).len() == old(es).len(),
{
    let ghost all = ens(es@);
    let ghost c = opt_comma(comma);
    assert(all[i as int] == es@[i as int]@);
    es[i].comma = comma;
    assert(ens(es@) =~= all.update(i as int, En { comma: c, ..all[i as int] }));
}

fn comma_of(es: &Vec<Entry>, i: usize) -> (r: Option<Vec<Token>>)
    requires
        i < es.len(),
    ensures
        opt_comma(r) == ens(es@)[i as int].comma,
{
    assert(ens(es@)[i as int] == es@[i as int]@);
    match &es[i].comma {
        Some(c) => Some(copy_all(c)),
        None => None,
    }
}

fn trivia_after(es: &Vec<Entry>, i: usize) -> (r: Vec<Token>)
    requires
        i < es.len(),
    ensures
        jts(r@) == ens(es@)[i as int].after,
{
    assert(ens(es@)[i as int] == es@[i as int]@);
    copy_all(&es[i].after)
}

/// Put a run of trivia behind another, as one run.
fn fuse(ts: &mut Vec<Token>, more: Vec<Token>)
    ensures
        jts(final(ts)@) == glued(jts(old(ts)@), jts(more@)),
{
    let mut more = more;
    let ghost a = jts(ts@);
    let ghost b = jts(more@);
    let n: usize = ts.len();
    assert(n > 0 ==> a.last() == ts@[n - 1]@);
    assert(more.len() > 0 ==> b[0] == more@[0]@);
    if n > 0 && more.len() > 0 && ts[n - 1].kind == Tok::Ws && more[0].kind == Tok::Ws {
        let first = more.remove(0);
        assert(jts(more@) =~= b.skip(1));
        if let Some(last) = ts.pop() {
            assert(jts(ts@) =~= a.drop_last());
            let mut text = last.text;
            text.append(&first.text);
            ts.push(Token { kind: Tok::Ws, text });
            assert(jts(ts@) =~= a.drop_last() + seq![
                Jt { kind: Tok::Ws, text: a.last().text + b[0].text },
            ]);
        }
    }
    join(ts, more);
}

/// Does the token open with a text of whitespace?
fn opens_with(t: &Token, text: &str) -> (r: bool)
    ensures
        r == (t@.kind == Tok::Ws && starts(t@.text, text@)),
{
    t.kind == Tok::Ws && crate::builtins::begins(&chars_of(&t.text), &chars_of(text))
}

/// The trivia around an entry, with the entry gone.
fn close_up(lead: Vec<Token>, after: Vec<Token>) -> (r: Vec<Token>)
    ensures
        jts(r@) == closed_up(jts(lead@), jts(after@)),
{
    let mut bare = copy_all(&lead);
    let _ = cut_space(&mut bare);
    let n: usize = bare.len();
    assert(n > 0 ==> jts(bare@).last() == bare@[n - 1]@);
    assert(after.len() > 0 ==> jts(after@)[0] == after@[0]@);
    if n > 0 && bare[n - 1].kind == Tok::LineComment {
        if after.len() > 0 && opens_with(&after[0], "\n") {
            join(&mut bare, after);
            return bare;
        }
        if after.len() > 0 && opens_with(&after[0], "\r\n") {
            let mut rest = after;
            let ghost all = jts(rest@);
            let first = rest.remove(0);
            assert(jts(rest@) =~= all.skip(1));
            let cs = chars_of(&first.text);
            proof {
                reveal_strlit("\r\n");
            }
            let text = slice_text(&cs, 1, cs.len());
            assert(text@ =~= all[0].text.skip(1));
            let ghost front = jts(bare@);
            bare.push(Token { kind: Tok::Ws, text });
            assert(jts(bare@) =~= front + seq![Jt { kind: Tok::Ws, text: all[0].text.skip(1) }]);
            join(&mut bare, rest);
            return bare;
        }
        let mut all = lead;
        fuse(&mut all, after);
        return all;
    }
    join(&mut bare, after);
    bare
}

/// Take a member out together with the whitespace before it (its line indent),
/// so the whole line disappears. The member owns its trailing comma, so that goes
/// with it.
///
/// Deleting the *last* member is the tricky case: that member carries no comma of
/// its own, so the *previous* member's separator comma would be left dangling
/// before `}`, invalid in strict JSON, and is taken out too. A last member that
/// *does* own a trailing comma is trailing-comma style; there the previous comma
/// stays so that style is preserved.
fn delete_member(pre: &mut Vec<Token>, es: &mut Vec<Entry>, i: usize)
    requires
        i < old(es).len(),
    ensures
        (jts(final(pre)@), ens(final(es)@)) == without_member(
            jts(old(pre)@),
            ens(old(es)@),
            i as int,
        ),
{
    let trivia = close_up(tokens_before(pre, es, i), trivia_after(es, i));
    if i > 0 && i == es.len() - 1 && comma_of(es, i).is_none() {
        if let Some(c) = comma_of(es, i - 1) {
            let mut all = c;
            fuse(&mut all, trivia);
            recomma(es, i - 1, None);
            take_out(pre, es, i, all);
            return;
        }
    }
    take_out(pre, es, i, trivia);
}

/// Take an array element out with exactly one comma+whitespace separator, so no
/// dangling comma or doubled space is left.
fn delete_element(pre: &mut Vec<Token>, es: &mut Vec<Entry>, i: usize)
    requires
        i < old(es).len(),
    ensures
        (jts(final(pre)@), ens(final(es)@)) == without_element(
            jts(old(pre)@),
            ens(old(es)@),
            i as int,
        ),
{
    let mut lead = tokens_before(pre, es, i);
    let mut bare = copy_all(&lead);
    let _ = cut_space(&mut bare);
    let prev = if i > 0 && bare.len() == 0 {
        comma_of(es, i - 1)
    } else {
        None
    };
    let mut after = trivia_after(es, i);
    match comma_of(es, i) {
        Some(c) => {
            let mut c = c;
            let mut words = copy_all(&c);
            let _ = cut_space(&mut words);
            let blank = words.len() == 0;
            match prev {
                Some(p) => {
                    if !blank {
                        let mut both = p;
                        fuse(&mut both, c);
                        recomma(es, i - 1, Some(both));
                        take_out(pre, es, i, after);
                        return;
                    }
                },
                None => {},
            }
            if blank {
                c = nothing();
            }
            cut_lead(&mut after);
            fuse(&mut lead, c);
            join(&mut lead, after);
            take_out(pre, es, i, lead);
        },
        None => {
            let trivia = close_up(lead, after);
            if i > 0 {
                if let Some(p) = comma_of(es, i - 1) {
                    let mut all = p;
                    fuse(&mut all, trivia);
                    recomma(es, i - 1, None);
                    take_out(pre, es, i, all);
                    return;
                }
            }
            take_out(pre, es, i, trivia);
        },
    }
}

impl Json {
    fn drop_child(&mut self, st: &Step) -> (r: Result<(), EditError>)
        ensures
            final(self)@ == after_attempt(old(self)@, without_child(old(self)@, st@)),
            done(r) == attempted(without_child(old(self)@, st@)),
    {
        if let Step::Comment(_) = st {
            return Err(
                EditError::new(
                    "deleting comments (`#`): the comment step must end the path and be deleted on its own, e.g. `del(.foo.#)`",
                ),
            );
        }
        let i = match self.step(st) {
            None => {
                return Ok(());
            },
            Some(i) => i,
        };
        match self {
            Json::Object(pre, es) => {
                delete_member(pre, es, i);
            },
            Json::Array(pre, es) => {
                delete_element(pre, es, i);
            },
            Json::Scalar(_) => {},
        }
        Ok(())
    }

    /// Delete the value at the path's steps from `from` on.
    pub fn delete(&mut self, path: &Vec<Step>, from: usize) -> (r: Result<(), EditError>)
        requires
            from <= path.len(),
        ensures
            final(self)@ == after_attempt(
                old(self)@,
                js_delete(old(self)@, steps_of(path@).skip(from as int)),
            ),
            done(r) == attempted(js_delete(old(self)@, steps_of(path@).skip(from as int))),
        decreases path.len() - from,
    {
        let ghost all = steps_of(path@);
        if from == path.len() {
            return Err(EditError::new("del(.) is not allowed"));
        }
        assert(all.skip(from as int)[0] == path@[from as int]@);
        assert(all.skip(from as int).drop_first() =~= all.skip(from + 1));
        if path.len() - from == 1 {
            return self.drop_child(&path[from]);
        }
        let i = match self.step(&path[from]) {
            None => {
                return Ok(());
            },
            Some(i) => i,
        };
        match self {
            Json::Object(pre, es) => {
                let ghost e0 = ens(es@);
                assert(e0[i as int] == es@[i as int]@);
                let r = es[i].value.delete(path, from + 1);
                assert(ens(es@) =~= e0.update(
                    i as int,
                    En { value: es@[i as int].value@, ..e0[i as int] },
                ));
                assert(r is Err ==> ens(es@) =~= e0);
                r
            },
            Json::Array(pre, es) => {
                let ghost e0 = ens(es@);
                assert(e0[i as int] == es@[i as int]@);
                let r = es[i].value.delete(path, from + 1);
                assert(ens(es@) =~= e0.update(
                    i as int,
                    En { value: es@[i as int].value@, ..e0[i as int] },
                ));
                assert(r is Err ==> ens(es@) =~= e0);
                r
            },
            Json::Scalar(_) => Ok(()),
        }
    }
}

} // verus!
