//! String builtins: the regex family (`test`, `match`, `capture`, `sub`,
//! `gsub`) plus `split` and `join`.
//!
//! jq-named and jq-shaped: `match` yields jq's match objects (`offset` /
//! `length` / `string` / `captures`, with codepoint offsets), flags are jq's
//! (`i`, `x`, plus `s`/`m`, and `g` for global), and no match means an empty
//! stream. Captures are spliced into replacements as `$1` / `$name`.
use crate::arith::out;
use crate::error::{fail, Er, EvalError};
use crate::model::{group_value_views, members, opt_text, vals, Val, Value};
use crate::regexes::{
    group_names, match_spans, matches_text, opt_texts, pieces, refusal, regex_matches, regex_names,
    regex_pieces, regex_refusal, regex_replaced, regex_replaced_all, regex_spans, replace_every, replace_first,
    span_seqs, Options, Spans,
};
use crate::seqs::{joined, joined_step, map_all, map_step, map_stop};
use crate::strs::{chars_of, code, slice_text};
use crate::value::{raw_text, texts, type_text};
use vstd::prelude::*;
use vstd::string::*;

verus! {

broadcast use group_value_views;

/// The bytes a character takes in UTF-8.
pub open spec fn utf8_width(c: char) -> int {
    if (c as int) < 0x80 {
        1
    } else if (c as int) < 0x800 {
        2
    } else if (c as int) < 0x10000 {
        3
    } else {
        4
    }
}

/// From position `i` on, how far the characters fit in `bytes` bytes.
pub open spec fn fitting(s: Seq<char>, bytes: int, i: int) -> int
    decreases s.len() - i,
{
    if i >= s.len() || utf8_width(s[i]) > bytes {
        i
    } else {
        fitting(s, bytes - utf8_width(s[i]), i + 1)
    }
}

/// The number of characters in the first `bytes` bytes of `s`.
pub open spec fn char_count(s: Seq<char>, bytes: int) -> int {
    fitting(s, bytes, 0)
}

/// The characters between two byte offsets.
pub open spec fn byte_slice(s: Seq<char>, from: int, to: int) -> Seq<char> {
    let a = char_count(s, from);
    let b = char_count(s, to);
    if a <= b {
        s.subrange(a, b)
    } else {
        Seq::empty()
    }
}

/// What flags say so far: the options, and whether `g` is among them.
pub open spec fn flags_val(flags: Seq<char>) -> Result<(Options, bool), Er>
    decreases flags.len(),
{
    if flags.len() == 0 {
        Ok(
            (
                Options { ignore_case: false, verbose: false, dot_all: false, multi_line: false },
                false,
            ),
        )
    } else {
        match flags_val(flags.drop_last()) {
            Err(e) => Err(e),
            Ok((o, g)) => {
                let f = flags.last();
                if f == 'g' {
                    Ok((o, true))
                } else if f == 'i' {
                    Ok((Options { ignore_case: true, ..o }, g))
                } else if f == 'x' {
                    Ok((Options { verbose: true, ..o }, g))
                } else if f == 's' {
                    Ok((Options { dot_all: true, ..o }, g))
                } else if f == 'm' {
                    Ok((Options { multi_line: true, ..o }, g))
                } else {
                    Err(fail("unknown regex flag `"@ + seq![f] + "` (expected g, i, x, s, m)"@))
                }
            },
        }
    }
}

/// The options of a pattern that compiles under jq-style flags, and whether to
/// go on after the first match.
pub open spec fn build_val(re: Seq<char>, flags: Seq<char>) -> Result<(Options, bool), Er> {
    match flags_val(flags) {
        Err(e) => Err(e),
        Ok((o, g)) => match regex_refusal(re, o) {
            Some(m) => Err(fail("invalid regex: "@ + m)),
            None => Ok((o, g)),
        },
    }
}

/// A text value.
pub open spec fn opt_str(s: Option<Seq<char>>) -> Val {
    match s {
        Some(t) => Val::Str(t),
        None => Val::Null,
    }
}

/// The name of group `i`.
pub open spec fn name_val(names: Seq<Option<Seq<char>>>, i: int) -> Val {
    if 0 <= i < names.len() {
        opt_str(names[i])
    } else {
        Val::Null
    }
}

/// The text of a span.
pub open spec fn span_val(s: Seq<char>, span: Option<(usize, usize)>) -> Val {
    match span {
        Some((a, b)) => Val::Str(byte_slice(s, a as int, b as int)),
        None => Val::Null,
    }
}

/// Offset, length and string of a span, in characters; an absent span is at -1.
pub open spec fn span_members(s: Seq<char>, span: Option<(usize, usize)>) -> Seq<(Seq<char>, Val)> {
    match span {
        Some((a, b)) => seq![
            ("offset"@, Val::Int(char_count(s, a as int) as i64)),
            ("length"@, Val::Int(byte_slice(s, a as int, b as int).len() as i64)),
            ("string"@, span_val(s, span)),
        ],
        None => seq![
            ("offset"@, Val::Int(-1i64)),
            ("length"@, Val::Int(0)),
            ("string"@, Val::Null),
        ],
    }
}

/// One group of a jq match object.
pub open spec fn group_val(
    s: Seq<char>,
    names: Seq<Option<Seq<char>>>,
    spans: Seq<Option<(usize, usize)>>,
    i: int,
) -> Val {
    Val::Object(span_members(s, spans[i]).push(("name"@, name_val(names, i))))
}

/// One jq match object: codepoint offsets, the matched string, and every
/// capture group (unmatched groups: offset -1, string null, jq's convention).
pub open spec fn match_val(
    s: Seq<char>,
    names: Seq<Option<Seq<char>>>,
    spans: Seq<Option<(usize, usize)>>,
) -> Val {
    Val::Object(
        span_members(s, spans[0]).push(
            (
                "captures"@,
                Val::Array(
                    Seq::new(
                        (spans.len() - 1) as nat,
                        |i: int| group_val(s, names, spans, i + 1),
                    ),
                ),
            ),
        ),
    )
}

/// The named groups among the first `n`, in order.
pub open spec fn named_groups(
    s: Seq<char>,
    names: Seq<Option<Seq<char>>>,
    spans: Seq<Option<(usize, usize)>>,
    n: nat,
) -> Seq<(Seq<char>, Val)>
    decreases n,
{
    if n == 0 {
        Seq::empty()
    } else {
        let before = named_groups(s, names, spans, (n - 1) as nat);
        match names[n - 1] {
            Some(name) => before.push(
                (
                    name,
                    if n - 1 < spans.len() {
                        span_val(s, spans[n - 1])
                    } else {
                        Val::Null
                    },
                ),
            ),
            None => before,
        }
    }
}

/// An object of the named captures; unmatched named groups are null.
pub open spec fn capture_val(
    s: Seq<char>,
    names: Seq<Option<Seq<char>>>,
    spans: Seq<Option<(usize, usize)>>,
) -> Val {
    Val::Object(named_groups(s, names, spans, names.len()))
}

/// The matches to report: all of them, or the first.
pub open spec fn chosen<A>(s: Seq<A>, global: bool) -> Seq<A> {
    if global || s.len() == 0 {
        s
    } else {
        s.take(1)
    }
}

/// `test(re; flags)`.
pub open spec fn test_val(s: Seq<char>, re: Seq<char>, flags: Seq<char>) -> Result<Val, Er> {
    match build_val(re, flags) {
        Err(e) => Err(e),
        Ok((o, _)) => Ok(Val::Bool(regex_matches(re, o, s))),
    }
}

/// `match(re; flags)`.
pub open spec fn find_val(s: Seq<char>, re: Seq<char>, flags: Seq<char>) -> Result<Seq<Val>, Er> {
    match build_val(re, flags) {
        Err(e) => Err(e),
        Ok((o, g)) => Ok(
            chosen(regex_spans(re, o, s), g).map_values(
                |spans: Seq<Option<(usize, usize)>>| match_val(s, regex_names(re, o), spans),
            ),
        ),
    }
}

/// `capture(re; flags)`.
pub open spec fn captures_val(s: Seq<char>, re: Seq<char>, flags: Seq<char>) -> Result<Seq<Val>, Er> {
    match build_val(re, flags) {
        Err(e) => Err(e),
        Ok((o, g)) => Ok(
            chosen(regex_spans(re, o, s), g).map_values(
                |spans: Seq<Option<(usize, usize)>>| capture_val(s, regex_names(re, o), spans),
            ),
        ),
    }
}

/// `sub(re; repl; flags)`.
pub open spec fn sub_val(s: Seq<char>, re: Seq<char>, repl: Seq<char>, flags: Seq<char>) -> Result<
    Val,
    Er,
> {
    match build_val(re, flags) {
        Err(e) => Err(e),
        Ok((o, g)) => Ok(
            Val::Str(
                if g {
                    regex_replaced_all(re, o, s, repl)
                } else {
                    regex_replaced(re, o, s, repl)
                },
            ),
        ),
    }
}

/// The first position at or after `i` where `sep` stands.
pub open spec fn find_sep(s: Seq<char>, sep: Seq<char>, i: int) -> Option<int>
    decreases s.len() - i + 1,
{
    if i + sep.len() > s.len() {
        None
    } else if s.subrange(i, i + sep.len()) == sep {
        Some(i)
    } else {
        find_sep(s, sep, i + 1)
    }
}

/// The pieces of `s` from `i` on, cut at each `sep` in turn.
pub open spec fn cut_from(s: Seq<char>, sep: Seq<char>, i: int) -> Seq<Seq<char>>
    decreases s.len() - i, 0int,
    when 0 <= i <= s.len() && sep.len() > 0
    via cut_decreases
{
    match find_sep(s, sep, i) {
        Some(j) => seq![s.subrange(i, j)] + cut_from(s, sep, j + sep.len()),
        None => seq![s.subrange(i, s.len() as int)],
    }
}

#[via_fn]
proof fn cut_decreases(s: Seq<char>, sep: Seq<char>, i: int) {
    find_sep_bounds(s, sep, i);
}

/// A separator found lies in the text, at or after the start.
pub proof fn find_sep_bounds(s: Seq<char>, sep: Seq<char>, i: int)
    requires
        0 <= i,
    ensures
        match find_sep(s, sep, i) {
            Some(j) => i <= j && j + sep.len() <= s.len() && s.subrange(j, j + sep.len()) == sep,
            None => true,
        },
    decreases s.len() - i + 1,
{
    if i + sep.len() <= s.len() && s.subrange(i, i + sep.len()) != sep {
        find_sep_bounds(s, sep, i + 1);
    }
}

/// The pieces of `s` between occurrences of `sep`; an empty separator stands
/// before every character and at the end.
pub open spec fn cut(s: Seq<char>, sep: Seq<char>) -> Seq<Seq<char>> {
    if sep.len() == 0 {
        seq![Seq::<char>::empty()] + Seq::new(s.len(), |i: int| seq![s[i]]).push(Seq::empty())
    } else {
        cut_from(s, sep, 0)
    }
}

/// An array of strings.
pub open spec fn str_array(parts: Seq<Seq<char>>) -> Val {
    Val::Array(parts.map_values(|p: Seq<char>| Val::Str(p)))
}

/// `split(sep)`, or `split(re; flags)`.
pub open spec fn split_val(s: Seq<char>, sep: Seq<char>, flags: Option<Seq<char>>) -> Result<Val, Er> {
    match flags {
        None => Ok(str_array(cut(s, sep))),
        Some(f) => match build_val(sep, f) {
            Err(e) => Err(e),
            Ok((o, _)) => Ok(str_array(regex_pieces(sep, o, s))),
        },
    }
}

/// How `join` spells one item.
pub open spec fn join_item(v: Val) -> Result<Seq<char>, Er> {
    match v {
        Val::Null => Ok(Seq::empty()),
        Val::Array(_) => Err(fail("cannot join a "@ + type_text(v))),
        Val::Object(_) => Err(fail("cannot join a "@ + type_text(v))),
        _ => Ok(raw_text(v)),
    }
}

pub open spec fn join_fn() -> spec_fn(Val) -> Result<Seq<char>, Er> {
    |v: Val| join_item(v)
}

/// `join(sep)`: stringify scalars, render null as empty, reject containers.
pub open spec fn join_val(items: Seq<Val>, sep: Seq<char>) -> Result<Val, Er> {
    match map_all(items, join_fn()) {
        Err(e) => Err(e),
        Ok(parts) => Ok(Val::Str(joined(parts, sep))),
    }
}

/// The view of an evaluation's stream.
pub open spec fn outs(r: Result<Vec<Value>, EvalError>) -> Result<Seq<Val>, Er> {
    match r {
        Ok(v) => Ok(vals(v@)),
        Err(e) => Err(e@),
    }
}

/// The bytes a character takes in UTF-8.
pub fn width(c: char) -> (r: usize)
    ensures
        r == utf8_width(c),
{
    let n: u32 = code(c);
    if n < 0x80 {
        1
    } else if n < 0x800 {
        2
    } else if n < 0x10000 {
        3
    } else {
        4
    }
}

/// jq offsets are codepoints, the regex crate's are bytes: the characters in
/// the first `byte` bytes.
pub fn char_offset(cs: &[char], byte: usize) -> (r: usize)
    ensures
        r == char_count(cs@, byte as int),
        r <= cs.len(),
{
    let mut i: usize = 0;
    let mut left: usize = byte;
    while i < cs.len()
        invariant
            i <= cs.len(),
            fitting(cs@, byte as int, 0) == fitting(cs@, left as int, i as int),
        decreases cs.len() - i,
    {
        let w = width(cs[i]);
        if w > left {
            return i;
        }
        left = left - w;
        i = i + 1;
    }
    i
}

fn byte_text(cs: &[char], from: usize, to: usize) -> (r: String)
    ensures
        r@ == byte_slice(cs@, from as int, to as int),
{
    let a = char_offset(cs, from);
    let b = char_offset(cs, to);
    if a <= b {
        slice_text(cs, a, b)
    } else {
        String::new()
    }
}

/// Compile `re` with jq-style flags. `g` is not a regex option but a behavior
/// switch, so it comes back as a separate bool.
pub fn build(re: &str, flags: &str) -> (r: Result<(Options, bool), EvalError>)
    ensures
        match r {
            Ok(x) => build_val(re@, flags@) == Ok::<(Options, bool), Er>(x),
            Err(e) => build_val(re@, flags@) == Err::<(Options, bool), Er>(e@),
        },
{
    let fs = chars_of(flags);
    let mut o = Options { ignore_case: false, verbose: false, dot_all: false, multi_line: false };
    let mut global = false;
    let mut i: usize = 0;
    while i < fs.len()
        invariant
            i <= fs.len(),
            fs@ == flags@,
            flags_val(fs@.take(i as int)) == Ok::<(Options, bool), Er>((o, global)),
        decreases fs.len() - i,
    {
        let f = fs[i];
        assert(fs@.take(i + 1).drop_last() =~= fs@.take(i as int));
        if f == 'g' {
            global = true;
        } else if f == 'i' {
            o = Options { ignore_case: true, ..o };
        } else if f == 'x' {
            o = Options { verbose: true, ..o };
        } else if f == 's' {
            o = Options { dot_all: true, ..o };
        } else if f == 'm' {
            o = Options { multi_line: true, ..o };
        } else {
            let mut m = "unknown regex flag `".to_owned();
            m.push(f);
            m.append("` (expected g, i, x, s, m)");
            proof {
                assert("unknown regex flag `"@.push(f) =~= "unknown regex flag `"@ + seq![f]);
                flags_stop(fs@, i + 1);
            }
            return Err(EvalError::of(m));
        }
        i = i + 1;
    }
    assert(fs@.take(i as int) =~= flags@);
    match refusal(re, o) {
        Some(t) => {
            let mut m = "invalid regex: ".to_owned();
            m.append(&t);
            Err(EvalError::of(m))
        },
        None => Ok((o, global)),
    }
}

/// An unknown flag met on the way decides the whole.
proof fn flags_stop(fs: Seq<char>, i: int)
    requires
        0 <= i <= fs.len(),
        flags_val(fs.take(i)) is Err,
    ensures
        flags_val(fs) == flags_val(fs.take(i)),
    decreases fs.len() - i,
{
    if i == fs.len() {
        assert(fs.take(i) =~= fs);
    } else {
        assert(fs.take(i + 1).drop_last() =~= fs.take(i));
        flags_stop(fs, i + 1);
    }
}

/// `test(re; flags)`: does the input match?
pub fn test(s: &str, re: &str, flags: &str) -> (r: Result<Value, EvalError>)
    ensures
        out(r) == test_val(s@, re@, flags@),
{
    let (o, _) = build(re, flags)?;
    Ok(Value::Bool(matches_text(re, o, s)))
}

fn span_pairs(cs: &[char], span: Option<(usize, usize)>) -> (r: Vec<(String, Value)>)
    ensures
        members(r@) == span_members(cs@, span),
{
    let mut out: Vec<(String, Value)> = Vec::new();
    match span {
        Some((a, b)) => {
            let x = char_offset(cs, a);
            let y = char_offset(cs, b);
            let n: usize = if x <= y {
                y - x
            } else {
                0
            };
            out.push(("offset".to_owned(), Value::Int(x as i64)));
            out.push(("length".to_owned(), Value::Int(n as i64)));
            out.push(("string".to_owned(), Value::Str(byte_text(cs, a, b))));
        },
        None => {
            out.push(("offset".to_owned(), Value::Int(-1)));
            out.push(("length".to_owned(), Value::Int(0)));
            out.push(("string".to_owned(), Value::Null));
        },
    }
    assert(members(out@) =~= span_members(cs@, span));
    out
}

fn name_value(names: &Vec<Option<String>>, i: usize) -> (r: Value)
    ensures
        r@ == name_val(opt_texts(names@), i as int),
{
    if i < names.len() {
        match &names[i] {
            Some(t) => Value::Str(t.clone()),
            None => Value::Null,
        }
    } else {
        Value::Null
    }
}

/// One jq match object of `cs`, from the pattern's group names and one match's
/// group spans: codepoint offsets, the matched string, and every capture group
/// (unmatched groups: offset -1, string null).
pub fn match_object(cs: &[char], names: &Vec<Option<String>>, spans: &Spans) -> (r: Value)
    requires
        spans.len() > 0,
    ensures
        r@ == match_val(cs@, opt_texts(names@), spans@),
{
    let mut groups: Vec<Value> = Vec::new();
    let ghost all = Seq::new(
        (spans.len() - 1) as nat,
        |i: int| group_val(cs@, opt_texts(names@), spans@, i + 1),
    );
    let mut i: usize = 1;
    while i < spans.len()
        invariant
            1 <= i <= spans.len(),
            all == Seq::new(
                (spans.len() - 1) as nat,
                |i: int| group_val(cs@, opt_texts(names@), spans@, i + 1),
            ),
            vals(groups@) == all.take(i - 1),
        decreases spans.len() - i,
    {
        let mut pairs = span_pairs(cs, spans[i]);
        pairs.push(("name".to_owned(), name_value(names, i)));
        let group = Value::Object(pairs);
        assert(group@ == all[i - 1]);
        groups.push(group);
        assert(all.take(i as int) =~= all.take(i - 1).push(all[i - 1]));
        i = i + 1;
    }
    assert(all.take(i - 1) =~= all);
    let mut pairs = span_pairs(cs, spans[0]);
    pairs.push(("captures".to_owned(), Value::Array(groups)));
    Value::Object(pairs)
}

/// The object of one match's named captures, from the pattern's group names
/// and the match's group spans; unmatched named groups are null.
pub fn capture_object(cs: &[char], names: &Vec<Option<String>>, spans: &Spans) -> (r: Value)
    ensures
        r@ == capture_val(cs@, opt_texts(names@), spans@),
{
    let mut pairs: Vec<(String, Value)> = Vec::new();
    let ghost ns = opt_texts(names@);
    let mut i: usize = 0;
    while i < names.len()
        invariant
            i <= names.len(),
            ns == opt_texts(names@),
            members(pairs@) == named_groups(cs@, ns, spans@, i as nat),
        decreases names.len() - i,
    {
        assert(ns[i as int] == opt_text(names@[i as int]));
        if let Some(name) = &names[i] {
            let v = if i < spans.len() {
                match spans[i] {
                    Some((a, b)) => Value::Str(byte_text(cs, a, b)),
                    None => Value::Null,
                }
            } else {
                Value::Null
            };
            pairs.push((name.clone(), v));
        }
        i = i + 1;
    }
    Value::Object(pairs)
}

/// `match(re; flags)`: jq match objects, one per match (all of them under `g`,
/// else just the first); no match is an empty stream.
pub fn find(s: &str, re: &str, flags: &str) -> (r: Result<Vec<Value>, EvalError>)
    ensures
        outs(r) == find_val(s@, re@, flags@),
{
    let (o, global) = build(re, flags)?;
    let cs = chars_of(s);
    let names = group_names(re, o);
    let found = match_spans(re, o, s);
    let ghost f = |spans: Seq<Option<(usize, usize)>>| match_val(s@, regex_names(re@, o), spans);
    let ghost all = regex_spans(re@, o, s@);
    let mut out: Vec<Value> = Vec::new();
    let mut i: usize = 0;
    while i < found.len() && (global || i == 0)
        invariant
            i <= found.len(),
            !global ==> i <= 1,
            cs@ == s@,
            opt_texts(names@) == regex_names(re@, o),
            span_seqs(found@) == all,
            forall|i: int|
                0 <= i < found.len() ==> (#[trigger] found@[i])@.len() > 0 && found@[i]@[0] is Some,
            f == (|spans: Seq<Option<(usize, usize)>>| match_val(s@, regex_names(re@, o), spans)),
            vals(out@) == all.take(i as int).map_values(f),
        decreases found.len() - i,
    {
        let ghost spans = found@[i as int];
        assert(all[i as int] == found@[i as int]@);
        out.push(match_object(&cs, &names, &found[i]));
        assert(all.take(i + 1).map_values(f) =~= all.take(i as int).map_values(f).push(
            f(all[i as int]),
        ));
        i = i + 1;
    }
    assert(all.take(i as int) =~= chosen(all, global));
    Ok(out)
}

/// `capture(re; flags)`: an object of the named captures, one per match
/// (stream under `g`); unmatched named groups are null.
pub fn capture(s: &str, re: &str, flags: &str) -> (r: Result<Vec<Value>, EvalError>)
    ensures
        outs(r) == captures_val(s@, re@, flags@),
{
    let (o, global) = build(re, flags)?;
    let cs = chars_of(s);
    let names = group_names(re, o);
    let found = match_spans(re, o, s);
    let ghost f = |spans: Seq<Option<(usize, usize)>>| capture_val(s@, regex_names(re@, o), spans);
    let ghost all = regex_spans(re@, o, s@);
    let mut out: Vec<Value> = Vec::new();
    let mut i: usize = 0;
    while i < found.len() && (global || i == 0)
        invariant
            i <= found.len(),
            !global ==> i <= 1,
            cs@ == s@,
            opt_texts(names@) == regex_names(re@, o),
            span_seqs(found@) == all,
            f == (|spans: Seq<Option<(usize, usize)>>| capture_val(s@, regex_names(re@, o), spans)),
            vals(out@) == all.take(i as int).map_values(f),
        decreases found.len() - i,
    {
        assert(all[i as int] == found@[i as int]@);
        out.push(capture_object(&cs, &names, &found[i]));
        assert(all.take(i + 1).map_values(f) =~= all.take(i as int).map_values(f).push(
            f(all[i as int]),
        ));
        i = i + 1;
    }
    assert(all.take(i as int) =~= chosen(all, global));
    Ok(out)
}

/// `sub(re; repl; flags)` / `gsub(re; repl)`: replace the first match (or every
/// match under `g`). `repl` may reference captures as `$1` / `$name`.
pub fn substitute(s: &str, re: &str, repl: &str, flags: &str) -> (r: Result<Value, EvalError>)
    ensures
        out(r) == sub_val(s@, re@, repl@, flags@),
{
    let (o, global) = build(re, flags)?;
    if global {
        Ok(Value::Str(replace_every(re, o, s, repl)))
    } else {
        Ok(Value::Str(replace_first(re, o, s, repl)))
    }
}

fn stands_at(cs: &[char], sep: &[char], i: usize) -> (r: bool)
    requires
        i + sep.len() <= cs.len(),
    ensures
        r == (cs@.subrange(i as int, i + sep.len()) == sep@),
{
    let mut j: usize = 0;
    while j < sep.len()
        invariant
            j <= sep.len(),
            i + sep.len() <= cs.len(),
            forall|k: int| 0 <= k < j ==> cs@[i + k] == #[trigger] sep@[k],
        decreases sep.len() - j,
    {
        if cs[i + j] != sep[j] {
            assert(cs@.subrange(i as int, i + sep.len())[j as int] != sep@[j as int]);
            return false;
        }
        j = j + 1;
    }
    assert(cs@.subrange(i as int, i + sep.len()) =~= sep@);
    true
}

/// The first position at or after `from` where `sep` stands.
pub fn next_sep(cs: &[char], sep: &[char], from: usize) -> (r: Option<usize>)
    requires
        from <= cs.len(),
    ensures
        r is Some <==> find_sep(cs@, sep@, from as int) is Some,
        r is Some ==> r->0 == find_sep(cs@, sep@, from as int)->0 && from <= r->0 && r->0 + sep.len()
            <= cs.len(),
{
    if sep.len() > cs.len() {
        return None;
    }
    let mut i: usize = from;
    while i <= cs.len() - sep.len()
        invariant
            from <= i <= cs.len(),
            sep.len() <= cs.len(),
            find_sep(cs@, sep@, from as int) == find_sep(cs@, sep@, i as int),
        decreases cs.len() - i,
    {
        if stands_at(cs, sep, i) {
            return Some(i);
        }
        if i == cs.len() {
            assert(cs@.subrange(i as int, i + sep.len()) =~= sep@);
            return None;
        }
        i = i + 1;
    }
    None
}

fn cut_text(s: &str, sep: &str) -> (r: Vec<String>)
    ensures
        texts(r@) == cut(s@, sep@),
{
    let cs = chars_of(s);
    let ss = chars_of(sep);
    let mut out: Vec<String> = Vec::new();
    if ss.len() == 0 {
        let ghost each = Seq::new(s@.len(), |i: int| seq![s@[i]]);
        out.push(String::new());
        let mut i: usize = 0;
        while i < cs.len()
            invariant
                i <= cs.len(),
                cs@ == s@,
                each == Seq::new(s@.len(), |i: int| seq![s@[i]]),
                texts(out@) == seq![Seq::<char>::empty()] + each.take(i as int),
            decreases cs.len() - i,
        {
            let ghost before = texts(out@);
            let mut t = String::new();
            t.push(cs[i]);
            assert(t@ =~= each[i as int]);
            out.push(t);
            assert(texts(out@) =~= before.push(each[i as int]));
            assert(texts(out@) =~= seq![Seq::<char>::empty()] + each.take(i + 1));
            i = i + 1;
        }
        let ghost before = texts(out@);
        out.push(String::new());
        assert(texts(out@) =~= before.push(Seq::empty()));
        assert(texts(out@) =~= cut(s@, sep@));
        return out;
    }
    let mut i: usize = 0;
    loop
        invariant_except_break
            i <= cs.len(),
            texts(out@) + cut_from(s@, sep@, i as int) == cut_from(s@, sep@, 0),
        invariant
            cs@ == s@,
            ss@ == sep@,
            ss.len() > 0,
        ensures
            texts(out@) == cut_from(s@, sep@, 0),
        decreases cs.len() - i,
    {
        let ghost before = texts(out@);
        match next_sep(&cs, &ss, i) {
            Some(j) => {
                out.push(slice_text(&cs, i, j));
                assert(texts(out@) =~= before.push(s@.subrange(i as int, j as int)));
                assert(texts(out@) + cut_from(s@, sep@, j + ss.len()) =~= before + cut_from(
                    s@,
                    sep@,
                    i as int,
                ));
                i = j + ss.len();
            },
            None => {
                out.push(slice_text(&cs, i, cs.len()));
                assert(texts(out@) =~= before.push(s@.subrange(i as int, s@.len() as int)));
                assert(texts(out@) =~= before + cut_from(s@, sep@, i as int));
                break;
            },
        }
    }
    out
}

/// An array of strings.
pub fn str_values(parts: Vec<String>) -> (r: Value)
    ensures
        r@ == str_array(texts(parts@)),
{
    let mut out: Vec<Value> = Vec::new();
    let ghost all = texts(parts@).map_values(|p: Seq<char>| Val::Str(p));
    let mut i: usize = 0;
    while i < parts.len()
        invariant
            i <= parts.len(),
            all == texts(parts@).map_values(|p: Seq<char>| Val::Str(p)),
            vals(out@) == all.take(i as int),
        decreases parts.len() - i,
    {
        out.push(Value::Str(parts[i].clone()));
        assert(all.take(i + 1) =~= all.take(i as int).push(all[i as int]));
        i = i + 1;
    }
    assert(all.take(i as int) =~= all);
    Value::Array(out)
}

/// The view of optional flags.
pub open spec fn flags_view(f: Option<&str>) -> Option<Seq<char>> {
    match f {
        Some(t) => Some(t@),
        None => None,
    }
}

/// `split(sep)`: literal separator (jq's 1-arg form); `split(re; flags)`, regex
/// separator (jq's 2-arg form).
pub fn split(s: &str, sep: &str, regex_flags: Option<&str>) -> (r: Result<Value, EvalError>)
    ensures
        out(r) == split_val(s@, sep@, flags_view(regex_flags)),
{
    match regex_flags {
        None => Ok(str_values(cut_text(s, sep))),
        Some(flags) => {
            let (o, _) = build(sep, flags)?;
            Ok(str_values(pieces(sep, o, s)))
        },
    }
}

/// `join(sep)`: stringify scalars, render null as empty, reject containers (jq
/// semantics).
pub fn join(items: &Vec<Value>, sep: &str) -> (r: Result<Value, EvalError>)
    ensures
        out(r) == join_val(vals(items@), sep@),
{
    let mut text = String::new();
    let ghost all = vals(items@);
    let ghost mut parts: Seq<Seq<char>> = Seq::empty();
    let mut i: usize = 0;
    while i < items.len()
        invariant
            i <= items.len(),
            all == vals(items@),
            parts.len() == i,
            map_all(all.take(i as int), join_fn()) == Ok::<Seq<Seq<char>>, Er>(parts),
            text@ == joined(parts, sep@),
        decreases items.len() - i,
    {
        let v = &items[i];
        proof {
            map_step(all, join_fn(), i as int);
        }
        let piece = match v {
            Value::Null => String::new(),
            Value::Array(_) | Value::Object(_) => {
                let mut m = "cannot join a ".to_owned();
                m.append(v.type_label());
                proof {
                    map_stop(all, join_fn(), i + 1);
                }
                return Err(EvalError::of(m));
            },
            _ => v.to_raw_string(),
        };
        if i > 0 {
            text.append(sep);
        }
        text.append(&piece);
        proof {
            let grown = parts.push(piece@);
            joined_step(grown, sep@, i as int);
            assert(grown.take(i as int) =~= parts);
            assert(grown.take(i + 1) =~= grown);
            assert(i == 0 ==> joined(grown, sep@) =~= piece@);
            parts = grown;
        }
        i = i + 1;
    }
    assert(all.take(i as int) =~= all);
    Ok(Value::Str(text))
}

} // verus!
