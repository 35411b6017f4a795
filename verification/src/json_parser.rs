//! Recursive-descent parser building the lossless tree of a JSONC document.
//!
//! The grammar covers the JSONC/JSON5 family; see [`crate::json_lexer`] for what
//! JSON5 adds. Every token, trivia included, goes into the tree in order. A
//! structural problem (a missing `:` or `,`, a stray token where a key or value
//! belongs, an unclosed container, anything but trivia behind the top value, an
//! unlexable character) is an error. The leniency left is exactly what the family
//! allows: trailing commas, comments, and JSON5 spellings.
use crate::error::need_message;
use crate::float::{Facts, FloatFacts, FloatNeed, Need};
use crate::json_lexer::{jts, json_tokens, Jt, Tok, Token};
use crate::json_nodes::{number, number_val};
use crate::json_tree::{ens, group_json_views, En, Entry, Js, Json, MemberKey, Ky, Literal, Lt};
use crate::model::group_value_views;
use crate::strs::{chars_of, slice_text};
use vstd::prelude::*;

verus! {

broadcast use {group_value_views, group_json_views};

/// The mathematical content of a structural problem: the token it is at, what is
/// wrong, the token that opened the container left open, and the floating-point
/// result that is missing.
pub struct Se {
    pub at: int,
    pub msg: Seq<char>,
    pub opened: Option<int>,
    pub need: Option<Need>,
}

/// A structural problem.
struct SyntaxError {
    at: usize,
    msg: String,
    opened: Option<usize>,
    need: Option<FloatNeed>,
}

impl View for SyntaxError {
    type V = Se;

    closed spec fn view(&self) -> Se {
        Se {
            at: self.at as int,
            msg: self.msg@,
            opened: match self.opened {
                Some(o) => Some(o as int),
                None => None,
            },
            need: crate::error::opt_need(self.need),
        }
    }
}

/// Is this kind trivia (whitespace or a comment)?
pub open spec fn trivial(k: Tok) -> bool {
    k == Tok::Ws || k == Tok::LineComment || k == Tok::BlockComment
}

/// Can this kind stand in an object's key position?
///
/// JSON has only the double-quoted string. JSON5 adds the bare identifier and
/// the single-quoted string, and since its keys are `IdentifierName` rather than
/// `Identifier`, the reserved words are legal keys too (`{ null: 1 }`).
pub open spec fn keyish(k: Tok) -> bool {
    k == Tok::Str || k == Tok::SingleStr || k == Tok::Ident || k == Tok::True || k == Tok::False
        || k == Tok::Null
}

/// The kind of the token at `i`.
pub open spec fn kind(t: Seq<Jt>, i: int) -> Option<Tok> {
    if 0 <= i < t.len() {
        Some(t[i].kind)
    } else {
        None
    }
}

/// The first token from `i` on that is no trivia.
pub open spec fn trivia_end(t: Seq<Jt>, i: int) -> int
    decreases t.len() - i,
{
    if i < t.len() && trivial(t[i].kind) {
        trivia_end(t, i + 1)
    } else {
        i
    }
}

/// The token at `i`, for an error message: at most its first 24 characters.
pub open spec fn described(t: Seq<Jt>, i: int) -> Seq<char> {
    if 0 <= i < t.len() {
        let x = t[i].text;
        if x.len() > 24 {
            "`"@ + x.take(24) + "..."@ + "`"@
        } else {
            "`"@ + x + "`"@
        }
    } else {
        "end of input"@
    }
}

/// The problem at token `i`: an error token reports itself.
pub open spec fn problem(t: Seq<Jt>, i: int, msg: Seq<char>) -> Se {
    if kind(t, i) == Some(Tok::Error) {
        Se {
            at: i,
            msg: "unexpected character `"@ + t[i].text.take(1) + "`"@,
            opened: None,
            need: None,
        }
    } else {
        Se { at: i, msg, opened: None, need: None }
    }
}

/// Something else was expected at token `i`.
pub open spec fn wanted(t: Seq<Jt>, i: int, what: Seq<char>) -> Se {
    problem(t, i, "expected "@ + what + ", found "@ + described(t, i))
}

/// Input ended inside the container opened at token `open`.
pub open spec fn unclosed(t: Seq<Jt>, open: int) -> Se {
    Se {
        at: t.len() as int,
        msg: if kind(t, open) == Some(Tok::LBrace) {
            "expected `}`, found end of input"@
        } else {
            "expected `]`, found end of input"@
        },
        opened: Some(open),
        need: None,
    }
}

/// The token that closes the container opened at `open`.
pub open spec fn closer(t: Seq<Jt>, open: int) -> Tok {
    if kind(t, open) == Some(Tok::LBrace) {
        Tok::RBrace
    } else {
        Tok::RBracket
    }
}

/// Does a container that opens at `open` hold members?
pub open spec fn opens_object(t: Seq<Jt>, open: int) -> bool {
    kind(t, open) == Some(Tok::LBrace)
}

/// The value at token `i`, and the position behind it.
pub open spec fn j_value(t: Seq<Jt>, i: int, fx: Facts) -> Result<(Js, int), Se>
    decreases t.len() - i, 3int,
{
    match kind(t, i) {
        Some(Tok::LBrace) | Some(Tok::LBracket) => {
            let k = trivia_end(t, i + 1);
            let pre = t.subrange(i + 1, k);
            if i < k <= t.len() {
                match j_entries(t, i, k, Seq::empty(), fx) {
                    Err(e) => Err(e),
                    Ok((es, n)) => if opens_object(t, i) {
                        Ok((Js::Object(pre, es), n))
                    } else {
                        Ok((Js::Array(pre, es), n))
                    },
                }
            } else {
                Err(unclosed(t, i))
            }
        },
        Some(Tok::Num) => match number_val(t[i].text, fx) {
            Ok(v) => Ok((Js::Scalar(Lt { token: t[i], num: Some(v) }), i + 1)),
            Err(n) => Err(Se { at: i, msg: need_message(), opened: None, need: Some(n) }),
        },
        Some(Tok::True) | Some(Tok::False) | Some(Tok::Null) | Some(Tok::Str) | Some(
            Tok::SingleStr,
        ) => Ok((Js::Scalar(Lt { token: t[i], num: None }), i + 1)),
        _ => Err(wanted(t, i, "a value"@)),
    }
}

/// The entries of the container opened at `open`, the next of which starts at
/// `i`, and the position behind its closing bracket.
pub open spec fn j_entries(t: Seq<Jt>, open: int, i: int, es: Seq<En>, fx: Facts) -> Result<
    (Seq<En>, int),
    Se,
>
    decreases t.len() - i, 5int,
{
    if i >= t.len() {
        Err(unclosed(t, open))
    } else if kind(t, i) == Some(closer(t, open)) {
        Ok((es, i + 1))
    } else {
        match j_entry(t, open, i, fx) {
            Err(e) => Err(e),
            Ok((e, k)) => if i < k <= t.len() {
                j_entries(t, open, k, es.push(e), fx)
            } else {
                Err(unclosed(t, open))
            },
        }
    }
}

/// A member's key at token `i`, and where its value starts.
pub open spec fn j_key(t: Seq<Jt>, i: int) -> Result<(Ky, int), Se> {
    if kind(t, i) is Some && keyish(kind(t, i)->0) {
        let g = trivia_end(t, i + 1);
        if kind(t, g) == Some(Tok::Colon) {
            let l = trivia_end(t, g + 1);
            Ok(
                (
                    Ky {
                        token: t[i],
                        gap: t.subrange(i + 1, g),
                        lead: t.subrange(g + 1, l),
                    },
                    l,
                ),
            )
        } else {
            Err(wanted(t, g, "`:` after an object key"@))
        }
    } else {
        Err(wanted(t, i, "an object key"@))
    }
}

/// What follows an entry whose value ends at `k`: its comma and its trailing
/// trivia, and the position behind them.
pub open spec fn j_tail(t: Seq<Jt>, open: int, k: int) -> Result<
    (Option<Seq<Jt>>, Seq<Jt>, int),
    Se,
> {
    let n = trivia_end(t, k);
    if kind(t, n) == Some(Tok::Comma) {
        let m = trivia_end(t, n + 1);
        Ok((Some(t.subrange(k, n)), t.subrange(n + 1, m), m))
    } else if n >= t.len() || kind(t, n) == Some(closer(t, open)) {
        Ok((None, t.subrange(k, n), n))
    } else if opens_object(t, open) {
        Err(wanted(t, n, "`,` or `}`"@))
    } else {
        Err(wanted(t, n, "`,` or `]`"@))
    }
}

/// The entry at token `i`, and the position behind it.
pub open spec fn j_entry(t: Seq<Jt>, open: int, i: int, fx: Facts) -> Result<(En, int), Se>
    decreases t.len() - i, 4int,
{
    let start = if opens_object(t, open) {
        match j_key(t, i) {
            Ok((k, v)) => Ok((Some(k), v)),
            Err(e) => Err(e),
        }
    } else {
        Ok((None, i))
    };
    match start {
        Err(e) => Err(e),
        Ok((key, v)) => if v >= t.len() {
            Err(unclosed(t, open))
        } else if v < i {
            Err(unclosed(t, open))
        } else {
            match j_value(t, v, fx) {
                Err(e) => Err(e),
                Ok((value, k)) => match j_tail(t, open, k) {
                    Err(e) => Err(e),
                    Ok((comma, after, m)) => Ok((En { key, value, comma, after }, m)),
                },
            }
        },
    }
}

/// A whole document: the trivia in front of the value, the value, and the trivia
/// behind it. No value is no document.
pub open spec fn j_document(t: Seq<Jt>, fx: Facts) -> Result<Option<(Seq<Jt>, Js, Seq<Jt>)>, Se> {
    let i = trivia_end(t, 0);
    if i >= t.len() {
        Ok(None)
    } else {
        match j_value(t, i, fx) {
            Err(e) => Err(e),
            Ok((v, k)) => {
                let n = trivia_end(t, k);
                if n >= t.len() {
                    Ok(Some((t.take(i), v, t.skip(k))))
                } else {
                    Err(
                        problem(
                            t,
                            n,
                            "unexpected "@ + described(t, n) + " after the top-level value"@,
                        ),
                    )
                }
            },
        }
    }
}

pub proof fn trivia_end_bounds(t: Seq<Jt>, i: int)
    requires
        0 <= i <= t.len(),
    ensures
        i <= trivia_end(t, i) <= t.len(),
        trivia_end(t, i) < t.len() ==> !trivial(t[trivia_end(t, i)].kind),
    decreases t.len() - i,
{
    if i < t.len() && trivial(t[i].kind) {
        trivia_end_bounds(t, i + 1);
    }
}

fn kind_at(t: &Vec<Token>, i: usize) -> (r: Option<Tok>)
    ensures
        r == kind(jts(t@), i as int),
        r is Some ==> i < t.len(),
        r is None ==> i >= t.len(),
{
    if i < t.len() {
        assert(jts(t@)[i as int] == t@[i as int]@);
        Some(t[i].kind)
    } else {
        None
    }
}

fn is_trivia(k: Tok) -> (r: bool)
    ensures
        r == trivial(k),
{
    k == Tok::Ws || k == Tok::LineComment || k == Tok::BlockComment
}

fn is_key(k: Tok) -> (r: bool)
    ensures
        r == keyish(k),
{
    k == Tok::Str || k == Tok::SingleStr || k == Tok::Ident || k == Tok::True || k == Tok::False
        || k == Tok::Null
}

fn skip_trivia(t: &Vec<Token>, from: usize) -> (r: usize)
    requires
        from <= t.len(),
    ensures
        r == trivia_end(jts(t@), from as int),
        from <= r <= t.len(),
{
    let ghost all = jts(t@);
    let mut i: usize = from;
    while i < t.len() && is_trivia(t[i].kind)
        invariant
            from <= i <= t.len(),
            all == jts(t@),
            trivia_end(all, from as int) == trivia_end(all, i as int),
        decreases t.len() - i,
    {
        assert(all[i as int] == t@[i as int]@);
        i = i + 1;
    }
    if i < t.len() {
        assert(all[i as int] == t@[i as int]@);
    }
    i
}

impl Clone for Token {
    fn clone(&self) -> (r: Token)
        ensures
            r@ == self@,
    {
        Token { kind: self.kind, text: self.text.clone() }
    }
}

fn copy_tokens(t: &Vec<Token>, from: usize, to: usize) -> (r: Vec<Token>)
    requires
        from <= to <= t.len(),
    ensures
        jts(r@) == jts(t@).subrange(from as int, to as int),
{
    let ghost all = jts(t@);
    let mut out: Vec<Token> = Vec::new();
    let mut i: usize = from;
    assert(jts(out@) =~= all.subrange(from as int, from as int));
    while i < to
        invariant
            from <= i <= to <= t.len(),
            all == jts(t@),
            jts(out@) == all.subrange(from as int, i as int),
        decreases to - i,
    {
        out.push(t[i].clone());
        assert(jts(out@) =~= all.subrange(from as int, i + 1));
        i = i + 1;
    }
    out
}

fn describe(t: &Vec<Token>, i: usize) -> (r: String)
    ensures
        r@ == described(jts(t@), i as int),
{
    if i >= t.len() {
        return "end of input".to_owned();
    }
    assert(jts(t@)[i as int] == t@[i as int]@);
    let cs = chars_of(&t[i].text);
    let mut out = "`".to_owned();
    if cs.len() > 24 {
        assert(cs@.subrange(0, 24) =~= cs@.take(24));
        out.append(&slice_text(&cs, 0, 24));
        out.append("...");
    } else {
        out.append(&t[i].text);
    }
    out.append("`");
    out
}

/// Every token has a character.
spec fn filled(t: Seq<Jt>) -> bool {
    forall|i: int| 0 <= i < t.len() ==> (#[trigger] t[i]).text.len() > 0
}

fn error_at(t: &Vec<Token>, i: usize, msg: String) -> (r: SyntaxError)
    requires
        filled(jts(t@)),
    ensures
        r@ == problem(jts(t@), i as int, msg@),
        r.at == i,
        r.opened is None,
{
    if i < t.len() {
        assert(jts(t@)[i as int] == t@[i as int]@);
        if t[i].kind == Tok::Error {
            let cs = chars_of(&t[i].text);
            let mut m = "unexpected character `".to_owned();
            assert(cs@.subrange(0, 1) =~= cs@.take(1));
            m.append(&slice_text(&cs, 0, 1));
            m.append("`");
            return SyntaxError { at: i, msg: m, opened: None, need: None };
        }
    }
    SyntaxError { at: i, msg, opened: None, need: None }
}

fn expected(t: &Vec<Token>, i: usize, what: &str) -> (r: SyntaxError)
    requires
        filled(jts(t@)),
    ensures
        r@ == wanted(jts(t@), i as int, what@),
        r.at == i,
        r.opened is None,
{
    let mut m = "expected ".to_owned();
    m.append(what);
    m.append(", found ");
    m.append(&describe(t, i));
    error_at(t, i, m)
}

fn left_open(t: &Vec<Token>, open: usize) -> (r: SyntaxError)
    requires
        open < t.len(),
    ensures
        r@ == unclosed(jts(t@), open as int),
        in_range(jts(t@), r),
{
    assert(jts(t@)[open as int] == t@[open as int]@);
    let msg = if t[open].kind == Tok::LBrace {
        "expected `}`, found end of input".to_owned()
    } else {
        "expected `]`, found end of input".to_owned()
    };
    SyntaxError { at: t.len(), msg, opened: Some(open), need: None }
}

/// Do the positions of an error lie among the tokens?
spec fn in_range(t: Seq<Jt>, e: SyntaxError) -> bool {
    e.at <= t.len() && (match e.opened {
        Some(o) => o < t.len(),
        None => true,
    })
}

spec fn value_view(r: Result<(Json, usize), SyntaxError>) -> Result<(Js, int), Se> {
    match r {
        Ok((n, k)) => Ok((n@, k as int)),
        Err(e) => Err(e@),
    }
}

fn parse_value(t: &Vec<Token>, i: usize, facts: &FloatFacts) -> (r: Result<
    (Json, usize),
    SyntaxError,
>)
    requires
        filled(jts(t@)),
        i <= t.len(),
    ensures
        value_view(r) == j_value(jts(t@), i as int, facts@),
        match r {
            Ok((_, k)) => i < k <= t.len(),
            Err(e) => in_range(jts(t@), e),
        },
    decreases t.len() - i, 3int,
{
    match kind_at(t, i) {
        Some(Tok::LBrace) | Some(Tok::LBracket) => {
            assert(jts(t@)[i as int] == t@[i as int]@);
            let k: usize = skip_trivia(t, i + 1);
            let pre = copy_tokens(t, i + 1, k);
            let (es, n) = parse_entries(t, i, k, facts)?;
            if t[i].kind == Tok::LBrace {
                Ok((Json::Object(pre, es), n))
            } else {
                Ok((Json::Array(pre, es), n))
            }
        },
        Some(Tok::Num) => {
            assert(jts(t@)[i as int] == t@[i as int]@);
            match number(&t[i].text, facts) {
                Ok(v) => Ok(
                    (Json::Scalar(Literal { token: t[i].clone(), num: Some(v) }), i + 1),
                ),
                Err(n) => Err(
                    SyntaxError {
                        at: i,
                        msg: crate::error::need_text(),
                        opened: None,
                        need: Some(n),
                    },
                ),
            }
        },
        Some(Tok::True) | Some(Tok::False) | Some(Tok::Null) | Some(Tok::Str) | Some(
            Tok::SingleStr,
        ) => {
            assert(jts(t@)[i as int] == t@[i as int]@);
            Ok((Json::Scalar(Literal { token: t[i].clone(), num: None }), i + 1))
        },
        _ => Err(expected(t, i, "a value")),
    }
}

#[verifier::loop_isolation(false)]
fn parse_entries(t: &Vec<Token>, open: usize, from: usize, facts: &FloatFacts) -> (r: Result<
    (Vec<Entry>, usize),
    SyntaxError,
>)
    requires
        filled(jts(t@)),
        open < from <= t.len(),
    ensures
        match r {
            Ok((es, k)) => j_entries(jts(t@), open as int, from as int, Seq::empty(), facts@) == Ok::<
                (Seq<En>, int),
                Se,
            >((ens(es@), k as int)) && from < k <= t.len(),
            Err(e) => j_entries(jts(t@), open as int, from as int, Seq::empty(), facts@) == Err::<
                (Seq<En>, int),
                Se,
            >(e@) && in_range(jts(t@), e),
        },
    decreases t.len() - from, 5int,
{
    let ghost all = jts(t@);
    let close = if t[open].kind == Tok::LBrace {
        Tok::RBrace
    } else {
        Tok::RBracket
    };
    assert(all[open as int] == t@[open as int]@);
    let mut es: Vec<Entry> = Vec::new();
    assert(ens(es@) =~= Seq::<En>::empty());
    let mut i: usize = from;
    while i < t.len()
        invariant
            from <= i <= t.len(),
            j_entries(all, open as int, from as int, Seq::empty(), facts@) == j_entries(
                all,
                open as int,
                i as int,
                ens(es@),
                facts@,
            ),
        decreases t.len() - i,
    {
        assert(all[i as int] == t@[i as int]@);
        if t[i].kind == close {
            return Ok((es, i + 1));
        }
        let (e, k) = parse_entry(t, open, i, facts)?;
        es.push(e);
        i = k;
    }
    Err(left_open(t, open))
}

spec fn key_view(r: Result<(MemberKey, usize), SyntaxError>) -> Result<(Ky, int), Se> {
    match r {
        Ok((k, v)) => Ok((k@, v as int)),
        Err(e) => Err(e@),
    }
}

fn parse_key(t: &Vec<Token>, i: usize) -> (r: Result<(MemberKey, usize), SyntaxError>)
    requires
        filled(jts(t@)),
        i < t.len(),
    ensures
        key_view(r) == j_key(jts(t@), i as int),
        match r {
            Ok((_, v)) => i < v <= t.len(),
            Err(e) => in_range(jts(t@), e),
        },
{
    assert(jts(t@)[i as int] == t@[i as int]@);
    if !is_key(t[i].kind) {
        return Err(expected(t, i, "an object key"));
    }
    let g: usize = skip_trivia(t, i + 1);
    match kind_at(t, g) {
        Some(Tok::Colon) => {
            let l: usize = skip_trivia(t, g + 1);
            Ok(
                (
                    MemberKey {
                        token: t[i].clone(),
                        gap: copy_tokens(t, i + 1, g),
                        lead: copy_tokens(t, g + 1, l),
                    },
                    l,
                ),
            )
        },
        _ => Err(expected(t, g, "`:` after an object key")),
    }
}

fn parse_entry(t: &Vec<Token>, open: usize, i: usize, facts: &FloatFacts) -> (r: Result<
    (Entry, usize),
    SyntaxError,
>)
    requires
        filled(jts(t@)),
        open < i < t.len(),
    ensures
        match r {
            Ok((e, k)) => j_entry(jts(t@), open as int, i as int, facts@) == Ok::<(En, int), Se>(
                (e@, k as int),
            ) && i < k <= t.len(),
            Err(e) => j_entry(jts(t@), open as int, i as int, facts@) == Err::<(En, int), Se>(e@)
                && in_range(jts(t@), e),
        },
    decreases t.len() - i, 4int,
{
    assert(jts(t@)[open as int] == t@[open as int]@);
    let object = t[open].kind == Tok::LBrace;
    let (key, v) = if object {
        let (k, v) = parse_key(t, i)?;
        (Some(k), v)
    } else {
        (None, i)
    };
    if v >= t.len() {
        return Err(left_open(t, open));
    }
    let (value, k) = parse_value(t, v, facts)?;
    let n: usize = skip_trivia(t, k);
    match kind_at(t, n) {
        Some(Tok::Comma) => {
            let m: usize = skip_trivia(t, n + 1);
            let e = Entry {
                key,
                value,
                comma: Some(copy_tokens(t, k, n)),
                after: copy_tokens(t, n + 1, m),
            };
            Ok((e, m))
        },
        found => {
            if n >= t.len() || found == Some(
                if object {
                    Tok::RBrace
                } else {
                    Tok::RBracket
                },
            ) {
                let e = Entry { key, value, comma: None, after: copy_tokens(t, k, n) };
                Ok((e, n))
            } else if object {
                Err(expected(t, n, "`,` or `}`"))
            } else {
                Err(expected(t, n, "`,` or `]`"))
            }
        },
    }
}

/// The parts of a document: the trivia in front of its value, the value, and the
/// trivia behind it.
pub struct Parts {
    pub head: Vec<Token>,
    pub value: Json,
    pub tail: Vec<Token>,
}

/// The view of the parts of a document.
pub open spec fn parts_view(p: Parts) -> (Seq<Jt>, Js, Seq<Jt>) {
    (jts(p.head@), p.value@, jts(p.tail@))
}

/// The tokens of a source all have a character.
pub proof fn tokens_filled(s: Seq<char>, i: int)
    requires
        0 <= i <= s.len(),
    ensures
        forall|k: int|
            0 <= k < json_tokens(s, i).len() ==> (#[trigger] json_tokens(s, i)[k]).text.len() > 0,
    decreases s.len() - i,
{
    if i < s.len() {
        crate::json_lexer::json_token_bounds(s, i);
        tokens_filled(s, crate::json_lexer::json_token(s, i).1);
    }
}

/// A structural problem, with the positions of tokens.
pub struct Problem {
    pub at: usize,
    pub msg: String,
    pub opened: Option<usize>,
    pub need: Option<FloatNeed>,
}

/// The view of a problem.
pub open spec fn problem_view(p: Problem) -> Se {
    Se {
        at: p.at as int,
        msg: p.msg@,
        opened: match p.opened {
            Some(o) => Some(o as int),
            None => None,
        },
        need: crate::error::opt_need(p.need),
    }
}

/// Parse a whole document's tokens.
pub fn parse_document(t: &Vec<Token>, facts: &FloatFacts) -> (r: Result<Option<Parts>, Problem>)
    requires
        forall|k: int| 0 <= k < t.len() ==> (#[trigger] jts(t@)[k]).text.len() > 0,
    ensures
        match r {
            Ok(Some(p)) => j_document(jts(t@), facts@) == Ok::<
                Option<(Seq<Jt>, Js, Seq<Jt>)>,
                Se,
            >(Some(parts_view(p))),
            Ok(None) => j_document(jts(t@), facts@) == Ok::<Option<(Seq<Jt>, Js, Seq<Jt>)>, Se>(
                None,
            ),
            Err(e) => j_document(jts(t@), facts@) == Err::<Option<(Seq<Jt>, Js, Seq<Jt>)>, Se>(
                problem_view(e),
            ) && e.at <= t.len() && (match e.opened {
                Some(o) => o < t.len(),
                None => true,
            }),
        },
{
    let n: usize = t.len();
    let i: usize = skip_trivia(t, 0);
    if i >= n {
        return Ok(None);
    }
    match parse_value(t, i, facts) {
        Err(e) => Err(Problem { at: e.at, msg: e.msg, opened: e.opened, need: e.need }),
        Ok((value, k)) => {
            let m: usize = skip_trivia(t, k);
            if m < n {
                let mut msg = "unexpected ".to_owned();
                msg.append(&describe(t, m));
                msg.append(" after the top-level value");
                let e = error_at(t, m, msg);
                return Err(Problem { at: e.at, msg: e.msg, opened: e.opened, need: e.need });
            }
            assert(jts(t@).subrange(0, i as int) =~= jts(t@).take(i as int));
            assert(jts(t@).subrange(k as int, n as int) =~= jts(t@).skip(k as int));
            Ok(Some(Parts { head: copy_tokens(t, 0, i), value, tail: copy_tokens(t, k, n) }))
        },
    }
}

} // verus!
