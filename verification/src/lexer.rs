//! Tokens for the expression language.
//!
//! Whitespace is insignificant inside an expression (unlike file content), so
//! it is skipped here. `true`/`false`/`null` are lexed as `Ident` and resolved
//! to literals by the parser. `Infinity` and `NaN` are numbers.
use crate::ast::{ident_part, ident_start, is_ident_part, is_ident_start};
use crate::strs::{is_digit, same, slice_text};
use vstd::prelude::*;
use vstd::string::*;

verus! {

/// A kind of token.
#[derive(Debug, Clone, Copy, PartialEq, Eq, Structural)]
pub enum Lx {
    Dot,
    LBrack,
    RBrack,
    LParen,
    RParen,
    LBrace,
    RBrace,
    Colon,
    Pipe,
    PipeAssign,
    Comma,
    Semi,
    Assign,
    EqEq,
    Ne,
    Le,
    Ge,
    Lt,
    Gt,
    Plus,
    PlusAssign,
    Minus,
    Star,
    Slash,
    Alt,
    Percent,
    /// `^`, in front of a document selector.
    Caret,
    /// `#`, a comment step.
    Hash,
    Ident,
    Num,
    Str,
}

/// A token: its kind, its text, and the position of its first character.
#[derive(Debug)]
pub struct Tok {
    pub kind: Lx,
    pub text: String,
    pub start: usize,
}

/// The mathematical content of a [`Tok`].
pub struct Tk {
    pub kind: Lx,
    pub text: Seq<char>,
    pub start: int,
}

impl View for Tok {
    type V = Tk;

    open spec fn view(&self) -> Tk {
        Tk { kind: self.kind, text: self.text@, start: self.start as int }
    }
}

/// The contents of a list of tokens.
pub open spec fn tks(s: Seq<Tok>) -> Seq<Tk> {
    Seq::new(s.len(), |i: int| s[i]@)
}

/// A space, a tab or a line break character.
pub open spec fn lex_space(c: char) -> bool {
    c == ' ' || c == '\t' || c == '\r' || c == '\n'
}

/// The first position at or after `i` that is no white space.
pub open spec fn lex_skip(s: Seq<char>, i: int) -> int
    decreases s.len() - i,
{
    if i < s.len() && lex_space(s[i]) {
        lex_skip(s, i + 1)
    } else {
        i
    }
}

/// The end of the run of identifier characters at `i`.
pub open spec fn ident_end(s: Seq<char>, i: int) -> int
    decreases s.len() - i,
{
    if i < s.len() && ident_part(s[i]) {
        ident_end(s, i + 1)
    } else {
        i
    }
}

/// The end of the run of digits at `i`.
pub open spec fn digits_end(s: Seq<char>, i: int) -> int
    decreases s.len() - i,
{
    if i < s.len() && is_digit(s[i]) {
        digits_end(s, i + 1)
    } else {
        i
    }
}

/// The character at `i` is `c`.
pub open spec fn at(s: Seq<char>, i: int, c: char) -> bool {
    0 <= i < s.len() && s[i] == c
}

/// A digit stands at `i`.
pub open spec fn digit_at(s: Seq<char>, i: int) -> bool {
    0 <= i < s.len() && is_digit(s[i])
}

/// The end of a fraction (`.5`) at `i`, or `i`.
pub open spec fn fraction_end(s: Seq<char>, i: int) -> int {
    if at(s, i, '.') && digit_at(s, i + 1) {
        digits_end(s, i + 1)
    } else {
        i
    }
}

/// The end of an exponent (`e10`, `E-3`) at `i`, or `i`.
pub open spec fn exponent_end(s: Seq<char>, i: int) -> int {
    if at(s, i, 'e') || at(s, i, 'E') {
        if digit_at(s, i + 1) {
            digits_end(s, i + 1)
        } else if (at(s, i + 1, '+') || at(s, i + 1, '-')) && digit_at(s, i + 2) {
            digits_end(s, i + 2)
        } else {
            i
        }
    } else {
        i
    }
}

/// The end of the number at `i`: digits, an optional fraction, an optional
/// exponent.
pub open spec fn number_end(s: Seq<char>, i: int) -> int {
    exponent_end(s, fraction_end(s, digits_end(s, i)))
}

/// The end of the string whose characters start at `i`, behind its closing
/// quote; `None` when it is not closed. A backslash takes the next character
/// with it, unless that is a line feed.
pub open spec fn string_end(s: Seq<char>, i: int) -> Option<int>
    decreases s.len() - i,
{
    if i >= s.len() {
        None
    } else if s[i] == '"' {
        Some(i + 1)
    } else if s[i] == '\\' {
        if i + 1 < s.len() && s[i + 1] != '\n' {
            string_end(s, i + 2)
        } else {
            None
        }
    } else {
        string_end(s, i + 1)
    }
}

/// The kind of a word.
pub open spec fn word_kind(w: Seq<char>) -> Lx {
    if w == "Infinity"@ || w == "NaN"@ {
        Lx::Num
    } else {
        Lx::Ident
    }
}

/// A one-character token, or the two-character one when `c` follows.
pub open spec fn one_or_two(s: Seq<char>, i: int, c: char, one: Lx, two: Lx) -> Option<(Lx, int)> {
    if at(s, i + 1, c) {
        Some((two, i + 2))
    } else {
        Some((one, i + 1))
    }
}

/// The longest token at `i`: its kind and its end.
pub open spec fn token_at(s: Seq<char>, i: int) -> Option<(Lx, int)> {
    let c = s[i];
    if c == '.' {
        Some((Lx::Dot, i + 1))
    } else if c == '[' {
        Some((Lx::LBrack, i + 1))
    } else if c == ']' {
        Some((Lx::RBrack, i + 1))
    } else if c == '(' {
        Some((Lx::LParen, i + 1))
    } else if c == ')' {
        Some((Lx::RParen, i + 1))
    } else if c == '{' {
        Some((Lx::LBrace, i + 1))
    } else if c == '}' {
        Some((Lx::RBrace, i + 1))
    } else if c == ':' {
        Some((Lx::Colon, i + 1))
    } else if c == '|' {
        one_or_two(s, i, '=', Lx::Pipe, Lx::PipeAssign)
    } else if c == ',' {
        Some((Lx::Comma, i + 1))
    } else if c == ';' {
        Some((Lx::Semi, i + 1))
    } else if c == '=' {
        one_or_two(s, i, '=', Lx::Assign, Lx::EqEq)
    } else if c == '!' {
        if at(s, i + 1, '=') {
            Some((Lx::Ne, i + 2))
        } else {
            None
        }
    } else if c == '<' {
        one_or_two(s, i, '=', Lx::Lt, Lx::Le)
    } else if c == '>' {
        one_or_two(s, i, '=', Lx::Gt, Lx::Ge)
    } else if c == '+' {
        one_or_two(s, i, '=', Lx::Plus, Lx::PlusAssign)
    } else if c == '-' {
        Some((Lx::Minus, i + 1))
    } else if c == '*' {
        Some((Lx::Star, i + 1))
    } else if c == '/' {
        one_or_two(s, i, '/', Lx::Slash, Lx::Alt)
    } else if c == '%' {
        Some((Lx::Percent, i + 1))
    } else if c == '^' {
        Some((Lx::Caret, i + 1))
    } else if c == '#' {
        Some((Lx::Hash, i + 1))
    } else if ident_start(c) {
        Some((word_kind(s.subrange(i, ident_end(s, i))), ident_end(s, i)))
    } else if is_digit(c) {
        Some((Lx::Num, number_end(s, i)))
    } else if c == '"' {
        match string_end(s, i + 1) {
            Some(e) => Some((Lx::Str, e)),
            None => None,
        }
    } else {
        None
    }
}

/// The tokens of `s` from position `i` on, or the position of the first
/// character that starts none.
pub open spec fn lex_from(s: Seq<char>, i: int) -> Result<Seq<Tk>, int>
    decreases s.len() - i,
    when 0 <= i <= s.len()
    via lex_decreases
{
    let a = lex_skip(s, i);
    if a >= s.len() {
        Ok(Seq::empty())
    } else {
        match token_at(s, a) {
            None => Err(a),
            Some((kind, e)) => match lex_from(s, e) {
                Err(x) => Err(x),
                Ok(rest) => Ok(seq![Tk { kind, text: s.subrange(a, e), start: a }] + rest),
            },
        }
    }
}

#[via_fn]
proof fn lex_decreases(s: Seq<char>, i: int) {
    lex_skip_bounds(s, i);
    let a = lex_skip(s, i);
    if a < s.len() {
        token_bounds(s, a);
    }
}

proof fn lex_skip_bounds(s: Seq<char>, i: int)
    requires
        0 <= i <= s.len(),
    ensures
        i <= lex_skip(s, i) <= s.len(),
    decreases s.len() - i,
{
    if i < s.len() && lex_space(s[i]) {
        lex_skip_bounds(s, i + 1);
    }
}

/// Digits end in the text.
pub proof fn digits_bounds(s: Seq<char>, i: int)
    requires
        0 <= i <= s.len(),
    ensures
        i <= digits_end(s, i) <= s.len(),
    decreases s.len() - i,
{
    if i < s.len() && is_digit(s[i]) {
        digits_bounds(s, i + 1);
    }
}

proof fn ident_bounds(s: Seq<char>, i: int)
    requires
        0 <= i <= s.len(),
    ensures
        i <= ident_end(s, i) <= s.len(),
    decreases s.len() - i,
{
    if i < s.len() && ident_part(s[i]) {
        ident_bounds(s, i + 1);
    }
}

proof fn string_bounds(s: Seq<char>, i: int)
    requires
        0 <= i <= s.len(),
    ensures
        match string_end(s, i) {
            Some(e) => i < e <= s.len(),
            None => true,
        },
    decreases s.len() - i,
{
    if i < s.len() && s[i] != '"' {
        if s[i] == '\\' {
            if i + 1 < s.len() && s[i + 1] != '\n' {
                string_bounds(s, i + 2);
            }
        } else {
            string_bounds(s, i + 1);
        }
    }
}

proof fn number_bounds(s: Seq<char>, i: int)
    requires
        0 <= i < s.len(),
        is_digit(s[i]),
    ensures
        i < number_end(s, i) <= s.len(),
{
    digits_bounds(s, i);
    digits_bounds(s, i + 1);
    let a = digits_end(s, i);
    if a + 1 <= s.len() {
        digits_bounds(s, a + 1);
    }
    let b = fraction_end(s, a);
    if b + 1 <= s.len() {
        digits_bounds(s, b + 1);
    }
    if b + 2 <= s.len() {
        digits_bounds(s, b + 2);
    }
}

/// A token takes at least one character, and ends in the text.
pub proof fn token_bounds(s: Seq<char>, i: int)
    requires
        0 <= i < s.len(),
    ensures
        match token_at(s, i) {
            Some((_, e)) => i < e <= s.len(),
            None => true,
        },
{
    let c = s[i];
    if ident_start(c) {
        ident_bounds(s, i + 1);
    } else if is_digit(c) {
        number_bounds(s, i);
    } else if c == '"' {
        string_bounds(s, i + 1);
    }
}

fn char_at(cs: &[char], i: usize, c: char) -> (r: bool)
    ensures
        r == at(cs@, i as int, c),
{
    i < cs.len() && cs[i] == c
}

/// The end of the run of digits at `i`.
pub fn skip_digits(cs: &[char], i: usize) -> (r: usize)
    requires
        i <= cs.len(),
    ensures
        r == digits_end(cs@, i as int),
        i <= r <= cs.len(),
{
    let mut k: usize = i;
    while k < cs.len() && '0' <= cs[k] && cs[k] <= '9'
        invariant
            i <= k <= cs.len(),
            digits_end(cs@, i as int) == digits_end(cs@, k as int),
        decreases cs.len() - k,
    {
        k = k + 1;
    }
    k
}

fn is_digit_at(cs: &[char], i: usize) -> (r: bool)
    ensures
        r == digit_at(cs@, i as int),
{
    i < cs.len() && '0' <= cs[i] && cs[i] <= '9'
}

fn scan_number(cs: &[char], i: usize) -> (r: usize)
    requires
        i < cs.len(),
        is_digit(cs@[i as int]),
    ensures
        r == number_end(cs@, i as int),
        i < r <= cs.len(),
{
    proof {
        number_bounds(cs@, i as int);
    }
    let a = skip_digits(cs, i);
    let mut b: usize = a;
    if char_at(cs, a, '.') && is_digit_at(cs, a + 1) {
        b = skip_digits(cs, a + 1);
    }
    if char_at(cs, b, 'e') || char_at(cs, b, 'E') {
        if is_digit_at(cs, b + 1) {
            return skip_digits(cs, b + 1);
        }
        if (char_at(cs, b + 1, '+') || char_at(cs, b + 1, '-')) && b + 1 < cs.len() && is_digit_at(
            cs,
            b + 2,
        ) {
            return skip_digits(cs, b + 2);
        }
    }
    b
}

fn scan_string(cs: &[char], i: usize) -> (r: Option<usize>)
    requires
        i <= cs.len(),
    ensures
        r is Some <==> string_end(cs@, i as int) is Some,
        r is Some ==> r->0 == string_end(cs@, i as int)->0 && i < r->0 <= cs.len(),
{
    let mut k: usize = i;
    while k < cs.len()
        invariant
            i <= k <= cs.len(),
            string_end(cs@, i as int) == string_end(cs@, k as int),
        decreases cs.len() - k,
    {
        if cs[k] == '"' {
            return Some(k + 1);
        }
        if cs[k] == '\\' {
            if k + 1 < cs.len() && cs[k + 1] != '\n' {
                k = k + 2;
            } else {
                return None;
            }
        } else {
            k = k + 1;
        }
    }
    None
}

fn pick(cs: &[char], i: usize, c: char, one: Lx, two: Lx) -> (r: Option<(Lx, usize)>)
    requires
        i < cs.len(),
    ensures
        tok_view(r) == one_or_two(cs@, i as int, c, one, two),
{
    if char_at(cs, i + 1, c) {
        Some((two, i + 2))
    } else {
        Some((one, i + 1))
    }
}

/// The view of a token's kind and end.
spec fn tok_view(r: Option<(Lx, usize)>) -> Option<(Lx, int)> {
    match r {
        Some((k, e)) => Some((k, e as int)),
        None => None,
    }
}

fn next_token(cs: &[char], i: usize) -> (r: Option<(Lx, usize)>)
    requires
        i < cs.len(),
    ensures
        tok_view(r) == token_at(cs@, i as int),
{
    let c = cs[i];
    if c == '.' {
        Some((Lx::Dot, i + 1))
    } else if c == '[' {
        Some((Lx::LBrack, i + 1))
    } else if c == ']' {
        Some((Lx::RBrack, i + 1))
    } else if c == '(' {
        Some((Lx::LParen, i + 1))
    } else if c == ')' {
        Some((Lx::RParen, i + 1))
    } else if c == '{' {
        Some((Lx::LBrace, i + 1))
    } else if c == '}' {
        Some((Lx::RBrace, i + 1))
    } else if c == ':' {
        Some((Lx::Colon, i + 1))
    } else if c == '|' {
        pick(cs, i, '=', Lx::Pipe, Lx::PipeAssign)
    } else if c == ',' {
        Some((Lx::Comma, i + 1))
    } else if c == ';' {
        Some((Lx::Semi, i + 1))
    } else if c == '=' {
        pick(cs, i, '=', Lx::Assign, Lx::EqEq)
    } else if c == '!' {
        if char_at(cs, i + 1, '=') {
            Some((Lx::Ne, i + 2))
        } else {
            None
        }
    } else if c == '<' {
        pick(cs, i, '=', Lx::Lt, Lx::Le)
    } else if c == '>' {
        pick(cs, i, '=', Lx::Gt, Lx::Ge)
    } else if c == '+' {
        pick(cs, i, '=', Lx::Plus, Lx::PlusAssign)
    } else if c == '-' {
        Some((Lx::Minus, i + 1))
    } else if c == '*' {
        Some((Lx::Star, i + 1))
    } else if c == '/' {
        pick(cs, i, '/', Lx::Slash, Lx::Alt)
    } else if c == '%' {
        Some((Lx::Percent, i + 1))
    } else if c == '^' {
        Some((Lx::Caret, i + 1))
    } else if c == '#' {
        Some((Lx::Hash, i + 1))
    } else if is_ident_start(c) {
        let mut e: usize = i;
        while e < cs.len() && is_ident_part(cs[e])
            invariant
                i <= e <= cs.len(),
                ident_end(cs@, i as int) == ident_end(cs@, e as int),
            decreases cs.len() - e,
        {
            e = e + 1;
        }
        let w = slice_text(cs, i, e);
        if same(&w, "Infinity") || same(&w, "NaN") {
            Some((Lx::Num, e))
        } else {
            Some((Lx::Ident, e))
        }
    } else if '0' <= c && c <= '9' {
        Some((Lx::Num, scan_number(cs, i)))
    } else if c == '"' {
        match scan_string(cs, i + 1) {
            Some(e) => Some((Lx::Str, e)),
            None => None,
        }
    } else {
        None
    }
}

/// The tokens of `cs`, or the position of the first character that starts none.
pub fn lex(cs: &[char]) -> (r: Result<Vec<Tok>, usize>)
    ensures
        match r {
            Ok(toks) => lex_from(cs@, 0) == Ok::<Seq<Tk>, int>(tks(toks@)),
            Err(at) => lex_from(cs@, 0) == Err::<Seq<Tk>, int>(at as int) && at < cs.len(),
        },
{
    let mut out: Vec<Tok> = Vec::new();
    let mut i: usize = 0;
    loop
        invariant_except_break
            i <= cs.len(),
            lex_from(cs@, 0) == (match lex_from(cs@, i as int) {
                Ok(rest) => Ok(tks(out@) + rest),
                Err(x) => Err(x),
            }),
        ensures
            lex_from(cs@, 0) == Ok::<Seq<Tk>, int>(tks(out@)),
        decreases cs.len() - i,
    {
        let mut a: usize = i;
        while a < cs.len() && (cs[a] == ' ' || cs[a] == '\t' || cs[a] == '\r' || cs[a] == '\n')
            invariant
                i <= a <= cs.len(),
                lex_skip(cs@, i as int) == lex_skip(cs@, a as int),
            decreases cs.len() - a,
        {
            a = a + 1;
        }
        if a >= cs.len() {
            assert(tks(out@) + Seq::<Tk>::empty() =~= tks(out@));
            break;
        }
        proof {
            token_bounds(cs@, a as int);
        }
        match next_token(cs, a) {
            None => {
                return Err(a);
            },
            Some((kind, e)) => {
                let ghost before = tks(out@);
                let tok = Tok { kind, text: slice_text(cs, a, e), start: a };
                let ghost tk = tok@;
                out.push(tok);
                assert(tks(out@) =~= before.push(tk));
                proof {
                    if let Ok(rest) = lex_from(cs@, e as int) {
                        assert(before + (seq![tk] + rest) =~= before.push(tk) + rest);
                    }
                }
                i = e;
            },
        }
    }
    Ok(out)
}

/// The lexer accounts for every character: what lies between tokens is white
/// space, and a token's text is what stands at its position.
pub proof fn tokens_cover(s: Seq<char>, i: int)
    requires
        0 <= i <= s.len(),
        lex_from(s, i) is Ok,
    ensures
        ({
            let t = lex_from(s, i)->Ok_0;
            &&& forall|k: int|
                0 <= k < t.len() ==> i <= (#[trigger] t[k]).start && t[k].start + t[k].text.len()
                    <= s.len() && t[k].text.len() > 0 && t[k].text == s.subrange(
                    t[k].start,
                    t[k].start + t[k].text.len(),
                )
            &&& forall|k: int, l: int|
                0 <= k < l < t.len() ==> (#[trigger] t[k]).start + t[k].text.len() <= (
                #[trigger] t[l]).start
        }),
    decreases s.len() - i,
{
    lex_skip_bounds(s, i);
    let a = lex_skip(s, i);
    if a < s.len() {
        token_bounds(s, a);
        let (kind, e) = token_at(s, a)->0;
        tokens_cover(s, e);
        let t = lex_from(s, i)->Ok_0;
        let rest = lex_from(s, e)->Ok_0;
        assert forall|k: int| 0 <= k < t.len() implies i <= (#[trigger] t[k]).start && t[k].start
            + t[k].text.len() <= s.len() && t[k].text.len() > 0 && t[k].text == s.subrange(
            t[k].start,
            t[k].start + t[k].text.len(),
        ) by {
            if k > 0 {
                assert(t[k] == rest[k - 1]);
            }
        }
        assert forall|k: int, l: int| 0 <= k < l < t.len() implies (#[trigger] t[k]).start
            + t[k].text.len() <= (#[trigger] t[l]).start by {
            assert(t[l] == rest[l - 1]);
            if k > 0 {
                assert(t[k] == rest[k - 1]);
            }
        }
    }
}

} // verus!
