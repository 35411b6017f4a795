//! Recursive-descent / precedence parser for the expression language: the
//! executable counterpart of [`crate::grammar`].
use crate::ast::{is_bare_ident, is_ident_part, is_ident_start};
use crate::comment::join_texts;
use crate::error::opt_need;
use crate::float::{Float, FloatFacts, FloatNeed, Need};
use crate::grammar::{
    abuts, add_op, body_at, bracket_at, compare_op, g_add, g_add_tail, g_alt, g_args, g_assign,
    g_compare, g_comma, g_comma_tail, g_ident, g_members, g_mul, g_mul_tail, g_pipe, g_pipe_tail,
    g_primary, g_program, g_unary, hash_at, hex_digit_value, hex_digits_value, hex_value, hinted,
    hyphen_ident, hyphen_key_of, hyphen_names, hyphen_refusal, hyphen_run, hyphenated_from,
    index_at, key_run, kind_of, looks_float, member_key, mul_op, next_step, number_of, oops,
    parsed_expr, path_steps, peek, place, quoted_prefix, scalar_char, simple_escape, string_text,
    target_at, target_steps, unescaped, Got, Pe,
};
use crate::lexer::{lex, tks, tokens_cover, Lx, Tk, Tok};
use crate::model::{
    ex_pairs, exs, group_comment_views, group_expr_views, group_value_views, steps_of, texts, BinOp, CommentKind, Ex, Expr,
    St, Step, Val, Value,
};
use crate::strings::{next_sep, utf8_width, width};
use crate::strs::{
    all_digits, chars_of, code, digits_value, int_text, integer, nat_digits, nat_text, same,
    slice_text, text_of,
};
use vstd::prelude::*;
use vstd::string::*;

verus! {

broadcast use {group_value_views, group_expr_views, group_comment_views};

/// A parse failure with a byte offset into the source expression.
#[derive(Debug)]
pub struct ParseError {
    pub msg: String,
    pub pos: usize,
    pub need: Option<FloatNeed>,
}

/// A parse failure whose position counts characters.
struct Fault {
    msg: String,
    at: usize,
    need: Option<FloatNeed>,
}

impl View for Fault {
    type V = Pe;

    closed spec fn view(&self) -> Pe {
        Pe { msg: self.msg@, pos: self.at as int, need: opt_need(self.need) }
    }
}

/// The view of a production's result.
spec fn got(r: Result<(Expr, usize), Fault>) -> Got {
    match r {
        Ok((e, k)) => Ok((e@, k as int)),
        Err(f) => Err(f@),
    }
}

/// The positions of the tokens and their ends can be computed.
spec fn placed(t: Seq<Tk>) -> bool {
    forall|i: int|
        0 <= i < t.len() ==> 0 <= (#[trigger] t[i]).start && t[i].start + t[i].text.len()
            <= place(t, t.len() as int) <= usize::MAX
}

/// Does a failure lie in the source?
spec fn sited(t: Seq<Tk>, f: Fault) -> bool {
    f.at <= place(t, t.len() as int)
}

fn kind_at(toks: &Vec<Tok>, i: usize) -> (r: Option<Lx>)
    ensures
        r == peek(tks(toks@), i as int),
        r is Some ==> i < toks.len(),
{
    if i < toks.len() {
        Some(toks[i].kind)
    } else {
        None
    }
}

fn is_kind(toks: &Vec<Tok>, i: usize, k: Lx) -> (r: bool)
    ensures
        r == (peek(tks(toks@), i as int) == Some(k)),
        r ==> i < toks.len(),
{
    i < toks.len() && toks[i].kind == k
}

fn place_of(toks: &Vec<Tok>, i: usize) -> (r: usize)
    requires
        placed(tks(toks@)),
    ensures
        r == place(tks(toks@), i as int),
{
    if i < toks.len() {
        toks[i].start
    } else if toks.len() == 0 {
        0
    } else {
        let last = &toks[toks.len() - 1];
        let ghost t = tks(toks@)[toks.len() - 1];
        assert(t == last@);
        last.start + last.text.as_str().unicode_len()
    }
}

fn fault(toks: &Vec<Tok>, i: usize, msg: &str) -> (r: Fault)
    requires
        placed(tks(toks@)),
    ensures
        r@ == oops(tks(toks@), i as int, msg@),
        sited(tks(toks@), r),
{
    Fault { msg: msg.to_owned(), at: place_of(toks, i), need: None }
}

fn hex_digit(c: char) -> (r: Option<u32>)
    ensures
        r is Some <==> hex_digit_value(c) is Some,
        r is Some ==> r->0 == hex_digit_value(c)->0 && r->0 < 16,
{
    if '0' <= c && c <= '9' {
        Some(code(c) - 48)
    } else if 'a' <= c && c <= 'f' {
        Some(code(c) - 87)
    } else if 'A' <= c && c <= 'F' {
        Some(code(c) - 55)
    } else {
        None
    }
}

/// The number the hexadecimal digits `cs[from..to]` spell, at most four of them.
#[verifier::loop_isolation(false)]
pub fn hex_number(cs: &[char], from: usize, to: usize) -> (r: Option<u32>)
    requires
        from <= to <= cs.len(),
        to - from <= 4,
    ensures
        match r {
            Some(n) => hex_value(cs@.subrange(from as int, to as int)) == Some(n as int),
            None => hex_value(cs@.subrange(from as int, to as int)) is None,
        },
{
    let ghost s = cs@.subrange(from as int, to as int);
    let start: usize = if from < to && cs[from] == '+' {
        from + 1
    } else {
        from
    };
    let ghost body = cs@.subrange(start as int, to as int);
    assert(start > from ==> s.drop_first() =~= body);
    assert(start == from ==> s =~= body);
    if start == to {
        return None;
    }
    let mut n: u32 = 0;
    let mut i: usize = start;
    assert(body.take(0) =~= Seq::<char>::empty());
    let ghost mut bound: int = 1;
    while i < to
        invariant
            start <= i <= to <= cs.len(),
            to - start <= 4,
            body == cs@.subrange(start as int, to as int),
            hex_digits_value(body.take(i - start)) == Some(n as int),
            n < bound,
            bound == (if i - start == 0 {
                1int
            } else if i - start == 1 {
                16
            } else if i - start == 2 {
                256
            } else if i - start == 3 {
                4096
            } else {
                65536
            }),
        decreases to - i,
    {
        assert(body.take(i - start + 1).drop_last() =~= body.take(i - start));
        assert(body.take(i - start + 1).last() == cs@[i as int]);
        match hex_digit(cs[i]) {
            None => {
                proof {
                    hex_stops(body, i - start + 1);
                }
                return None;
            },
            Some(d) => {
                n = n * 16 + d;
            },
        }
        proof {
            bound = bound * 16;
        }
        i = i + 1;
    }
    assert(body.take(i - start) =~= body);
    Some(n)
}

/// A string with a prefix that holds no hexadecimal number holds none.
pub proof fn hex_stops(s: Seq<char>, i: int)
    requires
        0 <= i <= s.len(),
        hex_digits_value(s.take(i)) is None,
    ensures
        hex_digits_value(s) is None,
    decreases s.len() - i,
{
    if i == s.len() {
        assert(s.take(i) =~= s);
    } else {
        assert(s.take(i + 1).drop_last() =~= s.take(i));
        hex_stops(s, i + 1);
    }
}

/// Append the character with code point `n`, if there is one.
pub fn push_scalar(out: &mut Vec<char>, n: Option<u32>)
    requires
        match n {
            Some(v) => v <= 0xffff,
            None => true,
        },
    ensures
        final(out)@ == old(out)@ + scalar_char(
            match n {
                Some(v) => Some(v as int),
                None => None,
            },
        ),
{
    if let Some(v) = n {
        if v < 0xd800 || v >= 0xe000 {
            match char_of(v) {
                Some(c) => {
                    out.push(c);
                    assert(out@ =~= old(out)@ + seq![v as char]);
                },
                None => {},
            }
            return;
        }
    }
    assert(out@ =~= old(out)@ + Seq::<char>::empty());
}

/// `char::from_u32`: the character with a code point, which there is for every
/// code point below 0x110000 that is not a surrogate.
#[verifier::external_body]
fn char_of(n: u32) -> (r: Option<char>)
    ensures
        r == (if n < 0xd800 || (0xe000 <= n && n <= 0x10ffff) {
            Some(n as char)
        } else {
            None
        }),
{
    char::from_u32(n)
}

/// What a one-letter escape stands for.
pub fn escape_of(c: char) -> (r: Option<char>)
    ensures
        r == simple_escape(c),
{
    if c == '"' || c == '\\' || c == '/' {
        Some(c)
    } else if c == 'n' {
        Some('\n')
    } else if c == 'r' {
        Some('\r')
    } else if c == 't' {
        Some('\t')
    } else if c == 'b' {
        Some('\u{8}')
    } else if c == 'f' {
        Some('\u{c}')
    } else {
        None
    }
}

pub proof fn hex_small(s: Seq<char>)
    requires
        s.len() <= 4,
        hex_value(s) is Some,
    ensures
        0 <= hex_value(s)->0 <= 0xffff,
{
    let body = if s.len() > 0 && s[0] == '+' {
        s.drop_first()
    } else {
        s
    };
    reveal_with_fuel(hex_digits_value, 6);
}

/// Unescape a JSON-style double-quoted string token (including its quotes).
pub fn unescape(tok: &str) -> (r: String)
    ensures
        r@ == string_text(tok@),
{
    let all = chars_of(tok);
    let n: usize = all.len();
    let inner = if n >= 2 && all[0] == '"' && all[n - 1] == '"' {
        slice_text(&all, 1, n - 1)
    } else {
        tok.to_owned()
    };
    let cs = chars_of(&inner);
    let mut out: Vec<char> = Vec::new();
    let mut i: usize = 0;
    assert(out@ + unescaped(cs@, 0) =~= unescaped(cs@, 0));
    while i < cs.len()
        invariant
            i <= cs.len(),
            out@ + unescaped(cs@, i as int) == unescaped(cs@, 0),
        decreases cs.len() - i,
    {
        let ghost held = out@;
        let ghost from = i as int;
        let c = cs[i];
        if c != '\\' {
            out.push(c);
            assert(out@ + unescaped(cs@, i + 1) =~= held + unescaped(cs@, from));
            i = i + 1;
        } else if i + 1 >= cs.len() {
            out.push('\\');
            i = i + 1;
            assert(out@ + unescaped(cs@, i as int) =~= held + unescaped(cs@, from));
        } else if cs[i + 1] == 'u' {
            let end: usize = if cs.len() - i > 6 {
                i + 6
            } else {
                cs.len()
            };
            let v = hex_number(&cs, i + 2, end);
            proof {
                if v is Some {
                    hex_small(cs@.subrange(i + 2, end as int));
                }
            }
            push_scalar(&mut out, v);
            assert(out@ + unescaped(cs@, end as int) =~= held + unescaped(cs@, from));
            i = end;
        } else {
            match escape_of(cs[i + 1]) {
                Some(e) => {
                    out.push(e);
                },
                None => {
                    out.push('\\');
                    out.push(cs[i + 1]);
                },
            }
            assert(out@ + unescaped(cs@, i + 2) =~= held + unescaped(cs@, from));
            i = i + 2;
        }
    }
    assert(out@ + unescaped(cs@, i as int) =~= out@);
    text_of(&out)
}

/// The view of a number token's value.
spec fn number_view(r: Result<Value, FloatNeed>) -> Result<Val, Need> {
    match r {
        Ok(v) => Ok(v@),
        Err(n) => Err(n@),
    }
}

fn number_value(t: &str, facts: &FloatFacts) -> (r: Result<Value, FloatNeed>)
    ensures
        number_view(r) == number_of(t@, facts@),
{
    let cs = chars_of(t);
    let mut float = false;
    let mut i: usize = 0;
    while i < cs.len()
        invariant
            i <= cs.len(),
            cs@ == t@,
            float == exists|j: int|
                0 <= j < i && ((#[trigger] t@[j]) == '.' || t@[j] == 'e' || t@[j] == 'E'),
        decreases cs.len() - i,
    {
        if cs[i] == '.' || cs[i] == 'e' || cs[i] == 'E' {
            float = true;
            assert(t@[i as int] == cs@[i as int]);
        }
        i = i + 1;
    }
    assert(float == looks_float(t@));
    if !float {
        if let Some(n) = integer(&cs) {
            return Ok(Value::Int(n));
        }
    }
    match facts.parse(t) {
        Err(n) => Err(n),
        Ok(Some(f)) => Ok(Value::Float(f)),
        Ok(None) => Ok(Value::Float(Float { bits: 0, text: "0".to_owned() })),
    }
}

fn comment_kind(word: &str) -> (r: Option<CommentKind>)
    ensures
        r == kind_of(word@),
{
    if same(word, "head") {
        Some(CommentKind::Head)
    } else if same(word, "inline") {
        Some(CommentKind::Inline)
    } else if same(word, "foot") {
        Some(CommentKind::Foot)
    } else {
        None
    }
}

/// Does token `i` start exactly where token `i - 1` ended? Whitespace between
/// them means the user wrote an operator, not a key.
fn abuts_previous(toks: &Vec<Tok>, i: usize) -> (r: bool)
    requires
        placed(tks(toks@)),
    ensures
        r == abuts(tks(toks@), i as int),
{
    if 1 <= i && i < toks.len() {
        let prev = &toks[i - 1];
        assert(tks(toks@)[i - 1] == prev@);
        prev.start + prev.text.as_str().unicode_len() == toks[i].start
    } else {
        false
    }
}

/// Consume `Ident (- Ident)*` where every token abuts the last, and return the
/// joined key.
fn take_hyphenated_ident(toks: &Vec<Tok>, i: usize) -> (r: (String, usize))
    requires
        placed(tks(toks@)),
        i < toks.len(),
    ensures
        (r.0@, r.1 as int) == hyphen_ident(tks(toks@), i as int),
        i < r.1 <= toks.len(),
{
    let ghost t = tks(toks@);
    let mut name = toks[i].text.clone();
    let mut k: usize = i + 1;
    while is_kind(toks, k, Lx::Minus) && abuts_previous(toks, k) && is_kind(toks, k + 1, Lx::Ident)
        && abuts_previous(toks, k + 1)
        invariant
            placed(t),
            t == tks(toks@),
            i < k <= toks.len(),
            hyphen_run(t, name@, k as int) == hyphen_ident(t, i as int),
        decreases toks.len() - k,
    {
        name.push('-');
        name.append(&toks[k + 1].text);
        k = k + 2;
    }
    (name, k)
}

/// The view of a step and the position behind it.
spec fn step_got(r: Result<(Step, usize), Fault>) -> Result<(St, int), Pe> {
    match r {
        Ok((s, k)) => Ok((s@, k as int)),
        Err(f) => Err(f@),
    }
}

fn parse_index(toks: &Vec<Tok>, i: usize) -> (r: Result<(Step, usize), Fault>)
    requires
        placed(tks(toks@)),
        i <= toks.len(),
    ensures
        step_got(r) == index_at(tks(toks@), i as int),
        match r {
            Ok((_, k)) => i < k <= toks.len(),
            Err(f) => sited(tks(toks@), f),
        },
{
    let neg = is_kind(toks, i, Lx::Minus);
    let k: usize = if neg {
        i + 1
    } else {
        i
    };
    if !is_kind(toks, k, Lx::Num) {
        return Err(fault(toks, k, "expected an array index or a string key"));
    }
    let cs = chars_of(&toks[k].text);
    match integer(&cs) {
        None => Err(fault(toks, k, "array index out of range")),
        Some(n) => {
            let m: i64 = if neg {
                if n == i64::MIN {
                    n
                } else {
                    -n
                }
            } else {
                n
            };
            proof {
                if neg && n == i64::MIN {
                    assert((-n) as i64 == n) by (bit_vector)
                        requires
                            n == -0x8000_0000_0000_0000i64,
                    ;
                }
            }
            Ok((Step::Index(m), k + 1))
        },
    }
}

fn parse_bracket(toks: &Vec<Tok>, i: usize) -> (r: Result<(Step, usize), Fault>)
    requires
        placed(tks(toks@)),
        i <= toks.len(),
    ensures
        step_got(r) == bracket_at(tks(toks@), i as int),
        match r {
            Ok((_, k)) => i < k <= toks.len(),
            Err(f) => sited(tks(toks@), f),
        },
{
    if is_kind(toks, i, Lx::RBrack) {
        return Ok((Step::Iterate, i + 1));
    }
    let (st, k) = if is_kind(toks, i, Lx::Str) {
        // `.["key"]`: a field by name (dotted/special keys).
        (Step::Field(unescape(&toks[i].text)), i + 1)
    } else {
        parse_index(toks, i)?
    };
    if is_kind(toks, k, Lx::RBrack) {
        Ok((st, k + 1))
    } else {
        Err(fault(toks, k, "expected `]`"))
    }
}

/// `#` addresses the current node's comment. `#` alone is the head comment;
/// `#.head`/`#.inline`/`#.foot` pick a kind.
fn parse_hash(toks: &Vec<Tok>, i: usize) -> (r: (Step, usize))
    requires
        i <= toks.len(),
    ensures
        (r.0@, r.1 as int) == hash_at(tks(toks@), i as int),
        i <= r.1 <= toks.len(),
{
    if is_kind(toks, i, Lx::Dot) && is_kind(toks, i + 1, Lx::Ident) {
        if let Some(kind) = comment_kind(&toks[i + 1].text) {
            return (Step::Comment(kind), i + 2);
        }
    }
    (Step::Comment(CommentKind::Head), i)
}

fn next_at(toks: &Vec<Tok>, i: usize) -> (r: Option<usize>)
    requires
        i <= toks.len(),
    ensures
        match next_step(tks(toks@), i as int) {
            Some(n) => r == Some(n as usize) && i <= n <= toks.len(),
            None => r is None,
        },
{
    match kind_at(toks, i) {
        Some(Lx::Dot) => Some(i + 1),
        Some(Lx::LBrack) => Some(i),
        _ => None,
    }
}

/// The view of a path's steps and the position behind them.
spec fn steps_got(r: Result<(Vec<Step>, usize), Fault>) -> Result<(Seq<St>, int), Pe> {
    match r {
        Ok((s, k)) => Ok((steps_of(s@), k as int)),
        Err(f) => Err(f@),
    }
}

fn parse_steps(toks: &Vec<Tok>, from: usize) -> (r: Result<(Vec<Step>, usize), Fault>)
    requires
        placed(tks(toks@)),
        from <= toks.len(),
    ensures
        steps_got(r) == path_steps(tks(toks@), Seq::empty(), from as int),
        match r {
            Ok((_, k)) => from <= k <= toks.len(),
            Err(f) => sited(tks(toks@), f),
        },
{
    let ghost t = tks(toks@);
    let mut steps: Vec<Step> = Vec::new();
    let mut i: usize = from;
    assert(steps_of(steps@) =~= Seq::<St>::empty());
    loop
        invariant
            placed(t),
            t == tks(toks@),
            from <= i <= toks.len(),
            path_steps(t, steps_of(steps@), i as int) == path_steps(t, Seq::empty(), from as int),
        decreases toks.len() - i,
    {
        match kind_at(toks, i) {
            Some(Lx::Hash) => {
                // Terminal: no navigation follows a comment.
                let (st, k) = parse_hash(toks, i + 1);
                steps.push(st);
                return Ok((steps, k));
            },
            Some(Lx::Ident) | Some(Lx::Str) | Some(Lx::LBrack) => {
                let (st, k) = match toks[i].kind {
                    Lx::Ident => (Step::Field(toks[i].text.clone()), i + 1),
                    Lx::Str => (Step::Field(unescape(&toks[i].text)), i + 1),
                    _ => match parse_bracket(toks, i + 1) {
                        Err(e) => {
                            return Err(e);
                        },
                        Ok(got) => got,
                    },
                };
                steps.push(st);
                match next_at(toks, k) {
                    Some(n) => {
                        i = n;
                    },
                    None => {
                        return Ok((steps, k));
                    },
                }
            },
            _ => {
                return Ok((steps, i));
            },
        }
    }
}

/// The view of an assignment target's steps.
spec fn target_got(r: Option<(Vec<Step>, usize)>) -> Option<(Seq<St>, int)> {
    match r {
        Some((s, k)) => Some((steps_of(s@), k as int)),
        None => None,
    }
}

/// A `.a.b-c[0]` path, joining `Ident - Ident` runs that are adjacent in the
/// source into one key. Adjacency is what keeps this honest: `- ` with a space
/// around it is never joined, so a spaced expression cannot be silently
/// reinterpreted.
fn parse_hyphenated_path(toks: &Vec<Tok>, from: usize) -> (r: Option<(Vec<Step>, usize)>)
    requires
        placed(tks(toks@)),
        from <= toks.len(),
    ensures
        target_got(r) == target_steps(tks(toks@), Seq::empty(), from as int),
        match r {
            Some((_, k)) => from <= k <= toks.len(),
            None => true,
        },
{
    let ghost t = tks(toks@);
    let mut steps: Vec<Step> = Vec::new();
    let mut i: usize = from;
    assert(steps_of(steps@) =~= Seq::<St>::empty());
    loop
        invariant
            placed(t),
            t == tks(toks@),
            from <= i <= toks.len(),
            target_steps(t, steps_of(steps@), i as int) == target_steps(
                t,
                Seq::empty(),
                from as int,
            ),
        decreases toks.len() - i,
    {
        let (st, k) = match kind_at(toks, i) {
            Some(Lx::Ident) => {
                let (key, k) = take_hyphenated_ident(toks, i);
                (Step::Field(key), k)
            },
            Some(Lx::Str) => (Step::Field(unescape(&toks[i].text)), i + 1),
            Some(Lx::LBrack) => {
                if is_kind(toks, i + 1, Lx::RBrack) {
                    return None;
                }
                match parse_bracket(toks, i + 1) {
                    Err(_) => {
                        return None;
                    },
                    Ok(got) => got,
                }
            },
            _ => {
                return None;
            },
        };
        steps.push(st);
        match next_at(toks, k) {
            Some(n) => {
                i = n;
            },
            None => {
                return Some((steps, k));
            },
        }
    }
}

/// The view of an assignment target.
spec fn target_view(r: Option<(Expr, usize)>) -> Option<(Ex, int)> {
    match r {
        Some((e, k)) => Some((e@, k as int)),
        None => None,
    }
}

/// Parse an assignment target: a path whose bare keys may contain `-`.
///
/// The left side of an assignment must be a path, so subtraction cannot occur
/// there. That removes the ambiguity that forces `."dev-dependencies"`
/// everywhere else: in this one position a hyphen between two identifier
/// characters is unambiguously part of the key.
///
/// Speculative: `Some` only when a complete path is followed by an assignment
/// operator; otherwise the ordinary precedence chain runs unchanged.
fn try_assign_target(toks: &Vec<Tok>, i: usize) -> (r: Option<(Expr, usize)>)
    requires
        placed(tks(toks@)),
    ensures
        target_view(r) == target_at(tks(toks@), i as int),
        match r {
            Some((_, k)) => i < k <= toks.len(),
            None => true,
        },
{
    if !is_kind(toks, i, Lx::Dot) {
        return None;
    }
    match parse_hyphenated_path(toks, i + 1) {
        None => None,
        Some((steps, k)) => match kind_at(toks, k) {
            Some(Lx::Assign) | Some(Lx::PipeAssign) | Some(Lx::PlusAssign) => Some(
                (Expr::Path(steps), k),
            ),
            _ => None,
        },
    }
}

/// The view of a chain of subtracted words.
spec fn names_view(r: Option<(Vec<String>, &Expr)>) -> Option<(Seq<Seq<char>>, Ex)> {
    match r {
        Some((ns, e)) => Some((texts(ns@), e@)),
        None => None,
    }
}

fn subtracted_names<'e>(expr: &'e Expr) -> (r: Option<(Vec<String>, &'e Expr)>)
    ensures
        names_view(r) == hyphen_names(expr@),
    decreases expr,
{
    if let Expr::Binary(BinOp::Sub, l, rhs) = expr {
        assert(expr@ == Ex::Binary(BinOp::Sub, Box::new((**l)@), Box::new((**rhs)@)));
        if let Expr::Call(name, args) = &**rhs {
            assert((**rhs)@ == Ex::Call(name@, exs(args@)));
            if args.len() == 0 {
                return match subtracted_names(l) {
                    Some((mut ns, base)) => {
                        let ghost held = texts(ns@);
                        ns.push(name.clone());
                        assert(texts(ns@) =~= held.push(name@));
                        Some((ns, base))
                    },
                    None => None,
                };
            }
        }
        return None;
    }
    let none: Vec<String> = Vec::new();
    assert(texts(none@) =~= Seq::<Seq<char>>::empty());
    Some((none, expr))
}

fn quote_prefix(steps: &Vec<Step>, n: usize) -> (r: Option<String>)
    requires
        n <= steps.len(),
    ensures
        match quoted_prefix(steps_of(steps@), n as nat) {
            Some(p) => r is Some && r->0@ == p,
            None => r is None,
        },
{
    let ghost all = steps_of(steps@);
    let mut path = String::new();
    let mut i: usize = 0;
    while i < n
        invariant
            i <= n <= steps.len(),
            all == steps_of(steps@),
            quoted_prefix(all, i as nat) == Some(path@),
        decreases n - i,
    {
        assert(all[i as int] == steps@[i as int]@);
        match &steps[i] {
            Step::Field(f) => {
                if is_bare_ident(f) {
                    path.push('.');
                    path.append(f);
                } else {
                    path.append(".\"");
                    path.append(f);
                    path.append("\"");
                }
            },
            Step::Index(k) => {
                path.append("[");
                path.append(&int_text(*k));
                path.append("]");
            },
            _ => {
                proof {
                    prefix_stops(all, (i + 1) as nat, n as nat);
                }
                return None;
            },
        }
        i = i + 1;
    }
    Some(path)
}

proof fn prefix_stops(steps: Seq<St>, i: nat, n: nat)
    requires
        i <= n,
        quoted_prefix(steps, i) is None,
    ensures
        quoted_prefix(steps, n) is None,
    decreases n - i,
{
    if i < n {
        prefix_stops(steps, i, (n - 1) as nat);
    }
}

/// Recognize the wreckage of a hyphenated bare key used as a path: a chain of
/// subtractions whose leftmost operand is a path ending in a field and whose
/// right operands are bare zero-argument calls (`.a.crate-type` lexes as
/// `.a.crate`, `-`, `type`). Returns the corrected, quoted path and the
/// offending key (`.a."crate-type"`, `crate-type`); `None` if the shape is
/// anything else.
fn hyphen_key(expr: &Expr) -> (r: Option<(String, String)>)
    ensures
        match r {
            Some((p, k)) => hyphen_key_of(expr@) == Some((p@, k@)),
            None => hyphen_key_of(expr@) is None,
        },
{
    let (ns, base) = match subtracted_names(expr) {
        None => {
            return None;
        },
        Some(x) => x,
    };
    assert(texts(ns@).len() == ns.len());
    if ns.len() == 0 {
        return None;
    }
    if let Expr::Path(steps) = base {
        if steps.len() == 0 {
            return None;
        }
        let last: usize = steps.len() - 1;
        assert(steps_of(steps@).last() == steps@[last as int]@);
        if let Step::Field(first) = &steps[last] {
            let mut parts: Vec<String> = Vec::new();
            parts.push(first.clone());
            crate::comment::extend_texts(&mut parts, &ns);
            assert(texts(parts@) =~= seq![first@] + texts(ns@));
            let key = join_texts(&parts, "-");
            return match quote_prefix(steps, last) {
                None => None,
                Some(mut path) => {
                    path.append(".\"");
                    path.append(&key);
                    path.append("\"");
                    Some((path, key))
                },
            };
        }
    }
    None
}

/// The view of an optional failure.
spec fn fault_view(r: Option<Fault>) -> Option<Pe> {
    match r {
        Some(f) => Some(f@),
        None => None,
    }
}

/// A hyphenated bare key that reached an assignment despite
/// [`try_assign_target`], which means it was not a plain path (a pipe, a
/// parenthesized expression). Name the fix rather than failing later with "left
/// side of an assignment must be a path".
fn reject_hyphen_key_lhs(toks: &Vec<Tok>, i: usize, lhs: &Expr) -> (r: Option<Fault>)
    requires
        placed(tks(toks@)),
    ensures
        fault_view(r) == hyphen_refusal(tks(toks@), i as int, lhs@),
        r is Some ==> sited(tks(toks@), r->0),
{
    match hyphen_key(lhs) {
        None => None,
        Some((path, key)) => {
            let mut m = "key `".to_owned();
            m.append(&key);
            m.append("` contains `-` (parsed as subtraction); quote it: ");
            m.append(&path);
            Some(fault(toks, i, &m))
        },
    }
}

fn compare_of(k: Option<Lx>) -> (r: Option<BinOp>)
    ensures
        r == compare_op(k),
{
    match k {
        Some(Lx::EqEq) => Some(BinOp::Eq),
        Some(Lx::Ne) => Some(BinOp::Ne),
        Some(Lx::Lt) => Some(BinOp::Lt),
        Some(Lx::Gt) => Some(BinOp::Gt),
        Some(Lx::Le) => Some(BinOp::Le),
        Some(Lx::Ge) => Some(BinOp::Ge),
        _ => None,
    }
}

fn add_of(k: Option<Lx>) -> (r: Option<BinOp>)
    ensures
        r == add_op(k),
{
    match k {
        Some(Lx::Plus) => Some(BinOp::Add),
        Some(Lx::Minus) => Some(BinOp::Sub),
        _ => None,
    }
}

fn mul_of(k: Option<Lx>) -> (r: Option<BinOp>)
    ensures
        r == mul_op(k),
{
    match k {
        Some(Lx::Star) => Some(BinOp::Mul),
        Some(Lx::Slash) => Some(BinOp::Div),
        Some(Lx::Percent) => Some(BinOp::Mod),
        _ => None,
    }
}

/// Did a production that started at `i` end behind it, in range?
spec fn past(toks: Seq<Tok>, r: Result<(Expr, usize), Fault>, i: usize) -> bool {
    match r {
        Ok((_, k)) => i < k <= toks.len(),
        Err(f) => sited(tks(toks), f),
    }
}

#[verifier::rlimit(60)]
#[verifier::spinoff_prover]
#[verifier::loop_isolation(false)]
fn parse_pipe(toks: &Vec<Tok>, i: usize, facts: &FloatFacts) -> (r: Result<(Expr, usize), Fault>)
    requires
        placed(tks(toks@)),
        i <= toks.len(),
    ensures
        got(r) == g_pipe(tks(toks@), i as int, facts@),
        past(toks@, r, i),
    decreases toks.len() - i, 20int,
{
    let ghost t = tks(toks@);
    let (mut l, mut k) = parse_comma(toks, i, facts)?;
    while is_kind(toks, k, Lx::Pipe)
        invariant
            i < k <= toks.len(),
            g_pipe(t, i as int, facts@) == g_pipe_tail(t, l@, k as int, facts@),
        decreases toks.len() - k,
    {
        let (r, n) = parse_comma(toks, k + 1, facts)?;
        l = Expr::Pipe(Box::new(l), Box::new(r));
        k = n;
    }
    Ok((l, k))
}

#[verifier::loop_isolation(false)]
fn parse_comma(toks: &Vec<Tok>, i: usize, facts: &FloatFacts) -> (r: Result<(Expr, usize), Fault>)
    requires
        placed(tks(toks@)),
        i <= toks.len(),
    ensures
        got(r) == g_comma(tks(toks@), i as int, facts@),
        past(toks@, r, i),
    decreases toks.len() - i, 18int,
{
    let ghost t = tks(toks@);
    let (first, from) = parse_assign(toks, i, facts)?;
    if !is_kind(toks, from, Lx::Comma) {
        return Ok((first, from));
    }
    let ghost one = first@;
    let mut items: Vec<Expr> = Vec::new();
    items.push(first);
    assert(exs(items@) =~= seq![one]);
    let mut k: usize = from;
    while is_kind(toks, k, Lx::Comma)
        invariant
            i < k <= toks.len(),
            g_comma(t, i as int, facts@) == g_comma_tail(t, exs(items@), k as int, facts@),
        decreases toks.len() - k,
    {
        let (r, n) = parse_assign(toks, k + 1, facts)?;
        let ghost held = exs(items@);
        let ghost more = r@;
        items.push(r);
        assert(exs(items@) =~= held.push(more));
        k = n;
    }
    Ok((Expr::Comma(items), k))
}

fn parse_assign(toks: &Vec<Tok>, i: usize, facts: &FloatFacts) -> (r: Result<(Expr, usize), Fault>)
    requires
        placed(tks(toks@)),
        i <= toks.len(),
    ensures
        got(r) == g_assign(tks(toks@), i as int, facts@),
        past(toks@, r, i),
    decreases toks.len() - i, 16int,
{
    let (l, k) = match try_assign_target(toks, i) {
        Some(x) => x,
        None => parse_alt(toks, i, facts)?,
    };
    if !is_kind(toks, k, Lx::Assign) && !is_kind(toks, k, Lx::PipeAssign) && !is_kind(
        toks,
        k,
        Lx::PlusAssign,
    ) {
        return Ok((l, k));
    }
    if let Some(e) = reject_hyphen_key_lhs(toks, k, &l) {
        return Err(e);
    }
    let (r, n) = parse_assign(toks, k + 1, facts)?;
    let e = match toks[k].kind {
        Lx::Assign => Expr::Assign(Box::new(l), Box::new(r)),
        Lx::PipeAssign => Expr::UpdateAssign(Box::new(l), Box::new(r)),
        _ => Expr::AddAssign(Box::new(l), Box::new(r)),
    };
    Ok((e, n))
}

fn parse_alt(toks: &Vec<Tok>, i: usize, facts: &FloatFacts) -> (r: Result<(Expr, usize), Fault>)
    requires
        placed(tks(toks@)),
        i <= toks.len(),
    ensures
        got(r) == g_alt(tks(toks@), i as int, facts@),
        past(toks@, r, i),
    decreases toks.len() - i, 14int,
{
    let (l, k) = parse_compare(toks, i, facts)?;
    if is_kind(toks, k, Lx::Alt) {
        let (r, n) = parse_alt(toks, k + 1, facts)?;
        Ok((Expr::Alternative(Box::new(l), Box::new(r)), n))
    } else {
        Ok((l, k))
    }
}

fn parse_compare(toks: &Vec<Tok>, i: usize, facts: &FloatFacts) -> (r: Result<(Expr, usize), Fault>)
    requires
        placed(tks(toks@)),
        i <= toks.len(),
    ensures
        got(r) == g_compare(tks(toks@), i as int, facts@),
        past(toks@, r, i),
    decreases toks.len() - i, 12int,
{
    let (l, k) = parse_add(toks, i, facts)?;
    match compare_of(kind_at(toks, k)) {
        Some(op) => {
            let (r, n) = parse_add(toks, k + 1, facts)?;
            Ok((Expr::Binary(op, Box::new(l), Box::new(r)), n))
        },
        None => Ok((l, k)),
    }
}

#[verifier::loop_isolation(false)]
fn parse_add(toks: &Vec<Tok>, i: usize, facts: &FloatFacts) -> (r: Result<(Expr, usize), Fault>)
    requires
        placed(tks(toks@)),
        i <= toks.len(),
    ensures
        got(r) == g_add(tks(toks@), i as int, facts@),
        past(toks@, r, i),
    decreases toks.len() - i, 10int,
{
    let ghost t = tks(toks@);
    let (mut l, mut k) = parse_mul(toks, i, facts)?;
    loop
        invariant
            i < k <= toks.len(),
            g_add(t, i as int, facts@) == g_add_tail(t, l@, k as int, facts@),
        decreases toks.len() - k,
    {
        match add_of(kind_at(toks, k)) {
            Some(op) => {
                let (r, n) = parse_mul(toks, k + 1, facts)?;
                l = Expr::Binary(op, Box::new(l), Box::new(r));
                k = n;
            },
            None => {
                return Ok((l, k));
            },
        }
    }
}

#[verifier::loop_isolation(false)]
fn parse_mul(toks: &Vec<Tok>, i: usize, facts: &FloatFacts) -> (r: Result<(Expr, usize), Fault>)
    requires
        placed(tks(toks@)),
        i <= toks.len(),
    ensures
        got(r) == g_mul(tks(toks@), i as int, facts@),
        past(toks@, r, i),
    decreases toks.len() - i, 8int,
{
    let ghost t = tks(toks@);
    let (mut l, mut k) = parse_unary(toks, i, facts)?;
    loop
        invariant
            i < k <= toks.len(),
            g_mul(t, i as int, facts@) == g_mul_tail(t, l@, k as int, facts@),
        decreases toks.len() - k,
    {
        match mul_of(kind_at(toks, k)) {
            Some(op) => {
                let (r, n) = parse_unary(toks, k + 1, facts)?;
                l = Expr::Binary(op, Box::new(l), Box::new(r));
                k = n;
            },
            None => {
                return Ok((l, k));
            },
        }
    }
}

fn parse_unary(toks: &Vec<Tok>, i: usize, facts: &FloatFacts) -> (r: Result<(Expr, usize), Fault>)
    requires
        placed(tks(toks@)),
        i <= toks.len(),
    ensures
        got(r) == g_unary(tks(toks@), i as int, facts@),
        past(toks@, r, i),
    decreases toks.len() - i, 6int,
{
    if is_kind(toks, i, Lx::Minus) {
        let (a, k) = parse_unary(toks, i + 1, facts)?;
        Ok((Expr::Neg(Box::new(a)), k))
    } else {
        parse_primary(toks, i, facts)
    }
}

/// The position behind the closing token at `k`.
fn expect(toks: &Vec<Tok>, k: usize, close: Lx, what: &str) -> (r: Result<usize, Fault>)
    requires
        placed(tks(toks@)),
        k <= toks.len(),
    ensures
        match r {
            Ok(n) => peek(tks(toks@), k as int) == Some(close) && n == k + 1 && n <= toks.len(),
            Err(e) => peek(tks(toks@), k as int) != Some(close) && e@ == oops(
                tks(toks@),
                k as int,
                what@,
            ) && sited(tks(toks@), e),
        },
{
    if is_kind(toks, k, close) {
        Ok(k + 1)
    } else {
        Err(fault(toks, k, what))
    }
}

fn parse_primary(toks: &Vec<Tok>, i: usize, facts: &FloatFacts) -> (r: Result<
    (Expr, usize),
    Fault,
>)
    requires
        placed(tks(toks@)),
        i <= toks.len(),
    ensures
        got(r) == g_primary(tks(toks@), i as int, facts@),
        past(toks@, r, i),
    decreases toks.len() - i, 4int,
{
    match kind_at(toks, i) {
        Some(Lx::Dot) => {
            let (steps, k) = parse_steps(toks, i + 1)?;
            Ok((Expr::Path(steps), k))
        },
        Some(Lx::LParen) => {
            let (a, k) = parse_pipe(toks, i + 1, facts)?;
            let n: usize = expect(toks, k, Lx::RParen, "expected `)`")?;
            Ok((a, n))
        },
        Some(Lx::LBrack) => {
            if is_kind(toks, i + 1, Lx::RBrack) {
                return Ok((Expr::Collect(None), i + 2));
            }
            let (a, k) = parse_pipe(toks, i + 1, facts)?;
            let n: usize = expect(toks, k, Lx::RBrack, "expected `]`")?;
            Ok((Expr::Collect(Some(Box::new(a))), n))
        },
        Some(Lx::LBrace) => {
            if is_kind(toks, i + 1, Lx::RBrace) {
                let none: Vec<(String, Expr)> = Vec::new();
                assert(ex_pairs(none@) =~= Seq::<(Seq<char>, Ex)>::empty());
                return Ok((Expr::ObjectConstruct(none), i + 2));
            }
            parse_object(toks, i + 1, facts)
        },
        Some(Lx::Num) => match number_value(&toks[i].text, facts) {
            Ok(v) => Ok((Expr::Literal(v), i + 1)),
            Err(n) => Err(
                Fault {
                    msg: crate::error::need_text(),
                    at: place_of(toks, i),
                    need: Some(n),
                },
            ),
        },
        Some(Lx::Str) => Ok((Expr::Literal(Value::Str(unescape(&toks[i].text))), i + 1)),
        Some(Lx::Ident) => parse_ident(toks, i, facts),
        _ => Err(fault(toks, i, "expected an expression")),
    }
}

/// The view of an object key.
spec fn key_view(r: Option<(String, usize)>) -> Option<(Seq<char>, int)> {
    match r {
        Some((s, k)) => Some((s@, k as int)),
        None => None,
    }
}

fn parse_key(toks: &Vec<Tok>, i: usize) -> (r: Option<(String, usize)>)
    requires
        placed(tks(toks@)),
    ensures
        key_view(r) == member_key(tks(toks@), i as int),
        match r {
            Some((_, k)) => i < k <= toks.len(),
            None => true,
        },
{
    match kind_at(toks, i) {
        Some(Lx::Ident) => Some(take_hyphenated_ident(toks, i)),
        Some(Lx::Str) => Some((unescape(&toks[i].text), i + 1)),
        _ => None,
    }
}

/// `{a: 1, b: .x}`, from behind the opening brace. Both `key: value` (jq) and
/// `key = value` (TOML/env spelling) are accepted and mean the same thing.
#[verifier::loop_isolation(false)]
fn parse_object(toks: &Vec<Tok>, i: usize, facts: &FloatFacts) -> (r: Result<(Expr, usize), Fault>)
    requires
        placed(tks(toks@)),
        i <= toks.len(),
    ensures
        got(r) == g_members(tks(toks@), Seq::empty(), i as int, facts@),
        past(toks@, r, i),
    decreases toks.len() - i, 13int,
{
    let ghost t = tks(toks@);
    let mut pairs: Vec<(String, Expr)> = Vec::new();
    assert(ex_pairs(pairs@) =~= Seq::<(Seq<char>, Ex)>::empty());
    let mut k: usize = i;
    loop
        invariant
            i <= k <= toks.len(),
            g_members(t, Seq::empty(), i as int, facts@) == g_members(
                t,
                ex_pairs(pairs@),
                k as int,
                facts@,
            ),
        decreases toks.len() - k,
    {
        let (key, n) = match parse_key(toks, k) {
            None => {
                return Err(fault(toks, k, "expected an object key"));
            },
            Some(x) => x,
        };
        if !is_kind(toks, n, Lx::Colon) && !is_kind(toks, n, Lx::Assign) {
            return Err(fault(toks, n, "expected `:` or `=`"));
        }
        let (v, m) = parse_compare(toks, n + 1, facts)?;
        let ghost held = ex_pairs(pairs@);
        let ghost more = (key@, v@);
        pairs.push((key, v));
        assert(ex_pairs(pairs@) =~= held.push(more));
        match kind_at(toks, m) {
            Some(Lx::Comma) => {
                k = m + 1;
            },
            Some(Lx::RBrace) => {
                return Ok((Expr::ObjectConstruct(pairs), m + 1));
            },
            _ => {
                return Err(fault(toks, m, "expected `,` or `}`"));
            },
        }
    }
}

#[verifier::loop_isolation(false)]
fn parse_ident(toks: &Vec<Tok>, i: usize, facts: &FloatFacts) -> (r: Result<(Expr, usize), Fault>)
    requires
        placed(tks(toks@)),
        peek(tks(toks@), i as int) == Some(Lx::Ident),
    ensures
        got(r) == g_ident(tks(toks@), i as int, facts@),
        past(toks@, r, i),
    decreases toks.len() - i, 2int,
{
    let ghost t = tks(toks@);
    let name = toks[i].text.clone();
    if same(&name, "true") {
        return Ok((Expr::Literal(Value::Bool(true)), i + 1));
    }
    if same(&name, "false") {
        return Ok((Expr::Literal(Value::Bool(false)), i + 1));
    }
    if same(&name, "null") {
        return Ok((Expr::Literal(Value::Null), i + 1));
    }
    let mut args: Vec<Expr> = Vec::new();
    assert(exs(args@) =~= Seq::<Ex>::empty());
    if !is_kind(toks, i + 1, Lx::LParen) {
        return Ok((Expr::Call(name, args), i + 1));
    }
    let (first, from) = parse_pipe(toks, i + 2, facts)?;
    let ghost one = first@;
    args.push(first);
    assert(exs(args@) =~= seq![one]);
    let mut k: usize = from;
    while is_kind(toks, k, Lx::Semi)
        invariant
            i < k <= toks.len(),
            g_ident(t, i as int, facts@) == g_args(t, name@, exs(args@), k as int, facts@),
        decreases toks.len() - k,
    {
        let (a, n) = parse_pipe(toks, k + 1, facts)?;
        let ghost held = exs(args@);
        let ghost more = a@;
        args.push(a);
        assert(exs(args@) =~= held.push(more));
        k = n;
    }
    let n: usize = expect(toks, k, Lx::RParen, "expected `)`")?;
    Ok((Expr::Call(name, args), n))
}

/// The number the digits `cs[from..]` spell, when it is a `usize`.
#[verifier::loop_isolation(false)]
fn document_number(cs: &[char], from: usize) -> (r: Option<usize>)
    requires
        from <= cs.len(),
    ensures
        ({
            let body = cs@.skip(from as int);
            if body.len() > 0 && all_digits(body) && digits_value(body) <= usize::MAX {
                r is Some && r->0 == digits_value(body)
            } else {
                r is None
            }
        }),
{
    let ghost body = cs@.skip(from as int);
    if from == cs.len() {
        return None;
    }
    let mut n: usize = 0;
    let mut over = false;
    let mut i: usize = from;
    while i < cs.len()
        invariant
            from <= i <= cs.len(),
            all_digits(body.take(i - from)),
            over ==> digits_value(body.take(i - from)) > usize::MAX,
            !over ==> n == digits_value(body.take(i - from)),
        decreases cs.len() - i,
    {
        let c = cs[i];
        assert(body[i - from] == c);
        if !('0' <= c && c <= '9') {
            return None;
        }
        assert(body.take(i - from + 1).drop_last() =~= body.take(i - from));
        assert(body.take(i - from + 1).last() == c);
        let d: usize = (code(c) - 48) as usize;
        if !over {
            match n.checked_mul(10) {
                None => {
                    over = true;
                },
                Some(m) => match m.checked_add(d) {
                    None => {
                        over = true;
                    },
                    Some(x) => {
                        n = x;
                    },
                },
            }
        }
        i = i + 1;
    }
    assert(body.take(i - from) =~= body);
    if over {
        None
    } else {
        Some(n)
    }
}

fn parse_body(toks: &Vec<Tok>, i: usize, facts: &FloatFacts) -> (r: Result<(Expr, usize), Fault>)
    requires
        placed(tks(toks@)),
        i <= toks.len(),
    ensures
        got(r) == body_at(tks(toks@), i as int, facts@),
        past(toks@, r, i),
{
    proof {
        reveal(body_at);
    }
    parse_pipe(toks, i, facts)
}

/// Parse a whole program: an optional leading `^dN` document selector, then
/// the expression it scopes.
fn parse_program(toks: &Vec<Tok>, facts: &FloatFacts) -> (r: Result<(Expr, usize), Fault>)
    requires
        placed(tks(toks@)),
    ensures
        got(r) == g_program(tks(toks@), facts@),
        match r {
            Ok((_, k)) => k <= toks.len(),
            Err(f) => sited(tks(toks@), f),
        },
{
    proof {
        reveal(g_program);
    }
    if !is_kind(toks, 0, Lx::Caret) {
        return parse_body(toks, 0, facts);
    }
    if !is_kind(toks, 1, Lx::Ident) {
        return Err(fault(toks, 1, "expected a document index after `^`, e.g. `^d0`"));
    }
    let word = chars_of(&toks[1].text);
    if word.len() == 0 || word[0] != 'd' {
        return Err(fault(toks, 1, "document selector is `^dN`, e.g. `^d0` (document 0)"));
    }
    assert(word@.skip(1) =~= word@.drop_first());
    match document_number(&word, 1) {
        None => Err(
            fault(toks, 1, "`^dN` needs a document index, e.g. `^d0` (document 0)"),
        ),
        Some(n) => {
            let k: usize = if is_kind(toks, 2, Lx::Pipe) {
                3
            } else {
                2
            };
            if k >= toks.len() {
                let none: Vec<Step> = Vec::new();
                assert(steps_of(none@) =~= Seq::<St>::empty());
                let body = Expr::Path(none);
                assert(body@ == Ex::Path(Seq::<St>::empty()));
                Ok((Expr::DocSelect(n, Box::new(body)), k))
            } else {
                let (body, m) = parse_body(toks, k, facts)?;
                Ok((Expr::DocSelect(n, Box::new(body)), m))
            }
        },
    }
}

/// Where the first `.some-key` starts and ends, in characters.
///
/// A hyphen only counts when it sits between two identifier characters, so
/// `.a-1` and `.a - b` are left alone: the first is arithmetic on a literal and
/// the second is spaced, and neither is the mistake being diagnosed.
fn hyphenated_span(cs: &[char]) -> (r: Option<(usize, usize)>)
    ensures
        match r {
            Some((a, b)) => hyphenated_from(cs@, 0) == Some((a as int, b as int)) && a <= b
                <= cs.len(),
            None => hyphenated_from(cs@, 0) is None,
        },
{
    let mut i: usize = 0;
    while i < cs.len()
        invariant
            i <= cs.len(),
            hyphenated_from(cs@, 0) == hyphenated_from(cs@, i as int),
        decreases cs.len() - i,
    {
        if cs[i] != '.' || i + 1 >= cs.len() || !is_ident_start(cs[i + 1]) {
            i = i + 1;
            continue ;
        }
        let start: usize = i + 1;
        let mut j: usize = start;
        let mut hyphenated = false;
        loop
            invariant_except_break
                start <= j <= cs.len(),
                key_run(cs@, start as int, false) == key_run(cs@, j as int, hyphenated),
            ensures
                start <= j <= cs.len(),
                key_run(cs@, start as int, false) == (j as int, hyphenated),
            decreases cs.len() - j,
        {
            if j < cs.len() && is_ident_part(cs[j]) {
                j = j + 1;
            } else if cs.len() - j > 1 && cs[j] == '-' && is_ident_start(cs[j + 1]) {
                hyphenated = true;
                j = j + 1;
            } else {
                break ;
            }
        }
        if hyphenated {
            return Some((start, j));
        }
        i = j;
    }
    None
}

/// The first `.some-key` in the source, with the byte offset of its first
/// character.
pub fn hyphenated_key(src: &str) -> (r: Option<(String, usize)>)
    ensures
        match r {
            Some((key, at)) => match hyphenated_from(src@, 0) {
                Some((a, b)) => key@ == src@.subrange(a, b) && at == byte_offset(src@, a),
                None => false,
            },
            None => hyphenated_from(src@, 0) is None,
        },
{
    let cs = chars_of(src);
    match hyphenated_span(&cs) {
        None => None,
        Some((a, b)) => Some((slice_text(&cs, a, b), byte_position(src, &cs, a))),
    }
}

/// Replace a parse failure with the hyphenated-key explanation when the source
/// contains one.
///
/// Assignment targets do not need this: [`try_assign_target`] parses hyphenated
/// keys outright, because subtraction cannot appear on the left of `=`.
/// Everywhere else the ambiguity is real, since `.total-length` is a legitimate
/// subtraction of the `length` builtin, so a query like
/// `.dev-dependencies.serde_json` cannot be guessed at.
///
/// Only ever applied to an already failing parse, so it cannot change how a
/// working expression behaves.
fn with_hyphen_hint(err: Fault, cs: &[char]) -> (r: Fault)
    ensures
        r@ == hinted(err@, cs@),
        err.at <= cs.len() ==> r.at <= cs.len(),
{
    let msg = chars_of(&err.msg);
    let mark = chars_of("contains `-`");
    if next_sep(&msg, &mark, 0).is_some() {
        return err;
    }
    match hyphenated_span(cs) {
        None => err,
        Some((a, b)) => {
            let key = slice_text(cs, a, b);
            let mut m = "key `".to_owned();
            m.append(&key);
            m.append("` contains `-` (parsed as subtraction); quote it: ");
            assert(cs@.subrange(0, a as int) =~= cs@.take(a as int));
            m.append(&slice_text(cs, 0, a));
            m.append("\"");
            m.append(&key);
            m.append("\"");
            Fault { msg: m, at: a, need: err.need }
        },
    }
}

/// The bytes the first `i` characters take in UTF-8.
pub open spec fn byte_offset(s: Seq<char>, i: int) -> int {
    vstd::utf8::encode_utf8(s.take(i)).len() as int
}

proof fn scalar_width(c: char)
    ensures
        vstd::utf8::encode_scalar(c as u32).len() == utf8_width(c),
{
    vstd::utf8::char_is_scalar(c);
}

/// One more character adds its width.
proof fn offset_step(s: Seq<char>, i: int)
    requires
        0 <= i < s.len(),
    ensures
        byte_offset(s, i + 1) == byte_offset(s, i) + utf8_width(s[i]),
    decreases i,
{
    if i == 0 {
        assert(s.take(1).drop_first() =~= Seq::<char>::empty());
        assert(s.take(0) =~= Seq::<char>::empty());
        assert(s.take(1)[0] == s[0]);
        reveal_with_fuel(vstd::utf8::encode_utf8, 3);
        scalar_width(s[0]);
    } else {
        let rest = s.drop_first();
        offset_step(rest, i - 1);
        assert(s.take(i + 1).drop_first() =~= rest.take(i));
        assert(s.take(i).drop_first() =~= rest.take(i - 1));
        assert(s.take(i + 1)[0] == s[0] && s.take(i)[0] == s[0]);
        assert(vstd::utf8::encode_utf8(s.take(i + 1)) == vstd::utf8::encode_scalar(s[0] as u32)
            + vstd::utf8::encode_utf8(rest.take(i)));
        assert(vstd::utf8::encode_utf8(s.take(i)) == vstd::utf8::encode_scalar(s[0] as u32)
            + vstd::utf8::encode_utf8(rest.take(i - 1)));
        assert(rest[i - 1] == s[i]);
    }
}

/// A prefix takes no more bytes than the whole.
proof fn offset_bound(s: Seq<char>, i: int)
    requires
        0 <= i <= s.len(),
    ensures
        byte_offset(s, i) <= vstd::utf8::encode_utf8(s).len(),
    decreases s.len() - i,
{
    if i == s.len() {
        assert(s.take(i) =~= s);
    } else {
        offset_step(s, i);
        offset_bound(s, i + 1);
    }
}

/// The byte offset of character `i` of `src`.
fn byte_position(src: &str, cs: &Vec<char>, i: usize) -> (r: usize)
    requires
        cs@ == src@,
        i <= cs.len(),
    ensures
        r == byte_offset(src@, i as int),
{
    let bytes = src.as_bytes();
    let total: usize = bytes.len();
    let mut n: usize = 0;
    let mut k: usize = 0;
    assert(src@.take(0) =~= Seq::<char>::empty());
    while k < i
        invariant
            k <= i <= cs.len(),
            cs@ == src@,
            total == vstd::utf8::encode_utf8(src@).len(),
            n == byte_offset(src@, k as int),
        decreases i - k,
    {
        proof {
            offset_step(src@, k as int);
            offset_bound(src@, k + 1);
        }
        n = n + width(cs[k]);
        k = k + 1;
    }
    n
}

/// The public failure for one whose position counts characters.
pub open spec fn located(e: Pe, s: Seq<char>) -> Pe {
    Pe { pos: byte_offset(s, e.pos), ..e }
}

/// The view of a parse.
pub open spec fn parse_view(r: Result<Expr, ParseError>) -> Result<Ex, Pe> {
    match r {
        Ok(e) => Ok(e@),
        Err(f) => Err(f@),
    }
}

/// The expression a source text denotes, with the failure's position in bytes.
pub open spec fn source_expr(s: Seq<char>, fx: crate::float::Facts) -> Result<Ex, Pe> {
    match parsed_expr(s, fx) {
        Ok(e) => Ok(e),
        Err(e) => Err(located(e, s)),
    }
}

impl View for ParseError {
    type V = Pe;

    open spec fn view(&self) -> Pe {
        Pe { msg: self.msg@, pos: self.pos as int, need: opt_need(self.need) }
    }
}

impl ParseError {
    /// The failure as it is shown.
    pub fn to_string(&self) -> (r: String)
        ensures
            r@ == self.msg@ + " (at offset "@ + nat_digits(self.pos as nat) + ")"@,
    {
        let mut out = self.msg.clone();
        out.append(" (at offset ");
        out.append(&nat_text(self.pos as u64));
        out.append(")");
        out
    }
}

/// Parse a complete expression, consuming all of `src`.
pub fn parse(src: &str, facts: &FloatFacts) -> (r: Result<Expr, ParseError>)
    ensures
        parse_view(r) == source_expr(src@, facts@),
{
    let cs = chars_of(src);
    let toks = match lex(&cs) {
        Err(at) => {
            let mut m = "unexpected character `".to_owned();
            let one = slice_text(&cs, at, at + 1);
            assert(one@ =~= seq![src@[at as int]]);
            m.append(&one);
            m.append("`");
            return Err(ParseError { msg: m, pos: byte_position(src, &cs, at), need: None });
        },
        Ok(toks) => toks,
    };
    proof {
        tokens_cover(src@, 0);
        let t = tks(toks@);
        assert forall|k: int| 0 <= k < t.len() implies 0 <= (#[trigger] t[k]).start && t[k].start
            + t[k].text.len() <= place(t, t.len() as int) <= usize::MAX by {
            let l = t.len() - 1;
            assert(t[l].start + t[l].text.len() <= src@.len());
            assert(cs@.len() <= usize::MAX);
            if k < l {
                assert(t[k].start + t[k].text.len() <= t[l].start);
            }
        }
    }
    let fault = match parse_program(&toks, facts) {
        Err(e) => e,
        Ok((e, k)) => {
            if k == toks.len() {
                return Ok(e);
            }
            let mut m = "unexpected trailing token `".to_owned();
            m.append(&toks[k].text);
            m.append("`");
            fault(&toks, k, &m)
        },
    };
    let e = with_hyphen_hint(fault, &cs);
    Err(ParseError { msg: e.msg, pos: byte_position(src, &cs, e.at), need: e.need })
}

} // verus!
