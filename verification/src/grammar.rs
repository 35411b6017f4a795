//! The grammar of the expression language, as a function from tokens to
//! expressions.
//!
//! Precedence, lowest to highest: `|` (pipe), `,` (comma), assignment, `//`,
//! comparison, additive, multiplicative, unary `-`, primary. Dotted/indexed
//! paths desugar into a path of steps. Every production yields the expression
//! and the position behind it, which always lies behind the position it started
//! at.
use crate::ast::{bare_ident, CommentKind};
use crate::float::{parsed, Facts, Flt, Need};
use crate::lexer::{Lx, Tk};
use crate::model::{BinOp, Ex, St, Val};
use crate::seqs::joined;
use crate::strings::find_sep;
use crate::strs::{all_digits, digits_value, int_digits, parse_i64};
use vstd::prelude::*;

verus! {

/// The mathematical content of a parse failure: the message, the position in
/// the source (in characters), and the floating-point result whose absence
/// stopped the parse, if that is what happened.
pub struct Pe {
    pub msg: Seq<char>,
    pub pos: int,
    pub need: Option<Need>,
}

/// An expression and the position behind it.
pub type Got = Result<(Ex, int), Pe>;

/// The kind of the token at `i`.
pub open spec fn peek(t: Seq<Tk>, i: int) -> Option<Lx> {
    if 0 <= i < t.len() {
        Some(t[i].kind)
    } else {
        None
    }
}

/// The position behind the last token.
pub open spec fn end_pos(t: Seq<Tk>) -> int {
    if t.len() == 0 {
        0
    } else {
        t.last().start + t.last().text.len()
    }
}

/// Where token `i` starts, or the end.
pub open spec fn place(t: Seq<Tk>, i: int) -> int {
    if 0 <= i < t.len() {
        t[i].start
    } else {
        end_pos(t)
    }
}

/// A failure at token `i`.
pub open spec fn oops(t: Seq<Tk>, i: int, msg: Seq<char>) -> Pe {
    Pe { msg, pos: place(t, i), need: None }
}

/// The text between a string's quotes.
pub open spec fn unquoted(t: Seq<char>) -> Seq<char> {
    if t.len() >= 2 && t[0] == '"' && t.last() == '"' {
        t.subrange(1, t.len() - 1)
    } else {
        t
    }
}

/// The value of a hexadecimal digit.
pub open spec fn hex_digit_value(c: char) -> Option<int> {
    if '0' <= c && c <= '9' {
        Some(c as int - 48)
    } else if 'a' <= c && c <= 'f' {
        Some(c as int - 87)
    } else if 'A' <= c && c <= 'F' {
        Some(c as int - 55)
    } else {
        None
    }
}

/// The number hexadecimal digits spell; nothing spells zero.
pub open spec fn hex_digits_value(s: Seq<char>) -> Option<int>
    decreases s.len(),
{
    if s.len() == 0 {
        Some(0)
    } else {
        match (hex_digits_value(s.drop_last()), hex_digit_value(s.last())) {
            (Some(a), Some(d)) => Some(a * 16 + d),
            _ => None,
        }
    }
}

/// The number a `\u` escape's digits spell: at least one digit, with an optional
/// `+` in front.
pub open spec fn hex_value(s: Seq<char>) -> Option<int> {
    let body = if s.len() > 0 && s[0] == '+' {
        s.drop_first()
    } else {
        s
    };
    if body.len() == 0 {
        None
    } else {
        hex_digits_value(body)
    }
}

/// The character with a code point, if there is one.
pub open spec fn scalar_char(n: Option<int>) -> Seq<char> {
    match n {
        Some(v) => if (0 <= v < 0xd800) || (0xe000 <= v <= 0x10ffff) {
            seq![v as char]
        } else {
            Seq::empty()
        },
        None => Seq::empty(),
    }
}

/// What a one-letter escape stands for.
pub open spec fn simple_escape(c: char) -> Option<char> {
    if c == '"' || c == '\\' || c == '/' {
        Some(c)
    } else if c == 'n' {
        Some('\n')
    } else if c == 'r' {
        Some('\r')
    } else if c == 't' {
        Some('\t')
    } else if c == 'b' {
        Some('\u{8}')
    } else if c == 'f' {
        Some('\u{c}')
    } else {
        None
    }
}

/// The end of the digits of a `\u` escape that start at `i`: four characters,
/// or what is left.
pub open spec fn hex_end(s: Seq<char>, i: int) -> int {
    if i + 4 < s.len() {
        i + 4
    } else {
        s.len() as int
    }
}

/// The text of `s` from `i` on with its escapes resolved; an unknown escape
/// stands for itself.
pub open spec fn unescaped(s: Seq<char>, i: int) -> Seq<char>
    decreases s.len() - i,
{
    if i >= s.len() {
        Seq::empty()
    } else if s[i] != '\\' {
        seq![s[i]] + unescaped(s, i + 1)
    } else if i + 1 >= s.len() {
        seq!['\\']
    } else if s[i + 1] == 'u' {
        scalar_char(hex_value(s.subrange(i + 2, hex_end(s, i + 2)))) + unescaped(
            s,
            hex_end(s, i + 2),
        )
    } else {
        match simple_escape(s[i + 1]) {
            Some(c) => seq![c] + unescaped(s, i + 2),
            None => seq!['\\', s[i + 1]] + unescaped(s, i + 2),
        }
    }
}

/// What a string token denotes.
pub open spec fn string_text(t: Seq<char>) -> Seq<char> {
    unescaped(unquoted(t), 0)
}

/// Does a number's text have a fraction or an exponent?
pub open spec fn looks_float(t: Seq<char>) -> bool {
    exists|i: int| 0 <= i < t.len() && ((#[trigger] t[i]) == '.' || t[i] == 'e' || t[i] == 'E')
}

/// Zero as a double.
pub open spec fn float_zero() -> Flt {
    Flt { bits: 0, text: "0"@ }
}

/// What a number token denotes.
pub open spec fn number_of(t: Seq<char>, fx: Facts) -> Result<Val, Need> {
    match if looks_float(t) {
        None
    } else {
        parse_i64(t)
    } {
        Some(i) => Ok(Val::Int(i)),
        None => match parsed(fx, t) {
            Err(n) => Err(n),
            Ok(Some(f)) => Ok(Val::Float(f)),
            Ok(None) => Ok(Val::Float(float_zero())),
        },
    }
}

/// The comment kind a `#.<word>` refinement names.
pub open spec fn kind_of(word: Seq<char>) -> Option<CommentKind> {
    if word == "head"@ {
        Some(CommentKind::Head)
    } else if word == "inline"@ {
        Some(CommentKind::Inline)
    } else if word == "foot"@ {
        Some(CommentKind::Foot)
    } else {
        None
    }
}

/// Does token `i` start exactly where token `i - 1` ended?
pub open spec fn abuts(t: Seq<Tk>, i: int) -> bool {
    1 <= i < t.len() && t[i - 1].start + t[i - 1].text.len() == t[i].start
}

/// Does `- ident`, without white space, follow at `i`?
pub open spec fn hyphen_joins(t: Seq<Tk>, i: int) -> bool {
    peek(t, i) == Some(Lx::Minus) && abuts(t, i) && peek(t, i + 1) == Some(Lx::Ident) && abuts(
        t,
        i + 1,
    )
}

/// `name` and the `-ident` runs that follow at `i`, joined.
pub open spec fn hyphen_run(t: Seq<Tk>, name: Seq<char>, i: int) -> (Seq<char>, int)
    decreases t.len() - i,
{
    if hyphen_joins(t, i) {
        hyphen_run(t, name.push('-') + t[i + 1].text, i + 2)
    } else {
        (name, i)
    }
}

/// The key at `i`, an identifier with the `-ident` runs that abut it.
pub open spec fn hyphen_ident(t: Seq<Tk>, i: int) -> (Seq<char>, int) {
    hyphen_run(t, t[i].text, i + 1)
}

/// The index between brackets at `i`, and the position behind its number.
pub open spec fn index_at(t: Seq<Tk>, i: int) -> Result<(St, int), Pe> {
    let neg = peek(t, i) == Some(Lx::Minus);
    let k = if neg {
        i + 1
    } else {
        i
    };
    if peek(t, k) != Some(Lx::Num) {
        Err(oops(t, k, "expected an array index or a string key"@))
    } else {
        match parse_i64(t[k].text) {
            None => Err(oops(t, k, "array index out of range"@)),
            Some(n) => Ok(
                (
                    St::Index(
                        if neg {
                            (-n) as i64
                        } else {
                            n
                        },
                    ),
                    k + 1,
                ),
            ),
        }
    }
}

/// The step in brackets whose content starts at `i` (`[]` iterates), and the
/// position behind its closing bracket.
pub open spec fn bracket_at(t: Seq<Tk>, i: int) -> Result<(St, int), Pe> {
    if peek(t, i) == Some(Lx::RBrack) {
        Ok((St::Iterate, i + 1))
    } else {
        let inner = if peek(t, i) == Some(Lx::Str) {
            Ok((St::Field(string_text(t[i].text)), i + 1))
        } else {
            index_at(t, i)
        };
        match inner {
            Err(e) => Err(e),
            Ok((st, k)) => if peek(t, k) == Some(Lx::RBrack) {
                Ok((st, k + 1))
            } else {
                Err(oops(t, k, "expected `]`"@))
            },
        }
    }
}

/// The comment step behind a `#`, and the position behind it.
pub open spec fn hash_at(t: Seq<Tk>, i: int) -> (St, int) {
    if peek(t, i) == Some(Lx::Dot) && peek(t, i + 1) == Some(Lx::Ident) && kind_of(
        t[i + 1].text,
    ) is Some {
        (St::Comment(kind_of(t[i + 1].text)->0), i + 2)
    } else {
        (St::Comment(CommentKind::Head), i)
    }
}

/// The position of the next step when the path goes on at `i`.
pub open spec fn next_step(t: Seq<Tk>, i: int) -> Option<int> {
    match peek(t, i) {
        Some(Lx::Dot) => Some(i + 1),
        Some(Lx::LBrack) => Some(i),
        _ => None,
    }
}

/// The steps of a path whose next step starts at `i`.
pub open spec fn path_steps(t: Seq<Tk>, steps: Seq<St>, i: int) -> Result<(Seq<St>, int), Pe>
    decreases t.len() - i,
{
    match peek(t, i) {
        Some(Lx::Hash) => {
            let (st, k) = hash_at(t, i + 1);
            Ok((steps.push(st), k))
        },
        Some(Lx::Ident) | Some(Lx::Str) | Some(Lx::LBrack) => {
            let one = match peek(t, i) {
                Some(Lx::Ident) => Ok((St::Field(t[i].text), i + 1)),
                Some(Lx::Str) => Ok((St::Field(string_text(t[i].text)), i + 1)),
                _ => bracket_at(t, i + 1),
            };
            match one {
                Err(e) => Err(e),
                Ok((st, k)) => match next_step(t, k) {
                    Some(n) => if i < n <= t.len() {
                        path_steps(t, steps.push(st), n)
                    } else {
                        Ok((steps.push(st), k))
                    },
                    None => Ok((steps.push(st), k)),
                },
            }
        },
        _ => Ok((steps, i)),
    }
}

/// The steps of an assignment target whose next step starts at `i`: a path whose
/// bare keys may contain `-`, without `[]` or comments.
pub open spec fn target_steps(t: Seq<Tk>, steps: Seq<St>, i: int) -> Option<(Seq<St>, int)>
    decreases t.len() - i,
{
    let one = match peek(t, i) {
        Some(Lx::Ident) => {
            let (key, k) = hyphen_ident(t, i);
            Some((St::Field(key), k))
        },
        Some(Lx::Str) => Some((St::Field(string_text(t[i].text)), i + 1)),
        Some(Lx::LBrack) => if peek(t, i + 1) == Some(Lx::RBrack) {
            None
        } else {
            match bracket_at(t, i + 1) {
                Ok((st, k)) => Some((st, k)),
                Err(_) => None,
            }
        },
        _ => None,
    };
    match one {
        None => None,
        Some((st, k)) => match next_step(t, k) {
            Some(n) => if i < n <= t.len() {
                target_steps(t, steps.push(st), n)
            } else {
                None
            },
            None => Some((steps.push(st), k)),
        },
    }
}

/// An assignment operator.
pub open spec fn assign_op(k: Option<Lx>) -> bool {
    k == Some(Lx::Assign) || k == Some(Lx::PipeAssign) || k == Some(Lx::PlusAssign)
}

/// The assignment target at `i`: a complete path followed by an assignment
/// operator. There a hyphen between two identifiers is part of the key, because
/// subtraction cannot occur on the left of an assignment.
pub open spec fn target_at(t: Seq<Tk>, i: int) -> Option<(Ex, int)> {
    if peek(t, i) == Some(Lx::Dot) {
        match target_steps(t, Seq::empty(), i + 1) {
            Some((steps, k)) => if assign_op(peek(t, k)) && k > i {
                Some((Ex::Path(steps), k))
            } else {
                None
            },
            None => None,
        }
    } else {
        None
    }
}

/// The names of a chain of subtractions of bare words, and what they are
/// subtracted from.
pub open spec fn hyphen_names(e: Ex) -> Option<(Seq<Seq<char>>, Ex)>
    decreases e,
{
    match e {
        Ex::Binary(BinOp::Sub, l, r) => match *r {
            Ex::Call(name, args) => if args.len() == 0 {
                match hyphen_names(*l) {
                    Some((ns, base)) => Some((ns.push(name), base)),
                    None => None,
                }
            } else {
                None
            },
            _ => None,
        },
        _ => Some((Seq::empty(), e)),
    }
}

/// A path prefix as it is quoted in a message.
pub open spec fn quoted_prefix(steps: Seq<St>, n: nat) -> Option<Seq<char>>
    decreases n,
{
    if n == 0 {
        Some(Seq::empty())
    } else {
        match quoted_prefix(steps, (n - 1) as nat) {
            None => None,
            Some(p) => match steps[n - 1] {
                St::Field(f) => if bare_ident(f) {
                    Some(p.push('.') + f)
                } else {
                    Some(p + ".\""@ + f + "\""@)
                },
                St::Index(i) => Some(p + "["@ + int_digits(i as int) + "]"@),
                _ => None,
            },
        }
    }
}

/// The wreckage of a hyphenated bare key used as a path (`.a.crate-type` reads
/// as `.a.crate`, `-`, `type`): the corrected, quoted path and the key.
pub open spec fn hyphen_key_of(e: Ex) -> Option<(Seq<char>, Seq<char>)> {
    match hyphen_names(e) {
        None => None,
        Some((ns, base)) => if ns.len() == 0 {
            None
        } else {
            match base {
                Ex::Path(steps) => if steps.len() == 0 {
                    None
                } else {
                    match steps.last() {
                        St::Field(first) => {
                            let key = joined(seq![first] + ns, "-"@);
                            match quoted_prefix(steps, (steps.len() - 1) as nat) {
                                None => None,
                                Some(p) => Some((p + ".\""@ + key + "\""@, key)),
                            }
                        },
                        _ => None,
                    }
                },
                _ => None,
            }
        },
    }
}

/// The failure for a hyphenated key on the left of an assignment.
pub open spec fn hyphen_refusal(t: Seq<Tk>, i: int, lhs: Ex) -> Option<Pe> {
    match hyphen_key_of(lhs) {
        None => None,
        Some((path, key)) => Some(
            oops(
                t,
                i,
                "key `"@ + key + "` contains `-` (parsed as subtraction); quote it: "@ + path,
            ),
        ),
    }
}

/// The comparison an operator token stands for.
pub open spec fn compare_op(k: Option<Lx>) -> Option<BinOp> {
    match k {
        Some(Lx::EqEq) => Some(BinOp::Eq),
        Some(Lx::Ne) => Some(BinOp::Ne),
        Some(Lx::Lt) => Some(BinOp::Lt),
        Some(Lx::Gt) => Some(BinOp::Gt),
        Some(Lx::Le) => Some(BinOp::Le),
        Some(Lx::Ge) => Some(BinOp::Ge),
        _ => None,
    }
}

/// The additive operator a token stands for.
pub open spec fn add_op(k: Option<Lx>) -> Option<BinOp> {
    match k {
        Some(Lx::Plus) => Some(BinOp::Add),
        Some(Lx::Minus) => Some(BinOp::Sub),
        _ => None,
    }
}

/// The multiplicative operator a token stands for.
pub open spec fn mul_op(k: Option<Lx>) -> Option<BinOp> {
    match k {
        Some(Lx::Star) => Some(BinOp::Mul),
        Some(Lx::Slash) => Some(BinOp::Div),
        Some(Lx::Percent) => Some(BinOp::Mod),
        _ => None,
    }
}

/// `a | b | c`.
pub open spec fn g_pipe(t: Seq<Tk>, i: int, fx: Facts) -> Got
    decreases t.len() - i, 20int,
{
    match g_comma(t, i, fx) {
        Err(e) => Err(e),
        Ok((l, k)) => if i < k <= t.len() {
            g_pipe_tail(t, l, k, fx)
        } else {
            Ok((l, k))
        },
    }
}

pub open spec fn g_pipe_tail(t: Seq<Tk>, l: Ex, i: int, fx: Facts) -> Got
    decreases t.len() - i, 21int,
{
    if peek(t, i) == Some(Lx::Pipe) {
        match g_comma(t, i + 1, fx) {
            Err(e) => Err(e),
            Ok((r, k)) => if i < k <= t.len() {
                g_pipe_tail(t, Ex::Pipe(Box::new(l), Box::new(r)), k, fx)
            } else {
                Ok((l, i))
            },
        }
    } else {
        Ok((l, i))
    }
}

/// `a, b, c`.
pub open spec fn g_comma(t: Seq<Tk>, i: int, fx: Facts) -> Got
    decreases t.len() - i, 18int,
{
    match g_assign(t, i, fx) {
        Err(e) => Err(e),
        Ok((l, k)) => if peek(t, k) == Some(Lx::Comma) && k > i {
            g_comma_tail(t, seq![l], k, fx)
        } else {
            Ok((l, k))
        },
    }
}

pub open spec fn g_comma_tail(t: Seq<Tk>, items: Seq<Ex>, i: int, fx: Facts) -> Got
    decreases t.len() - i, 19int,
{
    if peek(t, i) == Some(Lx::Comma) {
        match g_assign(t, i + 1, fx) {
            Err(e) => Err(e),
            Ok((r, k)) => if i < k <= t.len() {
                g_comma_tail(t, items.push(r), k, fx)
            } else {
                Ok((Ex::Comma(items), i))
            },
        }
    } else {
        Ok((Ex::Comma(items), i))
    }
}

/// `path = rhs`, `path |= rhs`, `path += rhs`: right-associative.
pub open spec fn g_assign(t: Seq<Tk>, i: int, fx: Facts) -> Got
    decreases t.len() - i, 16int,
{
    match target_at(t, i) {
        Some((l, k)) => g_assign_rest(t, l, k, fx),
        None => match g_alt(t, i, fx) {
            Err(e) => Err(e),
            Ok((l, k)) => if i < k <= t.len() {
                g_assign_rest(t, l, k, fx)
            } else {
                Ok((l, k))
            },
        },
    }
}

pub open spec fn g_assign_rest(t: Seq<Tk>, l: Ex, i: int, fx: Facts) -> Got
    decreases t.len() - i, 17int,
{
    if assign_op(peek(t, i)) {
        match hyphen_refusal(t, i, l) {
            Some(e) => Err(e),
            None => match g_assign(t, i + 1, fx) {
                Err(e) => Err(e),
                Ok((r, k)) => Ok(
                    (
                        match peek(t, i) {
                            Some(Lx::Assign) => Ex::Assign(Box::new(l), Box::new(r)),
                            Some(Lx::PipeAssign) => Ex::UpdateAssign(Box::new(l), Box::new(r)),
                            _ => Ex::AddAssign(Box::new(l), Box::new(r)),
                        },
                        k,
                    ),
                ),
            },
        }
    } else {
        Ok((l, i))
    }
}

/// `a // b`: right-associative.
pub open spec fn g_alt(t: Seq<Tk>, i: int, fx: Facts) -> Got
    decreases t.len() - i, 14int,
{
    match g_compare(t, i, fx) {
        Err(e) => Err(e),
        Ok((l, k)) => if peek(t, k) == Some(Lx::Alt) && k > i {
            match g_alt(t, k + 1, fx) {
                Err(e) => Err(e),
                Ok((r, n)) => Ok((Ex::Alternative(Box::new(l), Box::new(r)), n)),
            }
        } else {
            Ok((l, k))
        },
    }
}

/// A comparison; not associative.
pub open spec fn g_compare(t: Seq<Tk>, i: int, fx: Facts) -> Got
    decreases t.len() - i, 12int,
{
    match g_add(t, i, fx) {
        Err(e) => Err(e),
        Ok((l, k)) => match compare_op(peek(t, k)) {
            Some(op) => if i < k <= t.len() {
                match g_add(t, k + 1, fx) {
                    Err(e) => Err(e),
                    Ok((r, n)) => Ok((Ex::Binary(op, Box::new(l), Box::new(r)), n)),
                }
            } else {
                Ok((l, k))
            },
            None => Ok((l, k)),
        },
    }
}

/// `a + b - c`: left-associative.
pub open spec fn g_add(t: Seq<Tk>, i: int, fx: Facts) -> Got
    decreases t.len() - i, 10int,
{
    match g_mul(t, i, fx) {
        Err(e) => Err(e),
        Ok((l, k)) => if i < k <= t.len() {
            g_add_tail(t, l, k, fx)
        } else {
            Ok((l, k))
        },
    }
}

pub open spec fn g_add_tail(t: Seq<Tk>, l: Ex, i: int, fx: Facts) -> Got
    decreases t.len() - i, 11int,
{
    match add_op(peek(t, i)) {
        Some(op) => match g_mul(t, i + 1, fx) {
            Err(e) => Err(e),
            Ok((r, k)) => if i < k <= t.len() {
                g_add_tail(t, Ex::Binary(op, Box::new(l), Box::new(r)), k, fx)
            } else {
                Ok((l, i))
            },
        },
        None => Ok((l, i)),
    }
}

/// `a * b / c % d`: left-associative.
pub open spec fn g_mul(t: Seq<Tk>, i: int, fx: Facts) -> Got
    decreases t.len() - i, 8int,
{
    match g_unary(t, i, fx) {
        Err(e) => Err(e),
        Ok((l, k)) => if i < k <= t.len() {
            g_mul_tail(t, l, k, fx)
        } else {
            Ok((l, k))
        },
    }
}

pub open spec fn g_mul_tail(t: Seq<Tk>, l: Ex, i: int, fx: Facts) -> Got
    decreases t.len() - i, 9int,
{
    match mul_op(peek(t, i)) {
        Some(op) => match g_unary(t, i + 1, fx) {
            Err(e) => Err(e),
            Ok((r, k)) => if i < k <= t.len() {
                g_mul_tail(t, Ex::Binary(op, Box::new(l), Box::new(r)), k, fx)
            } else {
                Ok((l, i))
            },
        },
        None => Ok((l, i)),
    }
}

/// `-a`.
pub open spec fn g_unary(t: Seq<Tk>, i: int, fx: Facts) -> Got
    decreases t.len() - i, 6int,
{
    if peek(t, i) == Some(Lx::Minus) {
        match g_unary(t, i + 1, fx) {
            Err(e) => Err(e),
            Ok((a, k)) => Ok((Ex::Neg(Box::new(a)), k)),
        }
    } else {
        g_primary(t, i, fx)
    }
}

/// An expression that must be followed by a closing token.
pub open spec fn closed_by(t: Seq<Tk>, g: Got, close: Lx, what: Seq<char>) -> Got {
    match g {
        Err(e) => Err(e),
        Ok((a, k)) => if peek(t, k) == Some(close) {
            Ok((a, k + 1))
        } else {
            Err(oops(t, k, what))
        },
    }
}

/// A path, a parenthesized expression, `[..]`, `{..}`, a literal or a call.
pub open spec fn g_primary(t: Seq<Tk>, i: int, fx: Facts) -> Got
    decreases t.len() - i, 4int,
{
    match peek(t, i) {
        Some(Lx::Dot) => match path_steps(t, Seq::empty(), i + 1) {
            Err(e) => Err(e),
            Ok((steps, k)) => Ok((Ex::Path(steps), k)),
        },
        Some(Lx::LParen) => closed_by(t, g_pipe(t, i + 1, fx), Lx::RParen, "expected `)`"@),
        Some(Lx::LBrack) => if peek(t, i + 1) == Some(Lx::RBrack) {
            Ok((Ex::Collect(None), i + 2))
        } else {
            match closed_by(t, g_pipe(t, i + 1, fx), Lx::RBrack, "expected `]`"@) {
                Err(e) => Err(e),
                Ok((a, k)) => Ok((Ex::Collect(Some(Box::new(a))), k)),
            }
        },
        Some(Lx::LBrace) => if peek(t, i + 1) == Some(Lx::RBrace) {
            Ok((Ex::ObjectConstruct(Seq::empty()), i + 2))
        } else {
            g_members(t, Seq::empty(), i + 1, fx)
        },
        Some(Lx::Num) => match number_of(t[i].text, fx) {
            Ok(v) => Ok((Ex::Literal(v), i + 1)),
            Err(n) => Err(
                Pe { msg: crate::error::need_message(), pos: place(t, i), need: Some(n) },
            ),
        },
        Some(Lx::Str) => Ok((Ex::Literal(Val::Str(string_text(t[i].text))), i + 1)),
        Some(Lx::Ident) => g_ident(t, i, fx),
        _ => Err(oops(t, i, "expected an expression"@)),
    }
}

/// The key at `i`, and the position behind it.
pub open spec fn member_key(t: Seq<Tk>, i: int) -> Option<(Seq<char>, int)> {
    match peek(t, i) {
        Some(Lx::Ident) => Some(hyphen_ident(t, i)),
        Some(Lx::Str) => Some((string_text(t[i].text), i + 1)),
        _ => None,
    }
}

/// The members of an object constructor, the next of which starts at `i`. Both
/// `key: value` and `key = value` are accepted; a comparison-level value keeps
/// `,` free to separate members.
pub open spec fn g_members(t: Seq<Tk>, pairs: Seq<(Seq<char>, Ex)>, i: int, fx: Facts) -> Got
    decreases t.len() - i, 13int,
{
    match member_key(t, i) {
        None => Err(oops(t, i, "expected an object key"@)),
        Some((key, k)) => if peek(t, k) != Some(Lx::Colon) && peek(t, k) != Some(Lx::Assign) {
            Err(oops(t, k, "expected `:` or `=`"@))
        } else if k < i {
            Err(oops(t, k, "expected `:` or `=`"@))
        } else {
            match g_compare(t, k + 1, fx) {
                Err(e) => Err(e),
                Ok((v, n)) => {
                    let more = pairs.push((key, v));
                    match peek(t, n) {
                        Some(Lx::Comma) => if i < n <= t.len() {
                            g_members(t, more, n + 1, fx)
                        } else {
                            Err(oops(t, n, "expected `,` or `}`"@))
                        },
                        Some(Lx::RBrace) => Ok((Ex::ObjectConstruct(more), n + 1)),
                        _ => Err(oops(t, n, "expected `,` or `}`"@)),
                    }
                },
            }
        },
    }
}

/// A literal word, or a call.
pub open spec fn g_ident(t: Seq<Tk>, i: int, fx: Facts) -> Got
    decreases t.len() - i, 2int,
{
    let name = t[i].text;
    if name == "true"@ {
        Ok((Ex::Literal(Val::Bool(true)), i + 1))
    } else if name == "false"@ {
        Ok((Ex::Literal(Val::Bool(false)), i + 1))
    } else if name == "null"@ {
        Ok((Ex::Literal(Val::Null), i + 1))
    } else if peek(t, i + 1) == Some(Lx::LParen) {
        match g_pipe(t, i + 2, fx) {
            Err(e) => Err(e),
            Ok((a, k)) => if i < k <= t.len() {
                g_args(t, name, seq![a], k, fx)
            } else {
                Err(oops(t, i, "expected `)`"@))
            },
        }
    } else {
        Ok((Ex::Call(name, Seq::empty()), i + 1))
    }
}

/// The further arguments of a call, and its closing parenthesis.
pub open spec fn g_args(t: Seq<Tk>, name: Seq<char>, args: Seq<Ex>, i: int, fx: Facts) -> Got
    decreases t.len() - i, 22int,
{
    if peek(t, i) == Some(Lx::Semi) {
        match g_pipe(t, i + 1, fx) {
            Err(e) => Err(e),
            Ok((a, k)) => if i < k <= t.len() {
                g_args(t, name, args.push(a), k, fx)
            } else {
                Err(oops(t, i, "expected `)`"@))
            },
        }
    } else if peek(t, i) == Some(Lx::RParen) {
        Ok((Ex::Call(name, args), i + 1))
    } else {
        Err(oops(t, i, "expected `)`"@))
    }
}

/// The document index a selector's word denotes.
pub open spec fn doc_index(word: Seq<char>) -> Result<int, Seq<char>> {
    if word.len() == 0 || word[0] != 'd' {
        Err("document selector is `^dN`, e.g. `^d0` (document 0)"@)
    } else {
        let body = word.drop_first();
        if body.len() > 0 && all_digits(body) && digits_value(body) <= usize::MAX {
            Ok(digits_value(body))
        } else {
            Err("`^dN` needs a document index, e.g. `^d0` (document 0)"@)
        }
    }
}

/// The expression at `i`, as a program's body.
#[verifier::opaque]
pub open spec fn body_at(t: Seq<Tk>, i: int, fx: Facts) -> Got {
    g_pipe(t, i, fx)
}

/// A whole program: an optional leading `^dN` document selector, then the
/// expression it scopes. `^dN | body` and `^dN.body` both scope `body` to the
/// document; a bare `^dN` selects the whole document.
#[verifier::opaque]
pub open spec fn g_program(t: Seq<Tk>, fx: Facts) -> Got {
    if peek(t, 0) != Some(Lx::Caret) {
        body_at(t, 0, fx)
    } else if peek(t, 1) != Some(Lx::Ident) {
        Err(oops(t, 1, "expected a document index after `^`, e.g. `^d0`"@))
    } else {
        match doc_index(t[1].text) {
            Err(m) => Err(oops(t, 1, m)),
            Ok(n) => {
                let k = if peek(t, 2) == Some(Lx::Pipe) {
                    3int
                } else {
                    2
                };
                if peek(t, k) is None {
                    Ok((Ex::DocSelect(n as usize, Box::new(Ex::Path(Seq::empty()))), k))
                } else {
                    match body_at(t, k, fx) {
                        Err(e) => Err(e),
                        Ok((body, m)) => Ok((Ex::DocSelect(n as usize, Box::new(body)), m)),
                    }
                }
            },
        }
    }
}

/// The end of the run of key characters at `j` (a hyphen counts between
/// identifier characters), and whether a hyphen was among them.
pub open spec fn key_run(s: Seq<char>, j: int, hyphenated: bool) -> (int, bool)
    decreases s.len() - j,
{
    if j < s.len() && crate::ast::ident_part(s[j]) {
        key_run(s, j + 1, hyphenated)
    } else if j + 1 < s.len() && s[j] == '-' && crate::ast::ident_start(s[j + 1]) {
        key_run(s, j + 1, true)
    } else {
        (j, hyphenated)
    }
}

/// The first `.some-key` at or after `i`: where the key starts and ends.
pub open spec fn hyphenated_from(s: Seq<char>, i: int) -> Option<(int, int)>
    decreases s.len() - i,
{
    if i >= s.len() {
        None
    } else if s[i] != '.' || i + 1 >= s.len() || !crate::ast::ident_start(s[i + 1]) {
        hyphenated_from(s, i + 1)
    } else {
        let (j, hyphenated) = key_run(s, i + 1, false);
        if hyphenated {
            Some((i + 1, j))
        } else if i < j <= s.len() {
            hyphenated_from(s, j)
        } else {
            None
        }
    }
}

/// A failure, replaced by the hyphenated-key explanation when the source has
/// such a key; one that explains a hyphen already stays.
pub open spec fn hinted(e: Pe, s: Seq<char>) -> Pe {
    if find_sep(e.msg, "contains `-`"@, 0) is Some {
        e
    } else {
        match hyphenated_from(s, 0) {
            None => e,
            Some((a, b)) => {
                let key = s.subrange(a, b);
                Pe {
                    msg: "key `"@ + key + "` contains `-` (parsed as subtraction); quote it: "@
                        + s.take(a) + "\""@ + key + "\""@,
                    pos: a,
                    need: e.need,
                }
            },
        }
    }
}

/// The expression a source text denotes.
pub open spec fn parsed_expr(s: Seq<char>, fx: Facts) -> Result<Ex, Pe> {
    match crate::lexer::lex_from(s, 0) {
        Err(at) => Err(
            Pe { msg: "unexpected character `"@ + seq![s[at]] + "`"@, pos: at, need: None },
        ),
        Ok(t) => match g_program(t, fx) {
            Err(e) => Err(hinted(e, s)),
            Ok((e, k)) => if k != t.len() {
                Err(
                    hinted(oops(t, k, "unexpected trailing token `"@ + t[k].text + "`"@), s),
                )
            } else {
                Ok(e)
            },
        },
    }
}

} // verus!
