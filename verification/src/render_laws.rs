//! A rendered path parses back as that path.
use crate::ast::{bare_ident, ident_part, ident_start, path_text, step_text, steps_text};
use crate::float::Facts;
use crate::grammar::{
    assign_op, body_at, bracket_at, g_add, g_add_tail, g_alt, g_assign, g_assign_rest, g_comma,
    g_compare, g_mul, g_mul_tail, g_pipe, g_pipe_tail, g_primary, g_program, g_unary, index_at,
    next_step, path_steps, peek, string_text, target_at, unescaped, unquoted, Pe,
};
use crate::json_laws::nat_digits_spell;
use crate::lexer::{
    digits_end, exponent_end, fraction_end, ident_end, lex_from, lex_skip, lex_space, string_end,
    token_at, token_bounds, Lx, Tk,
};
use crate::model::{Ex, St};
use crate::parser::source_expr;
use crate::strs::{backslashed, is_digit, nat_digits, parse_i64, printable, quoted_text};
use vstd::prelude::*;
use vstd::string::*;

verus! {

/// Is the text a string token that reads as `k`?
pub open spec fn spells(w: Seq<char>, k: Seq<char>) -> bool {
    w.len() >= 2 && w[0] == '"' && string_end(w, 1) == Some(w.len() as int) && string_text(w) == k
}

/// Is the step one that its text can stand for: a key of printable ASCII other than
/// the two words that read as numbers, or a key whose quoted form is a string that
/// reads as it, an index that has a positive counterpart, or an iteration?
pub open spec fn renderable(st: St) -> bool {
    match st {
        St::Field(k) => k != "Infinity"@ && k != "NaN"@ && (printable(k) || spells(
            quoted_text(k),
            k,
        )),
        St::Index(i) => i != i64::MIN,
        St::Iterate => true,
        St::Comment(_) => false,
    }
}

/// Are all steps such steps?
pub open spec fn all_renderable(steps: Seq<St>) -> bool {
    forall|i: int| 0 <= i < steps.len() ==> renderable(#[trigger] steps[i])
}

/// Does the step's text read as it, key by key?
spec fn legible(st: St) -> bool {
    match st {
        St::Field(k) => if bare_ident(k) {
            k != "Infinity"@ && k != "NaN"@
        } else {
            spells(quoted_text(k), k)
        },
        St::Index(i) => i != i64::MIN,
        St::Iterate => true,
        St::Comment(_) => false,
    }
}

proof fn backslashed_ends(w: Seq<char>, at: int, k: Seq<char>, i: int)
    requires
        printable(k),
        0 <= i <= k.len(),
        0 <= at <= w.len(),
        w.skip(at) == backslashed(k, i) + seq!['"'],
    ensures
        string_end(w, at) == Some(w.len() as int),
    decreases k.len() - i,
{
    let t = w.skip(at);
    assert(t.len() == w.len() - at);
    assert(w[at] == t[0]);
    if i < k.len() {
        let b = backslashed(k, i + 1);
        if k[i] == '"' || k[i] == '\\' {
            assert(t =~= seq!['\\', k[i]] + (b + seq!['"']));
            assert(w[at + 1] == t[1]);
            assert(w.skip(at + 2) =~= b + seq!['"']) by {
                assert(t.skip(2) =~= b + seq!['"']);
                assert(w.skip(at + 2) =~= t.skip(2));
            }
            backslashed_ends(w, at + 2, k, i + 1);
        } else {
            assert(t =~= seq![k[i]] + (b + seq!['"']));
            assert(w.skip(at + 1) =~= b + seq!['"']) by {
                assert(t.skip(1) =~= b + seq!['"']);
                assert(w.skip(at + 1) =~= t.skip(1));
            }
            backslashed_ends(w, at + 1, k, i + 1);
        }
    }
}

proof fn backslashed_reads(u: Seq<char>, at: int, k: Seq<char>, i: int)
    requires
        0 <= i <= k.len(),
        0 <= at <= u.len(),
        u.skip(at) == backslashed(k, i),
    ensures
        unescaped(u, at) == k.skip(i),
    decreases k.len() - i,
{
    let t = u.skip(at);
    assert(t.len() == u.len() - at);
    if i < k.len() {
        let b = backslashed(k, i + 1);
        assert(u[at] == t[0]);
        if k[i] == '"' || k[i] == '\\' {
            assert(t =~= seq!['\\', k[i]] + b);
            assert(u[at + 1] == t[1]);
            assert(u.skip(at + 2) =~= b) by {
                assert(t.skip(2) =~= b);
                assert(u.skip(at + 2) =~= t.skip(2));
            }
            backslashed_reads(u, at + 2, k, i + 1);
        } else {
            assert(t =~= seq![k[i]] + b);
            assert(u.skip(at + 1) =~= b) by {
                assert(t.skip(1) =~= b);
                assert(u.skip(at + 1) =~= t.skip(1));
            }
            backslashed_reads(u, at + 1, k, i + 1);
        }
        assert(seq![k[i]] + k.skip(i + 1) =~= k.skip(i));
    } else {
        assert(k.skip(i) =~= Seq::<char>::empty());
    }
}

/// The quoted form of printable ASCII is a string that reads as it.
pub proof fn printable_spells(k: Seq<char>)
    requires
        printable(k),
    ensures
        spells(quoted_text(k), k),
{
    let w = quoted_text(k);
    let b = backslashed(k, 0);
    assert(w[0] == '"');
    assert(w.skip(1) =~= b + seq!['"']);
    backslashed_ends(w, 1, k, 0);
    let u = unquoted(w);
    assert(u =~= b);
    assert(u.skip(0) =~= b);
    backslashed_reads(u, 0, k, 0);
    assert(k.skip(0) =~= k);
}

/// A token of one character.
spec fn mark(kind: Lx, c: char, p: int) -> Tk {
    Tk { kind, text: seq![c], start: p }
}

/// The tokens of a step whose text starts at `p`.
spec fn step_toks(st: St, p: int) -> Seq<Tk> {
    match st {
        St::Field(k) => if bare_ident(k) {
            seq![mark(Lx::Dot, '.', p), Tk { kind: Lx::Ident, text: k, start: p + 1 }]
        } else {
            let w = quoted_text(k);
            seq![
                mark(Lx::Dot, '.', p),
                mark(Lx::LBrack, '[', p + 1),
                Tk { kind: Lx::Str, text: w, start: p + 2 },
                mark(Lx::RBrack, ']', p + 2 + w.len()),
            ]
        },
        St::Index(i) => if i < 0 {
            let d = nat_digits((-i) as nat);
            seq![
                mark(Lx::LBrack, '[', p),
                mark(Lx::Minus, '-', p + 1),
                Tk { kind: Lx::Num, text: d, start: p + 2 },
                mark(Lx::RBrack, ']', p + 2 + d.len()),
            ]
        } else {
            let d = nat_digits(i as nat);
            seq![
                mark(Lx::LBrack, '[', p),
                Tk { kind: Lx::Num, text: d, start: p + 1 },
                mark(Lx::RBrack, ']', p + 1 + d.len()),
            ]
        },
        _ => seq![mark(Lx::LBrack, '[', p), mark(Lx::RBrack, ']', p + 1)],
    }
}

proof fn lex_one(s: Seq<char>, p: int, kind: Lx, e: int, rest: Seq<Tk>)
    requires
        0 <= p < s.len(),
        !lex_space(s[p]),
        token_at(s, p) == Some((kind, e)),
        lex_from(s, e) == Ok::<Seq<Tk>, int>(rest),
    ensures
        lex_from(s, p) == Ok::<Seq<Tk>, int>(
            seq![Tk { kind, text: s.subrange(p, e), start: p }] + rest,
        ),
{
    token_bounds(s, p);
    assert(lex_skip(s, p) == p);
}

/// A token of one character that no other character extends.
proof fn lex_mark(s: Seq<char>, p: int, kind: Lx, c: char, rest: Seq<Tk>)
    requires
        0 <= p < s.len(),
        s[p] == c,
        (c == '.' && kind == Lx::Dot) || (c == '[' && kind == Lx::LBrack) || (c == ']' && kind
            == Lx::RBrack) || (c == '-' && kind == Lx::Minus),
        lex_from(s, p + 1) == Ok::<Seq<Tk>, int>(rest),
    ensures
        lex_from(s, p) == Ok::<Seq<Tk>, int>(seq![mark(kind, c, p)] + rest),
{
    lex_one(s, p, kind, p + 1, rest);
    assert(s.subrange(p, p + 1) =~= seq![c]);
}

proof fn ident_end_is(s: Seq<char>, i: int, e: int)
    requires
        0 <= i <= e <= s.len(),
        forall|k: int| i <= k < e ==> ident_part(#[trigger] s[k]),
        e < s.len() ==> !ident_part(s[e]),
    ensures
        ident_end(s, i) == e,
    decreases e - i,
{
    if i < e {
        assert(ident_part(s[i]));
        ident_end_is(s, i + 1, e);
    }
}

proof fn digits_end_is(s: Seq<char>, i: int, e: int)
    requires
        0 <= i <= e <= s.len(),
        forall|k: int| i <= k < e ==> is_digit(#[trigger] s[k]),
        e < s.len() ==> !is_digit(s[e]),
    ensures
        digits_end(s, i) == e,
    decreases e - i,
{
    if i < e {
        assert(is_digit(s[i]));
        digits_end_is(s, i + 1, e);
    }
}

proof fn string_end_within(s: Seq<char>, p: int, w: Seq<char>, i: int)
    requires
        0 <= p,
        p + w.len() <= s.len(),
        s.subrange(p, p + w.len()) == w,
        0 <= i <= w.len(),
        string_end(w, i) == Some(w.len() as int),
    ensures
        string_end(s, p + i) == Some(p + w.len()),
    decreases w.len() - i,
{
    if i < w.len() {
        assert(s[p + i] == w[i]);
        if w[i] == '\\' && w[i] != '"' {
            assert(i + 1 < w.len());
            assert(s[p + i + 1] == w[i + 1]);
            if i + 2 <= w.len() {
                string_end_within(s, p, w, i + 2);
            }
        } else if w[i] != '"' {
            string_end_within(s, p, w, i + 1);
        }
    }
}

/// The number between brackets.
proof fn lex_number(s: Seq<char>, p: int, n: nat, rest: Seq<Tk>)
    requires
        0 <= p,
        p + nat_digits(n).len() < s.len(),
        s.subrange(p, p + nat_digits(n).len()) == nat_digits(n),
        s[p + nat_digits(n).len()] == ']',
        lex_from(s, p + nat_digits(n).len()) == Ok::<Seq<Tk>, int>(rest),
    ensures
        lex_from(s, p) == Ok::<Seq<Tk>, int>(
            seq![Tk { kind: Lx::Num, text: nat_digits(n), start: p }] + rest,
        ),
{
    let d = nat_digits(n);
    nat_digits_spell(n);
    let e = p + d.len();
    assert forall|k: int| p <= k < e implies is_digit(#[trigger] s[k]) by {
        assert(s[k] == d[k - p]);
        assert(is_digit(d[k - p]));
    }
    digits_end_is(s, p, e);
    assert(is_digit(s[p]));
    assert(fraction_end(s, e) == e);
    assert(exponent_end(s, e) == e);
    lex_one(s, p, Lx::Num, e, rest);
}

#[verifier::rlimit(40)]
#[verifier::spinoff_prover]
proof fn lex_step(s: Seq<char>, p: int, st: St, rest: Seq<Tk>)
    requires
        legible(st),
        0 <= p,
        p + step_text(st).len() <= s.len(),
        s.subrange(p, p + step_text(st).len()) == step_text(st),
        p + step_text(st).len() < s.len() ==> s[p + step_text(st).len()] == '.' || s[p + step_text(
            st,
        ).len()] == '[',
        lex_from(s, p + step_text(st).len()) == Ok::<Seq<Tk>, int>(rest),
    ensures
        lex_from(s, p) == Ok::<Seq<Tk>, int>(step_toks(st, p) + rest),
{
    reveal_strlit(".[");
    reveal_strlit("[");
    reveal_strlit("]");
    reveal_strlit("[]");
    let x = step_text(st);
    let q = p + x.len();
    assert forall|k: int| 0 <= k < x.len() implies #[trigger] x[k] == s[p + k] by {
        assert(s.subrange(p, q)[k] == s[p + k]);
    }
    match st {
        St::Field(k) => if bare_ident(k) {
            assert forall|j: int| p + 1 <= j < q implies ident_part(#[trigger] s[j]) by {
                assert(x[j - p] == k[j - p - 1]);
            }
            ident_end_is(s, p + 1, q);
            assert(s.subrange(p + 1, q) =~= k) by {
                assert forall|j: int| 0 <= j < k.len() implies s.subrange(p + 1, q)[j] == k[j] by {
                    assert(x[j + 1] == k[j]);
                    assert(x[j + 1] == s[p + (j + 1)]);
                }
            }
            assert(x[1] == k[0]);
            assert(ident_start(s[p + 1])) by {
                assert(x[1] == s[p + 1]);
            }
            let r1 = seq![Tk { kind: Lx::Ident, text: k, start: p + 1 }] + rest;
            lex_one(s, p + 1, Lx::Ident, q, rest);
            assert(x[0] == '.');
            lex_mark(s, p, Lx::Dot, '.', r1);
            assert(seq![mark(Lx::Dot, '.', p)] + r1 =~= step_toks(st, p) + rest);
        } else {
            let w = quoted_text(k);
            let n = w.len() as int;
            assert(x =~= ".["@ + w + "]"@);
            assert(x.len() == n + 3);
            assert(x[0] == '.' && x[1] == '[' && x[n + 2] == ']');
            assert(s.subrange(p + 2, p + 2 + n) =~= w) by {
                assert forall|j: int| 0 <= j < n implies s.subrange(p + 2, p + 2 + n)[j] == w[j] by {
                    assert(x[j + 2] == w[j]);
                    assert(x[j + 2] == s[p + (j + 2)]);
                }
            }
            string_end_within(s, p + 2, w, 1);
            assert(s[p + 2] == '"') by {
                assert(s.subrange(p + 2, p + 2 + n)[0] == w[0]);
            }
            let r3 = seq![mark(Lx::RBrack, ']', p + 2 + n)] + rest;
            lex_mark(s, p + 2 + n, Lx::RBrack, ']', rest);
            let r2 = seq![Tk { kind: Lx::Str, text: w, start: p + 2 }] + r3;
            lex_one(s, p + 2, Lx::Str, p + 2 + n, r3);
            let r1 = seq![mark(Lx::LBrack, '[', p + 1)] + r2;
            lex_mark(s, p + 1, Lx::LBrack, '[', r2);
            lex_mark(s, p, Lx::Dot, '.', r1);
            assert(seq![mark(Lx::Dot, '.', p)] + r1 =~= step_toks(st, p) + rest);
        },
        St::Index(i) => {
            let neg = i < 0;
            let d = nat_digits(
                if neg {
                    (-i) as nat
                } else {
                    i as nat
                },
            );
            let b = if neg {
                2int
            } else {
                1
            };
            let n = d.len() as int;
            assert(x =~= (if neg {
                "["@ + (seq!['-'] + d) + "]"@
            } else {
                "["@ + d + "]"@
            }));
            assert(x.len() == n + b + 1);
            assert(x[0] == '[' && x[n + b] == ']');
            assert(s.subrange(p + b, p + b + n) =~= d) by {
                assert forall|j: int| 0 <= j < n implies s.subrange(p + b, p + b + n)[j] == d[j] by {
                    assert(x[j + b] == d[j]);
                    assert(x[j + b] == s[p + (j + b)]);
                }
            }
            let r3 = seq![mark(Lx::RBrack, ']', p + b + n)] + rest;
            lex_mark(s, p + b + n, Lx::RBrack, ']', rest);
            let r2 = seq![Tk { kind: Lx::Num, text: d, start: p + b }] + r3;
            lex_number(
                s,
                p + b,
                if neg {
                    (-i) as nat
                } else {
                    i as nat
                },
                r3,
            );
            if neg {
                assert(x[1] == '-');
                let r1 = seq![mark(Lx::Minus, '-', p + 1)] + r2;
                lex_mark(s, p + 1, Lx::Minus, '-', r2);
                lex_mark(s, p, Lx::LBrack, '[', r1);
                assert(seq![mark(Lx::LBrack, '[', p)] + r1 =~= step_toks(st, p) + rest);
            } else {
                lex_mark(s, p, Lx::LBrack, '[', r2);
                assert(seq![mark(Lx::LBrack, '[', p)] + r2 =~= step_toks(st, p) + rest);
            }
        },
        _ => {
            assert(x[0] == '[' && x[1] == ']');
            let r1 = seq![mark(Lx::RBrack, ']', p + 1)] + rest;
            lex_mark(s, p + 1, Lx::RBrack, ']', rest);
            lex_mark(s, p, Lx::LBrack, '[', r1);
            assert(seq![mark(Lx::LBrack, '[', p)] + r1 =~= step_toks(st, p) + rest);
        },
    }
}

/// The text of the steps from `n` on.
spec fn text_from(steps: Seq<St>, n: int) -> Seq<char>
    decreases steps.len() - n,
{
    if n >= steps.len() {
        Seq::empty()
    } else {
        step_text(steps[n]) + text_from(steps, n + 1)
    }
}

proof fn text_splits(steps: Seq<St>, n: int)
    requires
        0 <= n <= steps.len(),
    ensures
        steps_text(steps.take(n)) + text_from(steps, n) == steps_text(steps),
    decreases steps.len() - n,
{
    if n == steps.len() {
        assert(steps.take(n) =~= steps);
        assert(steps_text(steps) + Seq::<char>::empty() =~= steps_text(steps));
    } else {
        text_splits(steps, n + 1);
        assert(steps.take(n + 1).drop_last() =~= steps.take(n));
        assert(steps_text(steps.take(n)) + (step_text(steps[n]) + text_from(steps, n + 1))
            =~= steps_text(steps.take(n)) + step_text(steps[n]) + text_from(steps, n + 1));
    }
}

/// The tokens of the steps from `n` on, whose text starts at `p`.
spec fn toks_from(steps: Seq<St>, n: int, p: int) -> Seq<Tk>
    decreases steps.len() - n,
{
    if n >= steps.len() {
        Seq::empty()
    } else {
        step_toks(steps[n], p) + toks_from(steps, n + 1, p + step_text(steps[n]).len())
    }
}

/// Is every step legible?
spec fn all_legible(steps: Seq<St>) -> bool {
    forall|i: int| 0 <= i < steps.len() ==> legible(#[trigger] steps[i])
}

proof fn step_opens(st: St)
    requires
        legible(st),
    ensures
        step_text(st).len() > 0,
        step_text(st)[0] == '.' || step_text(st)[0] == '[',
{
    reveal_strlit(".[");
    reveal_strlit("[");
    reveal_strlit("[]");
}

proof fn lex_steps(s: Seq<char>, steps: Seq<St>, n: int, p: int)
    requires
        all_legible(steps),
        0 <= n <= steps.len(),
        0 <= p <= s.len(),
        s.skip(p) == text_from(steps, n),
    ensures
        lex_from(s, p) == Ok::<Seq<Tk>, int>(toks_from(steps, n, p)),
    decreases steps.len() - n,
{
    if n == steps.len() {
        assert(p == s.len());
        assert(lex_skip(s, p) == p);
        assert(toks_from(steps, n, p) =~= Seq::<Tk>::empty());
    } else {
        let x = step_text(steps[n]);
        let rest = text_from(steps, n + 1);
        let q = p + x.len();
        let tail = s.skip(p);
        assert(tail == x + rest);
        assert(tail.len() == x.len() + rest.len());
        assert(q <= s.len());
        assert(s.skip(q) =~= rest) by {
            assert forall|k: int| 0 <= k < rest.len() implies s.skip(q)[k] == rest[k] by {
                assert(tail[x.len() + k] == rest[k]);
            }
        }
        assert(s.subrange(p, q) =~= x) by {
            assert forall|k: int| 0 <= k < x.len() implies s.subrange(p, q)[k] == x[k] by {
                assert(tail[k] == x[k]);
            }
        }
        lex_steps(s, steps, n + 1, q);
        if q < s.len() {
            assert(n + 1 < steps.len());
            step_opens(steps[n + 1]);
            assert(rest[0] == step_text(steps[n + 1])[0]);
            assert(s.skip(q)[0] == s[q]);
        }
        lex_step(s, p, steps[n], toks_from(steps, n + 1, q));
    }
}

/// Where a step's own token starts, behind its dot.
spec fn own(st: St, i: int) -> int {
    if st is Field {
        i + 1
    } else {
        i
    }
}

#[verifier::rlimit(60)]
#[verifier::spinoff_prover]
proof fn steps_parse(t: Seq<Tk>, steps: Seq<St>, n: int, p: int, i: int, acc: Seq<St>)
    requires
        all_legible(steps),
        0 <= n < steps.len(),
        0 <= i <= t.len(),
        t.skip(i) == toks_from(steps, n, p),
    ensures
        path_steps(t, acc, own(steps[n], i)) == Ok::<(Seq<St>, int), Pe>(
            (acc + steps.skip(n), t.len() as int),
        ),
    decreases steps.len() - n,
{
    let st = steps[n];
    let own_toks = step_toks(st, p);
    let rest = toks_from(steps, n + 1, p + step_text(st).len());
    let tail = t.skip(i);
    let k = i + own_toks.len();
    assert(tail == own_toks + rest);
    assert(tail.len() == own_toks.len() + rest.len());
    assert forall|j: int| 0 <= j < own_toks.len() implies #[trigger] own_toks[j] == t[i + j] by {
        assert(tail[j] == own_toks[j]);
    }
    assert(t.skip(k) =~= rest) by {
        assert forall|j: int| 0 <= j < rest.len() implies t.skip(k)[j] == rest[j] by {
            assert(tail[own_toks.len() + j] == rest[j]);
        }
    }
    let b = own(st, i);
    assert(legible(st));
    // The step itself.
    match st {
        St::Field(key) => {
            assert(own_toks[1] == t[i + 1]);
            if !bare_ident(key) {
                assert(own_toks[2] == t[i + 2]);
                assert(own_toks[3] == t[i + 3]);
                assert(bracket_at(t, b + 1) == Ok::<(St, int), Pe>((st, k)));
            }
        },
        St::Index(x) => {
            assert(own_toks[0] == t[i]);
            assert(own_toks[1] == t[i + 1]);
            assert(own_toks[2] == t[i + 2]);
            let m: int = if x < 0 {
                -x
            } else {
                x as int
            };
            nat_digits_spell(m as nat);
            let d = nat_digits(m as nat);
            assert(is_digit(d[0]));
            assert(parse_i64(d) == Some(m as i64));
            if x < 0 {
                assert(own_toks[3] == t[i + 3]);
            }
            assert(index_at(t, i + 1) == Ok::<(St, int), Pe>((st, k - 1)));
            assert(bracket_at(t, b + 1) == Ok::<(St, int), Pe>((st, k)));
        },
        _ => {
            assert(own_toks[0] == t[i]);
            assert(own_toks[1] == t[i + 1]);
            assert(bracket_at(t, b + 1) == Ok::<(St, int), Pe>((st, k)));
        },
    }
    // What follows.
    assert(acc.push(st) + steps.skip(n + 1) =~= acc + steps.skip(n));
    if n + 1 < steps.len() {
        steps_parse(t, steps, n + 1, p + step_text(st).len(), k, acc.push(st));
        assert(legible(steps[n + 1]));
        let next = step_toks(steps[n + 1], p + step_text(st).len());
        assert(rest[0] == next[0]);
        assert(t.skip(k)[0] == t[k]);
        assert(next_step(t, k) == Some(own(steps[n + 1], k)));
        assert(next.len() >= 2);
        assert(rest.len() >= 2);
    } else {
        assert(rest =~= Seq::<Tk>::empty());
        assert(k == t.len());
        assert(next_step(t, k) is None);
        assert(steps.skip(n + 1) =~= Seq::<St>::empty());
        assert(acc.push(st) =~= acc + steps.skip(n));
    }
}

/// Is the token none of those that extend an expression?
spec fn inert(k: Lx) -> bool {
    k == Lx::Dot || k == Lx::LBrack || k == Lx::RBrack || k == Lx::Ident || k == Lx::Str || k
        == Lx::Num || k == Lx::Minus
}

proof fn steps_are_inert(steps: Seq<St>, n: int, p: int)
    requires
        0 <= n <= steps.len(),
    ensures
        forall|i: int| 0 <= i < toks_from(steps, n, p).len() ==> inert((#[trigger] toks_from(steps, n, p)[i]).kind),
    decreases steps.len() - n,
{
    if n < steps.len() {
        let a = step_toks(steps[n], p);
        let b = toks_from(steps, n + 1, p + step_text(steps[n]).len());
        steps_are_inert(steps, n + 1, p + step_text(steps[n]).len());
        assert forall|i: int| 0 <= i < (a + b).len() implies inert((#[trigger] (a + b)[i]).kind) by {
            if i < a.len() {
                assert((a + b)[i] == a[i]);
            } else {
                assert((a + b)[i] == b[i - a.len()]);
            }
        }
    }
}

/// A path that all tokens belong to is the program.
proof fn path_is_program(t: Seq<Tk>, steps: Seq<St>, fx: Facts)
    requires
        t.len() > 0,
        t[0].kind == Lx::Dot,
        forall|i: int| 0 <= i < t.len() ==> inert((#[trigger] t[i]).kind),
        path_steps(t, Seq::empty(), 1) == Ok::<(Seq<St>, int), Pe>((steps, t.len() as int)),
    ensures
        g_program(t, fx) == Ok::<(Ex, int), Pe>((Ex::Path(steps), t.len() as int)),
{
    reveal(body_at);
    reveal(g_program);
    let n = t.len() as int;
    let e = Ex::Path(steps);
    assert(peek(t, n) is None);
    assert(peek(t, 0) == Some(Lx::Dot));
    assert(g_primary(t, 0, fx) == Ok::<(Ex, int), Pe>((e, n)));
    assert(g_unary(t, 0, fx) == Ok::<(Ex, int), Pe>((e, n)));
    assert(g_mul_tail(t, e, n, fx) == Ok::<(Ex, int), Pe>((e, n)));
    assert(g_mul(t, 0, fx) == Ok::<(Ex, int), Pe>((e, n)));
    assert(g_add_tail(t, e, n, fx) == Ok::<(Ex, int), Pe>((e, n)));
    assert(g_add(t, 0, fx) == Ok::<(Ex, int), Pe>((e, n)));
    assert(g_compare(t, 0, fx) == Ok::<(Ex, int), Pe>((e, n)));
    assert(g_alt(t, 0, fx) == Ok::<(Ex, int), Pe>((e, n)));
    assert forall|k: int| !assign_op(#[trigger] peek(t, k)) by {
        if 0 <= k < t.len() {
            assert(inert(t[k].kind));
        }
    }
    assert(target_at(t, 0) is None);
    assert(g_assign_rest(t, e, n, fx) == Ok::<(Ex, int), Pe>((e, n)));
    assert(g_assign(t, 0, fx) == Ok::<(Ex, int), Pe>((e, n)));
    assert(g_comma(t, 0, fx) == Ok::<(Ex, int), Pe>((e, n)));
    assert(g_pipe_tail(t, e, n, fx) == Ok::<(Ex, int), Pe>((e, n)));
    assert(g_pipe(t, 0, fx) == Ok::<(Ex, int), Pe>((e, n)));
}

proof fn legible_path_parses_back(steps: Seq<St>, fx: Facts)
    requires
        all_legible(steps),
        steps.len() > 0 ==> steps[0] is Field,
    ensures
        source_expr(path_text(steps), fx) == Ok::<Ex, Pe>(Ex::Path(steps)),
{
    let s = path_text(steps);
    if steps.len() == 0 {
        reveal_strlit(".");
        let t = seq![mark(Lx::Dot, '.', 0)];
        assert(lex_skip(s, 1) == 1);
        assert(lex_from(s, 1) == Ok::<Seq<Tk>, int>(Seq::empty()));
        lex_mark(s, 0, Lx::Dot, '.', Seq::empty());
        assert(t + Seq::<Tk>::empty() =~= t);
        assert(peek(t, 1) is None);
        assert(path_steps(t, Seq::empty(), 1) == Ok::<(Seq<St>, int), Pe>((Seq::<St>::empty(), 1int)));
        assert(steps =~= Seq::<St>::empty());
        path_is_program(t, steps, fx);
    } else {
        text_splits(steps, 0);
        assert(steps.take(0) =~= Seq::<St>::empty());
        assert(s =~= text_from(steps, 0));
        assert(s.skip(0) =~= s);
        lex_steps(s, steps, 0, 0);
        let t = toks_from(steps, 0, 0);
        assert(t.skip(0) =~= t);
        steps_parse(t, steps, 0, 0, 0, Seq::empty());
        assert(Seq::<St>::empty() + steps.skip(0) =~= steps);
        steps_are_inert(steps, 0, 0);
        assert(t[0] == step_toks(steps[0], 0)[0]);
        path_is_program(t, steps, fx);
    }
}

/// A rendered path parses back as that path: the empty path, and every path that
/// starts with a key. Of a key that is not printable ASCII it rests on the quoted form
/// of the key being a string that reads as the key.
pub proof fn rendered_path_parses_back(steps: Seq<St>, fx: Facts)
    requires
        all_renderable(steps),
        steps.len() > 0 ==> steps[0] is Field,
    ensures
        source_expr(path_text(steps), fx) == Ok::<Ex, Pe>(Ex::Path(steps)),
{
    assert forall|i: int| 0 <= i < steps.len() implies legible(#[trigger] steps[i]) by {
        assert(renderable(steps[i]));
        if steps[i] is Field && printable(steps[i]->Field_0) {
            printable_spells(steps[i]->Field_0);
        }
    }
    legible_path_parses_back(steps, fx);
}

} // verus!
