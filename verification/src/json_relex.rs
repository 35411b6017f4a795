//! When tokens of a JSON document, written one after another, are read back as the
//! same tokens.
use crate::json_lexer::{
    block_end, digit_at, eol_at, exponent_end, hex_at, hex_char, hex_run_end, infinity_at,
    json_space, json_token, json_token_bounds, json_tokens, key_part, key_start, num_end,
    number_end, punct, space_end, string_end, token_texts, word_end, Jt, Tok,
};
use crate::json_tree::toks_text;
use crate::lines::{flat, flat_add, flat_one};
use crate::strs::is_digit;
use vstd::prelude::*;
use vstd::string::*;

verus! {

/// Is the token's text that token, when it stands alone?
pub open spec fn self_lexed(x: Jt) -> bool {
    x.text.len() > 0 && x.kind != Tok::Error && json_token(x.text, 0) == (x.kind, x.text.len() as int)
}

/// Does the character end a number or a word?
pub open spec fn ends(c: char) -> bool {
    !key_part(c) && c != '.' && c != '+' && c != '-'
}

/// Does the token end in front of the character?
pub open spec fn parts(x: Jt, c: char) -> bool {
    match x.kind {
        Tok::Ws => !json_space(c),
        Tok::LineComment => c == '\n',
        Tok::True | Tok::False | Tok::Null | Tok::Ident | Tok::Num => ends(c),
        _ => true,
    }
}

/// Does the text stand at `p`?
spec fn stands(s: Seq<char>, p: int, t: Seq<char>) -> bool {
    0 <= p && p + t.len() <= s.len() && forall|k: int| 0 <= k < t.len() ==> #[trigger] t[k] == s[p + k]
}

/// Is the text at `p` followed by the end, or by a character that ends a number or a
/// word?
spec fn ended(s: Seq<char>, p: int, t: Seq<char>) -> bool {
    p + t.len() < s.len() ==> ends(s[p + t.len()])
}

proof fn space_shift(s: Seq<char>, p: int, t: Seq<char>, i: int)
    requires
        stands(s, p, t),
        0 <= i <= t.len(),
        space_end(t, i) == t.len(),
        p + t.len() < s.len() ==> !json_space(s[p + t.len()]),
    ensures
        space_end(s, p + i) == p + t.len(),
    decreases t.len() - i,
{
    if i < t.len() {
        assert(t[i] == s[p + i]);
        space_shift(s, p, t, i + 1);
    }
}

proof fn word_shift(s: Seq<char>, p: int, t: Seq<char>, i: int)
    requires
        stands(s, p, t),
        ended(s, p, t),
        0 <= i <= t.len(),
        word_end(t, i) == t.len(),
    ensures
        word_end(s, p + i) == p + t.len(),
    decreases t.len() - i,
{
    if i < t.len() {
        assert(t[i] == s[p + i]);
        word_shift(s, p, t, i + 1);
    }
}

proof fn eol_shift(s: Seq<char>, p: int, t: Seq<char>, i: int)
    requires
        stands(s, p, t),
        0 <= i <= t.len(),
        eol_at(t, i) == t.len(),
        p + t.len() < s.len() ==> s[p + t.len()] == '\n',
    ensures
        eol_at(s, p + i) == p + t.len(),
    decreases t.len() - i,
{
    if i < t.len() {
        assert(t[i] == s[p + i]);
        eol_shift(s, p, t, i + 1);
    }
}

proof fn string_shift(s: Seq<char>, p: int, t: Seq<char>, q: char, i: int)
    requires
        stands(s, p, t),
        0 <= i <= t.len(),
        string_end(t, q, i) == Some(t.len() as int),
    ensures
        string_end(s, q, p + i) == Some(p + t.len()),
    decreases t.len() - i,
{
    if i < t.len() {
        assert(t[i] == s[p + i]);
        if t[i] != q {
            if t[i] == '\\' {
                assert(i + 1 < t.len());
                string_shift(s, p, t, q, i + 2);
            } else {
                string_shift(s, p, t, q, i + 1);
            }
        }
    }
}

proof fn block_shift(s: Seq<char>, p: int, t: Seq<char>, i: int)
    requires
        stands(s, p, t),
        0 <= i <= t.len(),
        block_end(t, i) == Some(t.len() as int),
    ensures
        block_end(s, p + i) == Some(p + t.len()),
    decreases t.len() - i,
{
    if i + 1 < t.len() {
        assert(t[i] == s[p + i]);
        assert(t[i + 1] == s[p + (i + 1)]);
        if !(t[i] == '*' && t[i + 1] == '/') {
            block_shift(s, p, t, i + 1);
        }
    }
}

proof fn digits_shift(s: Seq<char>, p: int, t: Seq<char>, i: int)
    requires
        stands(s, p, t),
        ended(s, p, t),
        0 <= i <= t.len(),
    ensures
        number_end(s, p + i) == p + number_end(t, i),
        i <= number_end(t, i) <= t.len(),
    decreases t.len() - i,
{
    if i < t.len() {
        assert(t[i] == s[p + i]);
        if is_digit(t[i]) {
            digits_shift(s, p, t, i + 1);
        }
    }
}

proof fn hex_shift(s: Seq<char>, p: int, t: Seq<char>, i: int)
    requires
        stands(s, p, t),
        ended(s, p, t),
        0 <= i <= t.len(),
    ensures
        hex_run_end(s, p + i) == p + hex_run_end(t, i),
        i <= hex_run_end(t, i) <= t.len(),
    decreases t.len() - i,
{
    if i < t.len() {
        assert(t[i] == s[p + i]);
        if hex_char(t[i]) {
            hex_shift(s, p, t, i + 1);
        }
    }
}

proof fn exponent_shift(s: Seq<char>, p: int, t: Seq<char>, i: int)
    requires
        stands(s, p, t),
        ended(s, p, t),
        0 <= i <= t.len(),
    ensures
        exponent_end(s, p + i) == p + exponent_end(t, i),
{
    if i < t.len() {
        assert(t[i] == s[p + i]);
        if i + 1 < t.len() {
            assert(t[i + 1] == s[p + (i + 1)]);
            digits_shift(s, p, t, i + 1);
            if i + 2 < t.len() {
                assert(t[i + 2] == s[p + (i + 2)]);
                digits_shift(s, p, t, i + 2);
            }
        }
    }
}

#[verifier::rlimit(60)]
#[verifier::spinoff_prover]
proof fn number_shift(s: Seq<char>, p: int, t: Seq<char>)
    requires
        stands(s, p, t),
        ended(s, p, t),
        t.len() > 0,
        num_end(t, 0) == Some(t.len() as int),
    ensures
        num_end(s, p) == Some(p + t.len()),
{
    let n = t.len() as int;
    assert(t[0] == s[p]);
    let j: int = if t[0] == '+' || t[0] == '-' {
        1
    } else {
        0
    };
    reveal_strlit("Infinity");
    assert(j < n);
    assert(t[j] == s[p + j]);
    if hex_at(t, j) {
        assert(t[j + 1] == s[p + (j + 1)]);
        assert(t[j + 2] == s[p + (j + 2)]);
        hex_shift(s, p, t, j + 2);
    } else {
        assert(!hex_at(s, p + j)) by {
            if j + 1 < n {
                assert(t[j + 1] == s[p + (j + 1)]);
                if j + 2 < n {
                    assert(t[j + 2] == s[p + (j + 2)]);
                }
            }
        }
        if digit_at(t, j) {
            digits_shift(s, p, t, j);
            let d = number_end(t, j);
            if d < n {
                assert(t[d] == s[p + d]);
                if t[d] == '.' {
                    digits_shift(s, p, t, d + 1);
                    exponent_shift(s, p, t, number_end(t, d + 1));
                } else {
                    exponent_shift(s, p, t, d);
                }
            } else {
                exponent_shift(s, p, t, d);
            }
        } else if t[j] == '.' && digit_at(t, j + 1) {
            assert(t[j + 1] == s[p + (j + 1)]);
            digits_shift(s, p, t, j + 1);
            exponent_shift(s, p, t, number_end(t, j + 1));
        } else {
            assert(infinity_at(t, j));
            let w = "Infinity"@;
            assert(t.subrange(j, j + 8)[0] == w[0]);
            assert(t[j] == 'I');
            assert(s.subrange(p + j, p + j + 8) =~= w) by {
                assert forall|k: int| 0 <= k < 8 implies s.subrange(p + j, p + j + 8)[k] == w[k] by {
                    assert(t[j + k] == s[p + (j + k)]);
                    assert(t.subrange(j, j + 8)[k] == w[k]);
                }
            }
        }
    }
}

/// A token is read back in front of what ends it.
proof fn token_stands(s: Seq<char>, p: int, x: Jt)
    requires
        self_lexed(x),
        0 <= p,
        p + x.text.len() <= s.len(),
        s.subrange(p, p + x.text.len()) == x.text,
        p + x.text.len() < s.len() ==> parts(x, s[p + x.text.len()]),
    ensures
        json_token(s, p) == (x.kind, p + x.text.len()),
{
    let t = x.text;
    let e = p + t.len();
    assert(stands(s, p, t)) by {
        assert forall|k: int| 0 <= k < t.len() implies #[trigger] t[k] == s[p + k] by {
            assert(s.subrange(p, e)[k] == s[p + k]);
        }
    }
    let c = t[0];
    assert(c == s[p]);
    if punct(c) is Some {
    } else if json_space(c) {
        space_shift(s, p, t, 0);
    } else if c == '"' {
        string_shift(s, p, t, '"', 1);
    } else if c == '\'' {
        string_shift(s, p, t, '\'', 1);
    } else if c == '/' {
        assert(t.len() > 1 && (t[1] == '/' || t[1] == '*'));
        assert(t[1] == s[p + 1]);
        if t[1] == '/' {
            eol_shift(s, p, t, 0);
        } else {
            block_shift(s, p, t, 2);
        }
    } else if key_start(c) {
        assert(t.subrange(0, t.len() as int) =~= t);
        word_shift(s, p, t, 0);
    } else {
        number_shift(s, p, t);
    }
}

/// Tokens that, written one after another, are read back.
pub open spec fn readable(ts: Seq<Jt>) -> bool {
    &&& forall|i: int| 0 <= i < ts.len() ==> self_lexed(#[trigger] ts[i])
    &&& forall|i: int| 0 <= i < ts.len() - 1 ==> #[trigger] met(ts, i)
}

/// Does the token end in front of the next?
pub open spec fn met(ts: Seq<Jt>, i: int) -> bool {
    parts(ts[i], ts[i + 1].text[0])
}

proof fn text_pops(ts: Seq<Jt>)
    requires
        ts.len() > 0,
    ensures
        toks_text(ts) == ts[0].text + toks_text(ts.skip(1)),
{
    let a = token_texts(seq![ts[0]]);
    let b = token_texts(ts.skip(1));
    assert(a =~= seq![ts[0].text]);
    assert(token_texts(ts) =~= a + b);
    flat_add(a, b);
    flat_one(ts[0].text);
}

proof fn reads_from(s: Seq<char>, ts: Seq<Jt>, p: int)
    requires
        readable(ts),
        0 <= p <= s.len(),
        s.skip(p) == toks_text(ts),
    ensures
        json_tokens(s, p) == ts,
    decreases ts.len(),
{
    if ts.len() == 0 {
        assert(token_texts(ts) =~= Seq::<Seq<char>>::empty());
        assert(flat(token_texts(ts)).len() == 0);
        assert(s.skip(p).len() == 0);
        assert(p == s.len());
        assert(json_tokens(s, p) =~= ts);
    } else {
        text_pops(ts);
        let x = ts[0];
        let rest = ts.skip(1);
        let tail = s.skip(p);
        let e = p + x.text.len();
        assert(self_lexed(ts[0]));
        assert(tail.len() == x.text.len() + toks_text(rest).len());
        assert(s.subrange(p, e) =~= x.text) by {
            assert forall|k: int| 0 <= k < x.text.len() implies s.subrange(p, e)[k] == x.text[k] by {
                assert(tail[k] == x.text[k]);
            }
        }
        assert(s.skip(e) =~= toks_text(rest)) by {
            assert forall|k: int| 0 <= k < toks_text(rest).len() implies s.skip(e)[k] == toks_text(rest)[k] by {
                assert(tail[x.text.len() + k] == toks_text(rest)[k]);
            }
        }
        assert(readable(rest)) by {
            assert forall|i: int| 0 <= i < rest.len() implies self_lexed(#[trigger] rest[i]) by {
                assert(rest[i] == ts[i + 1]);
            }
            assert forall|i: int| 0 <= i < rest.len() - 1 implies #[trigger] met(rest, i) by {
                assert(met(ts, i + 1));
            }
        }
        if e < s.len() {
            assert(toks_text(rest).len() > 0);
            if rest.len() == 0 {
                assert(token_texts(rest) =~= Seq::<Seq<char>>::empty());
            }
            text_pops(rest);
            assert(self_lexed(ts[1]));
            assert(rest[0] == ts[1]);
            assert(s.skip(e)[0] == s[e]);
            assert(met(ts, 0));
        }
        token_stands(s, p, x);
        reads_from(s, rest, e);
        assert(seq![x] + rest =~= ts);
    }
}

/// Readable tokens, written one after another, are read back as those tokens.
pub proof fn tokens_read_back(ts: Seq<Jt>)
    requires
        readable(ts),
    ensures
        json_tokens(toks_text(ts), 0) == ts,
{
    let s = toks_text(ts);
    assert(s.skip(0) =~= s);
    reads_from(s, ts, 0);
}

proof fn digits_cut(s: Seq<char>, i: int, e: int, a: int)
    requires
        0 <= i <= a <= e <= s.len(),
        number_end(s, a) <= e,
    ensures
        number_end(s.subrange(i, e), a - i) == number_end(s, a) - i,
    decreases e - a,
{
    digits_grow(s, a);
    if a < e {
        assert(s.subrange(i, e)[a - i] == s[a]);
        if is_digit(s[a]) {
            digits_cut(s, i, e, a + 1);
        }
    }
}

proof fn digits_grow(s: Seq<char>, a: int)
    requires
        0 <= a <= s.len(),
    ensures
        a <= number_end(s, a) <= s.len(),
        digit_at(s, a) ==> a < number_end(s, a),
    decreases s.len() - a,
{
    if a < s.len() && is_digit(s[a]) {
        digits_grow(s, a + 1);
    }
}

proof fn hex_cut(s: Seq<char>, i: int, e: int, a: int)
    requires
        0 <= i <= a <= e <= s.len(),
        hex_run_end(s, a) == e,
    ensures
        hex_run_end(s.subrange(i, e), a - i) == e - i,
    decreases e - a,
{
    if a < e {
        assert(s.subrange(i, e)[a - i] == s[a]);
        hex_cut(s, i, e, a + 1);
    }
}

proof fn hex_grow(s: Seq<char>, a: int)
    requires
        0 <= a <= s.len(),
    ensures
        a <= hex_run_end(s, a) <= s.len(),
    decreases s.len() - a,
{
    if a < s.len() && hex_char(s[a]) {
        hex_grow(s, a + 1);
    }
}

proof fn exponent_cut(s: Seq<char>, i: int, e: int, f: int)
    requires
        0 <= i <= f <= s.len(),
        exponent_end(s, f) == e,
        e <= s.len(),
    ensures
        f <= e,
        exponent_end(s.subrange(i, e), f - i) == e - i,
{
    let t = s.subrange(i, e);
    if f < s.len() && (s[f] == 'e' || s[f] == 'E') {
        let j = if f + 1 < s.len() && (s[f + 1] == '+' || s[f + 1] == '-') {
            f + 2
        } else {
            f + 1
        };
        if digit_at(s, j) {
            digits_grow(s, j);
            digits_cut(s, i, e, j);
            assert(t[f - i] == s[f]);
            assert(t[f + 1 - i] == s[f + 1]);
            assert(t[j - i] == s[j]);
        }
    }
}

#[verifier::rlimit(60)]
#[verifier::spinoff_prover]
proof fn number_cut(s: Seq<char>, i: int, e: int)
    requires
        0 <= i < s.len(),
        num_end(s, i) == Some(e),
        i < e <= s.len(),
    ensures
        num_end(s.subrange(i, e), 0) == Some(e - i),
{
    let t = s.subrange(i, e);
    let j = if s[i] == '+' || s[i] == '-' {
        i + 1
    } else {
        i
    };
    assert(t[0] == s[i]);
    if hex_at(s, j) {
        hex_grow(s, j + 2);
        assert(hex_run_end(s, j + 2) > j + 2) by {
            hex_grow(s, j + 3);
        }
        hex_cut(s, i, e, j + 2);
        assert(t[j - i] == s[j] && t[j + 1 - i] == s[j + 1] && t[j + 2 - i] == s[j + 2]);
    } else {
        assert(!hex_at(t, j - i)) by {
            if hex_at(t, j - i) {
                assert(t[j - i] == s[j] && t[j + 1 - i] == s[j + 1] && t[j + 2 - i] == s[j + 2]);
            }
        }
        if digit_at(s, j) {
            digits_grow(s, j);
            let d = number_end(s, j);
            if d < s.len() && s[d] == '.' {
                digits_grow(s, d + 1);
                let f = number_end(s, d + 1);
                exponent_cut(s, i, e, f);
                digits_cut(s, i, e, j);
                digits_cut(s, i, e, d + 1);
                assert(t[d - i] == s[d]);
            } else {
                exponent_cut(s, i, e, d);
                digits_cut(s, i, e, j);
                if d < e {
                    assert(t[d - i] == s[d]);
                }
            }
            assert(t[j - i] == s[j]);
        } else if j < s.len() && s[j] == '.' && digit_at(s, j + 1) {
            digits_grow(s, j + 1);
            let f = number_end(s, j + 1);
            exponent_cut(s, i, e, f);
            digits_cut(s, i, e, j + 1);
            assert(t[j - i] == s[j]);
            assert(t[j + 1 - i] == s[j + 1]);
        } else {
            reveal_strlit("Infinity");
            assert(infinity_at(s, j));
            assert(s.subrange(j, j + 8)[0] == 'I');
            assert(t[j - i] == s[j]);
            assert(t.subrange(j - i, j - i + 8) =~= s.subrange(j, j + 8));
        }
    }
}

proof fn space_cut(s: Seq<char>, i: int, e: int, a: int)
    requires
        0 <= i <= a <= e <= s.len(),
        space_end(s, a) == e,
    ensures
        space_end(s.subrange(i, e), a - i) == e - i,
        e < s.len() ==> !json_space(s[e]),
    decreases e - a,
{
    if a < e {
        assert(s.subrange(i, e)[a - i] == s[a]);
        space_cut(s, i, e, a + 1);
    } else if e < s.len() {
        space_grow(s, e + 1);
    }
}

proof fn space_grow(s: Seq<char>, a: int)
    requires
        0 <= a <= s.len(),
    ensures
        a <= space_end(s, a) <= s.len(),
    decreases s.len() - a,
{
    if a < s.len() && json_space(s[a]) {
        space_grow(s, a + 1);
    }
}

proof fn word_cut(s: Seq<char>, i: int, e: int, a: int)
    requires
        0 <= i <= a <= e <= s.len(),
        word_end(s, a) == e,
    ensures
        word_end(s.subrange(i, e), a - i) == e - i,
    decreases e - a,
{
    if a < e {
        assert(s.subrange(i, e)[a - i] == s[a]);
        word_cut(s, i, e, a + 1);
    }
}

proof fn eol_cut(s: Seq<char>, i: int, e: int, a: int)
    requires
        0 <= i <= a <= e <= s.len(),
        eol_at(s, a) == e,
    ensures
        eol_at(s.subrange(i, e), a - i) == e - i,
        e < s.len() ==> s[e] == '\n',
    decreases e - a,
{
    if a < e {
        assert(s.subrange(i, e)[a - i] == s[a]);
        eol_cut(s, i, e, a + 1);
    } else if e < s.len() {
        eol_grow(s, e + 1);
    }
}

proof fn string_cut(s: Seq<char>, q: char, i: int, e: int, a: int)
    requires
        0 <= i <= a,
        e <= s.len(),
        string_end(s, q, a) == Some(e),
    ensures
        a < e,
        string_end(s.subrange(i, e), q, a - i) == Some(e - i),
    decreases s.len() - a,
{
    let t = s.subrange(i, e);
    if a < s.len() {
        if s[a] == q {
            assert(t[a - i] == s[a]);
        } else if s[a] == '\\' {
            string_cut(s, q, i, e, a + 2);
            assert(t[a - i] == s[a]);
        } else {
            string_cut(s, q, i, e, a + 1);
            assert(t[a - i] == s[a]);
        }
    }
}

proof fn block_cut(s: Seq<char>, i: int, e: int, a: int)
    requires
        0 <= i <= a,
        e <= s.len(),
        block_end(s, a) == Some(e),
    ensures
        a + 1 < e,
        block_end(s.subrange(i, e), a - i) == Some(e - i),
    decreases s.len() - a,
{
    let t = s.subrange(i, e);
    if a + 1 < s.len() {
        if !(s[a] == '*' && s[a + 1] == '/') {
            block_cut(s, i, e, a + 1);
        }
        assert(t[a - i] == s[a]);
        assert(t[a + 1 - i] == s[a + 1]);
    }
}

/// What was read as a token is that token when it stands alone; whitespace and line
/// comments end where they have to.
pub proof fn token_alone(s: Seq<char>, i: int)
    requires
        0 <= i < s.len(),
        json_token(s, i).0 != Tok::Error,
    ensures
        ({
            let (k, e) = json_token(s, i);
            let x = Jt { kind: k, text: s.subrange(i, e) };
            &&& i < e <= s.len()
            &&& self_lexed(x)
            &&& e < s.len() && (k == Tok::Ws || k == Tok::LineComment) ==> parts(x, s[e])
        }),
{
    json_token_bounds(s, i);
    let (k, e) = json_token(s, i);
    let t = s.subrange(i, e);
    let c = s[i];
    assert(t[0] == c);
    if punct(c) is Some {
    } else if json_space(c) {
        space_cut(s, i, e, i);
    } else if c == '"' {
        string_cut(s, '"', i, e, i + 1);
    } else if c == '\'' {
        string_cut(s, '\'', i, e, i + 1);
    } else if c == '/' {
        assert(i + 1 < s.len() && (s[i + 1] == '/' || s[i + 1] == '*'));
        if s[i + 1] == '/' {
            eol_cut(s, i, e, i);
            assert(eol_at(s, i) >= i + 2) by {
                assert(eol_at(s, i) == eol_at(s, i + 1));
                assert(eol_at(s, i + 1) == eol_at(s, i + 2));
                eol_grow(s, i + 2);
            }
        } else {
            block_cut(s, i, e, i + 2);
        }
        assert(t[1] == s[i + 1]);
    } else if key_start(c) {
        word_cut(s, i, e, i);
        assert(t.subrange(0, t.len() as int) =~= t);
    } else {
        number_cut(s, i, e);
    }
}

proof fn eol_grow(s: Seq<char>, a: int)
    requires
        0 <= a <= s.len(),
    ensures
        a <= eol_at(s, a) <= s.len(),
    decreases s.len() - a,
{
    if a < s.len() && s[a] != '\n' {
        eol_grow(s, a + 1);
    }
}

} // verus!
