//! Spelling a string value as KDL text the way the value it replaces was
//! spelled: quoted, raw, or a bare identifier.
use crate::kdl_items::{plain_spelling, spell_plain};
use crate::kdl_tree::{Kv, Scalar};
use crate::strs::{chars_of, code, text_of};
use crate::value::hex_digit;
use vstd::prelude::*;

verus! {

/// A KDL newline character.
pub open spec fn kdl_newline(c: char) -> bool {
    let n = c as int;
    n == 0x0a || n == 0x0d || n == 0x0b || n == 0x0c || n == 0x85 || n == 0x2028 || n == 0x2029
}

/// A code point KDL forbids anywhere in a document, which a quoted string must
/// escape.
pub open spec fn kdl_disallowed(c: char) -> bool {
    let n = c as int;
    n <= 0x08 || (0x0e <= n <= 0x1f) || n == 0x7f || (0x200e <= n <= 0x200f) || (0x202a <= n
        <= 0x202e) || (0x2066 <= n <= 0x2069) || n == 0xfeff
}

/// The hexadecimal digits of `n`, most significant first.
pub open spec fn hex_digits(n: nat) -> Seq<char>
    decreases n,
{
    if n < 16 {
        seq![hex_digit(n as int)]
    } else {
        hex_digits(n / 16).push(hex_digit((n % 16) as int))
    }
}

/// A character of a quoted string.
pub open spec fn quoted_char(c: char) -> Seq<char> {
    if c == '"' {
        seq!['\\', '"']
    } else if c == '\\' {
        seq!['\\', '\\']
    } else if c == '\n' {
        seq!['\\', 'n']
    } else if c == '\r' {
        seq!['\\', 'r']
    } else if c == '\t' {
        seq!['\\', 't']
    } else if c as int == 8 {
        seq!['\\', 'b']
    } else if c as int == 12 {
        seq!['\\', 'f']
    } else if kdl_newline(c) || kdl_disallowed(c) {
        seq!['\\', 'u', '{'] + hex_digits(c as nat) + seq!['}']
    } else {
        seq![c]
    }
}

/// The inside of a quoted string.
pub open spec fn quoted_body(s: Seq<char>) -> Seq<char>
    decreases s.len(),
{
    if s.len() == 0 {
        Seq::empty()
    } else {
        quoted_body(s.drop_last()) + quoted_char(s.last())
    }
}

/// `s` as a quoted string, escaping what KDL can't hold literally on one line.
pub open spec fn quoted_string(s: Seq<char>) -> Seq<char> {
    seq!['"'] + quoted_body(s) + seq!['"']
}

/// `k` hash marks.
pub open spec fn hashes(k: nat) -> Seq<char> {
    Seq::new(k, |i: int| '#')
}

/// Does a quote followed by `k` hash marks start at `i`?
pub open spec fn closes_at(s: Seq<char>, i: int, k: nat) -> bool {
    0 <= i && i + k < s.len() && s[i] == '"' && forall|j: int|
        i < j <= i + k ==> #[trigger] s[j] == '#'
}

/// Does the text hold a quote followed by `k` hash marks?
pub open spec fn closes(s: Seq<char>, k: nat) -> bool {
    exists|i: int| #[trigger] closes_at(s, i, k)
}

/// The least number of hash marks, from `k` on, whose closing delimiter the text
/// does not hold.
pub open spec fn enough(s: Seq<char>, k: nat) -> nat
    decreases s.len() - k,
{
    if k < s.len() && closes(s, k) {
        enough(s, k + 1)
    } else {
        k
    }
}

/// Can a one-line raw string hold the text? A leading `"` would read as a
/// multi-line opener, so it can't.
pub open spec fn raw_holds(s: Seq<char>) -> bool {
    !(s.len() > 0 && s[0] == '"') && forall|i: int|
        0 <= i < s.len() ==> !kdl_newline(#[trigger] s[i]) && !kdl_disallowed(s[i])
}

/// `s` as a one-line raw string with at least `k` hash marks.
pub open spec fn raw_string(s: Seq<char>, k: nat) -> Seq<char> {
    let h = hashes(enough(s, k));
    h + seq!['"'] + s + seq!['"'] + h
}

/// How many hash marks the text starts with.
pub open spec fn hash_count(s: Seq<char>, i: int) -> int
    decreases s.len() - i,
{
    if 0 <= i < s.len() && s[i] == '#' {
        hash_count(s, i + 1)
    } else {
        i
    }
}

/// Does a quote stand at `i`?
pub open spec fn quote_at(s: Seq<char>, i: int) -> bool {
    0 <= i < s.len() && s[i] == '"'
}

/// A value's text, spelled like the value it replaces (`old`, empty for a new
/// entry) when both are strings. A raw string stays raw (`#"..."#`, gaining a `#`
/// if the value contains its closing delimiter), a quoted string stays quoted, and
/// a bare identifier string stays bare while the value is still a valid
/// identifier. Anything a spelling can't hold falls back to quoted, which spells
/// any string; a multi-line string (`"""`) has no one-line form to keep, so it
/// becomes quoted too.
pub open spec fn spelled_like(old: Seq<char>, v: Kv) -> Seq<char> {
    match v {
        Kv::Str(s) => {
            let k = hash_count(old, 0);
            if k > 0 && quote_at(old, k) {
                if !(quote_at(old, k + 1) && quote_at(old, k + 2)) && raw_holds(s) {
                    raw_string(s, k as nat)
                } else {
                    quoted_string(s)
                }
            } else if !quote_at(old, 0) && !quote_at(plain_spelling(v), 0) {
                plain_spelling(v)
            } else {
                quoted_string(s)
            }
        },
        _ => plain_spelling(v),
    }
}

fn is_newline(c: char) -> (r: bool)
    ensures
        r == kdl_newline(c),
{
    let n: u32 = code(c);
    n == 0x0a || n == 0x0d || n == 0x0b || n == 0x0c || n == 0x85 || n == 0x2028 || n == 0x2029
}

fn is_disallowed(c: char) -> (r: bool)
    ensures
        r == kdl_disallowed(c),
{
    let n: u32 = code(c);
    n <= 0x08 || (0x0e <= n && n <= 0x1f) || n == 0x7f || (0x200e <= n && n <= 0x200f) || (0x202a
        <= n && n <= 0x202e) || (0x2066 <= n && n <= 0x2069) || n == 0xfeff
}

fn push_hex(n: u32, out: &mut Vec<char>)
    ensures
        final(out)@ == old(out)@ + hex_digits(n as nat),
    decreases n,
{
    if n >= 16 {
        push_hex(n / 16, out);
    }
    let ghost before = out@;
    let d: u8 = (n % 16) as u8;
    if d < 10 {
        out.push((48u8 + d) as char);
    } else {
        out.push((87u8 + d) as char);
    }
    assert(out@ =~= before.push(hex_digit((n % 16) as int)));
    assert(out@ =~= old(out)@ + hex_digits(n as nat));
}

fn push_quoted(c: char, out: &mut Vec<char>)
    ensures
        final(out)@ == old(out)@ + quoted_char(c),
{
    let n: u32 = code(c);
    if c == '"' {
        out.push('\\');
        out.push('"');
    } else if c == '\\' {
        out.push('\\');
        out.push('\\');
    } else if c == '\n' {
        out.push('\\');
        out.push('n');
    } else if c == '\r' {
        out.push('\\');
        out.push('r');
    } else if c == '\t' {
        out.push('\\');
        out.push('t');
    } else if n == 8 {
        out.push('\\');
        out.push('b');
    } else if n == 12 {
        out.push('\\');
        out.push('f');
    } else if is_newline(c) || is_disallowed(c) {
        out.push('\\');
        out.push('u');
        out.push('{');
        push_hex(n, out);
        out.push('}');
    } else {
        out.push(c);
    }
    assert(out@ =~= old(out)@ + quoted_char(c));
}

fn quote(s: &Vec<char>) -> (r: String)
    ensures
        r@ == quoted_string(s@),
{
    let mut out: Vec<char> = Vec::new();
    out.push('"');
    let mut i: usize = 0;
    assert(out@ =~= seq!['"'] + quoted_body(s@.take(0)));
    while i < s.len()
        invariant
            i <= s.len(),
            out@ == seq!['"'] + quoted_body(s@.take(i as int)),
        decreases s.len() - i,
    {
        assert(s@.take(i + 1).drop_last() =~= s@.take(i as int));
        push_quoted(s[i], &mut out);
        i = i + 1;
        assert(out@ =~= seq!['"'] + quoted_body(s@.take(i as int)));
    }
    assert(s@.take(i as int) =~= s@);
    out.push('"');
    assert(out@ =~= quoted_string(s@));
    text_of(&out)
}

fn raw_ok(s: &Vec<char>) -> (r: bool)
    ensures
        r == raw_holds(s@),
{
    if s.len() > 0 && s[0] == '"' {
        return false;
    }
    let mut i: usize = 0;
    while i < s.len()
        invariant
            i <= s.len(),
            forall|j: int|
                0 <= j < i ==> !kdl_newline(#[trigger] s@[j]) && !kdl_disallowed(s@[j]),
        decreases s.len() - i,
    {
        if is_newline(s[i]) || is_disallowed(s[i]) {
            return false;
        }
        i = i + 1;
    }
    true
}

fn closing_at(s: &Vec<char>, i: usize, k: usize) -> (r: bool)
    requires
        i < s.len(),
    ensures
        r == closes_at(s@, i as int, k as nat),
{
    if s[i] != '"' || s.len() - i <= k {
        return false;
    }
    let mut j: usize = 0;
    while j < k
        invariant
            j <= k < s.len() - i,
            i < s.len(),
            forall|x: int| i < x <= i + j ==> #[trigger] s@[x] == '#',
        decreases k - j,
    {
        if s[i + 1 + j] != '#' {
            return false;
        }
        j = j + 1;
    }
    true
}

fn has_closing(s: &Vec<char>, k: usize) -> (r: bool)
    ensures
        r == closes(s@, k as nat),
{
    let mut i: usize = 0;
    while i < s.len()
        invariant
            i <= s.len(),
            forall|j: int| 0 <= j < i ==> !#[trigger] closes_at(s@, j, k as nat),
        decreases s.len() - i,
    {
        if closing_at(s, i, k) {
            return true;
        }
        i = i + 1;
    }
    false
}

fn raw(s: &Vec<char>, min: usize) -> (r: String)
    ensures
        r@ == raw_string(s@, min as nat),
{
    let mut k: usize = min;
    while k < s.len() && has_closing(s, k)
        invariant
            enough(s@, min as nat) == enough(s@, k as nat),
        decreases s.len() - k,
    {
        k = k + 1;
    }
    let mut out: Vec<char> = Vec::new();
    let mut i: usize = 0;
    while i < k
        invariant
            i <= k,
            out@ == hashes(i as nat),
        decreases k - i,
    {
        out.push('#');
        i = i + 1;
        assert(out@ =~= hashes(i as nat));
    }
    out.push('"');
    let mut j: usize = 0;
    assert(out@ =~= hashes(k as nat) + seq!['"'] + s@.take(0));
    while j < s.len()
        invariant
            j <= s.len(),
            out@ == hashes(k as nat) + seq!['"'] + s@.take(j as int),
        decreases s.len() - j,
    {
        out.push(s[j]);
        j = j + 1;
        assert(out@ =~= hashes(k as nat) + seq!['"'] + s@.take(j as int));
    }
    assert(s@.take(j as int) =~= s@);
    out.push('"');
    let ghost body = out@;
    let mut x: usize = 0;
    assert(out@ =~= body + hashes(0));
    while x < k
        invariant
            x <= k,
            out@ == body + hashes(x as nat),
        decreases k - x,
    {
        out.push('#');
        x = x + 1;
        assert(out@ =~= body + hashes(x as nat));
    }
    assert(out@ =~= raw_string(s@, min as nat));
    text_of(&out)
}

/// Spell a value like the value it replaces.
pub fn spell_like(old: &str, value: &Scalar) -> (r: String)
    ensures
        r@ == spelled_like(old@, value@),
{
    let s = match value {
        Scalar::Str(s) => s,
        _ => {
            return spell_plain(value);
        },
    };
    let cs = chars_of(s);
    let o = chars_of(old);
    let mut k: usize = 0;
    while k < o.len() && o[k] == '#'
        invariant
            k <= o.len(),
            o@ == old@,
            hash_count(old@, 0) == hash_count(old@, k as int),
        decreases o.len() - k,
    {
        k = k + 1;
    }
    if k > 0 && k < o.len() && o[k] == '"' {
        let long = o.len() - k > 2 && o[k + 1] == '"' && o[k + 2] == '"';
        if !long && raw_ok(&cs) {
            return raw(&cs, k);
        }
    } else if !(o.len() > 0 && o[0] == '"') {
        let bare = spell_plain(value);
        let bs = chars_of(&bare);
        if !(bs.len() > 0 && bs[0] == '"') {
            return bare;
        }
    }
    quote(&cs)
}

} // verus!
