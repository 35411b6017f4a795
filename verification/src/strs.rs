//! Characters and strings: the bridge between `str`, whose view is a sequence
//! of characters, and the character vectors the library computes on.
use vstd::prelude::*;
use vstd::string::*;

verus! {

/// `String::push` appends one character.
pub assume_specification[ String::push ](s: &mut String, c: char)
    ensures
        final(s)@ == old(s)@.push(c),
;

/// `str` equality compares the two texts character by character.
pub assume_specification[ <str as PartialEq<str>>::eq ](a: &str, b: &str) -> (r: bool)
    ensures
        r == (a@ == b@),
;

/// Are the two texts equal?
pub fn same(a: &str, b: &str) -> (r: bool)
    ensures
        r == (a@ == b@),
{
    *a == *b
}

/// The characters of `s`.
pub fn chars_of(s: &str) -> (r: Vec<char>)
    ensures
        r@ == s@,
{
    let mut out: Vec<char> = Vec::new();
    for c in it: s.chars()
        invariant
            out@ == it.seq().take(it.index()),
            it.seq() == s@,
    {
        out.push(c);
    }
    out
}

/// The string spelled by `cs`.
pub fn text_of(cs: &[char]) -> (r: String)
    ensures
        r@ == cs@,
{
    let mut out = String::new();
    let mut i: usize = 0;
    while i < cs.len()
        invariant
            i <= cs.len(),
            out@ == cs@.take(i as int),
        decreases cs.len() - i,
    {
        out.push(cs[i]);
        i = i + 1;
    }
    out
}

/// The string spelled by `cs[from..to]`.
pub fn slice_text(cs: &[char], from: usize, to: usize) -> (r: String)
    requires
        from <= to <= cs.len(),
    ensures
        r@ == cs@.subrange(from as int, to as int),
{
    let mut out = String::new();
    let mut i: usize = from;
    while i < to
        invariant
            from <= i <= to <= cs.len(),
            out@ == cs@.subrange(from as int, i as int),
        decreases to - i,
    {
        out.push(cs[i]);
        i = i + 1;
    }
    out
}

/// Append `more` to `cs`.
pub fn push_all(cs: &mut Vec<char>, more: &str)
    ensures
        final(cs)@ == old(cs)@ + more@,
{
    for c in it: more.chars()
        invariant
            cs@ == old(cs)@ + it.seq().take(it.index()),
            it.seq() == more@,
    {
        cs.push(c);
    }
}

/// `a` followed by `b`.
pub fn cat(a: &str, b: &str) -> (r: String)
    ensures
        r@ == a@ + b@,
{
    let mut out = a.to_owned();
    out.append(b);
    out
}

/// The code point of `c`.
pub fn code(c: char) -> (r: u32)
    ensures
        r as int == c as int,
        r <= 0x10ffff,
{
    proof {
        vstd::utf8::char_is_scalar(c);
    }
    c as u32
}

/// The decimal digit `d`.
pub open spec fn digit(d: int) -> char {
    (48 + d) as char
}

/// The decimal digits of `n`, most significant first.
pub open spec fn nat_digits(n: nat) -> Seq<char>
    decreases n,
{
    if n < 10 {
        seq![digit(n as int)]
    } else {
        nat_digits(n / 10).push(digit((n % 10) as int))
    }
}

/// The decimal spelling of `i`, with a leading `-` when negative.
pub open spec fn int_digits(i: int) -> Seq<char> {
    if i < 0 {
        seq!['-'] + nat_digits((-i) as nat)
    } else {
        nat_digits(i as nat)
    }
}

fn push_nat(out: &mut String, n: u128)
    ensures
        final(out)@ == old(out)@ + nat_digits(n as nat),
    decreases n,
{
    if n < 10 {
        out.push((48u8 + n as u8) as char);
    } else {
        push_nat(out, n / 10);
        out.push((48u8 + (n % 10) as u8) as char);
    }
}

/// The decimal spelling of `n`.
pub fn nat_text(n: u64) -> (r: String)
    ensures
        r@ == nat_digits(n as nat),
{
    let mut out = String::new();
    push_nat(&mut out, n as u128);
    out
}

/// The decimal spelling of `n`.
pub fn wide_text(n: u128) -> (r: String)
    ensures
        r@ == nat_digits(n as nat),
{
    let mut out = String::new();
    push_nat(&mut out, n);
    out
}

/// The decimal spelling of `i`.
pub fn int_text(i: i64) -> (r: String)
    ensures
        r@ == int_digits(i as int),
{
    let mut out = String::new();
    if i < 0 {
        out.push('-');
        if i == i64::MIN {
            push_nat(&mut out, 9223372036854775808u128);
        } else {
            push_nat(&mut out, (-i) as u128);
        }
    } else {
        push_nat(&mut out, i as u128);
    }
    out
}

/// What `{:?}` formatting makes of a text: quotes around it, and escapes for
/// what does not print as itself.
pub uninterp spec fn debug_text(s: Seq<char>) -> Seq<char>;

/// Is the text made of printable ASCII?
pub open spec fn printable(s: Seq<char>) -> bool {
    forall|i: int| 0 <= i < s.len() ==> ' ' <= #[trigger] s[i] && s[i] <= '~'
}

/// The text from the `i`th character on, with a backslash before each double quote
/// and each backslash.
pub open spec fn backslashed(s: Seq<char>, i: int) -> Seq<char>
    decreases s.len() - i,
{
    if i < 0 || i >= s.len() {
        Seq::empty()
    } else {
        (if s[i] == '"' || s[i] == '\\' {
            seq!['\\', s[i]]
        } else {
            seq![s[i]]
        }) + backslashed(s, i + 1)
    }
}

/// The text in double quotes, with what would end them or escape behind a backslash.
pub open spec fn in_quotes(s: Seq<char>) -> Seq<char> {
    seq!['"'] + backslashed(s, 0) + seq!['"']
}

/// A text as a message shows it: quoted, and written out for printable ASCII.
pub open spec fn quoted_text(s: Seq<char>) -> Seq<char> {
    if printable(s) {
        in_quotes(s)
    } else {
        debug_text(s)
    }
}

/// `format!("{:?}", s)`, named by [`debug_text`]. Printable ASCII comes out in double
/// quotes as it is, but for a backslash before each double quote and backslash.
#[verifier::external_body]
pub(crate) fn debug_quoted(s: &str) -> (r: String)
    ensures
        r@ == debug_text(s@),
        printable(s@) ==> r@ == in_quotes(s@),
{
    format!("{:?}", s)
}

/// Whether a character has the Unicode `White_Space` property.
pub open spec fn white_space(c: char) -> bool {
    let n = c as int;
    (0x09 <= n <= 0x0d) || n == 0x20 || n == 0x85 || n == 0xa0 || n == 0x1680 || (0x2000 <= n
        <= 0x200a) || n == 0x2028 || n == 0x2029 || n == 0x202f || n == 0x205f || n == 0x3000
}

/// Whether a character has the Unicode `White_Space` property.
pub fn is_white(c: char) -> (r: bool)
    ensures
        r == white_space(c),
{
    let n: u32 = code(c);
    (0x09 <= n && n <= 0x0d) || n == 0x20 || n == 0x85 || n == 0xa0 || n == 0x1680 || (0x2000 <= n
        && n <= 0x200a) || n == 0x2028 || n == 0x2029 || n == 0x202f || n == 0x205f || n == 0x3000
}

/// A text in upper case.
pub uninterp spec fn upper_text(s: Seq<char>) -> Seq<char>;

/// `str::to_uppercase`, named by [`upper_text`].
pub assume_specification[ str::to_uppercase ](s: &str) -> (r: String)
    ensures
        r@ == upper_text(s@),
;

/// A text in lower case.
pub uninterp spec fn lower_text(s: Seq<char>) -> Seq<char>;

/// `str::to_lowercase`, named by [`lower_text`].
pub assume_specification[ str::to_lowercase ](s: &str) -> (r: String)
    ensures
        r@ == lower_text(s@),
;

/// `s` without leading white space.
pub open spec fn trimmed_start(s: Seq<char>) -> Seq<char>
    decreases s.len(),
{
    if s.len() > 0 && white_space(s[0]) {
        trimmed_start(s.drop_first())
    } else {
        s
    }
}

/// `s` without trailing white space.
pub open spec fn trimmed_end(s: Seq<char>) -> Seq<char>
    decreases s.len(),
{
    if s.len() > 0 && white_space(s.last()) {
        trimmed_end(s.drop_last())
    } else {
        s
    }
}

/// `s` without white space around it.
pub open spec fn trimmed(s: Seq<char>) -> Seq<char> {
    trimmed_end(trimmed_start(s))
}

/// Where the text starts after its leading white space, and where it ends
/// before its trailing white space.
pub fn trim_bounds(cs: &[char]) -> (r: (usize, usize))
    ensures
        r.0 <= r.1 <= cs.len(),
        cs@.subrange(r.0 as int, r.1 as int) == trimmed(cs@),
        cs@.skip(r.0 as int) == trimmed_start(cs@),
{
    let mut a: usize = 0;
    assert(cs@.skip(0) =~= cs@);
    while a < cs.len() && is_white(cs[a])
        invariant
            a <= cs.len(),
            trimmed_start(cs@.skip(a as int)) == trimmed_start(cs@),
        decreases cs.len() - a,
    {
        assert(cs@.skip(a as int).drop_first() =~= cs@.skip(a + 1));
        a = a + 1;
    }
    let ghost left = cs@.skip(a as int);
    assert(left == trimmed_start(cs@));
    let mut b: usize = cs.len();
    assert(cs@.subrange(a as int, b as int) =~= left);
    while b > a && is_white(cs[b - 1])
        invariant
            a <= b <= cs.len(),
            trimmed_end(cs@.subrange(a as int, b as int)) == trimmed_end(left),
        decreases b - a,
    {
        assert(cs@.subrange(a as int, b as int).drop_last() =~= cs@.subrange(a as int, b - 1));
        b = b - 1;
    }
    (a, b)
}

/// `s` without white space around it.
pub fn trim(s: &str) -> (r: String)
    ensures
        r@ == trimmed(s@),
{
    let cs = chars_of(s);
    let (a, b) = trim_bounds(&cs);
    slice_text(&cs, a, b)
}

/// An ASCII digit.
pub open spec fn is_digit(c: char) -> bool {
    '0' <= c && c <= '9'
}

/// All characters are ASCII digits.
pub open spec fn all_digits(s: Seq<char>) -> bool {
    forall|i: int| 0 <= i < s.len() ==> is_digit(#[trigger] s[i])
}

/// The number decimal digits spell.
pub open spec fn digits_value(s: Seq<char>) -> int
    decreases s.len(),
{
    if s.len() == 0 {
        0
    } else {
        digits_value(s.drop_last()) * 10 + (s.last() as int - 48)
    }
}

/// The integer a text spells: an optional sign and digits, in the range of
/// `i64`.
pub open spec fn parse_i64(t: Seq<char>) -> Option<i64> {
    let signed = t.len() > 0 && (t[0] == '-' || t[0] == '+');
    let body = if signed {
        t.drop_first()
    } else {
        t
    };
    let n = if signed && t[0] == '-' {
        -digits_value(body)
    } else {
        digits_value(body)
    };
    if body.len() > 0 && all_digits(body) && i64::MIN <= n <= i64::MAX {
        Some(n as i64)
    } else {
        None
    }
}

/// A longer digit string is not a smaller number.
pub proof fn digits_grow(s: Seq<char>, i: int)
    requires
        all_digits(s),
        0 <= i <= s.len(),
    ensures
        0 <= digits_value(s.take(i)) <= digits_value(s),
    decreases s.len(),
{
    if i == s.len() {
        assert(s.take(i) =~= s);
        if s.len() > 0 {
            digits_grow(s.drop_last(), s.len() - 1);
            assert(s.drop_last().take(s.len() - 1) =~= s.drop_last());
        }
    } else {
        digits_grow(s.drop_last(), i);
        assert(s.drop_last().take(i) =~= s.take(i));
    }
}

/// The number `cs[from..]` spells in decimal digits, or `None` when some
/// character is not a digit, or when it exceeds `2^63`.
pub fn digits_number(cs: &[char], from: usize) -> (r: Option<u64>)
    requires
        from <= cs.len(),
    ensures
        r is Some <==> all_digits(cs@.skip(from as int)) && digits_value(cs@.skip(from as int))
            <= 0x8000_0000_0000_0000,
        r is Some ==> r->0 == digits_value(cs@.skip(from as int)),
{
    let ghost body = cs@.skip(from as int);
    let mut i: usize = from;
    let mut n: u64 = 0;
    let mut over = false;
    while i < cs.len()
        invariant
            from <= i <= cs.len(),
            body == cs@.skip(from as int),
            all_digits(body.take(i - from)),
            !over ==> n == digits_value(body.take(i - from)) && n <= 0x8000_0000_0000_0000,
            over ==> digits_value(body.take(i - from)) > 0x8000_0000_0000_0000,
        decreases cs.len() - i,
    {
        let c = cs[i];
        assert(body[i - from] == c);
        if !('0' <= c && c <= '9') {
            return None;
        }
        let d: u64 = code(c) as u64 - 48;
        assert(body.take(i - from + 1).drop_last() =~= body.take(i - from));
        if !over {
            if n > 922337203685477580 || (n == 922337203685477580 && d > 8) {
                over = true;
            } else {
                n = n * 10 + d;
            }
        }
        i = i + 1;
    }
    assert(body.take(i - from) =~= body);
    if over {
        None
    } else {
        Some(n)
    }
}

/// The integer a text spells, if it spells one in the range of `i64`.
pub fn integer(cs: &[char]) -> (r: Option<i64>)
    ensures
        r == parse_i64(cs@),
{
    if cs.len() == 0 {
        return None;
    }
    let signed = cs[0] == '-' || cs[0] == '+';
    let from: usize = if signed {
        1
    } else {
        0
    };
    assert(cs@.skip(1) =~= cs@.drop_first());
    assert(cs@.skip(0) =~= cs@);
    if from == cs.len() {
        return None;
    }
    proof {
        if all_digits(cs@.skip(from as int)) {
            digits_grow(cs@.skip(from as int), 0);
        }
    }
    match digits_number(cs, from) {
        None => None,
        Some(n) => if cs[0] == '-' {
            if n == 0x8000_0000_0000_0000 {
                Some(i64::MIN)
            } else {
                Some(-(n as i64))
            }
        } else if n == 0x8000_0000_0000_0000 {
            None
        } else {
            Some(n as i64)
        },
    }
}

} // verus!
