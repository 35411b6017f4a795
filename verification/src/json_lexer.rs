//! JSONC/JSON5 lexer.
//!
//! JSONC = JSON + `//` line and `/* */` block comments + trailing commas.
//! JSON5 adds, on top of that: unquoted object keys, single-quoted strings,
//! hex/leading-dot/trailing-dot/`+`-signed numbers, `Infinity`/`NaN`, and
//! backslash-newline line continuations inside strings.
//!
//! One lexer serves the whole family: the grammar is a superset and structural
//! validity is checked separately by the parser. A `.jsonc` file that uses a
//! JSON5 spelling therefore lexes rather than erroring: leniency on input, and
//! never on output, since edits only rewrite the nodes they target.
//!
//! `Ident` is the ECMAScript `IdentifierName` of practical configs: ASCII
//! letters, `_`, `$`, then alphanumerics. Whitespace and comments are captured,
//! not skipped, so they land in the tree as trivia. The lexer is total: a
//! character that opens no token is an error token of its own, so no input is
//! ever dropped.
use crate::lines::flat;
use crate::strs::{is_digit, same, slice_text};
use vstd::prelude::*;

verus! {

/// What a token is.
#[derive(Debug, Clone, Copy, PartialEq, Eq, Structural)]
pub enum Tok {
    LBrace,
    RBrace,
    LBracket,
    RBracket,
    Colon,
    Comma,
    True,
    False,
    Null,
    Str,
    /// JSON5 single-quoted string.
    SingleStr,
    Num,
    /// JSON5 unquoted object key.
    Ident,
    LineComment,
    BlockComment,
    Ws,
    /// A character that opens no token.
    Error,
}

/// A token: its kind and its text.
pub struct Token {
    pub kind: Tok,
    pub text: String,
}

/// The mathematical content of a [`Token`].
pub struct Jt {
    pub kind: Tok,
    pub text: Seq<char>,
}

impl View for Token {
    type V = Jt;

    open spec fn view(&self) -> Jt {
        Jt { kind: self.kind, text: self.text@ }
    }
}

/// The contents of a list of tokens.
pub open spec fn jts(s: Seq<Token>) -> Seq<Jt> {
    Seq::new(s.len(), |i: int| s[i]@)
}

/// The texts of tokens.
pub open spec fn token_texts(t: Seq<Jt>) -> Seq<Seq<char>> {
    Seq::new(t.len(), |i: int| t[i].text)
}

/// Whitespace between tokens.
pub open spec fn json_space(c: char) -> bool {
    c == ' ' || c == '\t' || c == '\r' || c == '\n'
}

/// A character an unquoted key can start with.
pub open spec fn key_start(c: char) -> bool {
    ('a' <= c && c <= 'z') || ('A' <= c && c <= 'Z') || c == '_' || c == '$'
}

/// A character an unquoted key can go on with.
pub open spec fn key_part(c: char) -> bool {
    key_start(c) || is_digit(c)
}

/// A hexadecimal digit.
pub open spec fn hex_char(c: char) -> bool {
    is_digit(c) || ('a' <= c && c <= 'f') || ('A' <= c && c <= 'F')
}

/// Where the run of whitespace at `i` ends.
pub open spec fn space_end(s: Seq<char>, i: int) -> int
    decreases s.len() - i,
{
    if i < s.len() && json_space(s[i]) {
        space_end(s, i + 1)
    } else {
        i
    }
}

/// Where the run of key characters at `i` ends.
pub open spec fn word_end(s: Seq<char>, i: int) -> int
    decreases s.len() - i,
{
    if i < s.len() && key_part(s[i]) {
        word_end(s, i + 1)
    } else {
        i
    }
}

/// Where the run of digits at `i` ends.
pub open spec fn number_end(s: Seq<char>, i: int) -> int
    decreases s.len() - i,
{
    if i < s.len() && is_digit(s[i]) {
        number_end(s, i + 1)
    } else {
        i
    }
}

/// Where the run of hexadecimal digits at `i` ends.
pub open spec fn hex_run_end(s: Seq<char>, i: int) -> int
    decreases s.len() - i,
{
    if i < s.len() && hex_char(s[i]) {
        hex_run_end(s, i + 1)
    } else {
        i
    }
}

/// Where the line at `i` ends.
pub open spec fn eol_at(s: Seq<char>, i: int) -> int
    decreases s.len() - i,
{
    if i < s.len() && s[i] != '\n' {
        eol_at(s, i + 1)
    } else {
        i
    }
}

/// Where the string whose body starts at `i` ends, behind its closing `quote`;
/// nothing when it is not closed. A backslash takes the next character along.
pub open spec fn string_end(s: Seq<char>, quote: char, i: int) -> Option<int>
    decreases s.len() - i,
{
    if i >= s.len() {
        None
    } else if s[i] == quote {
        Some(i + 1)
    } else if s[i] == '\\' {
        if i + 1 < s.len() {
            string_end(s, quote, i + 2)
        } else {
            None
        }
    } else {
        string_end(s, quote, i + 1)
    }
}

/// Where the block comment whose body starts at `i` ends, behind its `*/`;
/// nothing when it is not closed.
pub open spec fn block_end(s: Seq<char>, i: int) -> Option<int>
    decreases s.len() - i,
{
    if i + 1 >= s.len() {
        None
    } else if s[i] == '*' && s[i + 1] == '/' {
        Some(i + 2)
    } else {
        block_end(s, i + 1)
    }
}

/// Is there a digit at `i`?
pub open spec fn digit_at(s: Seq<char>, i: int) -> bool {
    0 <= i < s.len() && is_digit(s[i])
}

/// Where the exponent at `i` ends; `i` when there is none.
pub open spec fn exponent_end(s: Seq<char>, i: int) -> int {
    if i < s.len() && (s[i] == 'e' || s[i] == 'E') {
        let j = if i + 1 < s.len() && (s[i + 1] == '+' || s[i + 1] == '-') {
            i + 2
        } else {
            i + 1
        };
        if digit_at(s, j) {
            number_end(s, j)
        } else {
            i
        }
    } else {
        i
    }
}

/// Does `Infinity` stand at `i`?
pub open spec fn infinity_at(s: Seq<char>, i: int) -> bool {
    i + 8 <= s.len() && s.subrange(i, i + 8) == "Infinity"@
}

/// Does a hexadecimal number stand at `i`?
pub open spec fn hex_at(s: Seq<char>, i: int) -> bool {
    i + 2 < s.len() && s[i] == '0' && (s[i + 1] == 'x' || s[i + 1] == 'X') && hex_char(s[i + 2])
}

/// Where the number at `i` ends, if there is one: decimal (JSON5 allows a `+`
/// sign and a bare leading or trailing point), hexadecimal, or a signed
/// `Infinity`.
pub open spec fn num_end(s: Seq<char>, i: int) -> Option<int> {
    let j = if i < s.len() && (s[i] == '+' || s[i] == '-') {
        i + 1
    } else {
        i
    };
    if hex_at(s, j) {
        Some(hex_run_end(s, j + 2))
    } else if digit_at(s, j) {
        let d = number_end(s, j);
        let f = if d < s.len() && s[d] == '.' {
            number_end(s, d + 1)
        } else {
            d
        };
        Some(exponent_end(s, f))
    } else if j < s.len() && s[j] == '.' && digit_at(s, j + 1) {
        Some(exponent_end(s, number_end(s, j + 1)))
    } else if infinity_at(s, j) {
        Some(j + 8)
    } else {
        None
    }
}

/// What a bare word is.
pub open spec fn word_kind(w: Seq<char>) -> Tok {
    if w == "true"@ {
        Tok::True
    } else if w == "false"@ {
        Tok::False
    } else if w == "null"@ {
        Tok::Null
    } else if w == "Infinity"@ || w == "NaN"@ {
        Tok::Num
    } else {
        Tok::Ident
    }
}

/// The kind of a punctuation character.
pub open spec fn punct(c: char) -> Option<Tok> {
    if c == '{' {
        Some(Tok::LBrace)
    } else if c == '}' {
        Some(Tok::RBrace)
    } else if c == '[' {
        Some(Tok::LBracket)
    } else if c == ']' {
        Some(Tok::RBracket)
    } else if c == ':' {
        Some(Tok::Colon)
    } else if c == ',' {
        Some(Tok::Comma)
    } else {
        None
    }
}

/// The token at `i`: its kind and where it ends.
pub open spec fn json_token(s: Seq<char>, i: int) -> (Tok, int) {
    let c = s[i];
    if punct(c) is Some {
        (punct(c)->0, i + 1)
    } else if json_space(c) {
        (Tok::Ws, space_end(s, i))
    } else if c == '"' {
        match string_end(s, '"', i + 1) {
            Some(e) => (Tok::Str, e),
            None => (Tok::Error, i + 1),
        }
    } else if c == '\'' {
        match string_end(s, '\'', i + 1) {
            Some(e) => (Tok::SingleStr, e),
            None => (Tok::Error, i + 1),
        }
    } else if c == '/' {
        if i + 1 < s.len() && s[i + 1] == '/' {
            (Tok::LineComment, eol_at(s, i))
        } else if i + 1 < s.len() && s[i + 1] == '*' {
            match block_end(s, i + 2) {
                Some(e) => (Tok::BlockComment, e),
                None => (Tok::Error, i + 1),
            }
        } else {
            (Tok::Error, i + 1)
        }
    } else if key_start(c) {
        (word_kind(s.subrange(i, word_end(s, i))), word_end(s, i))
    } else {
        match num_end(s, i) {
            Some(e) => (Tok::Num, e),
            None => (Tok::Error, i + 1),
        }
    }
}

proof fn space_end_bounds(s: Seq<char>, i: int)
    requires
        0 <= i <= s.len(),
    ensures
        i <= space_end(s, i) <= s.len(),
    decreases s.len() - i,
{
    if i < s.len() && json_space(s[i]) {
        space_end_bounds(s, i + 1);
    }
}

proof fn word_end_bounds(s: Seq<char>, i: int)
    requires
        0 <= i <= s.len(),
    ensures
        i <= word_end(s, i) <= s.len(),
    decreases s.len() - i,
{
    if i < s.len() && key_part(s[i]) {
        word_end_bounds(s, i + 1);
    }
}

proof fn number_end_bounds(s: Seq<char>, i: int)
    requires
        0 <= i <= s.len(),
    ensures
        i <= number_end(s, i) <= s.len(),
        digit_at(s, i) ==> i < number_end(s, i),
    decreases s.len() - i,
{
    if i < s.len() && is_digit(s[i]) {
        number_end_bounds(s, i + 1);
    }
}

proof fn hex_run_end_bounds(s: Seq<char>, i: int)
    requires
        0 <= i <= s.len(),
    ensures
        i <= hex_run_end(s, i) <= s.len(),
    decreases s.len() - i,
{
    if i < s.len() && hex_char(s[i]) {
        hex_run_end_bounds(s, i + 1);
    }
}

proof fn eol_at_bounds(s: Seq<char>, i: int)
    requires
        0 <= i <= s.len(),
    ensures
        i <= eol_at(s, i) <= s.len(),
        i < s.len() && s[i] != '\n' ==> i < eol_at(s, i),
    decreases s.len() - i,
{
    if i < s.len() && s[i] != '\n' {
        eol_at_bounds(s, i + 1);
    }
}

proof fn string_end_bounds(s: Seq<char>, quote: char, i: int)
    requires
        0 <= i,
    ensures
        match string_end(s, quote, i) {
            Some(e) => i < e <= s.len(),
            None => true,
        },
    decreases s.len() - i,
{
    if i < s.len() && s[i] != quote {
        if s[i] == '\\' {
            if i + 1 < s.len() {
                string_end_bounds(s, quote, i + 2);
            }
        } else {
            string_end_bounds(s, quote, i + 1);
        }
    }
}

proof fn block_end_bounds(s: Seq<char>, i: int)
    requires
        0 <= i,
    ensures
        match block_end(s, i) {
            Some(e) => i < e <= s.len(),
            None => true,
        },
    decreases s.len() - i,
{
    if i + 1 < s.len() && !(s[i] == '*' && s[i + 1] == '/') {
        block_end_bounds(s, i + 1);
    }
}

proof fn exponent_end_bounds(s: Seq<char>, i: int)
    requires
        0 <= i <= s.len(),
    ensures
        i <= exponent_end(s, i) <= s.len(),
{
    if i < s.len() && (s[i] == 'e' || s[i] == 'E') {
        let j = if i + 1 < s.len() && (s[i + 1] == '+' || s[i + 1] == '-') {
            i + 2
        } else {
            i + 1
        };
        if digit_at(s, j) {
            number_end_bounds(s, j);
        }
    }
}

proof fn num_end_bounds(s: Seq<char>, i: int)
    requires
        0 <= i < s.len(),
    ensures
        match num_end(s, i) {
            Some(e) => i < e <= s.len(),
            None => true,
        },
{
    let j = if s[i] == '+' || s[i] == '-' {
        i + 1
    } else {
        i
    };
    if hex_at(s, j) {
        hex_run_end_bounds(s, j + 2);
    } else if digit_at(s, j) {
        number_end_bounds(s, j);
        let d = number_end(s, j);
        if d < s.len() && s[d] == '.' {
            number_end_bounds(s, d + 1);
            exponent_end_bounds(s, number_end(s, d + 1));
        } else {
            exponent_end_bounds(s, d);
        }
    } else if j < s.len() && s[j] == '.' && digit_at(s, j + 1) {
        number_end_bounds(s, j + 1);
        exponent_end_bounds(s, number_end(s, j + 1));
    }
}

/// A token ends behind where it starts, in range.
pub proof fn json_token_bounds(s: Seq<char>, i: int)
    requires
        0 <= i < s.len(),
    ensures
        i < json_token(s, i).1 <= s.len(),
{
    let c = s[i];
    if punct(c) is Some {
    } else if json_space(c) {
        space_end_bounds(s, i + 1);
    } else if c == '"' {
        string_end_bounds(s, '"', i + 1);
    } else if c == '\'' {
        string_end_bounds(s, '\'', i + 1);
    } else if c == '/' {
        eol_at_bounds(s, i);
        block_end_bounds(s, i + 2);
    } else if key_start(c) {
        word_end_bounds(s, i + 1);
    } else {
        num_end_bounds(s, i);
    }
}

/// The tokens of `s` from `i` on.
pub open spec fn json_tokens(s: Seq<char>, i: int) -> Seq<Jt>
    decreases s.len() - i,
{
    if i >= s.len() {
        Seq::empty()
    } else {
        let (kind, e) = json_token(s, i);
        let one = Jt { kind, text: s.subrange(i, e) };
        if i < e <= s.len() {
            seq![one] + json_tokens(s, e)
        } else {
            seq![one]
        }
    }
}

/// Lexing drops nothing: the tokens' texts, one after the other, are the source.
pub proof fn tokens_round_trip(s: Seq<char>, i: int)
    requires
        0 <= i <= s.len(),
    ensures
        flat(token_texts(json_tokens(s, i))) == s.skip(i),
    decreases s.len() - i,
{
    if i < s.len() {
        json_token_bounds(s, i);
        let (kind, e) = json_token(s, i);
        tokens_round_trip(s, e);
        let one = Jt { kind, text: s.subrange(i, e) };
        let rest = json_tokens(s, e);
        assert(token_texts(seq![one] + rest) =~= seq![one.text] + token_texts(rest));
        crate::lines::flat_one(one.text);
        crate::lines::flat_add(seq![one.text], token_texts(rest));
        assert(s.subrange(i, e) + s.skip(e) =~= s.skip(i));
    } else {
        assert(token_texts(json_tokens(s, i)) =~= Seq::<Seq<char>>::empty());
        assert(s.skip(i) =~= Seq::<char>::empty());
    }
}

fn digit(c: char) -> (r: bool)
    ensures
        r == is_digit(c),
{
    '0' <= c && c <= '9'
}

fn starts_key(c: char) -> (r: bool)
    ensures
        r == key_start(c),
{
    ('a' <= c && c <= 'z') || ('A' <= c && c <= 'Z') || c == '_' || c == '$'
}

fn hex(c: char) -> (r: bool)
    ensures
        r == hex_char(c),
{
    digit(c) || ('a' <= c && c <= 'f') || ('A' <= c && c <= 'F')
}

fn skip_space(cs: &[char], from: usize) -> (r: usize)
    requires
        from <= cs.len(),
    ensures
        r == space_end(cs@, from as int),
        from <= r <= cs.len(),
{
    let mut i: usize = from;
    while i < cs.len() && (cs[i] == ' ' || cs[i] == '\t' || cs[i] == '\r' || cs[i] == '\n')
        invariant
            from <= i <= cs.len(),
            space_end(cs@, from as int) == space_end(cs@, i as int),
        decreases cs.len() - i,
    {
        i = i + 1;
    }
    i
}

fn skip_word(cs: &[char], from: usize) -> (r: usize)
    requires
        from <= cs.len(),
    ensures
        r == word_end(cs@, from as int),
        from <= r <= cs.len(),
{
    let mut i: usize = from;
    while i < cs.len() && (starts_key(cs[i]) || digit(cs[i]))
        invariant
            from <= i <= cs.len(),
            word_end(cs@, from as int) == word_end(cs@, i as int),
        decreases cs.len() - i,
    {
        i = i + 1;
    }
    i
}

fn skip_digits(cs: &[char], from: usize) -> (r: usize)
    requires
        from <= cs.len(),
    ensures
        r == number_end(cs@, from as int),
        from <= r <= cs.len(),
{
    let mut i: usize = from;
    while i < cs.len() && digit(cs[i])
        invariant
            from <= i <= cs.len(),
            number_end(cs@, from as int) == number_end(cs@, i as int),
        decreases cs.len() - i,
    {
        i = i + 1;
    }
    i
}

fn skip_hex(cs: &[char], from: usize) -> (r: usize)
    requires
        from <= cs.len(),
    ensures
        r == hex_run_end(cs@, from as int),
        from <= r <= cs.len(),
{
    let mut i: usize = from;
    while i < cs.len() && hex(cs[i])
        invariant
            from <= i <= cs.len(),
            hex_run_end(cs@, from as int) == hex_run_end(cs@, i as int),
        decreases cs.len() - i,
    {
        i = i + 1;
    }
    i
}

/// Where the line at `from` ends.
pub fn skip_line(cs: &[char], from: usize) -> (r: usize)
    requires
        from <= cs.len(),
    ensures
        r == eol_at(cs@, from as int),
        from <= r <= cs.len(),
{
    let mut i: usize = from;
    while i < cs.len() && cs[i] != '\n'
        invariant
            from <= i <= cs.len(),
            eol_at(cs@, from as int) == eol_at(cs@, i as int),
        decreases cs.len() - i,
    {
        i = i + 1;
    }
    i
}

fn skip_string(cs: &[char], quote: char, from: usize) -> (r: Option<usize>)
    requires
        from <= cs.len(),
    ensures
        match r {
            Some(e) => string_end(cs@, quote, from as int) == Some(e as int) && from < e
                <= cs.len(),
            None => string_end(cs@, quote, from as int) is None,
        },
{
    let mut i: usize = from;
    while i < cs.len()
        invariant
            from <= i <= cs.len(),
            string_end(cs@, quote, from as int) == string_end(cs@, quote, i as int),
        decreases cs.len() - i,
    {
        if cs[i] == quote {
            return Some(i + 1);
        }
        if cs[i] == '\\' {
            if cs.len() - i < 2 {
                return None;
            }
            i = i + 2;
        } else {
            i = i + 1;
        }
    }
    None
}

fn skip_block(cs: &[char], from: usize) -> (r: Option<usize>)
    requires
        from <= cs.len(),
    ensures
        match r {
            Some(e) => block_end(cs@, from as int) == Some(e as int) && from < e <= cs.len(),
            None => block_end(cs@, from as int) is None,
        },
{
    let mut i: usize = from;
    while cs.len() - i >= 2
        invariant
            from <= i <= cs.len(),
            block_end(cs@, from as int) == block_end(cs@, i as int),
        decreases cs.len() - i,
    {
        if cs[i] == '*' && cs[i + 1] == '/' {
            return Some(i + 2);
        }
        i = i + 1;
    }
    None
}

fn skip_exponent(cs: &[char], i: usize) -> (r: usize)
    requires
        i <= cs.len(),
    ensures
        r == exponent_end(cs@, i as int),
        i <= r <= cs.len(),
{
    if i < cs.len() && (cs[i] == 'e' || cs[i] == 'E') {
        let j: usize = if cs.len() - i > 1 && (cs[i + 1] == '+' || cs[i + 1] == '-') {
            i + 2
        } else {
            i + 1
        };
        if j < cs.len() && digit(cs[j]) {
            return skip_digits(cs, j);
        }
    }
    i
}

fn skip_number(cs: &[char], i: usize) -> (r: Option<usize>)
    requires
        i < cs.len(),
    ensures
        match r {
            Some(e) => num_end(cs@, i as int) == Some(e as int) && i < e <= cs.len(),
            None => num_end(cs@, i as int) is None,
        },
{
    proof {
        num_end_bounds(cs@, i as int);
    }
    let j: usize = if cs[i] == '+' || cs[i] == '-' {
        i + 1
    } else {
        i
    };
    let left: usize = cs.len() - j;
    if left > 2 && cs[j] == '0' && (cs[j + 1] == 'x' || cs[j + 1] == 'X') && hex(cs[j + 2]) {
        return Some(skip_hex(cs, j + 2));
    }
    if left > 0 && digit(cs[j]) {
        let d: usize = skip_digits(cs, j);
        let f: usize = if d < cs.len() && cs[d] == '.' {
            skip_digits(cs, d + 1)
        } else {
            d
        };
        return Some(skip_exponent(cs, f));
    }
    if left > 1 && cs[j] == '.' && digit(cs[j + 1]) {
        let d: usize = skip_digits(cs, j + 1);
        return Some(skip_exponent(cs, d));
    }
    if left >= 8 && same(&slice_text(cs, j, j + 8), "Infinity") {
        return Some(j + 8);
    }
    None
}

fn kind_of_word(w: &str) -> (r: Tok)
    ensures
        r == word_kind(w@),
{
    if same(w, "true") {
        Tok::True
    } else if same(w, "false") {
        Tok::False
    } else if same(w, "null") {
        Tok::Null
    } else if same(w, "Infinity") || same(w, "NaN") {
        Tok::Num
    } else {
        Tok::Ident
    }
}

fn kind_of_punct(c: char) -> (r: Option<Tok>)
    ensures
        r == punct(c),
{
    if c == '{' {
        Some(Tok::LBrace)
    } else if c == '}' {
        Some(Tok::RBrace)
    } else if c == '[' {
        Some(Tok::LBracket)
    } else if c == ']' {
        Some(Tok::RBracket)
    } else if c == ':' {
        Some(Tok::Colon)
    } else if c == ',' {
        Some(Tok::Comma)
    } else {
        None
    }
}

fn scan(cs: &[char], i: usize) -> (r: (Tok, usize))
    requires
        i < cs.len(),
    ensures
        (r.0, r.1 as int) == json_token(cs@, i as int),
        i < r.1 <= cs.len(),
{
    proof {
        json_token_bounds(cs@, i as int);
    }
    let c = cs[i];
    if let Some(k) = kind_of_punct(c) {
        return (k, i + 1);
    }
    if c == ' ' || c == '\t' || c == '\r' || c == '\n' {
        return (Tok::Ws, skip_space(cs, i));
    }
    if c == '"' {
        return match skip_string(cs, '"', i + 1) {
            Some(e) => (Tok::Str, e),
            None => (Tok::Error, i + 1),
        };
    }
    if c == '\'' {
        return match skip_string(cs, '\'', i + 1) {
            Some(e) => (Tok::SingleStr, e),
            None => (Tok::Error, i + 1),
        };
    }
    if c == '/' {
        if cs.len() - i > 1 && cs[i + 1] == '/' {
            return (Tok::LineComment, skip_line(cs, i));
        }
        if cs.len() - i > 1 && cs[i + 1] == '*' {
            return match skip_block(cs, i + 2) {
                Some(e) => (Tok::BlockComment, e),
                None => (Tok::Error, i + 1),
            };
        }
        return (Tok::Error, i + 1);
    }
    if starts_key(c) {
        let e: usize = skip_word(cs, i);
        return (kind_of_word(&slice_text(cs, i, e)), e);
    }
    match skip_number(cs, i) {
        Some(e) => (Tok::Num, e),
        None => (Tok::Error, i + 1),
    }
}

/// The tokens of a source.
pub fn lex(cs: &[char]) -> (r: Vec<Token>)
    ensures
        jts(r@) == json_tokens(cs@, 0),
{
    let mut out: Vec<Token> = Vec::new();
    let mut i: usize = 0;
    assert(jts(out@) + json_tokens(cs@, 0) =~= json_tokens(cs@, 0));
    while i < cs.len()
        invariant
            i <= cs.len(),
            jts(out@) + json_tokens(cs@, i as int) == json_tokens(cs@, 0),
        decreases cs.len() - i,
    {
        let (kind, e) = scan(cs, i);
        let ghost held = jts(out@);
        let one = Token { kind, text: slice_text(cs, i, e) };
        let ghost more = one@;
        out.push(one);
        assert(jts(out@) =~= held.push(more));
        assert(jts(out@) + json_tokens(cs@, e as int) =~= held + json_tokens(cs@, i as int));
        i = e;
    }
    assert(jts(out@) + json_tokens(cs@, i as int) =~= jts(out@));
    out
}

} // verus!
