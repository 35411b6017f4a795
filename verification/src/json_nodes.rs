//! Reading the nodes of a JSONC tree: their text, the values they denote, and
//! finding a node by its path.
use crate::float::{negate_float, negated, parsed, Facts, Float, FloatFacts, FloatNeed, Flt, Need};
use crate::grammar::{hex_digits_value, hex_end, hex_value, looks_float, scalar_char};
use crate::json_lexer::{jts, token_texts, Jt, Tok, Token};
use crate::json_tree::{
    en_text, ens, es_text, group_json_views, js_text, key_source, toks_text, En, Entry, Js, Json,
    Literal, Lt,
};
use crate::model::{group_value_views, members, vals, Val, Value};
use crate::parser::hex_stops;
use crate::strs::{chars_of, code, integer, parse_i64, same, slice_text, text_of};
use vstd::prelude::*;

verus! {

broadcast use {group_value_views, group_json_views};

/// Write a run of tokens.
pub fn write_tokens(out: &mut String, ts: &Vec<Token>)
    ensures
        final(out)@ == old(out)@ + toks_text(jts(ts@)),
{
    let ghost start = out@;
    let ghost all = jts(ts@);
    let mut i: usize = 0;
    assert(token_texts(all.take(0)) =~= Seq::<Seq<char>>::empty());
    assert(out@ =~= start + toks_text(all.take(0)));
    while i < ts.len()
        invariant
            i <= ts.len(),
            all == jts(ts@),
            out@ == start + toks_text(all.take(i as int)),
        decreases ts.len() - i,
    {
        out.append(&ts[i].text);
        proof {
            assert(token_texts(all.take(i + 1)) =~= token_texts(all.take(i as int)).push(
                all[i as int].text,
            ));
            crate::lines::flat_push(token_texts(all.take(i as int)), all[i as int].text);
            assert(out@ =~= start + toks_text(all.take(i + 1)));
        }
        i = i + 1;
    }
    assert(all.take(i as int) =~= all);
}

impl Json {
    /// Write the node's text.
    #[verifier::loop_isolation(false)]
    pub fn write(&self, out: &mut String)
        ensures
            final(out)@ == old(out)@ + js_text(self@),
        decreases self,
    {
        let ghost start = out@;
        match self {
            Json::Scalar(l) => {
                out.append(&l.token.text);
            },
            Json::Object(p, es) => {
                out.push('{');
                write_tokens(out, p);
                let mut i: usize = 0;
                let ghost all = ens(es@);
                let ghost head = out@;
                assert(out@ =~= head + es_text(all, 0));
                while i < es.len()
                    invariant
                        i <= es.len(),
                        out@ == head + es_text(all, i as nat),
                    decreases es.len() - i,
                {
                    assert(all[i as int] == es@[i as int]@);
                    es[i].write(out);
                    assert(out@ =~= head + es_text(all, (i + 1) as nat));
                    i = i + 1;
                }
                out.push('}');
                assert(out@ =~= start + js_text(self@));
            },
            Json::Array(p, es) => {
                out.push('[');
                write_tokens(out, p);
                let mut i: usize = 0;
                let ghost all = ens(es@);
                let ghost head = out@;
                assert(out@ =~= head + es_text(all, 0));
                while i < es.len()
                    invariant
                        i <= es.len(),
                        out@ == head + es_text(all, i as nat),
                    decreases es.len() - i,
                {
                    assert(all[i as int] == es@[i as int]@);
                    es[i].write(out);
                    assert(out@ =~= head + es_text(all, (i + 1) as nat));
                    i = i + 1;
                }
                out.push(']');
                assert(out@ =~= start + js_text(self@));
            },
        }
    }

    /// The node's text.
    pub fn source(&self) -> (r: String)
        ensures
            r@ == js_text(self@),
    {
        let mut out = String::new();
        self.write(&mut out);
        assert(out@ =~= js_text(self@));
        out
    }
}


impl Entry {
    /// Write the entry's text.
    pub fn write(&self, out: &mut String)
        ensures
            final(out)@ == old(out)@ + en_text(self@),
        decreases self,
    {
        let ghost start = out@;
        if let Some(k) = &self.key {
            out.append(&k.token.text);
            write_tokens(out, &k.gap);
            out.push(':');
            write_tokens(out, &k.lead);
        }
        assert(out@ =~= start + key_source(self@.key));
        self.value.write(out);
        if let Some(c) = &self.comma {
            write_tokens(out, c);
            out.push(',');
        }
        write_tokens(out, &self.after);
        assert(out@ =~= start + en_text(self@));
    }
}

/// What a number's text denotes: a value, or the double of its digits, negated
/// or not.
pub enum NumKind {
    Known(Val),
    Lookup(bool, Seq<char>),
}

/// Positive infinity.
pub open spec fn infinity() -> Flt {
    Flt { bits: 0x7ff0_0000_0000_0000, text: "inf"@ }
}

/// Negative infinity.
pub open spec fn minus_infinity() -> Flt {
    Flt { bits: 0xfff0_0000_0000_0000, text: "-inf"@ }
}

/// Not a number.
pub open spec fn not_a_number() -> Flt {
    Flt { bits: 0x7ff8_0000_0000_0000, text: "NaN"@ }
}

/// A number's text without its sign.
pub open spec fn unsigned(t: Seq<char>) -> Seq<char> {
    if t.len() > 0 && (t[0] == '-' || t[0] == '+') {
        t.drop_first()
    } else {
        t
    }
}

/// An integer with a sign.
pub open spec fn signed(neg: bool, n: i64) -> i64 {
    if neg {
        (-n) as i64
    } else {
        n
    }
}

/// Is the text a hexadecimal number?
pub open spec fn is_hex(t: Seq<char>) -> bool {
    t.len() >= 2 && t[0] == '0' && (t[1] == 'x' || t[1] == 'X')
}

/// What a number's text denotes. Hexadecimal stays an integer where it fits.
pub open spec fn number_kind(t: Seq<char>) -> NumKind {
    let neg = t.len() > 0 && t[0] == '-';
    let d = unsigned(t);
    if t == "Infinity"@ || t == "+Infinity"@ {
        NumKind::Known(Val::Float(infinity()))
    } else if t == "-Infinity"@ {
        NumKind::Known(Val::Float(minus_infinity()))
    } else if t == "NaN"@ {
        NumKind::Known(Val::Float(not_a_number()))
    } else if is_hex(d) {
        match hex_digits_value(d.skip(2)) {
            Some(n) => if d.len() > 2 && n <= i64::MAX {
                NumKind::Known(Val::Int(signed(neg, n as i64)))
            } else {
                NumKind::Lookup(neg, d)
            },
            None => NumKind::Lookup(neg, d),
        }
    } else if looks_float(t) {
        NumKind::Lookup(neg, d)
    } else {
        match parse_i64(d) {
            Some(n) => NumKind::Known(Val::Int(signed(neg, n))),
            None => NumKind::Lookup(neg, d),
        }
    }
}

/// The value of a number's text.
pub open spec fn number_val(t: Seq<char>, fx: Facts) -> Result<Val, Need> {
    match number_kind(t) {
        NumKind::Known(v) => Ok(v),
        NumKind::Lookup(neg, d) => match parsed(fx, d) {
            Err(n) => Err(n),
            Ok(None) => Ok(Val::Float(crate::grammar::float_zero())),
            Ok(Some(f)) => Ok(
                Val::Float(
                    if neg {
                        negated(f)
                    } else {
                        f
                    },
                ),
            ),
        },
    }
}

fn hex_integer(cs: &[char], from: usize) -> (r: Option<i64>)
    requires
        from <= cs.len(),
    ensures
        match hex_digits_value(cs@.skip(from as int)) {
            Some(n) => if from < cs.len() && n <= i64::MAX {
                r == Some(n as i64)
            } else {
                r is None
            },
            None => r is None,
        },
{
    let ghost body = cs@.skip(from as int);
    if from == cs.len() {
        return None;
    }
    let mut n: u64 = 0;
    let mut over = false;
    let mut i: usize = from;
    assert(body.take(0) =~= Seq::<char>::empty());
    while i < cs.len()
        invariant
            from <= i <= cs.len(),
            from < cs.len(),
            body == cs@.skip(from as int),
            hex_digits_value(body.take(i - from)) is Some,
            over ==> hex_digits_value(body.take(i - from))->0 > i64::MAX,
            !over ==> n == hex_digits_value(body.take(i - from))->0 && n <= i64::MAX,
        decreases cs.len() - i,
    {
        let c = cs[i];
        assert(body.take(i - from + 1).drop_last() =~= body.take(i - from));
        assert(body.take(i - from + 1).last() == c);
        let d: u64 = if '0' <= c && c <= '9' {
            (code(c) - 48) as u64
        } else if 'a' <= c && c <= 'f' {
            (code(c) - 87) as u64
        } else if 'A' <= c && c <= 'F' {
            (code(c) - 55) as u64
        } else {
            proof {
                hex_stops(body, i - from + 1);
            }
            return None;
        };
        if !over {
            if n > 0x07ff_ffff_ffff_ffff {
                over = true;
            } else {
                n = n * 16 + d;
            }
        }
        i = i + 1;
    }
    assert(body.take(i - from) =~= body);
    if over {
        None
    } else {
        Some(n as i64)
    }
}

fn with_sign(neg: bool, n: i64) -> (r: i64)
    ensures
        r == signed(neg, n),
{
    if neg {
        if n == i64::MIN {
            proof {
                assert((-n) as i64 == n) by (bit_vector)
                    requires
                        n == -0x8000_0000_0000_0000i64,
                ;
            }
            n
        } else {
            -n
        }
    } else {
        n
    }
}

/// What the text of a number denotes without a table of doubles, or whether it
/// is negative and its digits.
pub enum NumText {
    Known(Value),
    Lookup(bool, String),
}

pub open spec fn num_text(n: NumText) -> NumKind {
    match n {
        NumText::Known(v) => NumKind::Known(v@),
        NumText::Lookup(neg, d) => NumKind::Lookup(neg, d@),
    }
}

fn float_mark(cs: &Vec<char>) -> (r: bool)
    ensures
        r == looks_float(cs@),
{
    let mut i: usize = 0;
    while i < cs.len()
        invariant
            i <= cs.len(),
            forall|j: int|
                0 <= j < i ==> (#[trigger] cs@[j]) != '.' && cs@[j] != 'e' && cs@[j] != 'E',
        decreases cs.len() - i,
    {
        if cs[i] == '.' || cs[i] == 'e' || cs[i] == 'E' {
            return true;
        }
        i = i + 1;
    }
    false
}

/// What the text of a number denotes.
pub fn read_number(t: &str) -> (r: NumText)
    ensures
        num_text(r) == number_kind(t@),
{
    if same(t, "Infinity") || same(t, "+Infinity") {
        return NumText::Known(
            Value::Float(Float { bits: 0x7ff0_0000_0000_0000, text: "inf".to_owned() }),
        );
    }
    if same(t, "-Infinity") {
        return NumText::Known(
            Value::Float(Float { bits: 0xfff0_0000_0000_0000, text: "-inf".to_owned() }),
        );
    }
    if same(t, "NaN") {
        return NumText::Known(
            Value::Float(Float { bits: 0x7ff8_0000_0000_0000, text: "NaN".to_owned() }),
        );
    }
    let cs = chars_of(t);
    let n: usize = cs.len();
    let neg = n > 0 && cs[0] == '-';
    let from: usize = if n > 0 && (cs[0] == '-' || cs[0] == '+') {
        1
    } else {
        0
    };
    let digits = slice_text(&cs, from, n);
    assert(digits@ =~= unsigned(t@));
    let ds = chars_of(&digits);
    if ds.len() >= 2 && ds[0] == '0' && (ds[1] == 'x' || ds[1] == 'X') {
        return match hex_integer(&ds, 2) {
            Some(v) => NumText::Known(Value::Int(with_sign(neg, v))),
            None => NumText::Lookup(neg, digits),
        };
    }
    if float_mark(&cs) {
        return NumText::Lookup(neg, digits);
    }
    match integer(&ds) {
        Some(v) => NumText::Known(Value::Int(with_sign(neg, v))),
        None => NumText::Lookup(neg, digits),
    }
}

/// The value of a number's text.
pub fn number(t: &str, facts: &FloatFacts) -> (r: Result<Value, FloatNeed>)
    ensures
        match r {
            Ok(v) => number_val(t@, facts@) == Ok::<Val, Need>(v@),
            Err(n) => number_val(t@, facts@) == Err::<Val, Need>(n@),
        },
{
    match read_number(t) {
        NumText::Known(v) => Ok(v),
        NumText::Lookup(neg, d) => match facts.parse(&d) {
            Err(n) => Err(n),
            Ok(None) => Ok(Value::Float(Float { bits: 0, text: "0".to_owned() })),
            Ok(Some(f)) => if neg {
                Ok(Value::Float(negate_float(&f)))
            } else {
                Ok(Value::Float(f))
            },
        },
    }
}

/// The text between a string's quotes, double or single.
pub open spec fn json_unquoted(t: Seq<char>) -> Seq<char> {
    if t.len() >= 2 && ((t[0] == '"' && t.last() == '"') || (t[0] == '\'' && t.last() == '\'')) {
        t.subrange(1, t.len() - 1)
    } else {
        t
    }
}

/// What a one-letter escape of a JSON5 string stands for.
pub open spec fn json_escape(c: char) -> Option<char> {
    if c == '\'' {
        Some(c)
    } else {
        crate::grammar::simple_escape(c)
    }
}

/// The text of `s` from `i` on with its escapes resolved. A backslash in front of
/// a line break is a continuation, which contributes nothing; an unknown escape
/// stands for itself.
pub open spec fn json_unescaped(s: Seq<char>, i: int) -> Seq<char>
    decreases s.len() - i,
{
    if i >= s.len() {
        Seq::empty()
    } else if s[i] != '\\' {
        seq![s[i]] + json_unescaped(s, i + 1)
    } else if i + 1 >= s.len() {
        seq!['\\']
    } else if s[i + 1] == '\n' {
        json_unescaped(s, i + 2)
    } else if s[i + 1] == '\r' {
        if i + 2 < s.len() && s[i + 2] == '\n' {
            json_unescaped(s, i + 3)
        } else {
            json_unescaped(s, i + 2)
        }
    } else if s[i + 1] == 'u' {
        scalar_char(hex_value(s.subrange(i + 2, hex_end(s, i + 2)))) + json_unescaped(
            s,
            hex_end(s, i + 2),
        )
    } else {
        match json_escape(s[i + 1]) {
            Some(c) => seq![c] + json_unescaped(s, i + 2),
            None => seq!['\\', s[i + 1]] + json_unescaped(s, i + 2),
        }
    }
}

/// What a string token denotes.
pub open spec fn string_val(t: Seq<char>) -> Seq<char> {
    json_unescaped(json_unquoted(t), 0)
}

/// Unescape a quoted string token (quotes included).
///
/// Handles JSON's double quotes and JSON5's single quotes; the escape grammar is
/// otherwise shared, plus JSON5's backslash-newline line continuation.
pub fn unescape(tok: &str) -> (r: String)
    ensures
        r@ == string_val(tok@),
{
    let all = chars_of(tok);
    let n: usize = all.len();
    let inner = if n >= 2 && ((all[0] == '"' && all[n - 1] == '"') || (all[0] == '\'' && all[n - 1]
        == '\'')) {
        slice_text(&all, 1, n - 1)
    } else {
        tok.to_owned()
    };
    let cs = chars_of(&inner);
    let mut out: Vec<char> = Vec::new();
    let mut i: usize = 0;
    assert(out@ + json_unescaped(cs@, 0) =~= json_unescaped(cs@, 0));
    while i < cs.len()
        invariant
            i <= cs.len(),
            out@ + json_unescaped(cs@, i as int) == json_unescaped(cs@, 0),
        decreases cs.len() - i,
    {
        let ghost held = out@;
        let ghost from = i as int;
        let left: usize = cs.len() - i;
        let c = cs[i];
        if c != '\\' {
            out.push(c);
            assert(out@ + json_unescaped(cs@, i + 1) =~= held + json_unescaped(cs@, from));
            i = i + 1;
        } else if left < 2 {
            out.push('\\');
            i = i + 1;
            assert(out@ + json_unescaped(cs@, i as int) =~= held + json_unescaped(cs@, from));
        } else if cs[i + 1] == '\n' {
            i = i + 2;
        } else if cs[i + 1] == '\r' {
            if left > 2 && cs[i + 2] == '\n' {
                i = i + 3;
            } else {
                i = i + 2;
            }
        } else if cs[i + 1] == 'u' {
            let end: usize = if left > 6 {
                i + 6
            } else {
                cs.len()
            };
            let v = crate::parser::hex_number(&cs, i + 2, end);
            proof {
                if v is Some {
                    crate::parser::hex_small(cs@.subrange(i + 2, end as int));
                }
            }
            crate::parser::push_scalar(&mut out, v);
            assert(out@ + json_unescaped(cs@, end as int) =~= held + json_unescaped(cs@, from));
            i = end;
        } else {
            let e = if cs[i + 1] == '\'' {
                Some('\'')
            } else {
                crate::parser::escape_of(cs[i + 1])
            };
            match e {
                Some(x) => {
                    out.push(x);
                },
                None => {
                    out.push('\\');
                    out.push(cs[i + 1]);
                },
            }
            assert(out@ + json_unescaped(cs@, i + 2) =~= held + json_unescaped(cs@, from));
            i = i + 2;
        }
    }
    assert(out@ + json_unescaped(cs@, i as int) =~= out@);
    text_of(&out)
}

/// The name a key token denotes: a bare word is its own text, only the quoted
/// spellings carry escapes.
pub open spec fn key_name(k: Jt) -> Seq<char> {
    if k.kind == Tok::Str || k.kind == Tok::SingleStr {
        string_val(k.text)
    } else {
        k.text
    }
}

/// The name a key token denotes.
pub fn key_text(k: &Token) -> (r: String)
    ensures
        r@ == key_name(k@),
{
    if k.kind == Tok::Str || k.kind == Tok::SingleStr {
        unescape(&k.text)
    } else {
        k.text.clone()
    }
}

/// The value of a literal.
pub open spec fn literal_val(l: Lt) -> Val {
    match l.token.kind {
        Tok::Str | Tok::SingleStr => Val::Str(string_val(l.token.text)),
        Tok::Num => match l.num {
            Some(v) => v,
            None => Val::Null,
        },
        Tok::True => Val::Bool(true),
        Tok::False => Val::Bool(false),
        _ => Val::Null,
    }
}

/// The name of an entry; an array's element has none.
pub open spec fn entry_name(e: En) -> Seq<char> {
    match e.key {
        Some(k) => key_name(k.token),
        None => Seq::empty(),
    }
}

/// The value of a node. Trivia is dropped here by design: this is what querying
/// and conversion see, not the format-preserving source view.
pub open spec fn js_val(n: Js) -> Val
    decreases n, 0int, 0int,
{
    match n {
        Js::Scalar(l) => literal_val(l),
        Js::Object(_, es) => Val::Object(es_members(es, es.len())),
        Js::Array(_, es) => Val::Array(es_vals(es, es.len())),
    }
}

pub open spec fn en_val(e: En) -> Val
    decreases e, 0int, 0int,
{
    js_val(e.value)
}

/// The members the first `n` entries give.
pub open spec fn es_members(es: Seq<En>, n: nat) -> Seq<(Seq<char>, Val)>
    decreases es, 1int, n,
{
    if n == 0 || n > es.len() {
        Seq::empty()
    } else {
        es_members(es, (n - 1) as nat).push((entry_name(es[n - 1]), en_val(es[n - 1])))
    }
}

/// The elements the first `n` entries give.
pub open spec fn es_vals(es: Seq<En>, n: nat) -> Seq<Val>
    decreases es, 1int, n,
{
    if n == 0 || n > es.len() {
        Seq::empty()
    } else {
        es_vals(es, (n - 1) as nat).push(en_val(es[n - 1]))
    }
}

impl Literal {
    fn project(&self) -> (r: Value)
        ensures
            r@ == literal_val(self@),
    {
        match self.token.kind {
            Tok::Str | Tok::SingleStr => Value::Str(unescape(&self.token.text)),
            Tok::Num => match &self.num {
                Some(v) => v.clone(),
                None => Value::Null,
            },
            Tok::True => Value::Bool(true),
            Tok::False => Value::Bool(false),
            _ => Value::Null,
        }
    }
}

impl Json {
    /// The value of the node.
    #[verifier::loop_isolation(false)]
    pub fn project(&self) -> (r: Value)
        ensures
            r@ == js_val(self@),
        decreases self,
    {
        match self {
            Json::Scalar(l) => l.project(),
            Json::Object(_, es) => {
                let ghost all = ens(es@);
                let mut out: Vec<(String, Value)> = Vec::new();
                assert(members(out@) =~= Seq::<(Seq<char>, Val)>::empty());
                let mut i: usize = 0;
                while i < es.len()
                    invariant
                        i <= es.len(),
                        members(out@) == es_members(all, i as nat),
                    decreases es.len() - i,
                {
                    assert(all[i as int] == es@[i as int]@);
                    let name = match &es[i].key {
                        Some(k) => key_text(&k.token),
                        None => String::new(),
                    };
                    let v = es[i].project();
                    assert(name@ =~= entry_name(all[i as int]));
                    out.push((name, v));
                    i = i + 1;
                }
                Value::Object(out)
            },
            Json::Array(_, es) => {
                let ghost all = ens(es@);
                let mut out: Vec<Value> = Vec::new();
                assert(vals(out@) =~= Seq::<Val>::empty());
                let mut i: usize = 0;
                while i < es.len()
                    invariant
                        i <= es.len(),
                        vals(out@) == es_vals(all, i as nat),
                    decreases es.len() - i,
                {
                    assert(all[i as int] == es@[i as int]@);
                    out.push(es[i].project());
                    i = i + 1;
                }
                Value::Array(out)
            },
        }
    }
}

impl Entry {
    /// The value of the entry.
    pub fn project(&self) -> (r: Value)
        ensures
            r@ == en_val(self@),
        decreases self,
    {
        self.value.project()
    }
}

} // verus!
