//! The lossless tree of a JSONC document.
//!
//! Every token of the source is in the tree, trivia included, so a tree's text
//! is its source. A container is the trivia behind its opening bracket and its
//! entries; an entry carries the trivia around its key, the comma behind it, and
//! the trivia behind that. An edit therefore replaces, adds or removes entries,
//! and every token it does not touch stays as it was.
use crate::json_lexer::{jts, token_texts, Jt, Tok, Token};
use crate::lines::flat;
use crate::model::{Val, Value};
use vstd::prelude::*;

verus! {

/// A scalar literal: its token, and for a number the value it denotes.
pub struct Literal {
    pub token: Token,
    pub num: Option<Value>,
}

/// The key of an object's member: its token, the trivia in front of the colon,
/// and the trivia behind it.
pub struct MemberKey {
    pub token: Token,
    pub gap: Vec<Token>,
    pub lead: Vec<Token>,
}

/// A value node.
pub enum Json {
    Scalar(Literal),
    Object(Vec<Token>, Vec<Entry>),
    Array(Vec<Token>, Vec<Entry>),
}

/// A member of an object or an element of an array.
pub struct Entry {
    /// The key; none for an array's element.
    pub key: Option<MemberKey>,
    pub value: Json,
    /// The trivia in front of the comma, if a comma follows.
    pub comma: Option<Vec<Token>>,
    /// The trivia behind the entry and its comma.
    pub after: Vec<Token>,
}

/// The mathematical content of a [`Literal`].
pub struct Lt {
    pub token: Jt,
    pub num: Option<Val>,
}

/// The mathematical content of a [`MemberKey`].
pub struct Ky {
    pub token: Jt,
    pub gap: Seq<Jt>,
    pub lead: Seq<Jt>,
}

/// The mathematical content of a [`Json`].
pub enum Js {
    Scalar(Lt),
    Object(Seq<Jt>, Seq<En>),
    Array(Seq<Jt>, Seq<En>),
}

/// The mathematical content of an [`Entry`].
pub struct En {
    pub key: Option<Ky>,
    pub value: Js,
    pub comma: Option<Seq<Jt>>,
    pub after: Seq<Jt>,
}

impl View for Literal {
    type V = Lt;

    open spec fn view(&self) -> Lt {
        Lt {
            token: self.token@,
            num: match self.num {
                Some(v) => Some(v@),
                None => None,
            },
        }
    }
}

impl View for MemberKey {
    type V = Ky;

    open spec fn view(&self) -> Ky {
        Ky { token: self.token@, gap: jts(self.gap@), lead: jts(self.lead@) }
    }
}

/// The view of an optional key.
pub open spec fn opt_key(k: Option<MemberKey>) -> Option<Ky> {
    match k {
        Some(x) => Some(x@),
        None => None,
    }
}

/// The view of an optional comma.
pub open spec fn opt_comma(c: Option<Vec<Token>>) -> Option<Seq<Jt>> {
    match c {
        Some(x) => Some(jts(x@)),
        None => None,
    }
}

/// The null literal.
pub open spec fn null_js() -> Js {
    Js::Scalar(Lt { token: Jt { kind: Tok::Null, text: "null"@ }, num: None })
}

pub open spec fn js_of(n: Json) -> Js
    decreases n,
{
    match n {
        Json::Scalar(l) => Js::Scalar(l@),
        Json::Object(p, es) => Js::Object(
            jts(p@),
            Seq::new(
                es@.len(),
                |i: int|
                    if 0 <= i < es@.len() {
                        en_of(es@[i])
                    } else {
                        En { key: None, value: null_js(), comma: None, after: Seq::empty() }
                    },
            ),
        ),
        Json::Array(p, es) => Js::Array(
            jts(p@),
            Seq::new(
                es@.len(),
                |i: int|
                    if 0 <= i < es@.len() {
                        en_of(es@[i])
                    } else {
                        En { key: None, value: null_js(), comma: None, after: Seq::empty() }
                    },
            ),
        ),
    }
}

pub open spec fn en_of(e: Entry) -> En
    decreases e,
{
    En {
        key: opt_key(e.key),
        value: js_of(e.value),
        comma: opt_comma(e.comma),
        after: jts(e.after@),
    }
}

impl View for Json {
    type V = Js;

    open spec fn view(&self) -> Js {
        js_of(*self)
    }
}

impl View for Entry {
    type V = En;

    open spec fn view(&self) -> En {
        en_of(*self)
    }
}

/// The contents of a list of entries.
pub open spec fn ens(s: Seq<Entry>) -> Seq<En> {
    Seq::new(s.len(), |i: int| s[i]@)
}

pub broadcast proof fn js_scalar_view(l: Literal)
    ensures
        #[trigger] js_of(Json::Scalar(l)) == Js::Scalar(l@),
{
}

pub broadcast proof fn js_object_view(p: Vec<Token>, es: Vec<Entry>)
    ensures
        #[trigger] js_of(Json::Object(p, es)) == Js::Object(jts(p@), ens(es@)),
{
    assert(js_of(Json::Object(p, es))->Object_1 =~= ens(es@));
}

pub broadcast proof fn js_array_view(p: Vec<Token>, es: Vec<Entry>)
    ensures
        #[trigger] js_of(Json::Array(p, es)) == Js::Array(jts(p@), ens(es@)),
{
    assert(js_of(Json::Array(p, es))->Array_1 =~= ens(es@));
}

pub broadcast proof fn en_view(e: Entry)
    ensures
        #[trigger] en_of(e) == (En {
            key: opt_key(e.key),
            value: js_of(e.value),
            comma: opt_comma(e.comma),
            after: jts(e.after@),
        }),
{
}

pub broadcast proof fn ens_push(s: Seq<Entry>, x: Entry)
    ensures
        #[trigger] ens(s.push(x)) == ens(s).push(x@),
{
    assert(ens(s.push(x)) =~= ens(s).push(x@));
}

pub broadcast proof fn jts_push(s: Seq<Token>, x: Token)
    ensures
        #[trigger] jts(s.push(x)) == jts(s).push(x@),
{
    assert(jts(s.push(x)) =~= jts(s).push(x@));
}

pub broadcast group group_json_views {
    js_scalar_view,
    js_object_view,
    js_array_view,
    en_view,
    ens_push,
    jts_push,
}

/// The text of a run of tokens.
pub open spec fn toks_text(ts: Seq<Jt>) -> Seq<char> {
    flat(token_texts(ts))
}

/// The text of a key, its colon and the trivia around it.
pub open spec fn key_source(k: Option<Ky>) -> Seq<char> {
    match k {
        Some(x) => x.token.text + toks_text(x.gap) + seq![':'] + toks_text(x.lead),
        None => Seq::empty(),
    }
}

/// The text of a comma and the trivia in front of it.
pub open spec fn comma_source(c: Option<Seq<Jt>>) -> Seq<char> {
    match c {
        Some(ts) => toks_text(ts) + seq![','],
        None => Seq::empty(),
    }
}

/// The text of a node.
pub open spec fn js_text(n: Js) -> Seq<char>
    decreases n, 0int, 0int,
{
    match n {
        Js::Scalar(l) => l.token.text,
        Js::Object(p, es) => seq!['{'] + toks_text(p) + es_text(es, es.len()) + seq!['}'],
        Js::Array(p, es) => seq!['['] + toks_text(p) + es_text(es, es.len()) + seq![']'],
    }
}

/// The text of an entry.
pub open spec fn en_text(e: En) -> Seq<char>
    decreases e, 0int, 0int,
{
    key_source(e.key) + js_text(e.value) + comma_source(e.comma) + toks_text(e.after)
}

/// The text of the first `n` entries.
pub open spec fn es_text(es: Seq<En>, n: nat) -> Seq<char>
    decreases es, 1int, n,
{
    if n == 0 || n > es.len() {
        Seq::empty()
    } else {
        es_text(es, (n - 1) as nat) + en_text(es[n - 1])
    }
}

} // verus!
