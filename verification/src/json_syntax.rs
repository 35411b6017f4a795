//! The syntax trees of JSONC documents.
use crate::json_lexer::{jts, token_texts, Jt, Tok, Token};
use crate::json_tree::{
    comma_source, en_text, ens, es_text, group_json_views, js_text, key_source, opt_comma, toks_text,
    En, Entry, Js, Json, Ky, MemberKey,
};
use crate::lines::flat_push;
use crate::row_syntax::{all_text, all_text_add, all_text_one, push_node};
use crate::syntax::{green_text, node_green, tree_green, trees_green, Green, Kinds, Tree};
use vstd::prelude::*;
use vstd::string::*;

verus! {

broadcast use group_json_views;

/// Token and node kinds: tokens first, then composite nodes.
#[derive(Debug, Clone, Copy, PartialEq, Eq, PartialOrd, Ord, Hash, Structural)]
pub enum Sk {
    LBrace,
    RBrace,
    LBracket,
    RBracket,
    Colon,
    Comma,
    True,
    False,
    Null,
    Str,
    SingleStr,
    Num,
    Ident,
    LineComment,
    BlockComment,
    Ws,
    Error,
    Value,
    Object,
    Member,
    Array,
    Root,
}

impl Kinds for Sk {
    open spec fn code(self) -> u16 {
        match self {
            Sk::LBrace => 0,
            Sk::RBrace => 1,
            Sk::LBracket => 2,
            Sk::RBracket => 3,
            Sk::Colon => 4,
            Sk::Comma => 5,
            Sk::True => 6,
            Sk::False => 7,
            Sk::Null => 8,
            Sk::Str => 9,
            Sk::SingleStr => 10,
            Sk::Num => 11,
            Sk::Ident => 12,
            Sk::LineComment => 13,
            Sk::BlockComment => 14,
            Sk::Ws => 15,
            Sk::Error => 16,
            Sk::Value => 17,
            Sk::Object => 18,
            Sk::Member => 19,
            Sk::Array => 20,
            Sk::Root => 21,
        }
    }

    open spec fn kinds() -> Seq<Sk> {
        seq![
            Sk::LBrace,
            Sk::RBrace,
            Sk::LBracket,
            Sk::RBracket,
            Sk::Colon,
            Sk::Comma,
            Sk::True,
            Sk::False,
            Sk::Null,
            Sk::Str,
            Sk::SingleStr,
            Sk::Num,
            Sk::Ident,
            Sk::LineComment,
            Sk::BlockComment,
            Sk::Ws,
            Sk::Error,
            Sk::Value,
            Sk::Object,
            Sk::Member,
            Sk::Array,
            Sk::Root,
        ]
    }

    proof fn numbered(self) {
    }

    fn raw(self) -> (r: u16) {
        match self {
            Sk::LBrace => 0,
            Sk::RBrace => 1,
            Sk::LBracket => 2,
            Sk::RBracket => 3,
            Sk::Colon => 4,
            Sk::Comma => 5,
            Sk::True => 6,
            Sk::False => 7,
            Sk::Null => 8,
            Sk::Str => 9,
            Sk::SingleStr => 10,
            Sk::Num => 11,
            Sk::Ident => 12,
            Sk::LineComment => 13,
            Sk::BlockComment => 14,
            Sk::Ws => 15,
            Sk::Error => 16,
            Sk::Value => 17,
            Sk::Object => 18,
            Sk::Member => 19,
            Sk::Array => 20,
            Sk::Root => 21,
        }
    }

    fn all() -> (r: Vec<Sk>) {
        let r = vec![
            Sk::LBrace,
            Sk::RBrace,
            Sk::LBracket,
            Sk::RBracket,
            Sk::Colon,
            Sk::Comma,
            Sk::True,
            Sk::False,
            Sk::Null,
            Sk::Str,
            Sk::SingleStr,
            Sk::Num,
            Sk::Ident,
            Sk::LineComment,
            Sk::BlockComment,
            Sk::Ws,
            Sk::Error,
            Sk::Value,
            Sk::Object,
            Sk::Member,
            Sk::Array,
            Sk::Root,
        ];
        assert(r@ =~= Self::kinds());
        r
    }
}

/// The kind of a token.
pub open spec fn kind_of(k: Tok) -> Sk {
    match k {
        Tok::LBrace => Sk::LBrace,
        Tok::RBrace => Sk::RBrace,
        Tok::LBracket => Sk::LBracket,
        Tok::RBracket => Sk::RBracket,
        Tok::Colon => Sk::Colon,
        Tok::Comma => Sk::Comma,
        Tok::True => Sk::True,
        Tok::False => Sk::False,
        Tok::Null => Sk::Null,
        Tok::Str => Sk::Str,
        Tok::SingleStr => Sk::SingleStr,
        Tok::Num => Sk::Num,
        Tok::Ident => Sk::Ident,
        Tok::LineComment => Sk::LineComment,
        Tok::BlockComment => Sk::BlockComment,
        Tok::Ws => Sk::Ws,
        Tok::Error => Sk::Error,
    }
}

fn kind(k: Tok) -> (r: Sk)
    ensures
        r == kind_of(k),
{
    match k {
        Tok::LBrace => Sk::LBrace,
        Tok::RBrace => Sk::RBrace,
        Tok::LBracket => Sk::LBracket,
        Tok::RBracket => Sk::RBracket,
        Tok::Colon => Sk::Colon,
        Tok::Comma => Sk::Comma,
        Tok::True => Sk::True,
        Tok::False => Sk::False,
        Tok::Null => Sk::Null,
        Tok::Str => Sk::Str,
        Tok::SingleStr => Sk::SingleStr,
        Tok::Num => Sk::Num,
        Tok::Ident => Sk::Ident,
        Tok::LineComment => Sk::LineComment,
        Tok::BlockComment => Sk::BlockComment,
        Tok::Ws => Sk::Ws,
        Tok::Error => Sk::Error,
    }
}

/// The tree of a token.
pub open spec fn token_green(t: Jt) -> Green {
    Green::Token(kind_of(t.kind).code(), t.text)
}

/// The trees of a run of tokens.
pub open spec fn toks_green(ts: Seq<Jt>) -> Seq<Green> {
    ts.map_values(|t: Jt| token_green(t))
}

/// A token that is one character.
pub open spec fn mark_green(k: Sk, c: char) -> Seq<Green> {
    seq![Green::Token(k.code(), seq![c])]
}

/// The trees of a comma and the trivia in front of it.
pub open spec fn comma_green(c: Option<Seq<Jt>>) -> Seq<Green> {
    match c {
        Some(ts) => toks_green(ts) + mark_green(Sk::Comma, ','),
        None => Seq::empty(),
    }
}

/// The trees of a key, its colon and the trivia around it.
pub open spec fn key_green(k: Ky) -> Seq<Green> {
    seq![token_green(k.token)] + toks_green(k.gap) + mark_green(Sk::Colon, ':') + toks_green(k.lead)
}

/// The tree of a value: a node around its token, object or array.
pub open spec fn json_green(n: Js) -> Green
    decreases n, 0int, 0int,
{
    Green::Node(
        Sk::Value.code(),
        seq![
            match n {
                Js::Scalar(l) => token_green(l.token),
                Js::Object(p, es) => Green::Node(
                    Sk::Object.code(),
                    mark_green(Sk::LBrace, '{') + toks_green(p) + es_green(es, es.len())
                        + mark_green(Sk::RBrace, '}'),
                ),
                Js::Array(p, es) => Green::Node(
                    Sk::Array.code(),
                    mark_green(Sk::LBracket, '[') + toks_green(p) + es_green(es, es.len())
                        + mark_green(Sk::RBracket, ']'),
                ),
            },
        ],
    )
}

/// The trees of an entry. A member is a node that takes in its comma; an
/// element and its comma stand in the array.
pub open spec fn en_green(e: En) -> Seq<Green>
    decreases e, 0int, 0int,
{
    let value = json_green(e.value);
    let entry = match e.key {
        Some(k) => seq![
            Green::Node(Sk::Member.code(), key_green(k) + seq![value] + comma_green(e.comma)),
        ],
        None => seq![value] + comma_green(e.comma),
    };
    entry + toks_green(e.after)
}

/// The trees of the first `n` entries.
pub open spec fn es_green(es: Seq<En>, n: nat) -> Seq<Green>
    decreases es, 1int, n,
{
    if n == 0 || n > es.len() {
        Seq::empty()
    } else {
        es_green(es, (n - 1) as nat) + en_green(es[n - 1])
    }
}

/// The syntax tree of a document: its value, and the trivia around it.
pub open spec fn document_green(head: Seq<Jt>, value: Js, tail: Seq<Jt>) -> Green {
    Green::Node(Sk::Root.code(), toks_green(head) + seq![json_green(value)] + toks_green(tail))
}

/// Add a token to a list of trees.
fn push_tok(out: &mut Vec<Tree<Sk>>, t: &Token)
    ensures
        trees_green(final(out)@) == trees_green(old(out)@) + seq![token_green(t@)],
{
    out.push(Tree::Token(kind(t.kind), t.text.clone()));
    assert(trees_green(out@) =~= trees_green(old(out)@) + seq![token_green(t@)]);
}

/// Add a run of tokens to a list of trees.
fn push_toks(out: &mut Vec<Tree<Sk>>, ts: &Vec<Token>)
    ensures
        trees_green(final(out)@) == trees_green(old(out)@) + toks_green(jts(ts@)),
{
    let ghost before = trees_green(out@);
    let ghost all = toks_green(jts(ts@));
    let mut i: usize = 0;
    assert(trees_green(out@) =~= before + all.take(0));
    while i < ts.len()
        invariant
            i <= ts.len(),
            all == toks_green(jts(ts@)),
            trees_green(out@) == before + all.take(i as int),
        decreases ts.len() - i,
    {
        push_tok(out, &ts[i]);
        assert(all[i as int] == token_green(ts@[i as int]@));
        assert(trees_green(out@) =~= before + all.take(i + 1));
        i = i + 1;
    }
    assert(all.take(i as int) =~= all);
}

/// Add a token that is one character to a list of trees.
fn push_mark(out: &mut Vec<Tree<Sk>>, k: Sk, c: char)
    ensures
        trees_green(final(out)@) == trees_green(old(out)@) + mark_green(k, c),
{
    let mut text = String::new();
    text.push(c);
    assert(text@ =~= seq![c]);
    out.push(Tree::Token(k, text));
    assert(trees_green(out@) =~= trees_green(old(out)@) + mark_green(k, c));
}

/// Add a comma and the trivia in front of it to a list of trees.
fn push_comma(out: &mut Vec<Tree<Sk>>, c: &Option<Vec<Token>>)
    ensures
        trees_green(final(out)@) == trees_green(old(out)@) + comma_green(opt_comma(*c)),
{
    match c {
        Some(ts) => {
            push_toks(out, ts);
            push_mark(out, Sk::Comma, ',');
        },
        None => {},
    }
    assert(trees_green(out@) =~= trees_green(old(out)@) + comma_green(opt_comma(*c)));
}

/// A key, its colon and the trivia around it as a list of trees.
fn key_trees(k: &MemberKey) -> (r: Vec<Tree<Sk>>)
    ensures
        trees_green(r@) == key_green(k@),
{
    let mut out: Vec<Tree<Sk>> = Vec::new();
    push_tok(&mut out, &k.token);
    push_toks(&mut out, &k.gap);
    push_mark(&mut out, Sk::Colon, ':');
    push_toks(&mut out, &k.lead);
    assert(trees_green(out@) =~= key_green(k@));
    out
}

/// A value as a syntax tree.
fn value_tree(n: &Json) -> (r: Tree<Sk>)
    ensures
        tree_green(r) == json_green(n@),
    decreases n, 1int,
{
    let mut inner: Vec<Tree<Sk>> = Vec::new();
    match n {
        Json::Scalar(l) => {
            push_tok(&mut inner, &l.token);
        },
        Json::Object(p, es) => {
            let mut body: Vec<Tree<Sk>> = Vec::new();
            push_mark(&mut body, Sk::LBrace, '{');
            push_toks(&mut body, p);
            push_entries(&mut body, es);
            push_mark(&mut body, Sk::RBrace, '}');
            assert(trees_green(body@) =~= mark_green(Sk::LBrace, '{') + toks_green(jts(p@))
                + es_green(ens(es@), ens(es@).len()) + mark_green(Sk::RBrace, '}'));
            push_node(&mut inner, Sk::Object, body);
        },
        Json::Array(p, es) => {
            let mut body: Vec<Tree<Sk>> = Vec::new();
            push_mark(&mut body, Sk::LBracket, '[');
            push_toks(&mut body, p);
            push_entries(&mut body, es);
            push_mark(&mut body, Sk::RBracket, ']');
            assert(trees_green(body@) =~= mark_green(Sk::LBracket, '[') + toks_green(jts(p@))
                + es_green(ens(es@), ens(es@).len()) + mark_green(Sk::RBracket, ']'));
            push_node(&mut inner, Sk::Array, body);
        },
    }
    assert(trees_green(inner@) =~= json_green(n@)->Node_1);
    proof {
        node_green(Sk::Value, inner);
    }
    Tree::Node(Sk::Value, inner)
}

/// Add an entry to a list of trees.
fn push_entry(out: &mut Vec<Tree<Sk>>, e: &Entry)
    ensures
        trees_green(final(out)@) == trees_green(old(out)@) + en_green(e@),
    decreases e, 2int,
{
    let ghost before = trees_green(out@);
    let value = value_tree(&e.value);
    match &e.key {
        Some(k) => {
            let mut member = key_trees(k);
            member.push(value);
            assert(trees_green(member@) =~= key_green(k@) + seq![json_green(e.value@)]);
            push_comma(&mut member, &e.comma);
            push_node(out, Sk::Member, member);
            assert(trees_green(out@) =~= before + seq![
                Green::Node(
                    Sk::Member.code(),
                    key_green(k@) + seq![json_green(e.value@)] + comma_green(opt_comma(e.comma)),
                ),
            ]);
        },
        None => {
            out.push(value);
            assert(trees_green(out@) =~= before + seq![json_green(e.value@)]);
            push_comma(out, &e.comma);
            assert(trees_green(out@) =~= before + (seq![json_green(e.value@)] + comma_green(
                opt_comma(e.comma),
            )));
        },
    }
    push_toks(out, &e.after);
    assert(trees_green(out@) =~= before + en_green(e@));
}

/// Add entries to a list of trees.
fn push_entries(out: &mut Vec<Tree<Sk>>, es: &Vec<Entry>)
    ensures
        trees_green(final(out)@) == trees_green(old(out)@) + es_green(ens(es@), ens(es@).len()),
    decreases es, 0int,
{
    let ghost before = trees_green(out@);
    let ghost all = ens(es@);
    let mut i: usize = 0;
    assert(trees_green(out@) =~= before + es_green(all, 0));
    while i < es.len()
        invariant
            i <= es.len(),
            all == ens(es@),
            trees_green(out@) == before + es_green(all, i as nat),
        decreases es.len() - i,
    {
        assert(decreases_to!(*es => es@[i as int]));
        push_entry(out, &es[i]);
        assert(es_green(all, (i + 1) as nat) == es_green(all, i as nat) + en_green(all[i as int]));
        assert(trees_green(out@) =~= before + es_green(all, (i + 1) as nat));
        i = i + 1;
    }
}

/// A document as a syntax tree.
pub fn json_tree(head: &Vec<Token>, value: &Json, tail: &Vec<Token>) -> (r: Tree<Sk>)
    ensures
        r is Node,
        tree_green(r) == document_green(jts(head@), value@, jts(tail@)),
{
    let mut out: Vec<Tree<Sk>> = Vec::new();
    push_toks(&mut out, head);
    out.push(value_tree(value));
    assert(trees_green(out@) =~= toks_green(jts(head@)) + seq![json_green(value@)]);
    push_toks(&mut out, tail);
    proof {
        node_green(Sk::Root, out);
    }
    Tree::Node(Sk::Root, out)
}

/// A run of tokens has their text.
proof fn toks_green_text(ts: Seq<Jt>)
    ensures
        all_text(toks_green(ts)) == toks_text(ts),
    decreases ts.len(),
{
    if ts.len() == 0 {
        assert(all_text(toks_green(ts)) =~= toks_text(ts));
    } else {
        let rest = ts.drop_last();
        toks_green_text(rest);
        let last = seq![token_green(ts.last())];
        assert(toks_green(ts) =~= toks_green(rest) + last);
        all_text_add(toks_green(rest), last);
        all_text_one(token_green(ts.last()));
        assert(token_texts(ts) =~= token_texts(rest).push(ts.last().text));
        flat_push(token_texts(rest), ts.last().text);
    }
}

/// A comma has its text.
proof fn comma_green_text(c: Option<Seq<Jt>>)
    ensures
        all_text(comma_green(c)) == comma_source(c),
{
    match c {
        Some(ts) => {
            toks_green_text(ts);
            all_text_one(Green::Token(Sk::Comma.code(), seq![',']));
            all_text_add(toks_green(ts), mark_green(Sk::Comma, ','));
        },
        None => {
            assert(all_text(comma_green(c)) =~= comma_source(c));
        },
    }
}

/// A key has its text.
proof fn key_green_text(k: Ky)
    ensures
        all_text(key_green(k)) == key_source(Some(k)),
{
    let p1 = seq![token_green(k.token)];
    let p3 = mark_green(Sk::Colon, ':');
    all_text_one(token_green(k.token));
    toks_green_text(k.gap);
    all_text_one(Green::Token(Sk::Colon.code(), seq![':']));
    toks_green_text(k.lead);
    all_text_add(p1, toks_green(k.gap));
    all_text_add(p1 + toks_green(k.gap), p3);
    all_text_add(p1 + toks_green(k.gap) + p3, toks_green(k.lead));
}

/// A container's brackets, trivia and entries have its text.
proof fn body_text(open: Green, p: Seq<Jt>, es: Seq<En>, close: Green)
    requires
        all_text(es_green(es, es.len())) == es_text(es, es.len()),
    ensures
        all_text(seq![open] + toks_green(p) + es_green(es, es.len()) + seq![close]) == green_text(
            open,
        ) + toks_text(p) + es_text(es, es.len()) + green_text(close),
{
    let body = es_green(es, es.len());
    all_text_one(open);
    all_text_one(close);
    toks_green_text(p);
    all_text_add(seq![open], toks_green(p));
    all_text_add(seq![open] + toks_green(p), body);
    all_text_add(seq![open] + toks_green(p) + body, seq![close]);
}

/// A value's tree has the value's text.
pub proof fn json_green_text(n: Js)
    ensures
        green_text(json_green(n)) == js_text(n),
    decreases n, 0int, 0int,
{
    let inner = (json_green(n)->Node_1)[0];
    all_text_one(inner);
    assert(json_green(n)->Node_1 =~= seq![inner]);
    match n {
        Js::Scalar(l) => {},
        Js::Object(p, es) => {
            es_green_text(es, es.len());
            body_text(
                Green::Token(Sk::LBrace.code(), seq!['{']),
                p,
                es,
                Green::Token(Sk::RBrace.code(), seq!['}']),
            );
        },
        Js::Array(p, es) => {
            es_green_text(es, es.len());
            body_text(
                Green::Token(Sk::LBracket.code(), seq!['[']),
                p,
                es,
                Green::Token(Sk::RBracket.code(), seq![']']),
            );
        },
    }
}

proof fn en_green_text(e: En)
    ensures
        all_text(en_green(e)) == en_text(e),
    decreases e, 0int, 0int,
{
    let value = json_green(e.value);
    json_green_text(e.value);
    all_text_one(value);
    comma_green_text(e.comma);
    toks_green_text(e.after);
    match e.key {
        Some(k) => {
            let parts = key_green(k) + seq![value] + comma_green(e.comma);
            key_green_text(k);
            all_text_add(key_green(k), seq![value]);
            all_text_add(key_green(k) + seq![value], comma_green(e.comma));
            all_text_one(Green::Node(Sk::Member.code(), parts));
            all_text_add(seq![Green::Node(Sk::Member.code(), parts)], toks_green(e.after));
        },
        None => {
            all_text_add(seq![value], comma_green(e.comma));
            all_text_add(seq![value] + comma_green(e.comma), toks_green(e.after));
            assert(key_source(e.key) + js_text(e.value) =~= js_text(e.value));
        },
    }
}

proof fn es_green_text(es: Seq<En>, n: nat)
    requires
        n <= es.len(),
    ensures
        all_text(es_green(es, n)) == es_text(es, n),
    decreases es, 1int, n,
{
    if n == 0 {
        assert(all_text(es_green(es, n)) =~= es_text(es, n));
    } else {
        es_green_text(es, (n - 1) as nat);
        en_green_text(es[n - 1]);
        all_text_add(es_green(es, (n - 1) as nat), en_green(es[n - 1]));
    }
}

/// The tree of a document has the document's text: every token is in it, in
/// order.
pub proof fn json_tree_is_lossless(head: Seq<Jt>, value: Js, tail: Seq<Jt>)
    ensures
        green_text(document_green(head, value, tail)) == toks_text(head) + js_text(value)
            + toks_text(tail),
{
    json_green_text(value);
    all_text_one(json_green(value));
    toks_green_text(head);
    toks_green_text(tail);
    all_text_add(toks_green(head), seq![json_green(value)]);
    all_text_add(toks_green(head) + seq![json_green(value)], toks_green(tail));
}

} // verus!
