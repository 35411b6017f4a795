//! JSONC and the uniform comment model: extract `//` and `/* */` comments out of
//! the tree (head / inline / foot), place them, and emit a commented value as
//! pretty JSONC.
//!
//! Attachment rules (uniform across formats): own-line comments belong to the
//! *next* entry (`head`); a comment on an entry's own line is its `inline`;
//! comments after a container's last entry are that entry's `foot` (or the
//! container's, when it is empty).
use crate::document::Document;
use crate::error::{fail, EditError, Er};
use crate::feature::Feature;
use crate::float::{negate_float, negated, Facts, Float, FloatFacts, Flt};
use crate::json_edit::{child, entries_of, js_at, opening, text_before};
use crate::json_lexer::{eol_at, jts, skip_line, Jt, Tok, Token};
use crate::json_nodes::{
    entry_name, key_text, literal_val, number_kind, read_number, NumKind, NumText,
};
use crate::json_tree::{
    comma_source, ens, es_text, group_json_views, js_text, key_source, toks_text, En, Entry, Js,
    Json,
};
use crate::jsonc::{jsonc_body, jsonc_read, jsonc_source, parse_body, Jsonc, JsoncDoc};
use crate::line_comment::{one_line, place_line_comment, placed, sanitize_comment_line, style_ok, LineComment, Style};
use crate::model::{
    cmt_members, cmts, group_comment_views, group_expr_views, group_value_views, no_notes, opt_text, steps_of, texts, Cmt,
    CmtNode, CommentKind, Commented, CommentedNode, Comments, Notes, St, Step, Val, Value,
};
use crate::mutate::done;
use crate::rows::take_texts;
use crate::strs::{chars_of, slice_text, trim, trimmed};
use crate::text::with_bom;
use crate::value::{json_string, json_text};
use vstd::prelude::*;

verus! {

broadcast use {group_value_views, group_expr_views, group_comment_views, group_json_views};

/// A line of a comment, without decoration: a leading `*` goes.
pub open spec fn plain_line(l: Seq<char>) -> Seq<char> {
    let t = trimmed(l);
    if t.len() > 0 && t[0] == '*' {
        trimmed(t.drop_first())
    } else {
        t
    }
}

/// The lines of a comment's text from `i` on; blank ones are dropped.
pub open spec fn plain_lines(s: Seq<char>, i: int) -> Seq<Seq<char>>
    decreases s.len() - i,
{
    let e = eol_at(s, i);
    let l = plain_line(s.subrange(i, e));
    let rest = if i <= e < s.len() {
        plain_lines(s, e + 1)
    } else {
        Seq::empty()
    };
    if l.len() == 0 {
        rest
    } else {
        seq![l] + rest
    }
}

/// A comment's text without its delimiters.
pub open spec fn undelimited(kind: Tok, t: Seq<char>) -> Seq<char> {
    if kind == Tok::LineComment {
        if t.len() >= 2 && t[0] == '/' && t[1] == '/' {
            t.skip(2)
        } else {
            t
        }
    } else if t.len() >= 4 && t[0] == '/' && t[1] == '*' && t[t.len() - 2] == '*' && t.last()
        == '/' {
        t.subrange(2, t.len() - 2)
    } else {
        t
    }
}

/// A comment token's text as delimiter-free trimmed lines.
pub open spec fn comment_lines(kind: Tok, t: Seq<char>) -> Seq<Seq<char>> {
    plain_lines(undelimited(kind, t), 0)
}

fn lines_of_comment(kind: Tok, text: &str) -> (r: Vec<String>)
    ensures
        texts(r@) == comment_lines(kind, text@),
{
    let all = chars_of(text);
    let n: usize = all.len();
    let inner = if kind == Tok::LineComment {
        if n >= 2 && all[0] == '/' && all[1] == '/' {
            assert(all@.subrange(2, n as int) =~= all@.skip(2));
            slice_text(&all, 2, n)
        } else {
            text.to_owned()
        }
    } else if n >= 4 && all[0] == '/' && all[1] == '*' && all[n - 2] == '*' && all[n - 1] == '/' {
        slice_text(&all, 2, n - 2)
    } else {
        text.to_owned()
    };
    let cs = chars_of(&inner);
    let mut out: Vec<String> = Vec::new();
    let mut i: usize = 0;
    assert(texts(out@) + plain_lines(cs@, 0) =~= plain_lines(cs@, 0));
    loop
        invariant
            i <= cs.len(),
            texts(out@) + plain_lines(cs@, i as int) == plain_lines(cs@, 0),
            cs@ == undelimited(kind, text@),
        decreases cs.len() - i,
    {
        let ghost held = texts(out@);
        let e: usize = skip_line(&cs, i);
        let t = trim(&slice_text(&cs, i, e));
        let ts = chars_of(&t);
        let l = if ts.len() > 0 && ts[0] == '*' {
            assert(ts@.subrange(1, ts.len() as int) =~= ts@.drop_first());
            trim(&slice_text(&ts, 1, ts.len()))
        } else {
            t
        };
        let ghost line = l@;
        if l.as_str().unicode_len() > 0 {
            out.push(l);
        }
        if e >= cs.len() {
            assert(texts(out@) =~= held + plain_lines(cs@, i as int));
            return out;
        }
        assert(texts(out@) + plain_lines(cs@, e + 1) =~= held + plain_lines(cs@, i as int));
        i = e + 1;
    }
}

/// Lines joined onto an inline comment, which is a single line by construction.
pub open spec fn inline_with(start: Seq<char>, lines: Seq<Seq<char>>, n: nat) -> Seq<char>
    decreases n,
{
    if n == 0 {
        start
    } else {
        let t = inline_with(start, lines, (n - 1) as nat);
        if t.len() == 0 {
            lines[n - 1]
        } else {
            t.push(' ') + lines[n - 1]
        }
    }
}

/// The comments of a node with lines added to its inline comment.
pub open spec fn with_inline_lines(n: Notes, lines: Seq<Seq<char>>) -> Notes {
    if lines.len() == 0 {
        n
    } else {
        let start = match n.inline {
            Some(t) => t,
            None => Seq::empty(),
        };
        Notes { inline: Some(inline_with(start, lines, lines.len())), ..n }
    }
}

fn append_inline(c: &mut Comments, lines: &Vec<String>)
    ensures
        final(c)@ == with_inline_lines(old(c)@, texts(lines@)),
{
    if lines.len() == 0 {
        return;
    }
    let ghost all = texts(lines@);
    let mut t = match &c.inline {
        Some(x) => x.clone(),
        None => String::new(),
    };
    let ghost start = t@;
    assert(start =~= (match c@.inline {
        Some(t) => t,
        None => Seq::empty(),
    }));
    let mut i: usize = 0;
    while i < lines.len()
        invariant
            i <= lines.len(),
            all == texts(lines@),
            t@ == inline_with(start, all, i as nat),
        decreases lines.len() - i,
    {
        assert(all[i as int] == lines@[i as int]@);
        let ghost was = t@;
        if t.as_str().unicode_len() > 0 {
            t.push(' ');
        }
        t.append(&lines[i]);
        assert(t@ =~= inline_with(start, all, (i + 1) as nat));
        i = i + 1;
    }
    c.inline = Some(t);
}

/// The state of a walk over a container: the entries so far, the comments waiting
/// for the next one, and whether the walk is still on the last entry's line.
pub struct Wk {
    pub out: Seq<(Seq<char>, Cmt)>,
    pub pending: Seq<Seq<char>>,
    pub same: bool,
}

/// Does the text hold a line feed?
pub open spec fn breaks_line(t: Seq<char>) -> bool {
    t.contains('\n')
}

/// The entries with lines added to the last one's inline comment.
pub open spec fn inline_on_last(out: Seq<(Seq<char>, Cmt)>, lines: Seq<Seq<char>>) -> Seq<
    (Seq<char>, Cmt),
> {
    let last = out.last();
    out.update(
        out.len() - 1,
        (last.0, Cmt { notes: with_inline_lines(last.1.notes, lines), ..last.1 }),
    )
}

/// The walk past a token.
pub open spec fn walk_token(w: Wk, t: Jt) -> Wk {
    if t.kind == Tok::Ws {
        Wk { same: w.same && !breaks_line(t.text), ..w }
    } else if t.kind == Tok::LineComment || t.kind == Tok::BlockComment {
        let lines = comment_lines(t.kind, t.text);
        let same = w.same && !breaks_line(t.text);
        if w.same && w.out.len() > 0 {
            Wk { out: inline_on_last(w.out, lines), pending: w.pending, same }
        } else {
            Wk { out: w.out, pending: w.pending + lines, same }
        }
    } else {
        w
    }
}

/// The walk past the first `n` tokens.
pub open spec fn walk_tokens(w: Wk, ts: Seq<Jt>, n: nat) -> Wk
    decreases n,
{
    if n == 0 {
        w
    } else {
        walk_token(walk_tokens(w, ts, (n - 1) as nat), ts[n - 1])
    }
}

/// The lines of the comments among the first `n` tokens.
pub open spec fn note_lines(ts: Seq<Jt>, n: nat) -> Seq<Seq<char>>
    decreases n,
{
    if n == 0 {
        Seq::empty()
    } else {
        let before = note_lines(ts, (n - 1) as nat);
        let t = ts[n - 1];
        if t.kind == Tok::LineComment || t.kind == Tok::BlockComment {
            before + comment_lines(t.kind, t.text)
        } else {
            before
        }
    }
}

/// The comments of a node with the comments among the first `n` tokens added to
/// its inline comment.
pub open spec fn with_inline_tokens(c: Notes, ts: Seq<Jt>, n: nat) -> Notes
    decreases n,
{
    if n == 0 {
        c
    } else {
        let before = with_inline_tokens(c, ts, (n - 1) as nat);
        let t = ts[n - 1];
        if t.kind == Tok::LineComment || t.kind == Tok::BlockComment {
            with_inline_lines(before, comment_lines(t.kind, t.text))
        } else {
            before
        }
    }
}

/// A container at the end of the walk: comments behind the last entry are its
/// foot; in an empty container they are the container's own.
pub open spec fn walked_out(w: Wk, object: bool) -> Cmt {
    let (out, foot) = if w.pending.len() == 0 {
        (w.out, Seq::<Seq<char>>::empty())
    } else if w.out.len() == 0 {
        (w.out, w.pending)
    } else {
        let last = w.out.last();
        (
            w.out.update(
                w.out.len() - 1,
                (
                    last.0,
                    Cmt {
                        notes: Notes { foot: last.1.notes.foot + w.pending, ..last.1.notes },
                        ..last.1
                    },
                ),
            ),
            Seq::<Seq<char>>::empty(),
        )
    };
    Cmt {
        notes: Notes { head: Seq::empty(), inline: None, foot },
        node: if object {
            CmtNode::Object(out)
        } else {
            CmtNode::Array(Seq::new(out.len(), |i: int| out[i].1))
        },
    }
}

/// A node with its comments; those around it belong to what holds it.
pub open spec fn js_commented(n: Js) -> Cmt
    decreases n, 0int, 0int,
{
    match n {
        Js::Scalar(l) => Cmt { notes: no_notes(), node: CmtNode::Scalar(literal_val(l)) },
        Js::Object(p, es) => walked_out(
            walk_entries(
                walk_tokens(
                    Wk { out: Seq::empty(), pending: Seq::empty(), same: true },
                    p,
                    p.len(),
                ),
                es,
                es.len(),
            ),
            true,
        ),
        Js::Array(p, es) => walked_out(
            walk_entries(
                walk_tokens(
                    Wk { out: Seq::empty(), pending: Seq::empty(), same: true },
                    p,
                    p.len(),
                ),
                es,
                es.len(),
            ),
            false,
        ),
    }
}

/// An entry with the comments inside it: those around its key are its head, for a
/// member those in front of its comma its inline comment.
pub open spec fn en_commented(e: En) -> Cmt
    decreases e, 0int, 0int,
{
    let c = js_commented(e.value);
    match e.key {
        None => c,
        Some(k) => {
            let headed = Notes {
                head: c.notes.head + note_lines(k.gap, k.gap.len()) + note_lines(
                    k.lead,
                    k.lead.len(),
                ),
                ..c.notes
            };
            Cmt {
                notes: match e.comma {
                    Some(ts) => with_inline_tokens(headed, ts, ts.len()),
                    None => headed,
                },
                ..c
            }
        },
    }
}

/// The walk past the first `n` entries.
pub open spec fn walk_entries(w: Wk, es: Seq<En>, n: nat) -> Wk
    decreases es, 1int, n,
{
    if n == 0 || n > es.len() {
        w
    } else {
        let v = walk_entries(w, es, (n - 1) as nat);
        let e = es[n - 1];
        let c = en_commented(e);
        let with = Cmt { notes: Notes { head: v.pending + c.notes.head, ..c.notes }, ..c };
        let now = Wk {
            out: v.out.push((entry_name(e), with)),
            pending: Seq::empty(),
            same: true,
        };
        let between = match (e.key, e.comma) {
            (None, Some(ts)) => walk_tokens(now, ts, ts.len()),
            _ => now,
        };
        walk_tokens(between, e.after, e.after.len())
    }
}

/// The state of a walk over a container.
struct Walker {
    entries: Vec<(String, Commented)>,
    pending: Vec<String>,
    same: bool,
}

impl View for Walker {
    type V = Wk;

    closed spec fn view(&self) -> Wk {
        Wk { out: cmt_members(self.entries@), pending: texts(self.pending@), same: self.same }
    }
}

fn has_line_feed(s: &str) -> (r: bool)
    ensures
        r == breaks_line(s@),
{
    crate::json_spell::has_line_break(&chars_of(s))
}

impl Walker {
    fn token(&mut self, t: &Token)
        ensures
            final(self)@ == walk_token(old(self)@, t@),
    {
        let ghost w = self@;
        if t.kind == Tok::Ws {
            if has_line_feed(&t.text) {
                self.same = false;
            }
        } else if t.kind == Tok::LineComment || t.kind == Tok::BlockComment {
            let lines = lines_of_comment(t.kind, &t.text);
            let n: usize = self.entries.len();
            if self.same && n > 0 {
                assert(w.out.last() == (self.entries@[n - 1].0@, self.entries@[n - 1].1@));
                append_inline(&mut self.entries[n - 1].1.comments, &lines);
                assert(cmt_members(self.entries@) =~= inline_on_last(w.out, texts(lines@)));
            } else {
                crate::comment::extend_texts(&mut self.pending, &lines);
            }
            if has_line_feed(&t.text) {
                self.same = false;
            }
        }
    }

    fn tokens(&mut self, ts: &Vec<Token>)
        ensures
            final(self)@ == walk_tokens(old(self)@, jts(ts@), jts(ts@).len()),
    {
        let ghost w = self@;
        let ghost all = jts(ts@);
        let mut i: usize = 0;
        while i < ts.len()
            invariant
                i <= ts.len(),
                all == jts(ts@),
                self@ == walk_tokens(w, all, i as nat),
            decreases ts.len() - i,
        {
            assert(all[i as int] == ts@[i as int]@);
            self.token(&ts[i]);
            i = i + 1;
        }
    }
}

fn lines_of_notes(ts: &Vec<Token>) -> (r: Vec<String>)
    ensures
        texts(r@) == note_lines(jts(ts@), jts(ts@).len()),
{
    let ghost all = jts(ts@);
    let mut out: Vec<String> = Vec::new();
    assert(texts(out@) =~= Seq::<Seq<char>>::empty());
    let mut i: usize = 0;
    while i < ts.len()
        invariant
            i <= ts.len(),
            all == jts(ts@),
            texts(out@) == note_lines(all, i as nat),
        decreases ts.len() - i,
    {
        assert(all[i as int] == ts@[i as int]@);
        if ts[i].kind == Tok::LineComment || ts[i].kind == Tok::BlockComment {
            let lines = lines_of_comment(ts[i].kind, &ts[i].text);
            crate::comment::extend_texts(&mut out, &lines);
        }
        i = i + 1;
    }
    out
}

fn inline_tokens(c: &mut Comments, ts: &Vec<Token>)
    ensures
        final(c)@ == with_inline_tokens(old(c)@, jts(ts@), jts(ts@).len()),
{
    let ghost all = jts(ts@);
    let ghost start = c@;
    let mut i: usize = 0;
    while i < ts.len()
        invariant
            i <= ts.len(),
            all == jts(ts@),
            c@ == with_inline_tokens(start, all, i as nat),
        decreases ts.len() - i,
    {
        assert(all[i as int] == ts@[i as int]@);
        if ts[i].kind == Tok::LineComment || ts[i].kind == Tok::BlockComment {
            let lines = lines_of_comment(ts[i].kind, &ts[i].text);
            append_inline(c, &lines);
        }
        i = i + 1;
    }
}

fn finish(w: Walker, object: bool) -> (r: Commented)
    ensures
        r@ == walked_out(w@, object),
{
    let mut w = w;
    let ghost s = w@;
    let mut comments = Comments::none();
    if w.pending.len() > 0 {
        let n: usize = w.entries.len();
        if n > 0 {
            assert(s.out.last() == (w.entries@[n - 1].0@, w.entries@[n - 1].1@));
            crate::comment::extend_texts(&mut w.entries[n - 1].1.comments.foot, &w.pending);
            assert(cmt_members(w.entries@) =~= s.out.update(
                s.out.len() - 1,
                (
                    s.out.last().0,
                    Cmt {
                        notes: Notes {
                            foot: s.out.last().1.notes.foot + s.pending,
                            ..s.out.last().1.notes
                        },
                        ..s.out.last().1
                    },
                ),
            ));
        } else {
            comments.foot = w.pending;
        }
    }
    let ghost out = cmt_members(w.entries@);
    if object {
        return Commented { comments, node: CommentedNode::Object(w.entries) };
    }
    let mut items: Vec<Commented> = Vec::new();
    let mut entries = w.entries;
    let n: usize = entries.len();
    let ghost want = Seq::new(out.len(), |i: int| out[i].1);
    assert(cmts(items@) =~= want.take(0));
    assert(out.skip(0) =~= out);
    while entries.len() > 0
        invariant
            items.len() + entries.len() == n,
            n == out.len(),
            want == Seq::new(out.len(), |i: int| out[i].1),
            cmts(items@) == want.take(items.len() as int),
            cmt_members(entries@) == out.skip(items.len() as int),
        decreases entries.len(),
    {
        let ghost k = items.len() as int;
        assert(cmt_members(entries@)[0] == (entries@[0].0@, entries@[0].1@));
        let ghost was = cmt_members(entries@);
        let (_, c) = entries.remove(0);
        assert(cmt_members(entries@) =~= was.drop_first());
        assert(out.skip(k).drop_first() =~= out.skip(k + 1));
        assert(out.skip(k)[0] == out[k]);
        items.push(c);
        assert(cmts(items@) =~= want.take(k + 1));
    }
    assert(want.take(items.len() as int) =~= want);
    Commented { comments, node: CommentedNode::Array(items) }
}

impl Json {
    /// The node with its comments.
    pub fn commented(&self) -> (r: Commented)
        ensures
            r@ == js_commented(self@),
        decreases self,
    {
        match self {
            Json::Scalar(_) => Commented {
                comments: Comments::none(),
                node: CommentedNode::Scalar(self.project()),
            },
            Json::Object(p, es) => {
                let w = walk_container(p, es);
                finish(w, true)
            },
            Json::Array(p, es) => {
                let w = walk_container(p, es);
                finish(w, false)
            },
        }
    }
}

#[verifier::loop_isolation(false)]
fn walk_container(p: &Vec<Token>, es: &Vec<Entry>) -> (r: Walker)
    ensures
        r@ == walk_entries(
            walk_tokens(
                Wk { out: Seq::empty(), pending: Seq::empty(), same: true },
                jts(p@),
                jts(p@).len(),
            ),
            ens(es@),
            ens(es@).len(),
        ),
    decreases es,
{
    let mut w = Walker { entries: Vec::new(), pending: Vec::new(), same: true };
    assert(cmt_members(w.entries@) =~= Seq::<(Seq<char>, Cmt)>::empty());
    assert(texts(w.pending@) =~= Seq::<Seq<char>>::empty());
    w.tokens(p);
    let ghost start = w@;
    let ghost all = ens(es@);
    let mut i: usize = 0;
    while i < es.len()
        invariant
            i <= es.len(),
            w@ == walk_entries(start, all, i as nat),
        decreases es.len() - i,
    {
        let e = &es[i];
        assert(all[i as int] == e@);
        let ghost v = w@;
        let mut c = e.commented();
        let ghost c0 = c@;
        let mut head = take_texts(&mut w.pending);
        crate::comment::extend_texts(&mut head, &c.comments.head);
        c.comments.head = head;
        let name = match &e.key {
            Some(k) => key_text(&k.token),
            None => String::new(),
        };
        assert(name@ =~= entry_name(all[i as int]));
        let ghost held = cmt_members(w.entries@);
        let ghost one = (name@, c@);
        w.entries.push((name, c));
        assert(cmt_members(w.entries@) =~= held.push(one));
        w.same = true;
        if e.key.is_none() {
            if let Some(ts) = &e.comma {
                w.tokens(ts);
            }
        }
        w.tokens(&e.after);
        i = i + 1;
    }
    w
}

impl Entry {
    /// The entry's value with the comments inside the entry.
    pub fn commented(&self) -> (r: Commented)
        ensures
            r@ == en_commented(self@),
        decreases self,
    {
        let mut c = self.value.commented();
        if let Some(k) = &self.key {
            crate::comment::extend_texts(&mut c.comments.head, &lines_of_notes(&k.gap));
            crate::comment::extend_texts(&mut c.comments.head, &lines_of_notes(&k.lead));
            if let Some(ts) = &self.comma {
                inline_tokens(&mut c.comments, ts);
            }
        }
        c
    }
}

/// The document with its comments: those in front of the value are its head, one
/// on its last line its inline comment, those behind it its foot.
pub open spec fn jsonc_commented(d: JsoncDoc) -> Cmt {
    let c = js_commented(d.value);
    let headed = Notes { head: note_lines(d.head, d.head.len()) + c.notes.head, ..c.notes };
    Cmt { notes: tail_notes(headed, d.tail, d.tail.len()).0, ..c }
}

/// The comments of a document with those among the first `n` tokens behind its
/// value, and whether that is still the value's line.
pub open spec fn tail_notes(c: Notes, ts: Seq<Jt>, n: nat) -> (Notes, bool)
    decreases n,
{
    if n == 0 {
        (c, true)
    } else {
        let (now, same) = tail_notes(c, ts, (n - 1) as nat);
        let t = ts[n - 1];
        if t.kind == Tok::Ws {
            (now, same && !breaks_line(t.text))
        } else if t.kind == Tok::LineComment || t.kind == Tok::BlockComment {
            let lines = comment_lines(t.kind, t.text);
            (
                if same {
                    with_inline_lines(now, lines)
                } else {
                    Notes { foot: now.foot + lines, ..now }
                },
                same && !breaks_line(t.text),
            )
        } else {
            (now, same)
        }
    }
}

fn trail(c: &mut Comments, ts: &Vec<Token>)
    ensures
        final(c)@ == tail_notes(old(c)@, jts(ts@), jts(ts@).len()).0,
{
    let ghost all = jts(ts@);
    let ghost start = c@;
    let mut same = true;
    let mut i: usize = 0;
    while i < ts.len()
        invariant
            i <= ts.len(),
            all == jts(ts@),
            (c@, same) == tail_notes(start, all, i as nat),
        decreases ts.len() - i,
    {
        assert(all[i as int] == ts@[i as int]@);
        let t = &ts[i];
        if t.kind == Tok::LineComment || t.kind == Tok::BlockComment {
            let lines = lines_of_comment(t.kind, &t.text);
            if same {
                append_inline(c, &lines);
            } else {
                crate::comment::extend_texts(&mut c.foot, &lines);
            }
            if has_line_feed(&t.text) {
                same = false;
            }
        } else if t.kind == Tok::Ws && has_line_feed(&t.text) {
            same = false;
        }
        i = i + 1;
    }
}

/// Is there a comment in the node?
pub open spec fn js_annotated(n: Js) -> bool
    decreases n, 0int, 0int,
{
    match n {
        Js::Scalar(_) => false,
        Js::Object(p, es) => crate::json_edit::has_note(p) || es_annotated(es, es.len()),
        Js::Array(p, es) => crate::json_edit::has_note(p) || es_annotated(es, es.len()),
    }
}

/// Is there a comment in the entry?
pub open spec fn en_annotated(e: En) -> bool
    decreases e, 0int, 0int,
{
    (match e.key {
        Some(k) => crate::json_edit::has_note(k.gap) || crate::json_edit::has_note(k.lead),
        None => false,
    }) || js_annotated(e.value) || (match e.comma {
        Some(c) => crate::json_edit::has_note(c),
        None => false,
    }) || crate::json_edit::has_note(e.after)
}

pub open spec fn es_annotated(es: Seq<En>, n: nat) -> bool
    decreases es, 1int, n,
{
    n > 0 && n <= es.len() && (es_annotated(es, (n - 1) as nat) || en_annotated(es[n - 1]))
}

/// Whether the document has comments.
pub open spec fn jsonc_annotated(d: JsoncDoc) -> bool {
    crate::json_edit::has_note(d.head) || js_annotated(d.value) || crate::json_edit::has_note(
        d.tail,
    )
}

#[verifier::loop_isolation(false)]
fn entries_annotated(es: &Vec<Entry>) -> (r: bool)
    ensures
        r == es_annotated(ens(es@), ens(es@).len()),
    decreases es,
{
    let ghost all = ens(es@);
    let mut found = false;
    let mut i: usize = 0;
    while i < es.len()
        invariant
            i <= es.len(),
            found == es_annotated(all, i as nat),
        decreases es.len() - i,
    {
        assert(all[i as int] == es@[i as int]@);
        if es[i].annotated() {
            found = true;
        }
        i = i + 1;
    }
    found
}

impl Json {
    fn annotated(&self) -> (r: bool)
        ensures
            r == js_annotated(self@),
        decreases self,
    {
        match self {
            Json::Scalar(_) => false,
            Json::Object(p, es) => crate::json_edit::any_note(p) || entries_annotated(es),
            Json::Array(p, es) => crate::json_edit::any_note(p) || entries_annotated(es),
        }
    }
}

impl Entry {
    fn annotated(&self) -> (r: bool)
        ensures
            r == en_annotated(self@),
        decreases self,
    {
        let key = match &self.key {
            Some(k) => crate::json_edit::any_note(&k.gap) || crate::json_edit::any_note(&k.lead),
            None => false,
        };
        let comma = match &self.comma {
            Some(c) => crate::json_edit::any_note(c),
            None => false,
        };
        let value = self.value.annotated();
        let after = crate::json_edit::any_note(&self.after);
        key || value || comma || after
    }
}

impl Jsonc {
    /// The document with its comments.
    pub fn to_commented(&self) -> (r: Option<Commented>)
        ensures
            r is Some,
            r->0@ == jsonc_commented(self.content()),
    {
        let mut c = self.value.commented();
        let mut head = lines_of_notes(&self.head);
        crate::comment::extend_texts(&mut head, &c.comments.head);
        c.comments.head = head;
        trail(&mut c.comments, &self.tail);
        Some(c)
    }

    /// Whether the document has comments.
    pub fn has_comments(&self) -> (r: bool)
        ensures
            r == jsonc_annotated(self.content()),
    {
        crate::json_edit::any_note(&self.head) || self.value.annotated()
            || crate::json_edit::any_note(&self.tail)
    }
}

/// The doubles that the numbers of a node are known to denote.
pub open spec fn js_facts(n: Js) -> Seq<(Seq<char>, Option<Flt>)>
    decreases n, 0int, 0int,
{
    match n {
        Js::Scalar(l) => match (l.token.kind, l.num, number_kind(l.token.text)) {
            (Tok::Num, Some(Val::Float(f)), NumKind::Lookup(neg, d)) => seq![
                (
                    d,
                    Some(
                        if neg {
                            negated(f)
                        } else {
                            f
                        },
                    ),
                ),
            ],
            _ => Seq::empty(),
        },
        Js::Object(_, es) => es_facts(es, es.len()),
        Js::Array(_, es) => es_facts(es, es.len()),
    }
}

pub open spec fn en_facts(e: En) -> Seq<(Seq<char>, Option<Flt>)>
    decreases e, 0int, 0int,
{
    js_facts(e.value)
}

pub open spec fn es_facts(es: Seq<En>, n: nat) -> Seq<(Seq<char>, Option<Flt>)>
    decreases es, 1int, n,
{
    if n == 0 || n > es.len() {
        Seq::empty()
    } else {
        es_facts(es, (n - 1) as nat) + en_facts(es[n - 1])
    }
}

/// The view of a table of parsed numbers.
spec fn parsed_view(s: Seq<(String, Option<Float>)>) -> Seq<(Seq<char>, Option<Flt>)> {
    Seq::new(s.len(), |i: int| (s[i].0@, crate::float::opt_flt(s[i].1)))
}

#[verifier::loop_isolation(false)]
fn collect_entries(es: &Vec<Entry>, out: &mut Vec<(String, Option<Float>)>)
    ensures
        parsed_view(final(out)@) == parsed_view(old(out)@) + es_facts(ens(es@), ens(es@).len()),
    decreases es,
{
    let ghost start = parsed_view(out@);
    let ghost all = ens(es@);
    let mut i: usize = 0;
    assert(parsed_view(out@) =~= start + es_facts(all, 0));
    while i < es.len()
        invariant
            i <= es.len(),
            parsed_view(out@) == start + es_facts(all, i as nat),
        decreases es.len() - i,
    {
        assert(all[i as int] == es@[i as int]@);
        es[i].collect(out);
        assert(parsed_view(out@) =~= start + es_facts(all, (i + 1) as nat));
        i = i + 1;
    }
}

impl Entry {
    fn collect(&self, out: &mut Vec<(String, Option<Float>)>)
        ensures
            parsed_view(final(out)@) == parsed_view(old(out)@) + en_facts(self@),
        decreases self,
    {
        self.value.collect(out);
    }
}

impl Json {
    fn collect(&self, out: &mut Vec<(String, Option<Float>)>)
        ensures
            parsed_view(final(out)@) == parsed_view(old(out)@) + js_facts(self@),
        decreases self,
    {
        let ghost start = parsed_view(out@);
        match self {
            Json::Scalar(l) => {
                if l.token.kind == Tok::Num {
                    if let Some(Value::Float(f)) = &l.num {
                        if let NumText::Lookup(neg, d) = read_number(&l.token.text) {
                            let g = if neg {
                                negate_float(f)
                            } else {
                                f.clone()
                            };
                            let ghost one = (d@, Some(g@));
                            out.push((d, Some(g)));
                            assert(parsed_view(out@) =~= start.push(one));
                        }
                    }
                }
                assert(parsed_view(out@) =~= start + js_facts(self@));
            },
            Json::Object(_, es) => {
                collect_entries(es, out);
            },
            Json::Array(_, es) => {
                collect_entries(es, out);
            },
        }
    }
}

/// The doubles that a document's numbers are known to denote.
pub open spec fn jsonc_facts(d: JsoncDoc) -> Facts {
    Facts { parsed: js_facts(d.value), computed: Seq::empty() }
}

/// Where a comment goes: the range of an entry in the document's text, and the
/// trivia behind it.
pub struct Site {
    pub start: int,
    pub end: int,
    pub after: Seq<Jt>,
}

/// The site of entry `i` of the container at a path.
pub open spec fn site_of(d: JsoncDoc, parent: Seq<St>, n: Js, i: int) -> Site {
    let es = entries_of(n);
    let start = (toks_text(d.head) + text_before(d.value, parent) + opening(n) + es_text(
        es,
        i as nat,
    )).len() as int;
    Site {
        start,
        end: start + (key_source(es[i].key) + js_text(es[i].value) + comma_source(
            es[i].comma,
        )).len(),
        after: es[i].after,
    }
}

/// The site a comment path addresses.
pub open spec fn jsonc_site(d: JsoncDoc, path: Seq<St>) -> Result<Site, Er> {
    if path.len() == 0 {
        Err(fail("document-level (`.#`) comment editing for JSONC is a follow-up"@))
    } else {
        let parent = path.drop_last();
        match js_at(d.value, parent) {
            None => Err(fail("path not found"@)),
            Some(n) => match path.last() {
                St::Field(key) => if !(n is Object) {
                    Err(fail("comment target is not an object member"@))
                } else {
                    match child(n, path.last()) {
                        Some(i) => Ok(site_of(d, parent, n, i)),
                        None => Err(fail("no key `"@ + key + "`"@)),
                    }
                },
                St::Index(_) => if !(n is Array) {
                    Err(fail("comment target is not an array element"@))
                } else {
                    match child(n, path.last()) {
                        Some(i) => Ok(site_of(d, parent, n, i)),
                        None => Err(fail("array index out of range"@)),
                    }
                },
                _ => Err(fail("comment paths address object keys or array elements"@)),
            },
        }
    }
}

/// How comments are spelled.
pub open spec fn jsonc_style() -> Style {
    Style { marks: seq!["//"@, "/*"@], delim: "// "@ }
}

fn style() -> (r: LineComment)
    ensures
        r@ == jsonc_style(),
        style_ok(r@),
{
    proof {
        reveal_strlit("//");
        reveal_strlit("/*");
    }
    let r = LineComment { markers: &["//", "/*"], delim: "// " };
    assert(r@.marks =~= jsonc_style().marks);
    r
}

/// Only spaces and tabs.
pub open spec fn all_blank(s: Seq<char>) -> bool {
    forall|i: int| 0 <= i < s.len() ==> (#[trigger] s[i]) == ' ' || s[i] == '\t'
}

/// Is there a bracket in the text?
pub open spec fn bracketed(s: Seq<char>) -> bool {
    exists|i: int|
        0 <= i < s.len() && ((#[trigger] s[i]) == '}' || s[i] == ']' || s[i] == '{' || s[i] == '[')
}

/// The text with the inline comment of a single-line entry set or cleared. It
/// stands behind the entry's comma, and the rest of its line must be its own.
pub open spec fn inline_noted(s: Seq<char>, site: Site, text: Option<Seq<char>>) -> Result<
    Seq<char>,
    Er,
> {
    let nl = eol_at(s, site.end);
    if breaks_line(s.subrange(site.start, site.end)) {
        Err(fail("an inline comment on a multi-line value isn't supported yet (a follow-up)"@))
    } else if bracketed(s.subrange(site.end, nl)) || !breaks_line(toks_text(site.after)) {
        Err(fail("adding an inline comment here needs layout expansion (a follow-up)"@))
    } else {
        let keep = if nl > site.end && s[nl - 1] == '\r' {
            nl - 1
        } else {
            nl
        };
        Ok(
            s.take(site.end) + (match text {
                Some(t) => " // "@ + one_line(t),
                None => Seq::empty(),
            }) + s.skip(keep),
        )
    }
}

/// The text with the comment of `kind` at a site set or cleared. An own-line
/// comment needs a line that the entry starts.
pub open spec fn site_noted(s: Seq<char>, site: Site, kind: CommentKind, text: Option<Seq<char>>) -> Result<
    Seq<char>,
    Er,
> {
    if kind == CommentKind::Inline {
        inline_noted(s, site, text)
    } else {
        let indent = s.subrange(crate::json_spell::last_line(s, site.start), site.start);
        if !all_blank(indent) {
            match text {
                Some(_) => Err(
                    fail(
                        "adding a comment to a compact object needs layout expansion (a follow-up)"@,
                    ),
                ),
                None => Ok(s),
            }
        } else {
            Ok(
                placed(
                    s,
                    crate::jsonc::breaks_before(s, site.start) as int,
                    kind == CommentKind::Head,
                    indent,
                    jsonc_style(),
                    text,
                ),
            )
        }
    }
}

/// The document with another text.
pub open spec fn retexted(d: JsoncDoc, s: Seq<char>) -> Result<JsoncDoc, Er> {
    match jsonc_read(d.bom, s, jsonc_facts(d)) {
        Ok(x) => Ok(JsoncDoc { json5: d.json5, ..x }),
        Err(f) => Err(fail("the comment would break the document: "@ + f.msg)),
    }
}

/// The document with a comment written.
pub open spec fn jsonc_noted(d: JsoncDoc, path: Seq<St>, kind: CommentKind, text: Seq<char>) -> Result<
    (JsoncDoc, Seq<Seq<char>>),
    Er,
> {
    match jsonc_site(d, path) {
        Err(e) => Err(e),
        Ok(site) => match site_noted(jsonc_body(d), site, kind, Some(text)) {
            Err(e) => Err(e),
            Ok(s) => match retexted(d, s) {
                Err(e) => Err(e),
                Ok(x) => Ok((x, Seq::empty())),
            },
        },
    }
}

/// The document with a comment removed; a target that is not there has none.
pub open spec fn jsonc_unnoted(d: JsoncDoc, path: Seq<St>, kind: CommentKind) -> Result<JsoncDoc, Er> {
    match jsonc_site(d, path) {
        Err(_) => Ok(d),
        Ok(site) => match site_noted(jsonc_body(d), site, kind, None) {
            Err(e) => Err(e),
            Ok(s) => retexted(d, s),
        },
    }
}

impl Json {
    /// Write the text in front of the node at a path, and find that node.
    fn write_before(&self, path: &Vec<Step>, out: &mut String) -> (r: Option<&Json>)
        ensures
            match js_at(self@, steps_of(path@)) {
                Some(n) => r is Some && r->0@ == n && final(out)@ == old(out)@ + text_before(
                    self@,
                    steps_of(path@),
                ),
                None => r is None,
            },
    {
        let ghost all = steps_of(path@);
        let ghost start = out@;
        let mut cur: &Json = self;
        let mut i: usize = 0;
        assert(all.skip(0) =~= all);
        while i < path.len()
            invariant
                i <= path.len(),
                all == steps_of(path@),
                js_at(self@, all) == js_at(cur@, all.skip(i as int)),
                js_at(self@, all) is Some ==> out@ + text_before(cur@, all.skip(i as int)) == start
                    + text_before(self@, all),
            decreases path.len() - i,
        {
            let ghost n = cur@;
            let ghost held = out@;
            assert(all[i as int] == path@[i as int]@);
            assert(all.skip(i as int).drop_first() =~= all.skip(i + 1));
            assert(all.skip(i as int)[0] == all[i as int]);
            match cur.step(&path[i]) {
                None => {
                    return None;
                },
                Some(k) => {
                    cur = match cur.enter(k, out) {
                        None => {
                            return None;
                        },
                        Some(v) => v,
                    };
                    assert(out@ + text_before(cur@, all.skip(i + 1)) =~= held + text_before(
                        n,
                        all.skip(i as int),
                    ));
                },
            }
            i = i + 1;
        }
        assert(out@ + text_before(cur@, all.skip(i as int)) =~= out@);
        Some(cur)
    }

    /// Write a container's text up to the value of entry `i`, and give that value.
    fn enter(&self, i: usize, out: &mut String) -> (r: Option<&Json>)
        requires
            i < entries_of(self@).len(),
        ensures
            r is Some,
            r->0@ == entries_of(self@)[i as int].value,
            final(out)@ == old(out)@ + (opening(self@) + es_text(entries_of(self@), i as nat)
                + key_source(entries_of(self@)[i as int].key)),
    {
        let ghost start = out@;
        match self {
            Json::Scalar(_) => None,
            Json::Object(p, es) => {
                out.push('{');
                crate::json_nodes::write_tokens(out, p);
                write_front(es, i, out);
                assert(out@ =~= start + (opening(self@) + es_text(ens(es@), i as nat) + key_source(
                    ens(es@)[i as int].key,
                )));
                assert(ens(es@)[i as int] == es@[i as int]@);
                Some(&es[i].value)
            },
            Json::Array(p, es) => {
                out.push('[');
                crate::json_nodes::write_tokens(out, p);
                write_front(es, i, out);
                assert(out@ =~= start + (opening(self@) + es_text(ens(es@), i as nat) + key_source(
                    ens(es@)[i as int].key,
                )));
                assert(ens(es@)[i as int] == es@[i as int]@);
                Some(&es[i].value)
            },
        }
    }

    /// The lengths of a container's text up to entry `i` and of that entry without
    /// the trivia behind it, and whether that trivia breaks the line.
    fn measure(&self, i: usize, before: &String) -> (r: (usize, usize, bool))
        requires
            i < entries_of(self@).len(),
        ensures
            ({
                let e = entries_of(self@)[i as int];
                let from = (before@ + opening(self@) + es_text(
                    entries_of(self@),
                    i as nat,
                )).len();
                &&& r.0 == from
                &&& r.1 == from + (key_source(e.key) + js_text(e.value) + comma_source(
                    e.comma,
                )).len()
                &&& r.2 == breaks_line(toks_text(e.after))
            }),
    {
        let mut out = before.clone();
        let ghost start = out@;
        match self {
            Json::Scalar(_) => (0, 0, false),
            Json::Object(p, es) => {
                out.push('{');
                crate::json_nodes::write_tokens(&mut out, p);
                write_whole(es, i, &mut out);
                assert(out@ =~= start + opening(self@) + es_text(ens(es@), i as nat));
                let from: usize = out.as_str().unicode_len();
                let (to, b) = measure_entry(&es[i], out);
                assert(ens(es@)[i as int] == es@[i as int]@);
                (from, to, b)
            },
            Json::Array(p, es) => {
                out.push('[');
                crate::json_nodes::write_tokens(&mut out, p);
                write_whole(es, i, &mut out);
                assert(out@ =~= start + opening(self@) + es_text(ens(es@), i as nat));
                let from: usize = out.as_str().unicode_len();
                let (to, b) = measure_entry(&es[i], out);
                assert(ens(es@)[i as int] == es@[i as int]@);
                (from, to, b)
            },
        }
    }
}

fn write_whole(es: &Vec<Entry>, n: usize, out: &mut String)
    requires
        n <= es.len(),
    ensures
        final(out)@ == old(out)@ + es_text(ens(es@), n as nat),
{
    let ghost all = ens(es@);
    let ghost start = out@;
    let mut i: usize = 0;
    assert(out@ =~= start + es_text(all, 0));
    while i < n
        invariant
            i <= n <= es.len(),
            all == ens(es@),
            out@ == start + es_text(all, i as nat),
        decreases n - i,
    {
        assert(all[i as int] == es@[i as int]@);
        es[i].write(out);
        assert(out@ =~= start + es_text(all, (i + 1) as nat));
        i = i + 1;
    }
}

fn write_front(es: &Vec<Entry>, n: usize, out: &mut String)
    requires
        n < es.len(),
    ensures
        final(out)@ == old(out)@ + (es_text(ens(es@), n as nat) + key_source(
            ens(es@)[n as int].key,
        )),
{
    let ghost start = out@;
    write_whole(es, n, out);
    assert(ens(es@)[n as int] == es@[n as int]@);
    if let Some(k) = &es[n].key {
        out.append(&k.token.text);
        crate::json_nodes::write_tokens(out, &k.gap);
        out.push(':');
        crate::json_nodes::write_tokens(out, &k.lead);
    }
    assert(out@ =~= start + (es_text(ens(es@), n as nat) + key_source(ens(es@)[n as int].key)));
}

fn measure_entry(e: &Entry, before: String) -> (r: (usize, bool))
    ensures
        r.0 == before@.len() + (key_source(e@.key) + js_text(e@.value) + comma_source(
            e@.comma,
        )).len(),
        r.1 == breaks_line(toks_text(e@.after)),
{
    let mut out = before;
    let ghost start = out@;
    if let Some(k) = &e.key {
        out.append(&k.token.text);
        crate::json_nodes::write_tokens(&mut out, &k.gap);
        out.push(':');
        crate::json_nodes::write_tokens(&mut out, &k.lead);
    }
    assert(out@ =~= start + key_source(e@.key));
    e.value.write(&mut out);
    if let Some(c) = &e.comma {
        crate::json_nodes::write_tokens(&mut out, c);
        out.push(',');
    }
    assert(out@ =~= start + (key_source(e@.key) + js_text(e@.value) + comma_source(e@.comma)));
    let to: usize = out.as_str().unicode_len();
    let mut tail = String::new();
    crate::json_nodes::write_tokens(&mut tail, &e.after);
    assert(tail@ =~= toks_text(e@.after));
    (to, has_line_feed(&tail))
}

/// A site: where an entry starts and ends, and whether the line breaks behind it.
struct Place {
    start: usize,
    end: usize,
    breaks: bool,
}

/// Does a place stand for a site?
spec fn placed_at(p: Place, s: Site) -> bool {
    p.start == s.start && p.end == s.end && p.breaks == breaks_line(toks_text(s.after))
}

fn first_steps(path: &Vec<Step>, n: usize) -> (r: Vec<Step>)
    requires
        n <= path.len(),
    ensures
        steps_of(r@) == steps_of(path@).take(n as int),
{
    let ghost all = steps_of(path@);
    let mut out: Vec<Step> = Vec::new();
    assert(steps_of(out@) =~= all.take(0));
    let mut i: usize = 0;
    while i < n
        invariant
            i <= n <= path.len(),
            all == steps_of(path@),
            steps_of(out@) == all.take(i as int),
        decreases n - i,
    {
        out.push(path[i].clone());
        assert(steps_of(out@) =~= all.take(i + 1));
        i = i + 1;
    }
    out
}

impl Jsonc {
    fn resolve_target(&self, path: &Vec<Step>) -> (r: Result<Place, EditError>)
        ensures
            match r {
                Ok(p) => jsonc_site(self.content(), steps_of(path@)) is Ok && placed_at(
                    p,
                    jsonc_site(self.content(), steps_of(path@))->Ok_0,
                ),
                Err(e) => jsonc_site(self.content(), steps_of(path@)) == Err::<Site, Er>(e@),
            },
    {
        let ghost all = steps_of(path@);
        let n: usize = path.len();
        if n == 0 {
            return Err(
                EditError::new("document-level (`.#`) comment editing for JSONC is a follow-up"),
            );
        }
        let parent = first_steps(path, n - 1);
        assert(all.take(n - 1) =~= all.drop_last());
        assert(all.last() == path@[n - 1]@);
        let mut front = String::new();
        crate::json_nodes::write_tokens(&mut front, &self.head);
        let container = match self.value.write_before(&parent, &mut front) {
            None => {
                return Err(EditError::new("path not found"));
            },
            Some(c) => c,
        };
        assert(front@ =~= toks_text(self.content().head) + text_before(
            self.content().value,
            all.drop_last(),
        ));
        match &path[n - 1] {
            Step::Field(key) => {
                if !matches!(container, Json::Object(_, _)) {
                    return Err(EditError::new("comment target is not an object member"));
                }
                match container.step(&path[n - 1]) {
                    None => {
                        let mut m = "no key `".to_owned();
                        m.append(key);
                        m.append("`");
                        Err(EditError::of(m))
                    },
                    Some(i) => {
                        let (start, end, breaks) = container.measure(i, &front);
                        Ok(Place { start, end, breaks })
                    },
                }
            },
            Step::Index(_) => {
                if !matches!(container, Json::Array(_, _)) {
                    return Err(EditError::new("comment target is not an array element"));
                }
                match container.step(&path[n - 1]) {
                    None => Err(EditError::new("array index out of range")),
                    Some(i) => {
                        let (start, end, breaks) = container.measure(i, &front);
                        Ok(Place { start, end, breaks })
                    },
                }
            },
            _ => Err(EditError::new("comment paths address object keys or array elements")),
        }
    }
}

/// A site lies in the document's text.
proof fn site_in_text(d: JsoncDoc, path: Seq<St>)
    requires
        jsonc_site(d, path) is Ok,
    ensures
        ({
            let site = jsonc_site(d, path)->Ok_0;
            0 <= site.start <= site.end <= jsonc_body(d).len()
        }),
{
    let parent = path.drop_last();
    let n = js_at(d.value, parent)->0;
    crate::json_edit::child_bounds(n, path.last());
    let i = child(n, path.last())->0;
    crate::json_laws::text_around(d.value, parent);
    crate::json_laws::container_text(n, i);
}

fn only_blanks(cs: &[char], from: usize, to: usize) -> (r: bool)
    requires
        from <= to <= cs.len(),
    ensures
        r == all_blank(cs@.subrange(from as int, to as int)),
{
    let ghost s = cs@.subrange(from as int, to as int);
    let mut i: usize = from;
    while i < to
        invariant
            from <= i <= to <= cs.len(),
            s == cs@.subrange(from as int, to as int),
            forall|k: int| 0 <= k < i - from ==> (#[trigger] s[k]) == ' ' || s[k] == '\t',
        decreases to - i,
    {
        assert(s[i - from] == cs@[i as int]);
        if cs[i] != ' ' && cs[i] != '\t' {
            return false;
        }
        i = i + 1;
    }
    true
}

fn any_bracket(cs: &[char], from: usize, to: usize) -> (r: bool)
    requires
        from <= to <= cs.len(),
    ensures
        r == bracketed(cs@.subrange(from as int, to as int)),
{
    let ghost s = cs@.subrange(from as int, to as int);
    let mut i: usize = from;
    while i < to
        invariant
            from <= i <= to <= cs.len(),
            s == cs@.subrange(from as int, to as int),
            forall|k: int|
                0 <= k < i - from ==> !((#[trigger] s[k]) == '}' || s[k] == ']' || s[k] == '{'
                    || s[k] == '['),
        decreases to - i,
    {
        assert(s[i - from] == cs@[i as int]);
        if cs[i] == '}' || cs[i] == ']' || cs[i] == '{' || cs[i] == '[' {
            return true;
        }
        i = i + 1;
    }
    false
}

/// Where the line that holds position `at` starts, and its number from zero.
fn line_at(cs: &[char], at: usize) -> (r: (usize, usize))
    requires
        at <= cs.len(),
    ensures
        r.0 == crate::json_spell::last_line(cs@, at as int),
        r.1 == crate::jsonc::breaks_before(cs@, at as int),
        r.0 <= at,
{
    let mut start: usize = 0;
    let mut line: usize = 0;
    let mut i: usize = 0;
    while i < at
        invariant
            i <= at <= cs.len(),
            start == crate::json_spell::last_line(cs@, i as int),
            line == crate::jsonc::breaks_before(cs@, i as int),
            start <= i,
            line <= i,
        decreases at - i,
    {
        if cs[i] == '\n' {
            start = i + 1;
            line = line + 1;
        }
        i = i + 1;
    }
    (start, line)
}

spec fn noted_view(r: Result<String, EditError>) -> Result<Seq<char>, Er> {
    match r {
        Ok(t) => Ok(t@),
        Err(e) => Err(e@),
    }
}

/// Rewrite (or clear) the inline comment trailing a single-line member/element.
fn set_inline(cs: &[char], p: &Place, Ghost(site): Ghost<Site>, text: Option<&str>) -> (r: Result<
    String,
    EditError,
>)
    requires
        placed_at(*p, site),
        p.start <= p.end <= cs.len(),
    ensures
        noted_view(r) == inline_noted(cs@, site, crate::strings::flags_view(text)),
{
    let own = slice_text(cs, p.start, p.end);
    if has_line_feed(&own) {
        return Err(
            EditError::new(
                "an inline comment on a multi-line value isn't supported yet (a follow-up)",
            ),
        );
    }
    let nl: usize = skip_line(cs, p.end);
    // A container close (`}`/`]`) after the value on this line means it is compact:
    // an inline comment would comment it out, as it would a further entry.
    if any_bracket(cs, p.end, nl) || !p.breaks {
        return Err(
            EditError::new("adding an inline comment here needs layout expansion (a follow-up)"),
        );
    }
    let keep: usize = if nl > p.end && cs[nl - 1] == '\r' {
        nl - 1
    } else {
        nl
    };
    assert(cs@.subrange(0, p.end as int) =~= cs@.take(p.end as int));
    assert(cs@.subrange(keep as int, cs.len() as int) =~= cs@.skip(keep as int));
    let mut out = slice_text(cs, 0, p.end);
    if let Some(t) = text {
        out.append(" // ");
        out.append(&sanitize_comment_line(t));
    }
    out.append(&slice_text(cs, keep, cs.len()));
    assert(out@ =~= cs@.take(site.end) + (match crate::strings::flags_view(text) {
        Some(t) => " // "@ + one_line(t),
        None => Seq::empty(),
    }) + cs@.skip(keep as int));
    Ok(out)
}

fn place_at(cs: &[char], p: &Place, Ghost(site): Ghost<Site>, kind: CommentKind, text: Option<&str>) -> (r: Result<
    String,
    EditError,
>)
    requires
        placed_at(*p, site),
        p.start <= p.end <= cs.len(),
    ensures
        noted_view(r) == site_noted(cs@, site, kind, crate::strings::flags_view(text)),
{
    if kind == CommentKind::Inline {
        return set_inline(cs, p, Ghost(site), text);
    }
    let source = slice_text(cs, 0, cs.len());
    assert(source@ =~= cs@);
    let (line_start, line) = line_at(cs, p.start);
    if !only_blanks(cs, line_start, p.start) {
        return match text {
            Some(_) => Err(
                EditError::new(
                    "adding a comment to a compact object needs layout expansion (a follow-up)",
                ),
            ),
            None => Ok(source),
        };
    }
    let indent = slice_text(cs, line_start, p.start);
    Ok(
        place_line_comment(
            &source,
            line,
            kind == CommentKind::Head,
            &indent,
            &style(),
            text,
        ),
    )
}

impl Jsonc {
    /// Take over another text.
    fn retext(&mut self, text: &str) -> (r: Result<(), EditError>)
        ensures
            (final(self).content(), done(r)) == crate::mutate::attempt(
                old(self).content(),
                retexted(old(self).content(), text@),
            ),
    {
        let mut known: Vec<(String, Option<Float>)> = Vec::new();
        assert(parsed_view(known@) =~= Seq::<(Seq<char>, Option<Flt>)>::empty());
        self.value.collect(&mut known);
        let facts = FloatFacts { parsed: known, computed: Vec::new() };
        assert(facts@.parsed =~= js_facts(self.content().value));
        assert(facts@.computed =~= jsonc_facts(self.content()).computed);
        assert(facts@ == jsonc_facts(self.content()));
        let cs = chars_of(text);
        match parse_body(self.bom, &cs, &facts) {
            Err(e) => {
                let mut m = "the comment would break the document: ".to_owned();
                m.append(&e.msg);
                Err(EditError::of(m))
            },
            Ok(d) => {
                self.head = d.head;
                self.value = d.value;
                self.tail = d.tail;
                Ok(())
            },
        }
    }

    /// The original source text of each value node selected by `path`, in document
    /// order. A structural result is its exact text (comments, layout, trailing
    /// commas), not a re-serialization.
    pub fn source_slice(&self, path: &Vec<Step>) -> (r: Vec<String>)
        ensures
            texts(r@) == node_texts(nodes_along(seq![self.content().value], steps_of(path@))),
    {
        let ghost all = steps_of(path@);
        let mut cur: Vec<&Json> = Vec::new();
        cur.push(&self.value);
        assert(js_refs(cur@) =~= seq![self.content().value]);
        let mut i: usize = 0;
        assert(all.take(0) =~= Seq::<St>::empty());
        while i < path.len()
            invariant
                i <= path.len(),
                all == steps_of(path@),
                js_refs(cur@) == nodes_along(seq![self.content().value], all.take(i as int)),
            decreases path.len() - i,
        {
            assert(all[i as int] == path@[i as int]@);
            assert(all.take(i + 1).drop_last() =~= all.take(i as int));
            cur = step_all(&cur, &path[i]);
            i = i + 1;
        }
        assert(all.take(i as int) =~= all);
        let ghost ns = js_refs(cur@);
        let mut out: Vec<String> = Vec::new();
        let mut k: usize = 0;
        assert(texts(out@) =~= node_texts(ns).take(0));
        while k < cur.len()
            invariant
                k <= cur.len(),
                ns == js_refs(cur@),
                texts(out@) == node_texts(ns).take(k as int),
            decreases cur.len() - k,
        {
            assert(ns[k as int] == cur@[k as int]@);
            let t = cur[k].source();
            let ghost one = t@;
            out.push(t);
            assert(texts(out@) =~= node_texts(ns).take(k + 1));
            k = k + 1;
        }
        assert(node_texts(ns).take(k as int) =~= node_texts(ns));
        out
    }
}

/// The contents of a list of nodes.
spec fn js_refs(s: Seq<&Json>) -> Seq<Js> {
    Seq::new(s.len(), |i: int| s[i]@)
}

/// The texts of nodes.
pub open spec fn node_texts(ns: Seq<Js>) -> Seq<Seq<char>> {
    Seq::new(ns.len(), |i: int| js_text(ns[i]))
}

/// The values of entries.
pub open spec fn entry_nodes(es: Seq<En>) -> Seq<Js> {
    Seq::new(es.len(), |i: int| es[i].value)
}

/// The nodes a step leads to from a node.
pub open spec fn nodes_below(n: Js, st: St) -> Seq<Js> {
    if st is Iterate {
        entry_nodes(entries_of(n))
    } else {
        match child(n, st) {
            Some(i) => seq![entries_of(n)[i].value],
            None => Seq::empty(),
        }
    }
}

/// The nodes a step leads to from the first `k` of some nodes.
pub open spec fn nodes_step(ns: Seq<Js>, st: St, k: nat) -> Seq<Js>
    decreases k,
{
    if k == 0 {
        Seq::empty()
    } else {
        nodes_step(ns, st, (k - 1) as nat) + nodes_below(ns[k - 1], st)
    }
}

/// The nodes a path leads to.
pub open spec fn nodes_along(ns: Seq<Js>, path: Seq<St>) -> Seq<Js>
    decreases path.len(),
{
    if path.len() == 0 {
        ns
    } else {
        let before = nodes_along(ns, path.drop_last());
        nodes_step(before, path.last(), before.len())
    }
}

fn all_values<'a>(es: &'a Vec<Entry>, out: &mut Vec<&'a Json>)
    ensures
        js_refs(final(out)@) == js_refs(old(out)@) + entry_nodes(ens(es@)),
{
    let ghost start = js_refs(out@);
    let ghost want = entry_nodes(ens(es@));
    let mut i: usize = 0;
    assert(js_refs(out@) =~= start + want.take(0));
    while i < es.len()
        invariant
            i <= es.len(),
            want == entry_nodes(ens(es@)),
            js_refs(out@) == start + want.take(i as int),
        decreases es.len() - i,
    {
        assert(ens(es@)[i as int] == es@[i as int]@);
        let ghost held = js_refs(out@);
        assert(es@[i as int]@.value == es@[i as int].value@);
        out.push(&es[i].value);
        assert(js_refs(out@) =~= held.push(want[i as int]));
        assert(held.push(want[i as int]) =~= start + want.take(i + 1));
        i = i + 1;
    }
    assert(want.take(i as int) =~= want);
}

fn step_all<'a>(ns: &Vec<&'a Json>, st: &Step) -> (r: Vec<&'a Json>)
    ensures
        js_refs(r@) == nodes_step(js_refs(ns@), st@, js_refs(ns@).len()),
{
    let ghost all = js_refs(ns@);
    let mut out: Vec<&'a Json> = Vec::new();
    assert(js_refs(out@) =~= Seq::<Js>::empty());
    let mut i: usize = 0;
    while i < ns.len()
        invariant
            i <= ns.len(),
            all == js_refs(ns@),
            js_refs(out@) == nodes_step(all, st@, i as nat),
        decreases ns.len() - i,
    {
        let n = ns[i];
        assert(all[i as int] == n@);
        let ghost held = js_refs(out@);
        if let Step::Iterate = st {
            match n {
                Json::Scalar(_) => {
                    assert(held + entry_nodes(entries_of(n@)) =~= held);
                },
                Json::Object(_, es) => {
                    all_values(es, &mut out);
                },
                Json::Array(_, es) => {
                    all_values(es, &mut out);
                },
            }
        } else {
            match n.step(st) {
                Some(k) => {
                    if let Some(e) = n.entry(k) {
                        assert(e@.value == e.value@);
                        out.push(&e.value);
                    }
                },
                None => {},
            }
            assert(js_refs(out@) =~= held + nodes_below(n@, st@));
        }
        i = i + 1;
    }
    out
}

impl Document for Jsonc {
    open spec fn source_of(d: JsoncDoc) -> Seq<char> {
        jsonc_source(d)
    }

    open spec fn commented_of(d: JsoncDoc) -> Seq<Cmt> {
        seq![jsonc_commented(d)]
    }

    open spec fn note_in(d: JsoncDoc, at: int, path: Seq<St>, kind: CommentKind, text: Seq<char>) -> Result<
        (JsoncDoc, Seq<Seq<char>>),
        Er,
    > {
        jsonc_noted(d, path, kind, text)
    }

    open spec fn unnote_in(d: JsoncDoc, path: Seq<St>, kind: CommentKind) -> Result<JsoncDoc, Er> {
        jsonc_unnoted(d, path, kind)
    }

    open spec fn features_of() -> Seq<Feature> {
        seq![Feature::Comments, Feature::Nesting, Feature::Arrays, Feature::TypedScalars]
    }

    fn to_source(&self) -> (r: String) {
        with_bom(self.bom, self.body())
    }

    fn features(&self) -> (r: Vec<Feature>) {
        vec![Feature::Comments, Feature::Nesting, Feature::Arrays, Feature::TypedScalars]
    }

    fn to_commented_all(&self) -> (r: Vec<Commented>) {
        let mut out: Vec<Commented> = Vec::new();
        if let Some(c) = self.to_commented() {
            out.push(c);
        }
        assert(cmts(out@) =~= seq![jsonc_commented(self.content())]);
        out
    }

    fn set_comment_in_doc(&mut self, at: usize, path: &Vec<Step>, kind: CommentKind, text: &str) -> (r: Result<
        Vec<String>,
        EditError,
    >) {
        let p = self.resolve_target(path)?;
        let ghost site = jsonc_site(self.content(), steps_of(path@))->Ok_0;
        proof {
            site_in_text(self.content(), steps_of(path@));
        }
        let cs = chars_of(&self.body());
        let out = place_at(&cs, &p, Ghost(site), kind, Some(text))?;
        self.retext(&out)?;
        let none: Vec<String> = Vec::new();
        assert(texts(none@) =~= Seq::<Seq<char>>::empty());
        Ok(none)
    }

    fn delete_comment(&mut self, path: &Vec<Step>, kind: CommentKind) -> (r: Result<
        (),
        EditError,
    >) {
        match self.resolve_target(path) {
            Err(_) => Ok(()),
            Ok(p) => {
                let ghost site = jsonc_site(self.content(), steps_of(path@))->Ok_0;
                proof {
                    site_in_text(self.content(), steps_of(path@));
                }
                let cs = chars_of(&self.body());
                let out = place_at(&cs, &p, Ghost(site), kind, None)?;
                self.retext(&out)
            },
        }
    }
}

/// `level` steps of indentation.
pub open spec fn pad(level: nat) -> Seq<char>
    decreases level,
{
    if level == 0 {
        Seq::empty()
    } else {
        pad((level - 1) as nat) + "  "@
    }
}

/// One own-line comment.
pub open spec fn note_row(level: nat, line: Seq<char>) -> Seq<char> {
    pad(level) + "// "@ + one_line(line) + "\n"@
}

/// The first `n` own-line comments.
pub open spec fn note_rows(level: nat, lines: Seq<Seq<char>>, n: nat) -> Seq<char>
    decreases n,
{
    if n == 0 {
        Seq::empty()
    } else {
        note_rows(level, lines, (n - 1) as nat) + note_row(level, lines[n - 1])
    }
}

/// An inline comment, as it is written behind a value.
pub open spec fn inline_row(n: Option<Seq<char>>) -> Seq<char> {
    match n {
        Some(t) => " // "@ + one_line(t),
        None => Seq::empty(),
    }
}

/// One entry of a container: its comments above, its key and value, a comma if
/// another follows, its inline comment, and its comments below.
pub open spec fn entry_rows(level: nat, key: Seq<char>, c: Cmt, body: Seq<char>, more: bool) -> Seq<char> {
    note_rows(level, c.notes.head, c.notes.head.len()) + pad(level) + key + body + (if more {
        ","@
    } else {
        ""@
    }) + inline_row(c.notes.inline) + "\n"@ + note_rows(level, c.notes.foot, c.notes.foot.len())
}

/// The key of a member, as it is written.
pub open spec fn key_row(k: Seq<char>) -> Seq<char> {
    json_string(k) + ": "@
}

/// A commented node as pretty JSONC.
pub open spec fn node_rows(c: Cmt, level: nat) -> Seq<char>
    decreases c, 1int, 0int,
{
    match c.node {
        CmtNode::Scalar(v) => json_text(v),
        CmtNode::Array(a) => if a.len() == 0 {
            "[]"@
        } else {
            "[\n"@ + element_rows(a, level + 1, a.len()) + pad(level) + "]"@
        },
        CmtNode::Object(m) => if m.len() == 0 {
            "{}"@
        } else {
            "{\n"@ + member_rows(m, level + 1, m.len()) + pad(level) + "}"@
        },
    }
}

pub open spec fn element_rows(a: Seq<Cmt>, level: nat, n: nat) -> Seq<char>
    decreases a, 0int, n,
{
    if n == 0 || n > a.len() {
        Seq::empty()
    } else {
        element_rows(a, level, (n - 1) as nat) + entry_rows(
            level,
            ""@,
            a[n - 1],
            node_rows(a[n - 1], level),
            n < a.len(),
        )
    }
}

pub open spec fn member_rows(m: Seq<(Seq<char>, Cmt)>, level: nat, n: nat) -> Seq<char>
    decreases m, 0int, n,
{
    if n == 0 || n > m.len() {
        Seq::empty()
    } else {
        member_rows(m, level, (n - 1) as nat) + entry_rows(
            level,
            key_row(m[n - 1].0),
            m[n - 1].1,
            node_rows(m[n - 1].1, level),
            n < m.len(),
        )
    }
}

/// A commented value as a pretty JSONC document.
pub open spec fn jsonc_emitted(c: Cmt) -> Seq<char> {
    note_rows(0, c.notes.head, c.notes.head.len()) + node_rows(c, 0) + inline_row(c.notes.inline)
        + "\n"@ + note_rows(0, c.notes.foot, c.notes.foot.len())
}

fn push_lines(out: &mut String, pad_text: &str, Ghost(level): Ghost<nat>, lines: &Vec<String>)
    requires
        pad_text@ == pad(level),
    ensures
        final(out)@ == old(out)@ + note_rows(level, texts(lines@), texts(lines@).len()),
{
    let ghost start = out@;
    let ghost all = texts(lines@);
    let mut i: usize = 0;
    assert(out@ =~= start + note_rows(level, all, 0));
    while i < lines.len()
        invariant
            i <= lines.len(),
            all == texts(lines@),
            pad_text@ == pad(level),
            out@ == start + note_rows(level, all, i as nat),
        decreases lines.len() - i,
    {
        assert(all[i as int] == lines@[i as int]@);
        out.append(pad_text);
        out.append("// ");
        out.append(&sanitize_comment_line(&lines[i]));
        out.append("\n");
        assert(out@ =~= start + note_rows(level, all, (i + 1) as nat));
        i = i + 1;
    }
}

fn push_inline(out: &mut String, inline: &Option<String>)
    ensures
        final(out)@ == old(out)@ + inline_row(opt_text(*inline)),
{
    if let Some(t) = inline {
        out.append(" // ");
        out.append(&sanitize_comment_line(t));
    }
    assert(out@ =~= old(out)@ + inline_row(opt_text(*inline)));
}

fn push_entry(out: &mut String, pad_text: &str, Ghost(level): Ghost<nat>, key: &str, c: &Commented, body: &str, more: bool)
    requires
        pad_text@ == pad(level),
    ensures
        final(out)@ == old(out)@ + entry_rows(level, key@, c@, body@, more),
{
    let ghost start = out@;
    push_lines(out, pad_text, Ghost(level), &c.comments.head);
    out.append(pad_text);
    out.append(key);
    out.append(body);
    if more {
        out.append(",");
    } else {
        out.append("");
    }
    push_inline(out, &c.comments.inline);
    out.append("\n");
    push_lines(out, pad_text, Ghost(level), &c.comments.foot);
    assert(out@ =~= start + entry_rows(level, key@, c@, body@, more));
}

fn member_key(k: &str) -> (r: String)
    ensures
        r@ == key_row(k@),
{
    let mut out = String::new();
    crate::value::write_json_string(k, &mut out);
    out.append(": ");
    assert(out@ =~= key_row(k@));
    out
}

fn write_node(c: &Commented, pad_text: &str, Ghost(level): Ghost<nat>) -> (r: String)
    requires
        pad_text@ == pad(level),
    ensures
        r@ == node_rows(c@, level),
    decreases c,
{
    let mut inner = pad_text.to_owned();
    inner.append("  ");
    assert(inner@ == pad(level + 1));
    match &c.node {
        CommentedNode::Scalar(v) => v.to_json(),
        CommentedNode::Array(a) => {
            if a.len() == 0 {
                return "[]".to_owned();
            }
            let mut out = "[\n".to_owned();
            out.append(&write_elements(a, &inner, Ghost(level + 1)));
            out.append(pad_text);
            out.append("]");
            out
        },
        CommentedNode::Object(m) => {
            if m.len() == 0 {
                return "{}".to_owned();
            }
            let mut out = "{\n".to_owned();
            out.append(&write_members(m, &inner, Ghost(level + 1)));
            out.append(pad_text);
            out.append("}");
            out
        },
    }
}

#[verifier::loop_isolation(false)]
fn write_elements(a: &Vec<Commented>, pad_text: &str, Ghost(level): Ghost<nat>) -> (r: String)
    requires
        pad_text@ == pad(level),
    ensures
        r@ == element_rows(cmts(a@), level, cmts(a@).len()),
    decreases a,
{
    let ghost all = cmts(a@);
    let mut out = String::new();
    let mut i: usize = 0;
    assert(out@ =~= element_rows(all, level, 0));
    while i < a.len()
        invariant
            i <= a.len(),
            out@ == element_rows(all, level, i as nat),
        decreases a.len() - i,
    {
        assert(all[i as int] == a@[i as int]@);
        let body = write_node(&a[i], pad_text, Ghost(level));
        push_entry(&mut out, pad_text, Ghost(level), "", &a[i], &body, i + 1 < a.len());
        i = i + 1;
    }
    out
}

#[verifier::loop_isolation(false)]
fn write_members(m: &Vec<(String, Commented)>, pad_text: &str, Ghost(level): Ghost<nat>) -> (r: String)
    requires
        pad_text@ == pad(level),
    ensures
        r@ == member_rows(cmt_members(m@), level, cmt_members(m@).len()),
    decreases m,
{
    let ghost all = cmt_members(m@);
    let mut out = String::new();
    let mut i: usize = 0;
    assert(out@ =~= member_rows(all, level, 0));
    while i < m.len()
        invariant
            i <= m.len(),
            out@ == member_rows(all, level, i as nat),
        decreases m.len() - i,
    {
        assert(all[i as int] == (m@[i as int].0@, m@[i as int].1@));
        let body = write_node(&m[i].1, pad_text, Ghost(level));
        let key = member_key(&m[i].0);
        push_entry(&mut out, pad_text, Ghost(level), &key, &m[i].1, &body, i + 1 < m.len());
        i = i + 1;
    }
    out
}

/// Emit a commented value as pretty (2-space) JSONC with a trailing newline,
/// placing head comments as `//` lines, inline comments after the value (and its
/// comma), and foot comments as `//` lines after. JSONC holds every comment kind,
/// so nothing warns.
pub fn emit_commented(c: &Commented) -> (r: String)
    ensures
        r@ == jsonc_emitted(c@),
{
    let mut out = String::new();
    let none = String::new();
    assert(none@ =~= pad(0));
    push_lines(&mut out, &none, Ghost(0), &c.comments.head);
    out.append(&write_node(c, &none, Ghost(0)));
    push_inline(&mut out, &c.comments.inline);
    out.append("\n");
    push_lines(&mut out, &none, Ghost(0), &c.comments.foot);
    assert(out@ =~= jsonc_emitted(c@));
    out
}

} // verus!
