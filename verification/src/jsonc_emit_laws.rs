//! What a commented value is written as in JSONC parses back as the value, with every
//! comment, in order.
use crate::comment::{opt_line, plain, plain_all, plain_members};
use crate::convert::comma;
use crate::float::Facts;
use crate::json_emit_laws::{comma_text, compact_printed, numbers_fit, numbers_read};
use crate::json_good_laws::{fit, fit_entries, run_add, spaces_are_space};
use crate::json_keep_laws::{notes, notes_add};
use crate::json_laws::{es_text_prefix, fresh_reads_back, members_are, string_reads_back, toks_add, toks_none, toks_one, vals_are};
use crate::json_lexer::{eol_at, json_space, json_tokens, Jt, Tok};
use crate::json_nodes::{es_members, es_vals, js_val};
use crate::json_parser::trivial;
use crate::json_relex::{parts, self_lexed, tokens_read_back};
use crate::json_set_laws::{fresh_good, numbers_good, string_reads};
use crate::json_spell::{comma_after, fresh, fresh_key, space};
use crate::json_text_laws::{
    comma_toks, doc_good, doc_reads, doc_toks, en_toks, es_toks, good_text_parses_back, key_toks,
    mark, node_good, node_toks, opener, run_ok, run_read, shutter,
};
use crate::json_tree::{en_text, es_text, js_text, key_source, toks_text, En, Js};
use crate::jsonc::{jsonc_parsed, jsonc_source, JsoncDoc};
use crate::jsonc_comments::{
    element_rows, inline_row, jsonc_emitted, key_row, member_rows, node_rows, note_row, note_rows,
    pad,
};
use crate::line_comment::one_line;
use crate::model::{Cmt, CmtNode, Notes, Val};
use vstd::prelude::*;
use vstd::string::*;

verus! {

/// A comment as a token.
pub open spec fn slashed(x: Seq<char>) -> Jt {
    Jt { kind: Tok::LineComment, text: "// "@ + one_line(x) }
}

/// Comments as tokens.
pub open spec fn all_slashed(lines: Seq<Seq<char>>) -> Seq<Jt> {
    Seq::new(lines.len(), |i: int| slashed(lines[i]))
}

/// The comments on a node and inside it, in the order they are written in: those above
/// it, those inside it, the one behind it, and those below.
pub open spec fn all_comments(c: Cmt) -> Seq<Seq<char>>
    decreases c, 2int, 0int,
{
    c.notes.head + inner_comments(c) + opt_line(c.notes.inline) + c.notes.foot
}

/// The comments inside a node.
pub open spec fn inner_comments(c: Cmt) -> Seq<Seq<char>>
    decreases c, 1int, 0int,
{
    match c.node {
        CmtNode::Scalar(_) => Seq::empty(),
        CmtNode::Array(a) => element_comments(a, a.len()),
        CmtNode::Object(m) => member_comments(m, m.len()),
    }
}

pub open spec fn element_comments(a: Seq<Cmt>, n: nat) -> Seq<Seq<char>>
    decreases a, 0int, n,
{
    if n == 0 || n > a.len() {
        Seq::empty()
    } else {
        element_comments(a, (n - 1) as nat) + all_comments(a[n - 1])
    }
}

pub open spec fn member_comments(m: Seq<(Seq<char>, Cmt)>, n: nat) -> Seq<Seq<char>>
    decreases m, 0int, n,
{
    if n == 0 || n > m.len() {
        Seq::empty()
    } else {
        member_comments(m, (n - 1) as nat) + all_comments(m[n - 1].1)
    }
}

spec fn ws(t: Seq<char>) -> Jt {
    Jt { kind: Tok::Ws, text: t }
}

/// Comment lines, each behind a line break and an indentation.
spec fn lined(lines: Seq<Seq<char>>, p: Seq<char>) -> Seq<Jt>
    decreases lines.len(),
{
    if lines.len() == 0 {
        Seq::empty()
    } else {
        lined(lines.drop_last(), p) + seq![ws(seq!['\n'] + p), slashed(lines.last())]
    }
}

/// Comment lines and the indentation of what follows.
spec fn run(lines: Seq<Seq<char>>, p: Seq<char>, q: Seq<char>) -> Seq<Jt> {
    lined(lines, p) + seq![ws(seq!['\n'] + q)]
}

/// An inline comment.
spec fn behind(n: Option<Seq<char>>) -> Seq<Jt> {
    match n {
        Some(t) => seq![ws(seq![' ']), slashed(t)],
        None => Seq::empty(),
    }
}

/// What follows an entry: its inline comment, its foot, and the head of the next entry.
spec fn gap(n: Notes, next: Seq<Seq<char>>, p: Seq<char>, q: Seq<char>) -> Seq<Jt> {
    behind(n.inline) + run(n.foot + next, p, q)
}

spec fn next_head(a: Seq<Cmt>, n: nat) -> Seq<Seq<char>> {
    if n < a.len() {
        a[n as int].notes.head
    } else {
        Seq::empty()
    }
}

spec fn next_member_head(m: Seq<(Seq<char>, Cmt)>, n: nat) -> Seq<Seq<char>> {
    if n < m.len() {
        m[n as int].1.notes.head
    } else {
        Seq::empty()
    }
}

spec fn next_pad(more: bool, level: nat) -> Seq<char> {
    if more {
        pad(level + 1)
    } else {
        pad(level)
    }
}

/// A commented value as a tree of tokens.
spec fn noted_js(c: Cmt, level: nat) -> Js
    decreases c, 1int, 0int,
{
    match c.node {
        CmtNode::Scalar(v) => fresh(v, false),
        CmtNode::Array(a) => if a.len() == 0 {
            Js::Array(Seq::empty(), Seq::empty())
        } else {
            Js::Array(
                run(next_head(a, 0), pad(level + 1), pad(level + 1)),
                noted_items(a, level, a.len()),
            )
        },
        CmtNode::Object(m) => if m.len() == 0 {
            Js::Object(Seq::empty(), Seq::empty())
        } else {
            Js::Object(
                run(next_member_head(m, 0), pad(level + 1), pad(level + 1)),
                noted_members(m, level, m.len()),
            )
        },
    }
}

spec fn noted_items(a: Seq<Cmt>, level: nat, n: nat) -> Seq<En>
    decreases a, 0int, n,
{
    if n == 0 || n > a.len() {
        Seq::empty()
    } else {
        noted_items(a, level, (n - 1) as nat).push(
            En {
                key: None,
                value: noted_js(a[n - 1], level + 1),
                comma: comma_after(n, a.len()),
                after: gap(a[n - 1].notes, next_head(a, n), pad(level + 1), next_pad(n < a.len(), level)),
            },
        )
    }
}

spec fn noted_members(m: Seq<(Seq<char>, Cmt)>, level: nat, n: nat) -> Seq<En>
    decreases m, 0int, n,
{
    if n == 0 || n > m.len() {
        Seq::empty()
    } else {
        noted_members(m, level, (n - 1) as nat).push(
            En {
                key: Some(fresh_key(m[n - 1].0, space(" "@))),
                value: noted_js(m[n - 1].1, level + 1),
                comma: comma_after(n, m.len()),
                after: gap(
                    m[n - 1].1.notes,
                    next_member_head(m, n),
                    pad(level + 1),
                    next_pad(n < m.len(), level),
                ),
            },
        )
    }
}

proof fn items_at(a: Seq<Cmt>, level: nat, n: nat)
    requires
        n <= a.len(),
    ensures
        noted_items(a, level, n).len() == n,
        forall|i: int|
            0 <= i < n ==> #[trigger] noted_items(a, level, n)[i] == (En {
                key: None,
                value: noted_js(a[i], level + 1),
                comma: comma_after((i + 1) as nat, a.len()),
                after: gap(
                    a[i].notes,
                    next_head(a, (i + 1) as nat),
                    pad(level + 1),
                    next_pad(i + 1 < a.len(), level),
                ),
            }),
    decreases n,
{
    if n > 0 {
        items_at(a, level, (n - 1) as nat);
    }
}

proof fn members_at(m: Seq<(Seq<char>, Cmt)>, level: nat, n: nat)
    requires
        n <= m.len(),
    ensures
        noted_members(m, level, n).len() == n,
        forall|i: int|
            0 <= i < n ==> #[trigger] noted_members(m, level, n)[i] == (En {
                key: Some(fresh_key(m[i].0, space(" "@))),
                value: noted_js(m[i].1, level + 1),
                comma: comma_after((i + 1) as nat, m.len()),
                after: gap(
                    m[i].1.notes,
                    next_member_head(m, (i + 1) as nat),
                    pad(level + 1),
                    next_pad(i + 1 < m.len(), level),
                ),
            }),
    decreases n,
{
    if n > 0 {
        members_at(m, level, (n - 1) as nat);
    }
}

// Texts.

proof fn rows_add(level: nat, a: Seq<Seq<char>>, b: Seq<Seq<char>>, n: nat)
    requires
        n <= b.len(),
    ensures
        note_rows(level, a + b, a.len() + n) == note_rows(level, a, a.len()) + note_rows(level, b, n),
    decreases n,
{
    if n == 0 {
        rows_front(level, a, b, a.len());
        assert(note_rows(level, a, a.len()) + note_rows(level, b, 0) =~= note_rows(level, a, a.len()));
    } else {
        rows_add(level, a, b, (n - 1) as nat);
        assert((a + b)[a.len() + n - 1] == b[n - 1]);
        assert(note_rows(level, a + b, a.len() + n) =~= note_rows(level, a, a.len()) + note_rows(
            level,
            b,
            n,
        ));
    }
}

proof fn rows_front(level: nat, a: Seq<Seq<char>>, b: Seq<Seq<char>>, n: nat)
    requires
        n <= a.len(),
    ensures
        note_rows(level, a + b, n) == note_rows(level, a, n),
    decreases n,
{
    if n > 0 {
        rows_front(level, a, b, (n - 1) as nat);
        assert((a + b)[n - 1] == a[n - 1]);
    }
}

proof fn lined_text(lines: Seq<Seq<char>>, level: nat)
    ensures
        toks_text(lined(lines, pad(level))) + seq!['\n'] == seq!['\n'] + note_rows(
            level,
            lines,
            lines.len(),
        ),
    decreases lines.len(),
{
    reveal_strlit("\n");
    if lines.len() == 0 {
        toks_none();
        assert(toks_text(lined(lines, pad(level))) + seq!['\n'] =~= seq!['\n'] + note_rows(
            level,
            lines,
            0,
        ));
    } else {
        let init = lines.drop_last();
        let x = lines.last();
        lined_text(init, level);
        rows_front(level, init, seq![x], init.len());
        assert(init + seq![x] =~= lines);
        let a = ws(seq!['\n'] + pad(level));
        let b = slashed(x);
        toks_add(lined(init, pad(level)), seq![a, b]);
        assert(seq![a, b] =~= seq![a] + seq![b]);
        toks_add(seq![a], seq![b]);
        toks_one(a);
        toks_one(b);
        let t = toks_text(lined(init, pad(level)));
        assert(toks_text(lined(lines, pad(level))) + seq!['\n'] =~= (t + seq!['\n']) + note_row(level, x));
        assert(seq!['\n'] + note_rows(level, init, init.len()) + note_row(level, x) =~= seq!['\n']
            + note_rows(level, lines, lines.len()));
    }
}

proof fn run_text(lines: Seq<Seq<char>>, level: nat, q: Seq<char>)
    ensures
        toks_text(run(lines, pad(level), q)) == seq!['\n'] + note_rows(level, lines, lines.len()) + q,
{
    let w = ws(seq!['\n'] + q);
    toks_add(lined(lines, pad(level)), seq![w]);
    toks_one(w);
    lined_text(lines, level);
    let t = toks_text(lined(lines, pad(level)));
    assert(t + (seq!['\n'] + q) =~= (t + seq!['\n']) + q);
}

proof fn behind_text(n: Option<Seq<char>>)
    ensures
        toks_text(behind(n)) == inline_row(n),
{
    reveal_strlit("// ");
    reveal_strlit(" // ");
    match n {
        Some(t) => {
            let a = ws(seq![' ']);
            let b = slashed(t);
            assert(seq![a, b] =~= seq![a] + seq![b]);
            toks_add(seq![a], seq![b]);
            toks_one(a);
            toks_one(b);
            assert(seq![' '] + ("// "@ + one_line(t)) =~= " // "@ + one_line(t));
        },
        None => {
            toks_none();
        },
    }
}

proof fn gap_text(n: Notes, next: Seq<Seq<char>>, level: nat, q: Seq<char>)
    ensures
        toks_text(gap(n, next, pad(level), q)) == inline_row(n.inline) + seq!['\n'] + note_rows(
            level,
            n.foot,
            n.foot.len(),
        ) + note_rows(level, next, next.len()) + q,
{
    behind_text(n.inline);
    run_text(n.foot + next, level, q);
    rows_add(level, n.foot, next, next.len());
    toks_add(behind(n.inline), run(n.foot + next, pad(level), q));
    assert(toks_text(gap(n, next, pad(level), q)) =~= inline_row(n.inline) + seq!['\n'] + note_rows(
        level,
        n.foot,
        n.foot.len(),
    ) + note_rows(level, next, next.len()) + q);
}

proof fn regroup_rows(r: Seq<char>, h: Seq<char>, p: Seq<char>, k: Seq<char>, b: Seq<char>, c: Seq<char>, i: Seq<char>, nl: Seq<char>, f: Seq<char>, z: Seq<char>)
    ensures
        r + (h + p + k + b + c + i + nl + f) + z == (r + h + p) + (k + b + c + (i + nl + f + z)),
{
    assert(r + (h + p + k + b + c + i + nl + f) + z =~= (r + h + p) + (k + b + c + (i + nl + f + z)));
}

proof fn add_assoc(a: Seq<char>, b: Seq<char>, c: Seq<char>, d: Seq<char>, e: Seq<char>)
    ensures
        a + (b + c) == a + b + c,
        (a + b) + c == a + b + c,
        a + b + c + d + e == a + b + c + (d + e),
        a + (b + c) + d == a + b + (c + d),
{
    assert(a + (b + c) =~= a + b + c);
    assert(a + b + c + d + e =~= a + b + c + (d + e));
    assert(a + (b + c) + d =~= a + b + (c + d));
}

/// What is in front of entry `n` in the rows: its head and its indentation, or the closing
/// indentation.
spec fn lead_rows(more: bool, head: Seq<Seq<char>>, level: nat) -> Seq<char> {
    if more {
        note_rows(level + 1, head, head.len()) + pad(level + 1)
    } else {
        pad(level)
    }
}

#[verifier::rlimit(60)]
#[verifier::spinoff_prover]
proof fn elements_written(a: Seq<Cmt>, level: nat, n: nat)
    requires
        n <= a.len(),
        a.len() > 0,
    ensures
        element_rows(a, level + 1, n) + lead_rows(n < a.len(), next_head(a, n), level) == lead_rows(
            true,
            next_head(a, 0),
            level,
        ) + es_text(noted_items(a, level, n), n),
    decreases a, 1int, n,
{
    let first = lead_rows(true, next_head(a, 0), level);
    if n == 0 {
        assert(element_rows(a, level + 1, 0) + first =~= first);
        assert(first + es_text(noted_items(a, level, 0), 0) =~= first);
    } else {
        elements_written(a, level, (n - 1) as nat);
        let c = a[n - 1];
        let es = noted_items(a, level, n);
        let init = noted_items(a, level, (n - 1) as nat);
        items_at(a, level, n);
        items_at(a, level, (n - 1) as nat);
        let e = es[n - 1];
        assert(es == init.push(e));
        es_text_prefix(es, init, (n - 1) as nat);
        node_written(c, level + 1);
        comma_text(n, a.len());
        reveal_strlit(",");
        reveal_strlit("");
        reveal_strlit("\n");
        let more = n < a.len();
        let k = ""@;
        let cm = comma(n as int, a.len() as int);
        assert((if more {
            ","@
        } else {
            ""@
        }) =~= cm);
        let body = node_rows(c, level + 1);
        let i = inline_row(c.notes.inline);
        let f = note_rows(level + 1, c.notes.foot, c.notes.foot.len());
        let h = note_rows(level + 1, c.notes.head, c.notes.head.len());
        let z = lead_rows(more, next_head(a, n), level);
        let q = next_pad(more, level);
        let nl = seq!['\n'];
        assert("\n"@ =~= nl);
        gap_text(c.notes, next_head(a, n), level + 1, q);
        let nx = note_rows(level + 1, next_head(a, n), next_head(a, n).len());
        assert(nx + q == z) by {
            if !more {
                assert(nx =~= Seq::<char>::empty());
                assert(nx + q =~= q);
            }
        }
        add_assoc(i + nl, f, nx, q, q);
        assert(i + nl + f + nx + q == i + nl + f + z) by {
            assert(i + nl + f + nx + q =~= i + nl + f + (nx + q));
        }
        assert(key_source(e.key) =~= k);
        assert(en_text(e) == k + body + cm + (i + nl + f + z));
        let r = element_rows(a, level + 1, (n - 1) as nat);
        regroup_rows(r, h, pad(level + 1), k, body, cm, i, nl, f, z);
        assert(r + h + pad(level + 1) == first + es_text(init, (n - 1) as nat)) by {
            assert(r + (h + pad(level + 1)) =~= r + h + pad(level + 1));
        }
        assert(first + es_text(init, (n - 1) as nat) + en_text(e) =~= first + es_text(es, n));
    }
}

#[verifier::rlimit(60)]
#[verifier::spinoff_prover]
proof fn members_written(m: Seq<(Seq<char>, Cmt)>, level: nat, n: nat)
    requires
        n <= m.len(),
        m.len() > 0,
    ensures
        member_rows(m, level + 1, n) + lead_rows(n < m.len(), next_member_head(m, n), level)
            == lead_rows(true, next_member_head(m, 0), level) + es_text(noted_members(m, level, n), n),
    decreases m, 1int, n,
{
    let first = lead_rows(true, next_member_head(m, 0), level);
    if n == 0 {
        assert(member_rows(m, level + 1, 0) + first =~= first);
        assert(first + es_text(noted_members(m, level, 0), 0) =~= first);
    } else {
        members_written(m, level, (n - 1) as nat);
        let c = m[n - 1].1;
        let es = noted_members(m, level, n);
        let init = noted_members(m, level, (n - 1) as nat);
        members_at(m, level, n);
        members_at(m, level, (n - 1) as nat);
        let e = es[n - 1];
        assert(es == init.push(e));
        es_text_prefix(es, init, (n - 1) as nat);
        node_written(c, level + 1);
        comma_text(n, m.len());
        reveal_strlit(",");
        reveal_strlit("");
        reveal_strlit("\n");
        reveal_strlit(" ");
        reveal_strlit(": ");
        let more = n < m.len();
        let k = key_row(m[n - 1].0);
        let cm = comma(n as int, m.len() as int);
        assert((if more {
            ","@
        } else {
            ""@
        }) =~= cm);
        let body = node_rows(c, level + 1);
        let i = inline_row(c.notes.inline);
        let f = note_rows(level + 1, c.notes.foot, c.notes.foot.len());
        let h = note_rows(level + 1, c.notes.head, c.notes.head.len());
        let z = lead_rows(more, next_member_head(m, n), level);
        let q = next_pad(more, level);
        let nl = seq!['\n'];
        assert("\n"@ =~= nl);
        gap_text(c.notes, next_member_head(m, n), level + 1, q);
        let nx = note_rows(level + 1, next_member_head(m, n), next_member_head(m, n).len());
        assert(nx + q == z) by {
            if !more {
                assert(nx =~= Seq::<char>::empty());
                assert(nx + q =~= q);
            }
        }
        assert(i + nl + f + nx + q == i + nl + f + z) by {
            assert(i + nl + f + nx + q =~= i + nl + f + (nx + q));
        }
        toks_none();
        toks_one(ws(" "@));
        assert(space(" "@) == seq![ws(" "@)]);
        assert(key_source(e.key) =~= k);
        assert(en_text(e) == k + body + cm + (i + nl + f + z));
        let r = member_rows(m, level + 1, (n - 1) as nat);
        regroup_rows(r, h, pad(level + 1), k, body, cm, i, nl, f, z);
        assert(r + h + pad(level + 1) == first + es_text(init, (n - 1) as nat)) by {
            assert(r + (h + pad(level + 1)) =~= r + h + pad(level + 1));
        }
        assert(first + es_text(init, (n - 1) as nat) + en_text(e) =~= first + es_text(es, n));
    }
}

proof fn regroup_box(o: Seq<char>, nl: Seq<char>, nr: Seq<char>, p: Seq<char>, t: Seq<char>, c: Seq<char>, er: Seq<char>, q: Seq<char>)
    requires
        er + q == (nr + p) + t,
    ensures
        o + (nl + nr + p) + t + c == (o + nl) + er + q + c,
{
    assert(o + (nl + nr + p) + t + c =~= (o + nl) + ((nr + p) + t) + c);
    assert((o + nl) + er + q + c =~= (o + nl) + (er + q) + c);
}

/// The rows of a node are the text of its tree.
#[verifier::rlimit(60)]
#[verifier::spinoff_prover]
proof fn node_written(c: Cmt, level: nat)
    ensures
        js_text(noted_js(c, level)) == node_rows(c, level),
    decreases c, 2int, 0nat,
{
    reveal_strlit("[]");
    reveal_strlit("{}");
    reveal_strlit("[\n");
    reveal_strlit("{\n");
    reveal_strlit("]");
    reveal_strlit("}");
    toks_none();
    match c.node {
        CmtNode::Scalar(v) => {
            compact_printed(v);
        },
        CmtNode::Array(a) => if a.len() == 0 {
            assert(es_text(Seq::<En>::empty(), 0) =~= Seq::<char>::empty());
            assert(js_text(noted_js(c, level)) =~= "[]"@);
        } else {
            elements_written(a, level, a.len());
            items_at(a, level, a.len());
            run_text(next_head(a, 0), level + 1, pad(level + 1));
            let es = noted_items(a, level, a.len());
            let h = lead_rows(true, next_head(a, 0), level);
            assert("[\n"@ =~= seq!['['] + seq!['\n']);
            assert("]"@ =~= seq![']']);
            regroup_box(
                seq!['['],
                seq!['\n'],
                note_rows(level + 1, next_head(a, 0), next_head(a, 0).len()),
                pad(level + 1),
                es_text(es, a.len()),
                seq![']'],
                element_rows(a, level + 1, a.len()),
                pad(level),
            );
        },
        CmtNode::Object(m) => if m.len() == 0 {
            assert(es_text(Seq::<En>::empty(), 0) =~= Seq::<char>::empty());
            assert(js_text(noted_js(c, level)) =~= "{}"@);
        } else {
            members_written(m, level, m.len());
            members_at(m, level, m.len());
            run_text(next_member_head(m, 0), level + 1, pad(level + 1));
            let es = noted_members(m, level, m.len());
            let h = lead_rows(true, next_member_head(m, 0), level);
            assert("{\n"@ =~= seq!['{'] + seq!['\n']);
            assert("}"@ =~= seq!['}']);
            regroup_box(
                seq!['{'],
                seq!['\n'],
                note_rows(level + 1, next_member_head(m, 0), next_member_head(m, 0).len()),
                pad(level + 1),
                es_text(es, m.len()),
                seq!['}'],
                member_rows(m, level + 1, m.len()),
                pad(level),
            );
        },
    }
}

// Goodness.

proof fn pad_is_spaces(level: nat)
    ensures
        forall|i: int| 0 <= i < pad(level).len() ==> (#[trigger] pad(level)[i]) == ' ',
    decreases level,
{
    reveal_strlit("  ");
    if level > 0 {
        pad_is_spaces((level - 1) as nat);
        let p = pad((level - 1) as nat);
        assert forall|i: int| 0 <= i < pad(level).len() implies (#[trigger] pad(level)[i]) == ' ' by {
            if i < p.len() {
                assert(pad(level)[i] == p[i]);
            }
        }
    }
}

proof fn slashed_reads(x: Seq<char>)
    ensures
        self_lexed(slashed(x)),
        slashed(x).text[0] == '/',
{
    reveal_strlit("// ");
    let t = slashed(x).text;
    assert(t[0] == '/' && t[1] == '/');
    assert forall|k: int| 0 <= k < t.len() implies (#[trigger] t[k]) != '\n' by {
        if k >= 3 {
            assert(t[k] == one_line(x)[k - 3]);
        }
    }
    no_break_to_end(t, 0);
}

proof fn no_break_to_end(t: Seq<char>, i: int)
    requires
        0 <= i <= t.len(),
        forall|k: int| 0 <= k < t.len() ==> (#[trigger] t[k]) != '\n',
    ensures
        eol_at(t, i) == t.len(),
    decreases t.len() - i,
{
    if i < t.len() {
        no_break_to_end(t, i + 1);
    }
}

proof fn break_reads(level: nat)
    ensures
        self_lexed(ws(seq!['\n'] + pad(level))),
        self_lexed(ws(seq![' '])),
{
    pad_is_spaces(level);
    let w = ws(seq!['\n'] + pad(level));
    assert forall|k: int| 0 <= k < w.text.len() implies json_space(#[trigger] w.text[k]) by {
        if k > 0 {
            assert(w.text[k] == pad(level)[k - 1]);
        }
    }
    spaces_are_space(w);
    let s = ws(seq![' ']);
    assert forall|k: int| 0 <= k < s.text.len() implies json_space(#[trigger] s.text[k]) by {}
    spaces_are_space(s);
}

proof fn one_run(x: Jt)
    requires
        self_lexed(x),
        trivial(x.kind),
    ensures
        run_read(seq![x]),
{
}

proof fn lined_reads(lines: Seq<Seq<char>>, level: nat)
    ensures
        run_read(lined(lines, pad(level))),
        lines.len() > 0 ==> lined(lines, pad(level)).len() > 0 && lined(lines, pad(level)).last()
            == slashed(lines.last()) && lined(lines, pad(level))[0].kind == Tok::Ws && lined(
            lines,
            pad(level),
        )[0].text[0] == '\n',
    decreases lines.len(),
{
    if lines.len() > 0 {
        let init = lines.drop_last();
        lined_reads(init, level);
        let a = ws(seq!['\n'] + pad(level));
        let b = slashed(lines.last());
        break_reads(level);
        slashed_reads(lines.last());
        let two = seq![a, b];
        one_run(a);
        one_run(b);
        assert(two =~= seq![a] + seq![b]);
        run_add(seq![a], seq![b]);
        let front = lined(init, pad(level));
        if init.len() > 0 {
            assert(parts(front.last(), a.text[0]));
        } else {
            assert(front =~= Seq::<Jt>::empty());
        }
        run_add(front, two);
        let all = lined(lines, pad(level));
        assert(all == front + two);
        assert(all.last() == b);
        if init.len() > 0 {
            assert(all[0] == front[0]);
        } else {
            assert(all[0] == a);
        }
    }
}

proof fn run_reads(lines: Seq<Seq<char>>, level: nat, q: nat)
    ensures
        run_ok(run(lines, pad(level), pad(q))),
        run(lines, pad(level), pad(q)).len() > 0,
        run(lines, pad(level), pad(q))[0].text[0] == '\n',
{
    lined_reads(lines, level);
    break_reads(q);
    let w = ws(seq!['\n'] + pad(q));
    one_run(w);
    let front = lined(lines, pad(level));
    if lines.len() == 0 {
        assert(front =~= Seq::<Jt>::empty());
    }
    run_add(front, seq![w]);
    let all = run(lines, pad(level), pad(q));
    assert(all.last() == w);
    if lines.len() > 0 {
        assert(all[0] == front[0]);
    } else {
        assert(all[0] == w);
    }
}

proof fn gap_reads(n: Notes, next: Seq<Seq<char>>, level: nat, q: nat)
    ensures
        run_ok(gap(n, next, pad(level), pad(q))),
{
    run_reads(n.foot + next, level, q);
    let r = run(n.foot + next, pad(level), pad(q));
    match n.inline {
        Some(t) => {
            let a = ws(seq![' ']);
            let b = slashed(t);
            break_reads(level);
            slashed_reads(t);
            one_run(a);
            one_run(b);
            assert(seq![a, b] =~= seq![a] + seq![b]);
            run_add(seq![a], seq![b]);
            assert(behind(n.inline).last() == b);
            run_add(behind(n.inline), r);
        },
        None => {
            assert(Seq::<Jt>::empty() + r =~= r);
        },
    }
}

proof fn pads_next(more: bool, level: nat)
    ensures
        next_pad(more, level) == pad(if more {
            level + 1
        } else {
            level
        }),
{
}

proof fn element_reads(x: Seq<Val>, i: int, fx: Facts)
    requires
        0 <= i < x.len(),
    ensures
        numbers_good(Val::Array(x), false, fx) ==> numbers_good(x[i], false, fx),
        crate::json_laws::reads_alike(Val::Array(x), false) ==> crate::json_laws::reads_alike(x[i], false),
{
    let v = Val::Array(x);
    assert(v->Array_0[i] == x[i]);
    if numbers_good(v, false, fx) {
        assert(numbers_good(v->Array_0[i], false, fx));
    }
    if crate::json_laws::reads_alike(v, false) {
        assert(crate::json_laws::reads_alike(v->Array_0[i], false));
    }
}

proof fn member_reads(x: Seq<(Seq<char>, Val)>, i: int, fx: Facts)
    requires
        0 <= i < x.len(),
    ensures
        numbers_good(Val::Object(x), false, fx) ==> numbers_good(x[i].1, false, fx),
        crate::json_laws::reads_alike(Val::Object(x), false) ==> crate::json_laws::reads_alike(
            x[i].1,
            false,
        ),
{
    let v = Val::Object(x);
    assert(v->Object_0[i] == x[i]);
    if numbers_good(v, false, fx) {
        assert(numbers_good(v->Object_0[i].1, false, fx));
    }
    if crate::json_laws::reads_alike(v, false) {
        assert(crate::json_laws::reads_alike(v->Object_0[i].1, false));
    }
}

#[verifier::rlimit(60)]
#[verifier::spinoff_prover]
proof fn noted_good(c: Cmt, level: nat, fx: Facts)
    requires
        numbers_good(plain(c), false, fx),
    ensures
        node_good(noted_js(c, level), fx),
    decreases c,
{
    match c.node {
        CmtNode::Scalar(v) => {
            fresh_good(v, false, fx);
        },
        CmtNode::Array(a) => {
            assert(plain(c) == Val::Array(plain_all(a)));
            assert(plain_all(a).len() == a.len());
            assert(numbers_good(Val::Array(plain_all(a)), false, fx));
            if a.len() > 0 {
                let es = noted_items(a, level, a.len());
                items_at(a, level, a.len());
                run_reads(next_head(a, 0), level + 1, level + 1);
                assert forall|i: int| 0 <= i < es.len() implies fit(#[trigger] es[i], false, fx) && (i < es.len()
                    - 1 ==> es[i].comma is Some) by {
                    assert(plain_all(a)[i] == plain(a[i]));
                    element_reads(plain_all(a), i, fx);
                    noted_good(a[i], level + 1, fx);
                    let q: nat = if i + 1 < a.len() {
                        level + 1
                    } else {
                        level
                    };
                    gap_reads(a[i].notes, next_head(a, (i + 1) as nat), level + 1, q);
                }
                fit_entries(es, false, run(next_head(a, 0), pad(level + 1), pad(level + 1)), fx);
            }
        },
        CmtNode::Object(m) => {
            assert(plain(c) == Val::Object(plain_members(m)));
            assert(plain_members(m).len() == m.len());
            assert(numbers_good(Val::Object(plain_members(m)), false, fx));
            if m.len() > 0 {
                let es = noted_members(m, level, m.len());
                members_at(m, level, m.len());
                run_reads(next_member_head(m, 0), level + 1, level + 1);
                reveal_strlit(" ");
                break_reads(level);
                assert(" "@ =~= seq![' ']);
                assert(space(" "@) =~= seq![ws(seq![' '])]);
                assert(run_ok(space(" "@))) by {
                    one_run(ws(seq![' ']));
                    assert(space(" "@).last().kind == Tok::Ws);
                }
                assert forall|i: int| 0 <= i < es.len() implies fit(#[trigger] es[i], true, fx) && (i < es.len()
                    - 1 ==> es[i].comma is Some) by {
                    assert(plain_members(m)[i] == (m[i].0, plain(m[i].1)));
                    member_reads(plain_members(m), i, fx);
                    noted_good(m[i].1, level + 1, fx);
                    string_reads(m[i].0);
                    let q: nat = if i + 1 < m.len() {
                        level + 1
                    } else {
                        level
                    };
                    gap_reads(m[i].1.notes, next_member_head(m, (i + 1) as nat), level + 1, q);
                }
                fit_entries(es, true, run(next_member_head(m, 0), pad(level + 1), pad(level + 1)), fx);
            }
        },
    }
}

#[verifier::rlimit(60)]
#[verifier::spinoff_prover]
proof fn noted_value(c: Cmt, level: nat)
    requires
        crate::json_laws::reads_alike(plain(c), false),
    ensures
        js_val(noted_js(c, level)) == plain(c),
    decreases c,
{
    match c.node {
        CmtNode::Scalar(v) => {
            fresh_reads_back(v, false);
        },
        CmtNode::Array(a) => {
            assert(plain(c) == Val::Array(plain_all(a)));
            assert(plain_all(a).len() == a.len());
            assert(crate::json_laws::reads_alike(Val::Array(plain_all(a)), false));
            let es = if a.len() == 0 {
                Seq::<En>::empty()
            } else {
                noted_items(a, level, a.len())
            };
            items_at(a, level, a.len());
            vals_are(es, es.len());
            assert forall|i: int| 0 <= i < a.len() implies js_val(#[trigger] es[i].value) == plain_all(a)[i] by {
                assert(plain_all(a)[i] == plain(a[i]));
                element_reads(plain_all(a), i, Facts { parsed: Seq::empty(), computed: Seq::empty() });
                noted_value(a[i], level + 1);
            }
            assert(es_vals(es, es.len()) =~= plain_all(a));
        },
        CmtNode::Object(m) => {
            assert(plain(c) == Val::Object(plain_members(m)));
            assert(plain_members(m).len() == m.len());
            assert(crate::json_laws::reads_alike(Val::Object(plain_members(m)), false));
            let es = if m.len() == 0 {
                Seq::<En>::empty()
            } else {
                noted_members(m, level, m.len())
            };
            members_at(m, level, m.len());
            members_are(es, es.len());
            assert forall|i: int| 0 <= i < m.len() implies #[trigger] es_members(es, es.len())[i]
                == plain_members(m)[i] by {
                assert(plain_members(m)[i] == (m[i].0, plain(m[i].1)));
                member_reads(plain_members(m), i, Facts { parsed: Seq::empty(), computed: Seq::empty() });
                noted_value(m[i].1, level + 1);
                string_reads_back(m[i].0);
            }
            assert(es_members(es, es.len()) =~= plain_members(m));
        },
    }
}

// Comments.

proof fn slashed_add(a: Seq<Seq<char>>, b: Seq<Seq<char>>)
    ensures
        all_slashed(a + b) == all_slashed(a) + all_slashed(b),
{
    assert(all_slashed(a + b) =~= all_slashed(a) + all_slashed(b));
}

proof fn notes_single(x: Jt)
    ensures
        notes(seq![x]) == (if x.kind == Tok::LineComment || x.kind == Tok::BlockComment {
            seq![x]
        } else {
            Seq::empty()
        }),
{
    assert(seq![x].drop_last() =~= Seq::<Jt>::empty());
    assert(notes(Seq::<Jt>::empty()) =~= Seq::<Jt>::empty());
    assert(Seq::<Jt>::empty().push(x) =~= seq![x]);
}

proof fn lined_notes(lines: Seq<Seq<char>>, p: Seq<char>)
    ensures
        notes(lined(lines, p)) == all_slashed(lines),
    decreases lines.len(),
{
    if lines.len() == 0 {
        assert(notes(lined(lines, p)) =~= all_slashed(lines));
    } else {
        let init = lines.drop_last();
        lined_notes(init, p);
        let a = ws(seq!['\n'] + p);
        let b = slashed(lines.last());
        assert(seq![a, b] =~= seq![a] + seq![b]);
        notes_add(seq![a], seq![b]);
        notes_single(a);
        notes_single(b);
        notes_add(lined(init, p), seq![a, b]);
        assert(notes(lined(lines, p)) =~= all_slashed(lines));
    }
}

proof fn run_notes(lines: Seq<Seq<char>>, p: Seq<char>, q: Seq<char>)
    ensures
        notes(run(lines, p, q)) == all_slashed(lines),
{
    lined_notes(lines, p);
    let w = ws(seq!['\n'] + q);
    notes_single(w);
    notes_add(lined(lines, p), seq![w]);
    assert(all_slashed(lines) + Seq::<Jt>::empty() =~= all_slashed(lines));
}

proof fn gap_notes(n: Notes, next: Seq<Seq<char>>, p: Seq<char>, q: Seq<char>)
    ensures
        notes(gap(n, next, p, q)) == all_slashed(opt_line(n.inline) + n.foot + next),
{
    run_notes(n.foot + next, p, q);
    notes_add(behind(n.inline), run(n.foot + next, p, q));
    match n.inline {
        Some(t) => {
            let a = ws(seq![' ']);
            let b = slashed(t);
            assert(seq![a, b] =~= seq![a] + seq![b]);
            notes_add(seq![a], seq![b]);
            notes_single(a);
            notes_single(b);
            assert(notes(behind(n.inline)) =~= all_slashed(seq![t]));
        },
        None => {
            assert(notes(behind(n.inline)) =~= all_slashed(Seq::<Seq<char>>::empty()));
        },
    }
    slashed_add(opt_line(n.inline), n.foot + next);
    assert(opt_line(n.inline) + n.foot + next =~= opt_line(n.inline) + (n.foot + next));
}

proof fn fresh_has_no_notes(v: Val)
    ensures
        notes(node_toks(fresh(v, false))).len() == 0,
    decreases v, 2int, 0nat,
{
    match v {
        Val::Array(a) => {
            let es = crate::json_spell::fresh_items(a, false, a.len());
            items_have_no_notes(a, a.len());
            quiet_container(false, es);
        },
        Val::Object(m) => {
            let es = crate::json_spell::fresh_members(m, false, m.len());
            members_have_no_notes(m, m.len());
            quiet_container(true, es);
        },
        _ => {
            if let Js::Scalar(l) = fresh(v, false) {
                notes_single(l.token);
            }
        },
    }
}

/// An entry without comments.
spec fn quiet(e: En) -> bool {
    notes(key_toks(e.key)).len() == 0 && notes(node_toks(e.value)).len() == 0 && notes(
        comma_toks(e.comma),
    ).len() == 0 && notes(e.after).len() == 0
}

proof fn quiet_entry(e: En)
    requires
        quiet(e),
    ensures
        notes(en_toks(e)).len() == 0,
{
    let kv = key_toks(e.key) + node_toks(e.value);
    notes_add(key_toks(e.key), node_toks(e.value));
    notes_add(kv, comma_toks(e.comma));
    notes_add(kv + comma_toks(e.comma), e.after);
}

proof fn quiet_entries(es: Seq<En>, i: int)
    requires
        0 <= i <= es.len(),
        forall|k: int| 0 <= k < es.len() ==> quiet(#[trigger] es[k]),
    ensures
        notes(es_toks(es, i)).len() == 0,
    decreases es.len() - i,
{
    if i < es.len() {
        quiet_entries(es, i + 1);
        assert(quiet(es[i]));
        quiet_entry(es[i]);
        notes_add(en_toks(es[i]), es_toks(es, i + 1));
    }
}

proof fn quiet_container(object: bool, es: Seq<En>)
    requires
        forall|k: int| 0 <= k < es.len() ==> quiet(#[trigger] es[k]),
    ensures
        notes(seq![opener(object)] + Seq::<Jt>::empty() + es_toks(es, 0) + seq![shutter(object)]).len() == 0,
{
    quiet_entries(es, 0);
    let o = seq![opener(object)];
    let none = Seq::<Jt>::empty();
    notes_single(opener(object));
    notes_single(shutter(object));
    notes_add(o, none);
    notes_add(o + none, es_toks(es, 0));
    notes_add(o + none + es_toks(es, 0), seq![shutter(object)]);
}

proof fn comma_has_no_notes(n: nat, len: nat)
    ensures
        notes(comma_toks(comma_after(n, len))).len() == 0,
{
    let m = mark(Tok::Comma, ',');
    notes_single(m);
    assert(Seq::<Jt>::empty() + seq![m] =~= seq![m]);
}

proof fn key_has_no_notes(k: Seq<char>, lead: Seq<Jt>)
    requires
        notes(lead).len() == 0,
    ensures
        notes(key_toks(Some(fresh_key(k, lead)))).len() == 0,
{
    let x = fresh_key(k, lead);
    let c = mark(Tok::Colon, ':');
    notes_single(x.token);
    notes_single(c);
    notes_add(seq![x.token], x.gap);
    notes_add(seq![x.token] + x.gap, seq![c]);
    notes_add(seq![x.token] + x.gap + seq![c], lead);
}

proof fn items_have_no_notes(a: Seq<Val>, n: nat)
    requires
        n <= a.len(),
    ensures
        forall|k: int|
            0 <= k < crate::json_spell::fresh_items(a, false, n).len() ==> quiet(
                #[trigger] crate::json_spell::fresh_items(a, false, n)[k],
            ),
    decreases a, 1int, n,
{
    if n > 0 {
        items_have_no_notes(a, (n - 1) as nat);
        fresh_has_no_notes(a[n - 1]);
        comma_has_no_notes(n, a.len());
        assert(notes(Seq::<Jt>::empty()).len() == 0);
        let es = crate::json_spell::fresh_items(a, false, n);
        let init = crate::json_spell::fresh_items(a, false, (n - 1) as nat);
        assert forall|k: int| 0 <= k < es.len() implies quiet(#[trigger] es[k]) by {
            if k < init.len() {
                assert(es[k] == init[k]);
            }
        }
    }
}

proof fn members_have_no_notes(m: Seq<(Seq<char>, Val)>, n: nat)
    requires
        n <= m.len(),
    ensures
        forall|k: int|
            0 <= k < crate::json_spell::fresh_members(m, false, n).len() ==> quiet(
                #[trigger] crate::json_spell::fresh_members(m, false, n)[k],
            ),
    decreases m, 1int, n,
{
    if n > 0 {
        members_have_no_notes(m, (n - 1) as nat);
        fresh_has_no_notes(m[n - 1].1);
        comma_has_no_notes(n, m.len());
        assert(notes(Seq::<Jt>::empty()).len() == 0);
        key_has_no_notes(m[n - 1].0, Seq::empty());
        let es = crate::json_spell::fresh_members(m, false, n);
        let init = crate::json_spell::fresh_members(m, false, (n - 1) as nat);
        assert forall|k: int| 0 <= k < es.len() implies quiet(#[trigger] es[k]) by {
            if k < init.len() {
                assert(es[k] == init[k]);
            }
        }
    }
}

/// The comments of an entry: those inside its value and those behind it.
proof fn entry_notes(e: En, inner: Seq<Seq<char>>, after: Seq<Seq<char>>)
    requires
        notes(key_toks(e.key)).len() == 0,
        notes(node_toks(e.value)) == all_slashed(inner),
        notes(comma_toks(e.comma)).len() == 0,
        notes(e.after) == all_slashed(after),
    ensures
        notes(en_toks(e)) == all_slashed(inner + after),
{
    let kv = key_toks(e.key) + node_toks(e.value);
    notes_add(key_toks(e.key), node_toks(e.value));
    notes_add(kv, comma_toks(e.comma));
    notes_add(kv + comma_toks(e.comma), e.after);
    slashed_add(inner, after);
    assert(notes(en_toks(e)) =~= all_slashed(inner) + all_slashed(after));
}

proof fn first_notes(es: Seq<En>, e: En, n: nat)
    requires
        es.len() == n,
    ensures
        notes(crate::json_keep_laws::first_toks(es.push(e), n + 1)) == notes(
            crate::json_keep_laws::first_toks(es, n),
        ) + notes(en_toks(e)),
{
    let all = es.push(e);
    crate::json_keep_laws::first_same(all, es, n);
    notes_add(crate::json_keep_laws::first_toks(es, n), en_toks(e));
    assert(all[n as int] == e);
}

proof fn regroup_lines(x: Seq<Seq<char>>, h: Seq<Seq<char>>, i: Seq<Seq<char>>, l: Seq<Seq<char>>, f: Seq<Seq<char>>, z: Seq<Seq<char>>)
    ensures
        (x + h) + (i + (l + f + z)) == (x + (h + i + l + f)) + z,
{
    assert((x + h) + (i + (l + f + z)) =~= (x + (h + i + l + f)) + z);
}

/// The comments in front of entry `n`, and its head.
proof fn items_notes(a: Seq<Cmt>, level: nat, n: nat)
    requires
        n <= a.len(),
    ensures
        all_slashed(next_head(a, 0)) + notes(
            crate::json_keep_laws::first_toks(noted_items(a, level, n), n),
        ) == all_slashed(element_comments(a, n) + next_head(a, n)),
    decreases a, 1int, n,
{
    if n == 0 {
        assert(element_comments(a, 0) + next_head(a, 0) =~= next_head(a, 0));
        assert(crate::json_keep_laws::first_toks(noted_items(a, level, 0), 0) == Seq::<Jt>::empty());
        assert(notes(Seq::<Jt>::empty()) == Seq::<Jt>::empty());
        assert(all_slashed(next_head(a, 0)) + Seq::<Jt>::empty() =~= all_slashed(next_head(a, 0)));
    } else {
        items_notes(a, level, (n - 1) as nat);
        let c = a[n - 1];
        let init = noted_items(a, level, (n - 1) as nat);
        items_at(a, level, (n - 1) as nat);
        items_at(a, level, n);
        let e = noted_items(a, level, n)[n - 1];
        noted_notes(c, level + 1);
        comma_has_no_notes(n, a.len());
        gap_notes(c.notes, next_head(a, n), pad(level + 1), next_pad(n < a.len(), level));
        let after = opt_line(c.notes.inline) + c.notes.foot + next_head(a, n);
        assert(key_toks(e.key) == Seq::<Jt>::empty());
        assert(notes(Seq::<Jt>::empty()).len() == 0);
        entry_notes(e, inner_comments(c), after);
        assert(noted_items(a, level, n) == init.push(e));
        first_notes(init, e, (n - 1) as nat);
        let x = element_comments(a, (n - 1) as nat);
        assert(next_head(a, (n - 1) as nat) == c.notes.head);
        assert(element_comments(a, n) == x + all_comments(c));
        assert(notes(key_toks(e.key)).len() == 0);
        slashed_add(x + c.notes.head, inner_comments(c) + after);
        regroup_lines(x, c.notes.head, inner_comments(c), opt_line(c.notes.inline), c.notes.foot, next_head(a, n));
        let ft = notes(crate::json_keep_laws::first_toks(init, (n - 1) as nat));
        assert(all_slashed(next_head(a, 0)) + (ft + notes(en_toks(e))) =~= (all_slashed(
            next_head(a, 0),
        ) + ft) + notes(en_toks(e)));
    }
}

proof fn member_items_notes(m: Seq<(Seq<char>, Cmt)>, level: nat, n: nat)
    requires
        n <= m.len(),
    ensures
        all_slashed(next_member_head(m, 0)) + notes(
            crate::json_keep_laws::first_toks(noted_members(m, level, n), n),
        ) == all_slashed(member_comments(m, n) + next_member_head(m, n)),
    decreases m, 1int, n,
{
    if n == 0 {
        assert(member_comments(m, 0) + next_member_head(m, 0) =~= next_member_head(m, 0));
        assert(crate::json_keep_laws::first_toks(noted_members(m, level, 0), 0) == Seq::<Jt>::empty());
        assert(notes(Seq::<Jt>::empty()) == Seq::<Jt>::empty());
        assert(all_slashed(next_member_head(m, 0)) + Seq::<Jt>::empty() =~= all_slashed(
            next_member_head(m, 0),
        ));
    } else {
        member_items_notes(m, level, (n - 1) as nat);
        let c = m[n - 1].1;
        let init = noted_members(m, level, (n - 1) as nat);
        members_at(m, level, (n - 1) as nat);
        members_at(m, level, n);
        let e = noted_members(m, level, n)[n - 1];
        noted_notes(c, level + 1);
        comma_has_no_notes(n, m.len());
        reveal_strlit(" ");
        notes_single(ws(" "@));
        key_has_no_notes(m[n - 1].0, space(" "@));
        gap_notes(c.notes, next_member_head(m, n), pad(level + 1), next_pad(n < m.len(), level));
        let after = opt_line(c.notes.inline) + c.notes.foot + next_member_head(m, n);
        entry_notes(e, inner_comments(c), after);
        assert(noted_members(m, level, n) == init.push(e));
        first_notes(init, e, (n - 1) as nat);
        let x = member_comments(m, (n - 1) as nat);
        assert(next_member_head(m, (n - 1) as nat) == c.notes.head);
        assert(member_comments(m, n) == x + all_comments(c));
        slashed_add(x + c.notes.head, inner_comments(c) + after);
        regroup_lines(x, c.notes.head, inner_comments(c), opt_line(c.notes.inline), c.notes.foot, next_member_head(m, n));
        let ft = notes(crate::json_keep_laws::first_toks(init, (n - 1) as nat));
        assert(all_slashed(next_member_head(m, 0)) + (ft + notes(en_toks(e))) =~= (all_slashed(
            next_member_head(m, 0),
        ) + ft) + notes(en_toks(e)));
    }
}

proof fn box_notes(object: bool, pre: Seq<Jt>, es: Seq<En>)
    ensures
        notes(seq![opener(object)] + pre + es_toks(es, 0) + seq![shutter(object)]) == notes(pre) + notes(
            crate::json_keep_laws::first_toks(es, es.len()),
        ),
{
    crate::json_keep_laws::toks_cut(es, es.len() as int);
    let o = seq![opener(object)];
    let s = seq![shutter(object)];
    notes_single(opener(object));
    notes_single(shutter(object));
    notes_add(o, pre);
    notes_add(o + pre, es_toks(es, 0));
    notes_add(o + pre + es_toks(es, 0), s);
    let f = crate::json_keep_laws::first_toks(es, es.len());
    assert(es_toks(es, es.len() as int) == Seq::<Jt>::empty());
    assert(f + Seq::<Jt>::empty() =~= f);
    assert(notes(o + pre + es_toks(es, 0) + s) =~= notes(pre) + notes(f));
}

/// The comments in a node's tree are those inside the node.
proof fn noted_notes(c: Cmt, level: nat)
    ensures
        notes(node_toks(noted_js(c, level))) == all_slashed(inner_comments(c)),
    decreases c, 2int, 0nat,
{
    match c.node {
        CmtNode::Scalar(v) => {
            fresh_has_no_notes(v);
            assert(notes(node_toks(noted_js(c, level))) =~= all_slashed(inner_comments(c)));
        },
        CmtNode::Array(a) => {
            if a.len() == 0 {
                quiet_container(false, Seq::empty());
                assert(notes(node_toks(noted_js(c, level))) =~= all_slashed(inner_comments(c)));
            } else {
                let es = noted_items(a, level, a.len());
                let pre = run(next_head(a, 0), pad(level + 1), pad(level + 1));
                items_at(a, level, a.len());
                box_notes(false, pre, es);
                run_notes(next_head(a, 0), pad(level + 1), pad(level + 1));
                items_notes(a, level, a.len());
                assert(element_comments(a, a.len()) + next_head(a, a.len()) =~= element_comments(
                    a,
                    a.len(),
                ));
            }
        },
        CmtNode::Object(m) => {
            if m.len() == 0 {
                quiet_container(true, Seq::empty());
                assert(notes(node_toks(noted_js(c, level))) =~= all_slashed(inner_comments(c)));
            } else {
                let es = noted_members(m, level, m.len());
                let pre = run(next_member_head(m, 0), pad(level + 1), pad(level + 1));
                members_at(m, level, m.len());
                box_notes(true, pre, es);
                run_notes(next_member_head(m, 0), pad(level + 1), pad(level + 1));
                member_items_notes(m, level, m.len());
                assert(member_comments(m, m.len()) + next_member_head(m, m.len()) =~= member_comments(
                    m,
                    m.len(),
                ));
            }
        },
    }
}

// The document.

/// Comment lines, each with a line break behind it.
spec fn led(lines: Seq<Seq<char>>) -> Seq<Jt>
    decreases lines.len(),
{
    if lines.len() == 0 {
        Seq::empty()
    } else {
        led(lines.drop_last()) + seq![slashed(lines.last()), ws(seq!['\n'])]
    }
}

proof fn led_facts(lines: Seq<Seq<char>>)
    ensures
        run_ok(led(lines)),
        toks_text(led(lines)) == note_rows(0, lines, lines.len()),
        notes(led(lines)) == all_slashed(lines),
    decreases lines.len(),
{
    reveal_strlit("\n");
    toks_none();
    if lines.len() == 0 {
        assert(notes(led(lines)) =~= all_slashed(lines));
        assert(note_rows(0, lines, 0) =~= Seq::<char>::empty());
    } else {
        let init = lines.drop_last();
        let x = lines.last();
        led_facts(init);
        let a = slashed(x);
        let b = ws(seq!['\n']);
        slashed_reads(x);
        break_reads(0);
        assert(seq!['\n'] + pad(0) =~= seq!['\n']);
        one_run(a);
        one_run(b);
        let two = seq![a, b];
        assert(two =~= seq![a] + seq![b]);
        run_add(seq![a], seq![b]);
        let front = led(init);
        if front.len() > 0 {
            assert(front.last() == ws(seq!['\n'])) by {
                if init.len() > 0 {
                    assert(front == led(init.drop_last()) + seq![slashed(init.last()), ws(seq!['\n'])]);
                }
            }
            assert(parts(front.last(), a.text[0]));
        }
        run_add(front, two);
        assert(two.last() == b);
        toks_add(front, two);
        toks_add(seq![a], seq![b]);
        toks_one(a);
        toks_one(b);
        rows_front(0, init, seq![x], init.len());
        assert(init + seq![x] =~= lines);
        assert(toks_text(led(lines)) =~= note_rows(0, lines, lines.len()));
        notes_add(front, two);
        notes_add(seq![a], seq![b]);
        notes_single(a);
        notes_single(b);
        assert(notes(led(lines)) =~= all_slashed(lines));
    }
}

/// A commented value written as JSONC is JSONC: it parses back with the value, and its
/// comments are those of the value, all of them and in order.
#[verifier::rlimit(60)]
#[verifier::spinoff_prover]
pub proof fn commented_json_parses_back(c: Cmt, fx: Facts)
    requires
        numbers_read(plain(c), fx),
    ensures
        ({
            let back = jsonc_parsed(jsonc_emitted(c), fx);
            &&& back is Ok
            &&& js_val(back->Ok_0.value) == plain(c)
            &&& notes(json_tokens(jsonc_emitted(c), 0)) == all_slashed(all_comments(c))
        }),
{
    numbers_fit(plain(c), fx);
    noted_good(c, 0, fx);
    noted_value(c, 0);
    node_written(c, 0);
    noted_notes(c, 0);
    led_facts(c.notes.head);
    let none = Seq::<Seq<char>>::empty();
    gap_reads(c.notes, none, 0, 0);
    gap_text(c.notes, none, 0, pad(0));
    gap_notes(c.notes, none, pad(0), pad(0));
    let d = JsoncDoc {
        head: led(c.notes.head),
        value: noted_js(c, 0),
        tail: gap(c.notes, none, pad(0), pad(0)),
        json5: false,
        bom: false,
    };
    assert(doc_good(d, fx));
    reveal_strlit("\n");
    assert(jsonc_source(d) =~= jsonc_emitted(c)) by {
        assert(note_rows(0, none, 0) =~= Seq::<char>::empty());
        assert("\n"@ =~= seq!['\n']);
        assert(toks_text(d.tail) =~= inline_row(c.notes.inline) + seq!['\n'] + note_rows(
            0,
            c.notes.foot,
            c.notes.foot.len(),
        ));
    }
    good_text_parses_back(d, fx);
    doc_reads(d, fx);
    tokens_read_back(doc_toks(d));
    let v = node_toks(d.value);
    notes_add(d.head, v);
    notes_add(d.head + v, d.tail);
    let inner = inner_comments(c);
    let rest = opt_line(c.notes.inline) + c.notes.foot;
    assert(rest + none =~= rest);
    slashed_add(c.notes.head, inner);
    slashed_add(c.notes.head + inner, rest);
    assert(c.notes.head + inner + rest =~= all_comments(c));
}

} // verus!
