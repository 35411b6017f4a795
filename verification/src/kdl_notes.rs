//! Writing comments into a KDL tree, and emitting a value, plain or commented, as
//! KDL.
use crate::comment::plain;
use crate::error::{fail, EditError, Er};
use crate::index::{resolve_index, resolved};
use crate::kdl_change::{
    arg_slots, find_args, find_nodes, find_prop, ints, occurrences, prop_slot, value_nodes_fresh,
};
use crate::kdl_edit::{ambiguous, beyond, refuse_ambiguous, refuse_beyond, with_node};
use crate::kdl_items::{format_node, formatted, fresh, print_tree, printed};
use crate::kdl_nodes::{args_key, value_nodes, value_to_nodes};
use crate::kdl_tree::{group_kdl_views, kns, no_nf, Kd, Kdoc, Kn, Knode, Nf, NodeForm};
use crate::line_comment::{one_line, sanitize_comment_line};
use crate::lines::{flat, flat_push, lines_of, split_lines};
use crate::model::{
    array_view, cmt_members, cmts, group_comment_views, members, object_view, steps_of, texts, Cmt,
    CmtNode, CommentKind, Commented, CommentedNode, Notes, St, Step, Val, Value,
};
use crate::mutate::{attempt, done};
use crate::rows::emission;
use crate::strs::{cat, chars_of, same, slice_text, trim};
use crate::text::{blanks_end, skip_blanks};
use crate::toml_notes::leading_blank;
use crate::toml_spell::{find_last_break, last_break, last_break_bounds};
use crate::wrap::{budget_of, wrap_comment, wrapped};
use vstd::prelude::*;

verus! {

broadcast use {group_kdl_views, group_comment_views, array_view, object_view};

/// The blanks that start the last line of the text before a node.
pub open spec fn indent_of(leading: Seq<char>) -> Seq<char> {
    let tail = leading.skip(last_break(leading) + 1);
    tail.take(blanks_end(tail, 0))
}

/// The text before a node.
pub open spec fn leading_of(n: Kn) -> Seq<char> {
    match n.form {
        Some(f) => f.leading,
        None => Seq::empty(),
    }
}

/// The first `n` comment lines, each at the indentation.
pub open spec fn slash_lines(indent: Seq<char>, lines: Seq<Seq<char>>, n: nat) -> Seq<char>
    decreases n,
{
    if n == 0 || n > lines.len() {
        Seq::empty()
    } else {
        slash_lines(indent, lines, (n - 1) as nat) + (indent + "// "@ + lines[n - 1] + "\n"@)
    }
}

/// The text before a node with `wrapped` as its comment block: leading blank lines
/// and the indentation stay, old comments go.
pub open spec fn rebuilt_leading(existing: Seq<char>, lines: Seq<Seq<char>>) -> Seq<char> {
    let ls = lines_of(existing);
    let indent = indent_of(existing);
    flat(ls.take(leading_blank(ls, 0))) + slash_lines(indent, lines, lines.len()) + indent
}

/// Does the text hold a `\r\n`?
pub open spec fn holds_crlf(s: Seq<char>) -> bool {
    exists|i: int| 0 <= i && i + 1 < s.len() && #[trigger] s[i] == '\r' && s[i + 1] == '\n'
}

/// The line ending of a node's terminator.
pub open spec fn ending_of(n: Kn) -> Seq<char> {
    match n.form {
        Some(f) => if holds_crlf(f.terminator) {
            "\r\n"@
        } else {
            "\n"@
        },
        None => "\n"@,
    }
}

/// The node with its comment of a kind rewritten, to a text or to none. A head
/// wraps to the width; an inline comment never wraps.
pub open spec fn noted_node(n: Kn, kind: CommentKind, text: Option<Seq<char>>, width: int) -> Kn {
    let f = match n.form {
        Some(f) => f,
        None => no_nf(),
    };
    let next = match kind {
        CommentKind::Head => Nf {
            leading: rebuilt_leading(
                leading_of(n),
                match text {
                    Some(t) => wrapped(t, budget_of(width, indent_of(leading_of(n)).len() as int, 3)),
                    None => Seq::empty(),
                },
            ),
            ..f
        },
        _ => Nf {
            terminator: match text {
                Some(t) => " // "@ + one_line(t) + ending_of(n),
                None => ending_of(n),
            },
            ..f
        },
    };
    Kn { form: Some(next), ..n }
}

/// What a path of nodes leads to in a document: the node's comment is rewritten.
pub open spec fn note_walk(
    d: Kd,
    p: Seq<St>,
    i: int,
    kind: CommentKind,
    text: Option<Seq<char>>,
    width: int,
) -> Result<Kd, Er>
    decreases p.len() - i, 0int,
{
    if i >= p.len() || !(p[i] is Field) {
        Err(fail("document-level (`.#`) comment editing for KDL is a follow-up"@))
    } else {
        let name = p[i]->Field_0;
        let occ = occurrences(d.nodes, name, d.nodes.len());
        if occ.len() == 0 {
            Err(fail("no node `"@ + name + "`"@))
        } else if i + 1 < p.len() && p[i + 1] is Index {
            match resolved(p[i + 1]->Index_0 as int, occ.len() as int) {
                None => Err(beyond(name)),
                Some(at) => with_node(
                    d,
                    occ[at],
                    note_below(d.nodes[occ[at]], name, p, i + 2, kind, text, width),
                ),
            }
        } else if occ.len() != 1 {
            Err(ambiguous(name))
        } else {
            with_node(
                d,
                occ[0],
                note_below(d.nodes[occ[0]], name, p, i + 1, kind, text, width),
            )
        }
    }
}

/// The node with the comment the rest of a path leads to rewritten.
pub open spec fn note_below(
    n: Kn,
    name: Seq<char>,
    p: Seq<St>,
    i: int,
    kind: CommentKind,
    text: Option<Seq<char>>,
    width: int,
) -> Result<Kn, Er>
    decreases p.len() - i, 1int,
{
    if i >= p.len() {
        Ok(noted_node(n, kind, text, width))
    } else {
        match n.children {
            None => Err(
                fail("`"@ + name + "` has no child nodes (comments attach to nodes)"@),
            ),
            Some(d) => match note_walk(d, p, i, kind, text, width) {
                Err(e) => Err(e),
                Ok(x) => Ok(Kn { children: Some(x), ..n }),
            },
        }
    }
}

/// Does the rest of a path lead to a property or an argument of the node?
pub open spec fn entry_there(n: Kn, p: Seq<St>, i: int) -> bool {
    let count = arg_slots(n.args, n.args.len()).len() as int;
    if i + 1 == p.len() {
        match p[i] {
            St::Field(k) => prop_slot(n.args, k, n.args.len()) >= 0 || (k == args_key() && count
                > 0),
            St::Index(x) => resolved(x as int, count) is Some,
            _ => false,
        }
    } else {
        i + 2 == p.len() && p[i] == St::Field(args_key()) && p[i + 1] is Index && resolved(
            p[i + 1]->Index_0 as int,
            count,
        ) is Some
    }
}

/// Is there nothing in the document that a path leads to? A property or an argument
/// is there, though it takes no comment.
pub open spec fn note_misses(d: Kd, p: Seq<St>, i: int) -> bool
    decreases p.len() - i,
{
    if i >= p.len() || !(p[i] is Field) {
        false
    } else {
        let occ = occurrences(d.nodes, p[i]->Field_0, d.nodes.len());
        let indexed = i + 1 < p.len() && p[i + 1] is Index;
        let at = if indexed {
            resolved(p[i + 1]->Index_0 as int, occ.len() as int)
        } else {
            Some(0)
        };
        let next = if indexed {
            i + 2
        } else {
            i + 1
        };
        if occ.len() == 0 {
            true
        } else if at is None {
            !(occ.len() == 1 && entry_there(d.nodes[occ[0]], p, i + 1))
        } else if (!indexed && occ.len() != 1) || next >= p.len() {
            false
        } else {
            let n = d.nodes[occ[at->0]];
            !entry_there(n, p, next) && match n.children {
                None => p[next] is Field || p[next] is Index,
                Some(c) => p[next] is Index || note_misses(c, p, next),
            }
        }
    }
}

fn indent_text(leading: &str) -> (r: String)
    ensures
        r@ == indent_of(leading@),
{
    let cs = chars_of(leading);
    proof {
        last_break_bounds(leading@);
    }
    let from: usize = match find_last_break(&cs) {
        Some(i) => i + 1,
        None => 0,
    };
    let tail = slice_text(&cs, from, cs.len());
    assert(tail@ =~= leading@.skip(last_break(leading@) + 1));
    let ts = chars_of(&tail);
    let e: usize = skip_blanks(&ts, 0);
    let r = slice_text(&ts, 0, e);
    assert(r@ =~= tail@.take(e as int));
    r
}

fn push_slash_lines(out: &mut String, indent: &str, lines: &Vec<String>)
    ensures
        final(out)@ == old(out)@ + slash_lines(indent@, texts(lines@), lines.len() as nat),
{
    let ghost before = out@;
    let ghost all = texts(lines@);
    let mut i: usize = 0;
    assert(out@ =~= before + slash_lines(indent@, all, 0));
    while i < lines.len()
        invariant
            i <= lines.len(),
            all == texts(lines@),
            out@ == before + slash_lines(indent@, all, i as nat),
        decreases lines.len() - i,
    {
        assert(all[i as int] == lines@[i as int]@);
        out.append(indent);
        out.append("// ");
        out.append(&lines[i]);
        out.append("\n");
        i = i + 1;
        assert(out@ =~= before + slash_lines(indent@, all, i as nat));
    }
}

fn rebuild_leading(existing: &str, lines: &Vec<String>) -> (r: String)
    ensures
        r@ == rebuilt_leading(existing@, texts(lines@)),
{
    let indent = indent_text(existing);
    let ls = split_lines(existing);
    let ghost all = texts(ls@);
    let mut out = String::new();
    let mut i: usize = 0;
    let mut more = true;
    assert(out@ =~= flat(all.take(0)));
    while more && i < ls.len()
        invariant
            i <= ls.len(),
            all == texts(ls@),
            out@ == flat(all.take(i as int)),
            leading_blank(all, 0) == leading_blank(all, i as int),
            !more ==> leading_blank(all, i as int) == i,
        decreases ls.len() - i, more as int,
    {
        assert(all[i as int] == ls@[i as int]@);
        let cs = chars_of(&ls[i]);
        if cs.len() > 0 && cs[cs.len() - 1] == '\n' && trim(&ls[i]).as_str().unicode_len() == 0 {
            out.append(&ls[i]);
            proof {
                assert(all.take(i + 1) =~= all.take(i as int).push(all[i as int]));
                flat_push(all.take(i as int), all[i as int]);
            }
            i = i + 1;
        } else {
            more = false;
        }
    }
    push_slash_lines(&mut out, &indent, lines);
    out.append(&indent);
    out
}

fn has_crlf(s: &str) -> (r: bool)
    ensures
        r == holds_crlf(s@),
{
    let cs = chars_of(s);
    let mut i: usize = 0;
    while i < cs.len()
        invariant
            i <= cs.len(),
            cs@ == s@,
            forall|j: int|
                0 <= j < i && j + 1 < s@.len() ==> !(#[trigger] s@[j] == '\r' && s@[j + 1] == '\n'),
        decreases cs.len() - i,
    {
        if cs[i] == '\r' && cs.len() - i > 1 && cs[i + 1] == '\n' {
            assert(s@[i as int] == '\r');
            return true;
        }
        i = i + 1;
    }
    false
}

fn line_ending(n: &Knode) -> (r: &'static str)
    ensures
        r@ == ending_of(n@),
{
    match &n.form {
        Some(f) => {
            if has_crlf(&f.terminator) {
                "\r\n"
            } else {
                "\n"
            }
        },
        None => "\n",
    }
}

fn note_node(n: &mut Knode, kind: CommentKind, text: Option<&str>, width: usize)
    ensures
        final(n)@ == noted_node(
            old(n)@,
            kind,
            match text {
                Some(t) => Some(t@),
                None => None,
            },
            width as int,
        ),
{
    let leading = match &n.form {
        Some(f) => f.leading.clone(),
        None => {
            let none = String::new();
            assert(none@ =~= Seq::<char>::empty());
            none
        },
    };
    let ending = line_ending(n);
    let mut f = match n.form.take() {
        Some(f) => f,
        None => NodeForm::none(),
    };
    match kind {
        CommentKind::Head => {
            let lines = match text {
                Some(t) => {
                    let indent = indent_text(&leading);
                    wrap_comment(t, width, indent.as_str().unicode_len(), 3)
                },
                None => Vec::new(),
            };
            assert(text is None ==> texts(lines@) =~= Seq::<Seq<char>>::empty());
            f.leading = rebuild_leading(&leading, &lines);
        },
        _ => {
            f.terminator = match text {
                Some(t) => cat(&cat(" // ", &sanitize_comment_line(t)), ending),
                None => ending.to_owned(),
            };
        },
    }
    n.form = Some(f);
}

/// Rewrite the comment of `kind` on the node the path from `i` on leads to.
pub fn write_note(
    d: &mut Kdoc,
    path: &Vec<Step>,
    i: usize,
    kind: CommentKind,
    text: Option<&str>,
    width: usize,
) -> (r: Result<(), EditError>)
    requires
        i <= path.len(),
    ensures
        (final(d)@, done(r)) == attempt(
            old(d)@,
            note_walk(
                old(d)@,
                steps_of(path@),
                i as int,
                kind,
                match text {
                    Some(t) => Some(t@),
                    None => None,
                },
                width as int,
            ),
        ),
    decreases path.len() - i, 0int,
{
    let ghost p = steps_of(path@);
    if i >= path.len() {
        return Err(
            EditError::new("document-level (`.#`) comment editing for KDL is a follow-up"),
        );
    }
    assert(p[i as int] == path@[i as int]@);
    let name = match &path[i] {
        Step::Field(name) => name,
        _ => {
            return Err(
                EditError::new("document-level (`.#`) comment editing for KDL is a follow-up"),
            );
        },
    };
    let occ = find_nodes(&d.nodes, name);
    let ghost before = kns(d.nodes@);
    assert(ints(occ@).len() == occ.len());
    if occ.len() == 0 {
        let mut msg = "no node `".to_owned();
        msg.append(name);
        msg.append("`");
        return Err(EditError::of(msg));
    }
    let mut k: usize = 0;
    let mut next: usize = i + 1;
    let mut indexed = false;
    if i + 1 < path.len() {
        assert(p[i + 1] == path@[i + 1]@);
        if let Step::Index(x) = &path[i + 1] {
            indexed = true;
            next = i + 2;
            match resolve_index(*x, occ.len()) {
                None => {
                    return Err(refuse_beyond(name));
                },
                Some(at) => {
                    k = at;
                },
            }
        }
    }
    if !indexed && occ.len() != 1 {
        return Err(refuse_ambiguous(name));
    }
    let j: usize = occ[k];
    assert(ints(occ@)[k as int] == j);
    assert(before[j as int] == d.nodes@[j as int]@);
    if next >= path.len() {
        note_node(&mut d.nodes[j], kind, text, width);
        assert(kns(d.nodes@) =~= before.update(j as int, d.nodes@[j as int]@));
        return Ok(());
    }
    if d.nodes[j].children.is_none() {
        let mut msg = "`".to_owned();
        msg.append(name);
        msg.append("` has no child nodes (comments attach to nodes)");
        return Err(EditError::of(msg));
    }
    let r = write_note_below(&mut d.nodes[j], path, next, kind, text, width, Ghost(name@));
    assert(kns(d.nodes@) =~= before.update(j as int, d.nodes@[j as int]@));
    assert(r is Err ==> kns(d.nodes@) =~= before);
    r
}

fn write_note_below(
    n: &mut Knode,
    path: &Vec<Step>,
    i: usize,
    kind: CommentKind,
    text: Option<&str>,
    width: usize,
    name: Ghost<Seq<char>>,
) -> (r: Result<(), EditError>)
    requires
        0 < i < path.len(),
        old(n).children is Some,
    ensures
        (final(n)@, done(r)) == attempt(
            old(n)@,
            note_below(
                old(n)@,
                name@,
                steps_of(path@),
                i as int,
                kind,
                match text {
                    Some(t) => Some(t@),
                    None => None,
                },
                width as int,
            ),
        ),
    decreases path.len() - i, 1int,
{
    match &mut n.children {
        Some(d) => write_note(d, path, i, kind, text, width),
        None => Ok(()),
    }
}

/// Does the rest of a path lead to a property or an argument of the node?
fn has_entry(n: &Knode, path: &Vec<Step>, i: usize) -> (r: bool)
    requires
        i < path.len(),
    ensures
        r == entry_there(n@, steps_of(path@), i as int),
{
    let ghost p = steps_of(path@);
    let count: usize = find_args(&n.args).len();
    proof {
        reveal_strlit("-");
        assert("-"@ =~= args_key());
        assert(p[i as int] == path@[i as int]@);
    }
    if path.len() - i == 1 {
        match &path[i] {
            Step::Field(k) => find_prop(&n.args, k).is_some() || (same(k, "-") && count > 0),
            Step::Index(x) => resolve_index(*x, count).is_some(),
            _ => false,
        }
    } else if path.len() - i == 2 {
        assert(p[i + 1] == path@[i + 1]@);
        match (&path[i], &path[i + 1]) {
            (Step::Field(k), Step::Index(x)) => same(k, "-") && resolve_index(*x, count).is_some(),
            _ => false,
        }
    } else {
        false
    }
}

/// Is there nothing in the document that a path leads to?
pub fn misses_note(d: &Kdoc, path: &Vec<Step>, i: usize) -> (r: bool)
    requires
        i <= path.len(),
    ensures
        r == note_misses(d@, steps_of(path@), i as int),
    decreases path.len() - i,
{
    let ghost p = steps_of(path@);
    if i >= path.len() {
        return false;
    }
    assert(p[i as int] == path@[i as int]@);
    let name = match &path[i] {
        Step::Field(name) => name,
        _ => {
            return false;
        },
    };
    let occ = find_nodes(&d.nodes, name);
    assert(ints(occ@).len() == occ.len());
    if occ.len() == 0 {
        return true;
    }
    let mut k: usize = 0;
    let mut next: usize = i + 1;
    let mut indexed = false;
    if i + 1 < path.len() {
        assert(p[i + 1] == path@[i + 1]@);
        if let Step::Index(x) = &path[i + 1] {
            indexed = true;
            next = i + 2;
            match resolve_index(*x, occ.len()) {
                None => {
                    if occ.len() != 1 {
                        return true;
                    }
                    let only: usize = occ[0];
                    assert(ints(occ@)[0] == only);
                    assert(kns(d.nodes@)[only as int] == d.nodes@[only as int]@);
                    return !has_entry(&d.nodes[only], path, i + 1);
                },
                Some(at) => {
                    k = at;
                },
            }
        }
    }
    if (!indexed && occ.len() != 1) || next >= path.len() {
        return false;
    }
    let j: usize = occ[k];
    assert(ints(occ@)[k as int] == j);
    assert(kns(d.nodes@)[j as int] == d.nodes@[j as int]@);
    if has_entry(&d.nodes[j], path, next) {
        return false;
    }
    assert(p[next as int] == path@[next as int]@);
    match &d.nodes[j].children {
        None => matches!(path[next], Step::Field(_) | Step::Index(_)),
        Some(c) => matches!(path[next], Step::Index(_)) || misses_note(c, path, next),
    }
}

/// The refusal of a value that is no document.
pub open spec fn no_document() -> Er {
    fail("KDL output requires a top-level object (a document is a list of nodes)"@)
}

/// The laid-out nodes of the first `n` members.
pub open spec fn built_nodes(m: Seq<(Seq<char>, Val)>, n: nat) -> Result<Seq<Kn>, Er>
    decreases n,
{
    if n == 0 || n > m.len() {
        Ok(Seq::empty())
    } else {
        match built_nodes(m, (n - 1) as nat) {
            Err(e) => Err(e),
            Ok(so_far) => match value_nodes(m[n - 1].0, m[n - 1].1) {
                Err(e) => Err(e),
                Ok(ks) => Ok(
                    so_far + Seq::new(ks.len(), |i: int| formatted(ks[i], 0, "    "@)),
                ),
            },
        }
    }
}

/// A value as a fresh document.
pub open spec fn built_document(v: Val) -> Result<Kd, Er> {
    match v {
        Val::Object(m) => match built_nodes(m, m.len()) {
            Err(e) => Err(e),
            Ok(ns) => Ok(Kd { nodes: ns, form: None }),
        },
        _ => Err(no_document()),
    }
}

proof fn built_stops(m: Seq<(Seq<char>, Val)>, i: nat, n: nat)
    requires
        i <= n <= m.len(),
        built_nodes(m, i) is Err,
    ensures
        built_nodes(m, n) == built_nodes(m, i),
    decreases n - i,
{
    if i < n {
        built_stops(m, i, (n - 1) as nat);
    }
}

fn push_formatted(out: &mut Vec<Knode>, ks: &Vec<Knode>)
    requires
        forall|i: int| 0 <= i < ks.len() ==> fresh(#[trigger] kns(ks@)[i]),
    ensures
        kns(final(out)@) == kns(old(out)@) + Seq::new(
            kns(ks@).len(),
            |i: int| formatted(kns(ks@)[i], 0, "    "@),
        ),
{
    let ghost before = kns(out@);
    let ghost all = kns(ks@);
    let ghost want = Seq::new(all.len(), |i: int| formatted(all[i], 0, "    "@));
    let mut i: usize = 0;
    assert(kns(out@) =~= before + want.take(0));
    while i < ks.len()
        invariant
            i <= ks.len(),
            all == kns(ks@),
            want == Seq::new(all.len(), |i: int| formatted(all[i], 0, "    "@)),
            forall|j: int| 0 <= j < ks.len() ==> fresh(#[trigger] all[j]),
            kns(out@) == before + want.take(i as int),
        decreases ks.len() - i,
    {
        assert(all[i as int] == ks@[i as int]@);
        out.push(format_node(&ks[i], 0, "    "));
        assert(kns(out@) =~= before + want.take(i + 1));
        i = i + 1;
    }
    assert(want.take(i as int) =~= want);
}

/// The view of a document or its refusal.
spec fn document_view(r: Result<Kdoc, EditError>) -> Result<Kd, Er> {
    match r {
        Ok(d) => Ok(d@),
        Err(e) => Err(e@),
    }
}

fn build_document(v: &Value) -> (r: Result<Kdoc, EditError>)
    ensures
        document_view(r) == built_document(v@),
{
    let m = match v {
        Value::Object(m) => m,
        _ => {
            return Err(
                EditError::new(
                    "KDL output requires a top-level object (a document is a list of nodes)",
                ),
            );
        },
    };
    let ghost all = members(m@);
    let mut out: Vec<Knode> = Vec::new();
    let mut i: usize = 0;
    assert(kns(out@) =~= Seq::<Kn>::empty());
    while i < m.len()
        invariant
            i <= m.len(),
            all == members(m@),
            v@ == Val::Object(all),
            Ok::<Seq<Kn>, Er>(kns(out@)) == built_nodes(all, i as nat),
        decreases m.len() - i,
    {
        assert(all[i as int] == (m@[i as int].0@, m@[i as int].1@));
        match value_to_nodes(&m[i].0, &m[i].1) {
            Err(e) => {
                proof {
                    built_stops(all, (i + 1) as nat, all.len());
                }
                return Err(e);
            },
            Ok(ks) => {
                proof {
                    value_nodes_fresh(all[i as int].0, all[i as int].1);
                }
                push_formatted(&mut out, &ks);
            },
        }
        i = i + 1;
    }
    Ok(Kdoc { nodes: out, form: None })
}

/// A value as KDL.
pub open spec fn kdl_emitted(v: Val) -> Result<(Seq<char>, Seq<Seq<char>>), Er> {
    match built_document(v) {
        Ok(d) => Ok((printed(d), Seq::empty())),
        Err(e) => Err(e),
    }
}

/// Emit a value as a fresh KDL document (autoformatted; there is no layout to
/// preserve on this path). Returns text and warnings (none: KDL holds every
/// feature).
pub fn emit(value: &Value) -> (r: Result<(String, Vec<String>), EditError>)
    ensures
        emission(r) == kdl_emitted(value@),
{
    let d = build_document(value)?;
    let w: Vec<String> = Vec::new();
    assert(texts(w@) =~= Seq::<Seq<char>>::empty());
    Ok((print_tree(&d), w))
}

/// The first `n` comment lines, each made one line.
pub open spec fn safe_lines(lines: Seq<Seq<char>>) -> Seq<Seq<char>> {
    Seq::new(lines.len(), |i: int| one_line(lines[i]))
}

/// A laid-out node with comments on it.
pub open spec fn captioned(n: Kn, c: Notes) -> Kn {
    match n.form {
        None => n,
        Some(f) => {
            let indent = indent_of(f.leading);
            let lines = safe_lines(c.head);
            Kn {
                form: Some(
                    Nf {
                        leading: if lines.len() > 0 {
                            slash_lines(indent, lines, lines.len()) + indent
                        } else {
                            f.leading
                        },
                        terminator: match c.inline {
                            Some(t) => " // "@ + one_line(t) + "\n"@,
                            None => f.terminator,
                        },
                        ..f
                    },
                ),
                ..n
            }
        },
    }
}

/// A laid-out node with the comments of a commented value, on it and on its child
/// nodes.
pub open spec fn decorated(n: Kn, c: Cmt) -> Kn
    decreases c, 1int, 0int,
{
    let k = captioned(n, c.notes);
    match (c.node, k.children) {
        (CmtNode::Object(m), Some(d)) => Kn {
            children: Some(Kd { nodes: decorated_nodes(d.nodes, m, m.len()).0, form: d.form }),
            ..k
        },
        _ => k,
    }
}

/// The positions from `from` to `n` of the nodes called `name`.
pub open spec fn later(ns: Seq<Kn>, name: Seq<char>, from: int, n: int) -> Seq<int>
    decreases n - from,
{
    if n <= from || n > ns.len() {
        Seq::empty()
    } else if ns[n - 1].name.value == name {
        later(ns, name, from, n - 1).push(n - 1)
    } else {
        later(ns, name, from, n - 1)
    }
}

/// The nodes at the first `n` of some positions, each with the comments of the
/// element it was built from.
pub open spec fn decorated_run(ns: Seq<Kn>, at: Seq<int>, items: Seq<Cmt>, n: nat) -> Seq<Kn>
    decreases items, 0int, n,
{
    if n == 0 || n > at.len() || n > items.len() {
        ns
    } else {
        let so_far = decorated_run(ns, at, items, (n - 1) as nat);
        let i = at[n - 1];
        so_far.update(i, decorated(so_far[i], items[n - 1]))
    }
}

/// The nodes with the comments of the first `n` entries, and where the nodes of the
/// next entry start: entry by entry, each takes its run of nodes.
pub open spec fn decorated_nodes(ns: Seq<Kn>, m: Seq<(Seq<char>, Cmt)>, n: nat) -> (Seq<Kn>, int)
    decreases m, 0int, n,
{
    if n == 0 || n > m.len() {
        (ns, 0)
    } else {
        let (so_far, cursor) = decorated_nodes(ns, m, (n - 1) as nat);
        let (name, c) = m[n - 1];
        let occ = later(so_far, name, cursor, so_far.len() as int);
        match c.node {
            CmtNode::Array(items) => (
                decorated_run(
                    so_far,
                    occ,
                    items,
                    if occ.len() < items.len() {
                        occ.len()
                    } else {
                        items.len()
                    },
                ),
                if occ.len() > 0 {
                    occ.last() + 1
                } else {
                    cursor
                },
            ),
            _ => if occ.len() > 0 {
                (so_far.update(occ[0], decorated(so_far[occ[0]], c)), occ[0] + 1)
            } else {
                (so_far, cursor)
            },
        }
    }
}

fn safe(lines: &Vec<String>) -> (r: Vec<String>)
    ensures
        texts(r@) == safe_lines(texts(lines@)),
{
    let mut out: Vec<String> = Vec::new();
    let ghost want = safe_lines(texts(lines@));
    let mut i: usize = 0;
    while i < lines.len()
        invariant
            i <= lines.len(),
            want == safe_lines(texts(lines@)),
            texts(out@) == want.take(i as int),
        decreases lines.len() - i,
    {
        assert(texts(lines@)[i as int] == lines@[i as int]@);
        out.push(sanitize_comment_line(&lines[i]));
        assert(texts(out@) =~= want.take(i + 1));
        i = i + 1;
    }
    assert(want.take(i as int) =~= want);
    out
}

fn caption(n: &mut Knode, c: &Commented)
    ensures
        final(n)@ == captioned(old(n)@, c@.notes),
{
    if let Some(f) = &mut n.form {
        let lines = safe(&c.comments.head);
        assert(texts(lines@).len() == lines.len());
        if lines.len() > 0 {
            let indent = indent_text(&f.leading);
            let mut leading = String::new();
            push_slash_lines(&mut leading, &indent, &lines);
            leading.append(&indent);
            assert(leading@ =~= slash_lines(indent@, texts(lines@), lines.len() as nat) + indent@);
            f.leading = leading;
        }
        if let Some(t) = &c.comments.inline {
            f.terminator = cat(&cat(" // ", &sanitize_comment_line(t)), "\n");
        }
    }
}

fn decorate_node(n: &mut Knode, c: &Commented)
    ensures
        final(n)@ == decorated(old(n)@, c@),
    decreases c, 1int,
{
    caption(n, c);
    if let CommentedNode::Object(m) = &c.node {
        if let Some(d) = &mut n.children {
            decorate_nodes(&mut d.nodes, m);
        }
    }
}

fn find_later(ns: &Vec<Knode>, name: &str, from: usize) -> (r: Vec<usize>)
    ensures
        ints(r@) == later(kns(ns@), name@, from as int, ns.len() as int),
        forall|i: int| 0 <= i < r.len() ==> #[trigger] r@[i] < ns.len(),
{
    let ghost all = kns(ns@);
    let mut out: Vec<usize> = Vec::new();
    let mut i: usize = from;
    assert(ints(out@) =~= later(all, name@, from as int, i as int));
    while i < ns.len()
        invariant
            from <= i,
            i <= ns.len() || i == from,
            all == kns(ns@),
            ints(out@) == later(all, name@, from as int, i as int),
            forall|j: int| 0 <= j < out.len() ==> #[trigger] out@[j] < ns.len(),
        decreases ns.len() - i,
    {
        assert(all[i as int] == ns@[i as int]@);
        if same(&ns[i].name.value, name) {
            let ghost before = ints(out@);
            out.push(i);
            assert(ints(out@) =~= before.push(i as int));
        }
        i = i + 1;
    }
    out
}

fn decorate_run(ns: &mut Vec<Knode>, at: &Vec<usize>, items: &Vec<Commented>)
    requires
        forall|i: int| 0 <= i < at.len() ==> #[trigger] at@[i] < old(ns).len(),
    ensures
        kns(final(ns)@) == decorated_run(
            kns(old(ns)@),
            ints(at@),
            cmts(items@),
            if at.len() < items.len() {
                at.len() as nat
            } else {
                items.len() as nat
            },
        ),
        final(ns).len() == old(ns).len(),
    decreases items, 0int,
{
    let ghost n0 = kns(ns@);
    let len: usize = ns.len();
    let n: usize = if at.len() < items.len() {
        at.len()
    } else {
        items.len()
    };
    let mut i: usize = 0;
    while i < n
        invariant
            i <= n,
            n <= at.len(),
            n <= items.len(),
            ns.len() == len,
            forall|j: int| 0 <= j < at.len() ==> #[trigger] at@[j] < len,
            kns(ns@) == decorated_run(n0, ints(at@), cmts(items@), i as nat),
        decreases n - i,
    {
        let j: usize = at[i];
        let ghost now = kns(ns@);
        assert(ints(at@)[i as int] == j);
        assert(now[j as int] == ns@[j as int]@);
        assert(cmts(items@)[i as int] == items@[i as int]@);
        decorate_node(&mut ns[j], &items[i]);
        assert(kns(ns@) =~= now.update(j as int, ns@[j as int]@));
        i = i + 1;
    }
}

fn decorate_nodes(ns: &mut Vec<Knode>, m: &Vec<(String, Commented)>)
    ensures
        kns(final(ns)@) == decorated_nodes(kns(old(ns)@), cmt_members(m@), m.len() as nat).0,
    decreases m, 0int,
{
    let ghost n0 = kns(ns@);
    let ghost all = cmt_members(m@);
    let mut cursor: usize = 0;
    let mut i: usize = 0;
    while i < m.len()
        invariant
            i <= m.len(),
            all == cmt_members(m@),
            (kns(ns@), cursor as int) == decorated_nodes(n0, all, i as nat),
        decreases m.len() - i,
    {
        assert(all[i as int] == (m@[i as int].0@, m@[i as int].1@));
        let occ = find_later(ns, &m[i].0, cursor);
        assert(ints(occ@).len() == occ.len());
        match &m[i].1.node {
            CommentedNode::Array(items) => {
                decorate_run(ns, &occ, items);
                if occ.len() > 0 {
                    cursor = occ[occ.len() - 1] + 1;
                    assert(ints(occ@).last() == occ@[occ.len() - 1]);
                }
            },
            _ => {
                if occ.len() > 0 {
                    let j: usize = occ[0];
                    let ghost now = kns(ns@);
                    assert(ints(occ@)[0] == j);
                    assert(now[j as int] == ns@[j as int]@);
                    decorate_node(&mut ns[j], &m[i].1);
                    assert(kns(ns@) =~= now.update(j as int, ns@[j as int]@));
                    cursor = j + 1;
                }
            },
        }
        i = i + 1;
    }
}

/// The first `n` foot lines at the end of a document.
pub open spec fn foot_lines(lines: Seq<Seq<char>>, n: nat) -> Seq<char> {
    slash_lines(Seq::empty(), safe_lines(lines), n)
}

/// A commented value as KDL: the plain document with comments on its nodes.
pub open spec fn kdl_emitted_commented(c: Cmt) -> Result<(Seq<char>, Seq<Seq<char>>), Er> {
    match c.node {
        CmtNode::Object(m) => match built_document(plain(c)) {
            Err(e) => Err(e),
            Ok(d) => Ok(
                (
                    printed(Kd { nodes: decorated_nodes(d.nodes, m, m.len()).0, form: d.form })
                        + foot_lines(c.notes.foot, c.notes.foot.len()),
                    Seq::empty(),
                ),
            ),
        },
        _ => Err(no_document()),
    }
}

/// Emit a commented value as KDL, placing head comments as `//` lines above each
/// node and inline comments after the node. KDL holds every comment kind, so
/// nothing warns.
pub fn emit_commented(c: &Commented) -> (r: Result<(String, Vec<String>), EditError>)
    ensures
        emission(r) == kdl_emitted_commented(c@),
{
    match &c.node {
        CommentedNode::Object(m) => {
            let mut d = build_document(&c.to_value())?;
            decorate_nodes(&mut d.nodes, m);
            let mut text = print_tree(&d);
            let lines = safe(&c.comments.foot);
            let none = String::new();
            assert(none@ =~= Seq::<char>::empty());
            assert(texts(lines@).len() == c@.notes.foot.len());
            push_slash_lines(&mut text, &none, &lines);
            let w: Vec<String> = Vec::new();
            assert(texts(w@) =~= Seq::<Seq<char>>::empty());
            Ok((text, w))
        },
        _ => Err(
            EditError::new(
                "KDL output requires a top-level object (a document is a list of nodes)",
            ),
        ),
    }
}

} // verus!
