//! Writing comments into a TOML tree.
use crate::error::{fail, EditError, Er};
use crate::lines::{flat, flat_push, lines_of, split_lines};
use crate::model::{steps_of, texts, CommentKind, St, Step};
use crate::mutate::{attempt, done};
use crate::strs::{chars_of, slice_text, trim, trimmed};
use crate::text::blank;
use crate::toml_change::about;
use crate::toml_spell::{find_last_break, last_break, last_break_bounds, text_in, text_or_none};
use crate::toml_tree::{
    decor_in, ets, find_slot, group_toml_views, is_header, slot, with_decor, Dc, Decor, Entry, Et,
    Nd, Nm, Node,
};
use vstd::prelude::*;

verus! {

broadcast use group_toml_views;

/// Is every character a space or a tab?
pub open spec fn all_blank(s: Seq<char>) -> bool {
    forall|i: int| 0 <= i < s.len() ==> blank(#[trigger] s[i])
}

/// The indentation before the key or header: what stands behind the last newline,
/// if it is only blanks.
pub open spec fn end_indent(existing: Seq<char>) -> Seq<char> {
    let last = existing.skip(last_break(existing) + 1);
    if all_blank(last) {
        last
    } else {
        Seq::empty()
    }
}

/// A terminated line of white space.
pub open spec fn blank_line(l: Seq<char>) -> bool {
    l.len() > 0 && l.last() == '\n' && trimmed(l).len() == 0
}

/// How many blank lines the first `n` lines start with.
pub open spec fn leading_blank(ls: Seq<Seq<char>>, i: int) -> int
    decreases ls.len() - i,
{
    if 0 <= i < ls.len() && blank_line(ls[i]) {
        leading_blank(ls, i + 1)
    } else {
        i
    }
}

/// The first `n` comment lines, each at the indentation.
pub open spec fn hash_lines(indent: Seq<char>, lines: Seq<Seq<char>>, n: nat) -> Seq<char>
    decreases n,
{
    if n == 0 || n > lines.len() {
        Seq::empty()
    } else {
        hash_lines(indent, lines, (n - 1) as nat) + (indent + "# "@ + lines[n - 1] + "\n"@)
    }
}

/// A prefix with `wrapped` as its comment block: the leading blank lines and the
/// indentation before the key or header stay, the old comment lines go. Without
/// lines this clears the comment and keeps the spacing.
pub open spec fn rebuilt_head(existing: Seq<char>, wrapped: Seq<Seq<char>>) -> Seq<char> {
    let ls = lines_of(existing);
    let indent = end_indent(existing);
    flat(ls.take(leading_blank(ls, 0))) + hash_lines(indent, wrapped, wrapped.len()) + indent
}

fn indent_before(existing: &str) -> (r: String)
    ensures
        r@ == end_indent(existing@),
{
    let cs = chars_of(existing);
    proof {
        last_break_bounds(existing@);
    }
    let from: usize = match find_last_break(&cs) {
        Some(i) => i + 1,
        None => 0,
    };
    let last = slice_text(&cs, from, cs.len());
    assert(last@ =~= existing@.skip(last_break(existing@) + 1));
    let ls = chars_of(&last);
    let mut i: usize = 0;
    while i < ls.len()
        invariant
            i <= ls.len(),
            ls@ == last@,
            last@ == existing@.skip(last_break(existing@) + 1),
            forall|j: int| 0 <= j < i ==> blank(#[trigger] last@[j]),
        decreases ls.len() - i,
    {
        if ls[i] != ' ' && ls[i] != '\t' {
            assert(!blank(last@[i as int]));
            let none = String::new();
            assert(none@ =~= Seq::<char>::empty());
            return none;
        }
        i = i + 1;
    }
    last
}

fn rebuild_head(existing: &str, wrapped: &Vec<String>) -> (r: String)
    ensures
        r@ == rebuilt_head(existing@, texts(wrapped@)),
{
    let indent = indent_before(existing);
    let ls = split_lines(existing);
    let ghost all = texts(ls@);
    let mut out = String::new();
    let mut i: usize = 0;
    let mut more = true;
    assert(out@ =~= flat(all.take(0)));
    while more && i < ls.len()
        invariant
            i <= ls.len(),
            all == texts(ls@),
            out@ == flat(all.take(i as int)),
            leading_blank(all, 0) == leading_blank(all, i as int),
            !more ==> leading_blank(all, i as int) == i,
        decreases ls.len() - i, more as int,
    {
        assert(all[i as int] == ls@[i as int]@);
        let cs = chars_of(&ls[i]);
        if cs.len() > 0 && cs[cs.len() - 1] == '\n' && trim(&ls[i]).as_str().unicode_len() == 0 {
            out.append(&ls[i]);
            proof {
                assert(all.take(i + 1) =~= all.take(i as int).push(all[i as int]));
                flat_push(all.take(i as int), all[i as int]);
            }
            i = i + 1;
        } else {
            more = false;
        }
    }
    let ghost lead = out@;
    let ghost w = texts(wrapped@);
    let mut j: usize = 0;
    assert(out@ =~= lead + hash_lines(indent@, w, 0));
    while j < wrapped.len()
        invariant
            j <= wrapped.len(),
            w == texts(wrapped@),
            out@ == lead + hash_lines(indent@, w, j as nat),
        decreases wrapped.len() - j,
    {
        assert(w[j as int] == wrapped@[j as int]@);
        out.append(&indent);
        out.append("# ");
        out.append(&wrapped[j]);
        out.append("\n");
        j = j + 1;
        assert(out@ =~= lead + hash_lines(indent@, w, j as nat));
    }
    out.append(&indent);
    out
}

/// An entry with its comment of a kind rewritten: the head from wrapped lines, the
/// inline comment from the text that follows the value.
pub open spec fn noted_entry(e: Et, kind: CommentKind, lines: Seq<Seq<char>>, suffix: Seq<char>) -> Result<
    Et,
    Er,
> {
    let d = decor_in(e.node);
    match kind {
        CommentKind::Head => if is_header(e.node) {
            let prefix = rebuilt_head(text_in(d.prefix), lines);
            Ok(
                Et {
                    name: e.name,
                    node: with_decor(e.node, Dc { prefix: Some(prefix), suffix: d.suffix }),
                },
            )
        } else {
            let prefix = rebuilt_head(text_in(e.name.leaf.prefix), lines);
            Ok(
                Et {
                    name: Nm {
                        leaf: Dc { prefix: Some(prefix), suffix: e.name.leaf.suffix },
                        ..e.name
                    },
                    node: e.node,
                },
            )
        },
        CommentKind::Inline => if e.node is Tables {
            Err(about(e.name.key, "has no inline slot"@))
        } else {
            Ok(
                Et {
                    name: e.name,
                    node: with_decor(e.node, Dc { prefix: d.prefix, suffix: Some(suffix) }),
                },
            )
        },
        CommentKind::Foot => Ok(e),
    }
}

/// The table with the comment at a path of keys rewritten.
pub open spec fn note_walk(
    t: Nd,
    p: Seq<St>,
    i: int,
    kind: CommentKind,
    lines: Seq<Seq<char>>,
    suffix: Seq<char>,
) -> Result<Nd, Er>
    decreases p.len() - i,
{
    match (p[i], t) {
        (St::Field(k), Nd::Table(es, f, d)) => {
            let j = slot(es, k);
            if i + 1 >= p.len() {
                if !(0 <= j < es.len()) {
                    Err(fail("no key `"@ + k + "`"@))
                } else {
                    match noted_entry(es[j], kind, lines, suffix) {
                        Err(e) => Err(e),
                        Ok(e) => Ok(Nd::Table(es.update(j, e), f, d)),
                    }
                }
            } else if !(0 <= j < es.len()) || !(es[j].node is Table) {
                Err(fail("no table `"@ + k + "`"@))
            } else {
                match note_walk(es[j].node, p, i + 1, kind, lines, suffix) {
                    Err(e) => Err(e),
                    Ok(n) => Ok(Nd::Table(es.update(j, Et { name: es[j].name, node: n }), f, d)),
                }
            }
        },
        _ => Err(fail("TOML comment paths are object keys"@)),
    }
}

/// The root table with the comment at a path rewritten.
pub open spec fn nd_note(
    root: Nd,
    p: Seq<St>,
    kind: CommentKind,
    lines: Seq<Seq<char>>,
    suffix: Seq<char>,
) -> Result<Nd, Er> {
    if kind is Foot {
        Err(fail("setting a foot comment isn't supported for TOML yet"@))
    } else if p.len() == 0 || !(p.last() is Field) {
        Err(fail("document-level (`.#`) comment editing for TOML is a follow-up"@))
    } else {
        note_walk(root, p, 0, kind, lines, suffix)
    }
}

fn missing(what: &str, k: &str) -> (r: EditError)
    ensures
        r@ == fail(what@ + k@ + "`"@),
{
    let mut msg = what.to_owned();
    msg.append(k);
    msg.append("`");
    EditError::of(msg)
}

/// What rewriting an entry's comment leads to.
spec fn entry_attempt(e: Et, r: Result<Et, Er>) -> (Et, Result<(), Er>) {
    match r {
        Ok(x) => (x, Ok(())),
        Err(x) => (e, Err(x)),
    }
}

fn redress(n: &mut Node, decor: Decor)
    ensures
        final(n)@ == with_decor(old(n)@, decor@),
{
    match n {
        Node::Scalar(_, _, d) => {
            *d = decor;
        },
        Node::Array(_, _, d) => {
            *d = decor;
        },
        Node::Table(_, _, d) => {
            *d = decor;
        },
        Node::Tables(_) => {},
    }
}

fn note_entry(e: &mut Entry, kind: CommentKind, lines: &Vec<String>, suffix: &str) -> (r: Result<
    (),
    EditError,
>)
    ensures
        (final(e)@, done(r)) == entry_attempt(
            old(e)@,
            noted_entry(old(e)@, kind, texts(lines@), suffix@),
        ),
{
    match kind {
        CommentKind::Head => {
            if e.node.is_standard() {
                let d = e.node.decor();
                let prefix = rebuild_head(&text_or_none(&d.prefix), lines);
                redress(&mut e.node, Decor { prefix: Some(prefix), suffix: d.suffix });
            } else {
                let prefix = rebuild_head(&text_or_none(&e.name.leaf.prefix), lines);
                e.name.leaf.prefix = Some(prefix);
            }
            Ok(())
        },
        CommentKind::Inline => {
            if let Node::Tables(_) = &e.node {
                let mut msg = "`".to_owned();
                msg.append(&e.name.key);
                msg.append("` ");
                msg.append("has no inline slot");
                return Err(EditError::of(msg));
            }
            let d = e.node.decor();
            redress(&mut e.node, Decor { prefix: d.prefix, suffix: Some(suffix.to_owned()) });
            Ok(())
        },
        CommentKind::Foot => Ok(()),
    }
}

fn walk_note(
    t: &mut Node,
    path: &Vec<Step>,
    i: usize,
    kind: CommentKind,
    lines: &Vec<String>,
    suffix: &str,
) -> (r: Result<(), EditError>)
    requires
        i < path.len(),
    ensures
        (final(t)@, done(r)) == attempt(
            old(t)@,
            note_walk(old(t)@, steps_of(path@), i as int, kind, texts(lines@), suffix@),
        ),
    decreases path.len() - i,
{
    assert(steps_of(path@)[i as int] == path@[i as int]@);
    if let Step::Field(k) = &path[i] {
        if let Node::Table(es, _, _) = t {
            let ghost before = ets(es@);
            let j: usize = find_slot(es, k);
            if i + 1 >= path.len() {
                if j >= es.len() {
                    return Err(missing("no key `", k));
                }
                assert(before[j as int] == es@[j as int]@);
                let r = note_entry(&mut es[j], kind, lines, suffix);
                assert(ets(es@) =~= before.update(j as int, es@[j as int]@));
                assert(r is Err ==> ets(es@) =~= before);
                return r;
            }
            if j >= es.len() {
                return Err(missing("no table `", k));
            }
            assert(before[j as int] == es@[j as int]@);
            if !matches!(&es[j].node, Node::Table(_, _, _)) {
                return Err(missing("no table `", k));
            }
            let r = walk_note(&mut es[j].node, path, i + 1, kind, lines, suffix);
            assert(ets(es@) =~= before.update(j as int, es@[j as int]@));
            assert(r is Err ==> ets(es@) =~= before);
            return r;
        }
    }
    Err(EditError::new("TOML comment paths are object keys"))
}

/// Rewrite the comment of `kind` at `path`: its head as `lines`, none to clear it,
/// or what follows the value as `suffix`.
pub fn write_comment(
    root: &mut Node,
    path: &Vec<Step>,
    kind: CommentKind,
    lines: &Vec<String>,
    suffix: &str,
) -> (r: Result<(), EditError>)
    ensures
        (final(root)@, done(r)) == attempt(
            old(root)@,
            nd_note(old(root)@, steps_of(path@), kind, texts(lines@), suffix@),
        ),
{
    if matches!(kind, CommentKind::Foot) {
        return Err(EditError::new("setting a foot comment isn't supported for TOML yet"));
    }
    let n: usize = path.len();
    if n > 0 {
        assert(steps_of(path@).last() == path@[n - 1]@);
        if let Step::Field(_) = &path[n - 1] {
            return walk_note(root, path, 0, kind, lines, suffix);
        }
    }
    Err(EditError::new("document-level (`.#`) comment editing for TOML is a follow-up"))
}

} // verus!
