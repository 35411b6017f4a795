//! What is written as a flat file reads back with the values and the comments it was written
//! for.
use crate::comment::{flattened, opt_line, plain, plain_members, Flat};
use crate::comment_laws::{env_comments_keep_the_value, foot_keeps_the_value};
use crate::comment_read_laws::start_trims;
use crate::env::{
    emitted, emitted_entry, env_commented, env_emitted, env_parsed, env_style, env_whole, scheme,
    Dialect, EnvDoc,
};
use crate::line_comment::{comment_row, comment_rows, one_line, unmarked};
use crate::line_note_laws::{no_marker, notes_row, some_marker, spaced_style, walked_from, walked_notes};
use crate::lines::{are_lines, flat, flat_add, flat_one, flat_push, is_line, lines_of_flat};
use crate::model::{Cmt, CmtNode, Notes, Val};
use crate::note_laws::suits;
use crate::rows::{
    body_end, malformed, new_entry, new_entry_reads_back, note_text, plain_key, plain_value,
    row_kind, text_at, walked, walked_line, white_from_is, RowKind, Scheme,
};
use crate::strs::{trimmed, white_space};
use vstd::prelude::*;
use vstd::string::*;

verus! {

/// What a comment says once it is read: one line, without the white space at its ends.
pub open spec fn told(x: Seq<char>) -> Seq<char> {
    trimmed(one_line(x))
}

/// What comments say once they are read.
pub open spec fn all_told(lines: Seq<Seq<char>>) -> Seq<Seq<char>> {
    Seq::new(lines.len(), |i: int| told(lines[i]))
}

proof fn told_add(a: Seq<Seq<char>>, b: Seq<Seq<char>>)
    ensures
        all_told(a + b) == all_told(a) + all_told(b),
{
    assert(all_told(a + b) =~= all_told(a) + all_told(b));
}

proof fn style_is_spaced(g: Scheme)
    requires
        g != Scheme::Sections,
    ensures
        spaced_style(env_style()),
        suits(env_style(), g),
        env_style().delim == seq!['#', ' '],
{
    reveal_strlit("#");
    reveal_strlit("!");
    reveal_strlit("# ");
    let st = env_style();
    assert(st.delim =~= seq!['#', ' ']);
    assert(st.marks[0] =~= seq![st.delim[0]]);
}

/// A comment's line.
spec fn row(x: Seq<char>) -> Seq<char> {
    comment_row(env_style(), ""@, x)
}

proof fn row_reads(x: Seq<char>, g: Scheme)
    requires
        g != Scheme::Sections,
    ensures
        is_line(row(x)),
        row(x).last() == '\n',
        row(x)[0] == '#',
        notes_row(row(x), g, env_style(), told(x)),
{
    reveal_strlit("");
    style_is_spaced(g);
    let st = env_style();
    let w = one_line(x);
    let t = row(x);
    let sp = seq![' '];
    assert(t =~= seq!['#'] + sp + w + seq!['\n']);
    let e = t.len() - 1;
    assert(t[t.len() - 2] != '\r') by {
        if w.len() > 0 {
            assert(t[t.len() - 2] == w[w.len() - 1]);
        } else {
            assert(t[t.len() - 2] == ' ');
        }
    }
    assert(body_end(t) == e);
    white_from_is(t, 0, e, 0);
    assert(text_at(t) == 0);
    let n = note_text(t);
    assert(n =~= seq!['#'] + (sp + w));
    let k = choose|i: int| 0 <= i < st.marks.len() && #[trigger] st.marks[i] == seq![st.delim[0]];
    assert(n[0] == st.delim[0]);
    some_marker(n, st.marks, 0, k);
    let r = n.skip(1);
    assert(r =~= sp + w);
    no_marker(r, st.marks, 0);
    assert(unmarked(r, st) == r);
    assert(unmarked(n, st) == unmarked(r, st));
    assert(crate::comment_read_laws::white(sp));
    start_trims(sp, w);
    assert forall|j: int| 0 <= j < t.len() - 1 implies #[trigger] t[j] != '\n' by {
        if j >= 2 {
            assert(t[j] == w[j - 2]);
        }
    }
}

/// The lines of comments.
spec fn rows(lines: Seq<Seq<char>>) -> Seq<Seq<char>> {
    Seq::new(lines.len(), |i: int| row(lines[i]))
}

proof fn rows_flat(lines: Seq<Seq<char>>, n: nat)
    requires
        n <= lines.len(),
    ensures
        comment_rows(env_style(), ""@, lines, n) == flat(rows(lines).take(n as int)),
    decreases n,
{
    let r = rows(lines);
    if n == 0 {
        assert(r.take(0) =~= Seq::<Seq<char>>::empty());
    } else {
        rows_flat(lines, (n - 1) as nat);
        assert(r.take(n as int) =~= r.take(n - 1).push(r[n - 1]));
        flat_push(r.take(n - 1), r[n - 1]);
    }
}

/// The comments in front of an entry's line.
spec fn above(e: Flat) -> Seq<Seq<char>> {
    e.notes.head + opt_line(e.notes.inline)
}

/// The lines of the first `n` entries.
spec fn entry_lines(es: Seq<Flat>, d: Dialect, n: nat) -> Seq<Seq<char>>
    decreases n,
{
    if n == 0 || n > es.len() {
        Seq::empty()
    } else {
        let e = es[n - 1];
        entry_lines(es, d, (n - 1) as nat) + rows(above(e)) + seq![
            new_entry(scheme(d), e.key, e.value, "\n"@),
        ] + rows(e.notes.foot)
    }
}

/// Lines that end in a line feed.
spec fn ended(ls: Seq<Seq<char>>) -> bool {
    forall|i: int| 0 <= i < ls.len() ==> is_line(#[trigger] ls[i]) && ls[i].last() == '\n'
}

proof fn ended_add(a: Seq<Seq<char>>, b: Seq<Seq<char>>)
    requires
        ended(a),
        ended(b),
    ensures
        ended(a + b),
{
    let c = a + b;
    assert forall|i: int| 0 <= i < c.len() implies is_line(#[trigger] c[i]) && c[i].last() == '\n' by {
        if i < a.len() {
            assert(c[i] == a[i]);
        } else {
            assert(c[i] == b[i - a.len()]);
        }
    }
}

proof fn rows_ended(lines: Seq<Seq<char>>, g: Scheme)
    requires
        g != Scheme::Sections,
    ensures
        ended(rows(lines)),
{
    assert forall|i: int| 0 <= i < rows(lines).len() implies is_line(#[trigger] rows(lines)[i]) && rows(
        lines,
    )[i].last() == '\n' by {
        row_reads(lines[i], g);
    }
}

proof fn above_text(e: Flat)
    ensures
        flat(rows(above(e))) == comment_rows(
            env_style(),
            ""@,
            e.notes.head,
            e.notes.head.len(),
        ) + (match e.notes.inline {
            Some(t) => comment_row(env_style(), ""@, t),
            None => Seq::empty(),
        }),
{
    let h = rows(e.notes.head);
    let i = rows(opt_line(e.notes.inline));
    rows_flat(e.notes.head, e.notes.head.len());
    assert(h.take(e.notes.head.len() as int) =~= h);
    assert(rows(above(e)) =~= h + i);
    flat_add(h, i);
    match e.notes.inline {
        Some(t) => {
            assert(i =~= seq![row(t)]);
            flat_one(row(t));
        },
        None => {
            assert(i =~= Seq::<Seq<char>>::empty());
            assert(flat(Seq::<Seq<char>>::empty()) =~= Seq::<char>::empty());
        },
    }
}

proof fn accepted(e: Flat, d: Dialect)
    requires
        emitted_entry(e, d) is Ok,
    ensures
        plain_key(scheme(d), e.key),
        plain_value(scheme(d), e.value),
        scheme(d) != Scheme::Sections,
{
    if d == Dialect::Spaced {
        assert forall|i: int| 0 <= i < e.key.len() implies !crate::rows::separates(
            Scheme::Spaced,
            #[trigger] e.key[i],
        ) by {
            if crate::rows::separates(Scheme::Spaced, e.key[i]) {
                assert(white_space(e.key[i]));
                assert(crate::env::spacious(e.key));
            }
        }
    }
}

#[verifier::rlimit(60)]
#[verifier::spinoff_prover]
proof fn emitted_is_lines(es: Seq<Flat>, d: Dialect, n: nat)
    requires
        n <= es.len(),
        emitted(es, d, n) is Ok,
    ensures
        emitted(es, d, n)->Ok_0 == flat(entry_lines(es, d, n)),
        ended(entry_lines(es, d, n)),
    decreases n,
{
    if n > 0 {
        emitted_is_lines(es, d, (n - 1) as nat);
        let e = es[n - 1];
        let g = scheme(d);
        accepted(e, d);
        new_entry_reads_back(g, e.key, e.value, "\n"@);
        let l = new_entry(g, e.key, e.value, "\n"@);
        let before = entry_lines(es, d, (n - 1) as nat);
        let a = rows(above(e));
        let f = rows(e.notes.foot);
        rows_ended(above(e), g);
        rows_ended(e.notes.foot, g);
        above_text(e);
        rows_flat(e.notes.foot, e.notes.foot.len());
        assert(f.take(e.notes.foot.len() as int) =~= f);
        flat_add(before, a);
        flat_add(before + a, seq![l]);
        flat_one(l);
        flat_add(before + a + seq![l], f);
        assert(ended(seq![l]));
        ended_add(before, a);
        ended_add(before + a, seq![l]);
        ended_add(before + a + seq![l], f);
        let out = emitted(es, d, (n - 1) as nat)->Ok_0;
        assert(emitted(es, d, n)->Ok_0 =~= out + flat(a) + l + flat(f));
    }
}

/// The comments that wait below the first `n` entries.
spec fn waiting(es: Seq<Flat>, n: nat) -> Seq<Seq<char>> {
    if 0 < n <= es.len() {
        all_told(es[n - 1].notes.foot)
    } else {
        Seq::empty()
    }
}

/// The entry as it is read: with its value, and with the foot of the entry before it, its
/// head and its inline comment above it.
pub open spec fn read_entry(es: Seq<Flat>, i: int) -> (Seq<char>, Cmt) {
    (
        es[i].key,
        Cmt {
            notes: Notes {
                head: (if i > 0 {
                    all_told(es[i - 1].notes.foot)
                } else {
                    Seq::empty()
                }) + all_told(es[i].notes.head + opt_line(es[i].notes.inline)),
                inline: None,
                foot: Seq::empty(),
            },
            node: CmtNode::Scalar(Val::Str(es[i].value)),
        },
    )
}

proof fn notes_at(lines: Seq<Seq<char>>, at: int, notes: Seq<Seq<char>>, g: Scheme)
    requires
        g != Scheme::Sections,
        0 <= at,
        at + notes.len() <= lines.len(),
        forall|k: int| 0 <= k < notes.len() ==> lines[at + k] == row(#[trigger] notes[k]),
    ensures
        forall|k: int|
            0 <= k < notes.len() ==> notes_row(lines[at + k], g, env_style(), #[trigger] all_told(notes)[k]),
{
    assert forall|k: int| 0 <= k < notes.len() implies notes_row(
        lines[at + k],
        g,
        env_style(),
        #[trigger] all_told(notes)[k],
    ) by {
        assert(lines[at + k] == row(notes[k]));
        row_reads(notes[k], g);
    }
}

proof fn walked_prefix(a: Seq<Seq<char>>, b: Seq<Seq<char>>, g: Scheme)
    ensures
        walked(env_style(), a + b, g, 0, a.len() as int, Seq::empty(), Seq::empty()) == walked(
            env_style(),
            a,
            g,
            0,
            a.len() as int,
            Seq::empty(),
            Seq::empty(),
        ),
{
    assert forall|k: int| 0 <= k < a.len() implies #[trigger] (a + b)[k] == a[k] by {}
    crate::line_note_laws::walked_alike(
        env_style(),
        a + b,
        a,
        g,
        0,
        a.len() as int,
        Seq::empty(),
        Seq::empty(),
    );
}

#[verifier::rlimit(80)]
#[verifier::spinoff_prover]
proof fn lines_read(es: Seq<Flat>, d: Dialect, n: nat)
    requires
        n <= es.len(),
        emitted(es, d, n) is Ok,
    ensures
        ({
            let ls = entry_lines(es, d, n);
            let (o, p) = walked(env_style(), ls, scheme(d), 0, ls.len() as int, Seq::empty(), Seq::empty());
            &&& o.len() == n
            &&& forall|i: int| 0 <= i < n ==> #[trigger] o[i] == read_entry(es, i)
            &&& p == waiting(es, n)
            &&& !malformed(ls, scheme(d))
        }),
    decreases n,
{
    let st = env_style();
    let g = scheme(d);
    let ls = entry_lines(es, d, n);
    let none = Seq::<(Seq<char>, Cmt)>::empty();
    let quiet = Seq::<Seq<char>>::empty();
    if n > 0 {
        lines_read(es, d, (n - 1) as nat);
        let e = es[n - 1];
        accepted(e, d);
        new_entry_reads_back(g, e.key, e.value, "\n"@);
        let l = new_entry(g, e.key, e.value, "\n"@);
        let before = entry_lines(es, d, (n - 1) as nat);
        let a = rows(above(e));
        let f = rows(e.notes.foot);
        let b0 = before.len() as int;
        let b1 = b0 + a.len();
        let b2 = b1 + 1;
        let b3 = b2 + f.len();
        assert(ls == before + a + seq![l] + f);
        assert(ls =~= before + (a + seq![l] + f));
        walked_prefix(before, a + seq![l] + f, g);
        let (o, p) = walked(st, before, g, 0, b0, none, quiet);
        assert forall|k: int| 0 <= k < above(e).len() implies ls[b0 + k] == row(#[trigger] above(e)[k]) by {
            assert(ls[b0 + k] == a[k]);
        }
        notes_at(ls, b0, above(e), g);
        walked_notes(st, ls, g, b0, all_told(above(e)), above(e).len(), o, p);
        assert(all_told(above(e)).take(above(e).len() as int) =~= all_told(above(e)));
        walked_from(st, ls, g, 0, b0, b1, none, quiet);
        assert(ls[b1] == l);
        let p1 = p + all_told(above(e));
        assert(walked(st, ls, g, 0, b1, none, quiet) == (o, p1));
        let step = walked_line(st, l, g, o, p1);
        assert(walked(st, ls, g, 0, b2, none, quiet) == step);
        assert(crate::rows::inline_text(l, g) is None) by {
            assert(crate::rows::region_end(l, g) == body_end(l));
        }
        let o2 = step.0;
        assert(o2.last() == read_entry(es, n - 1));
        assert forall|k: int| 0 <= k < e.notes.foot.len() implies ls[b2 + k] == row(
            #[trigger] e.notes.foot[k],
        ) by {
            assert(ls[b2 + k] == f[k]);
        }
        notes_at(ls, b2, e.notes.foot, g);
        walked_notes(st, ls, g, b2, all_told(e.notes.foot), e.notes.foot.len(), o2, quiet);
        assert(all_told(e.notes.foot).take(e.notes.foot.len() as int) =~= all_told(e.notes.foot));
        walked_from(st, ls, g, 0, b2, b3, none, quiet);
        assert(quiet + all_told(e.notes.foot) =~= waiting(es, n));
        assert forall|i: int| 0 <= i < n implies #[trigger] o2[i] == read_entry(es, i) by {
            if i < n - 1 {
                assert(o2[i] == o[i]);
            }
        }
        assert forall|i: int| 0 <= i < ls.len() implies row_kind(#[trigger] ls[i], g) != RowKind::Bad by {
            if i < b0 {
                assert(ls[i] == before[i]);
            } else if i < b1 {
                assert(ls[b0 + (i - b0)] == row(above(e)[i - b0]));
                row_reads(above(e)[i - b0], g);
            } else if i > b1 {
                assert(ls[b2 + (i - b2)] == row(e.notes.foot[i - b2]));
                row_reads(e.notes.foot[i - b2], g);
            }
        }
    }
}

/// A commented value written as a flat file is one: it parses back with one entry for each
/// flattened line, in order, with the line's key and value, and with every comment: a foot
/// and an inline comment stand above the entry that follows them or that they are on, and
/// the last foot ends the file.
pub proof fn env_emission_reads_back(c: Cmt, d: Dialect)
    requires
        env_emitted(c, d) is Ok,
        env_emitted(c, d)->Ok_0.0.len() > 0 ==> env_emitted(c, d)->Ok_0.0[0] != '\u{feff}',
    ensures
        ({
            let text = env_emitted(c, d)->Ok_0.0;
            let es = flattened(""@, c);
            let back = env_parsed(text, d);
            &&& back is Ok
            &&& env_whole(back->Ok_0) == Val::Object(
                Seq::new(es.len(), |i: int| (es[i].key, Val::Str(es[i].value))),
            )
            &&& ({
                let root = Cmt {
                    notes: crate::model::no_notes(),
                    node: CmtNode::Object(Seq::new(es.len(), |i: int| read_entry(es, i))),
                };
                let foot = if es.len() > 0 {
                    all_told(es.last().notes.foot)
                } else {
                    Seq::empty()
                };
                env_commented(back->Ok_0) == (if foot.len() > 0 {
                    crate::comment::with_foot(root, foot)
                } else {
                    root
                })
            })
        }),
{
    let text = env_emitted(c, d)->Ok_0.0;
    let es = flattened(""@, c);
    let n = es.len();
    emitted_is_lines(es, d, n);
    lines_read(es, d, n);
    let ls = entry_lines(es, d, n);
    assert(are_lines(ls));
    lines_of_flat(ls);
    let doc = EnvDoc { lines: ls, dialect: d, bom: false };
    assert(env_parsed(text, d) == Ok::<EnvDoc, Seq<char>>(doc));
    let (o, p) = walked(env_style(), ls, scheme(d), 0, ls.len() as int, Seq::empty(), Seq::empty());
    let want = Seq::new(es.len(), |i: int| read_entry(es, i));
    assert(o =~= want);
    let root = Cmt { notes: crate::model::no_notes(), node: CmtNode::Object(o) };
    if n > 0 {
        assert(p == all_told(es.last().notes.foot));
    }
    env_comments_keep_the_value(doc);
    foot_keeps_the_value(root, p);
    assert(plain_members(o) =~= Seq::new(es.len(), |i: int| (es[i].key, Val::Str(es[i].value)))) by {
        assert forall|i: int| 0 <= i < o.len() implies plain_members(o)[i] == (
            es[i].key,
            Val::Str(es[i].value),
        ) by {
            assert(o[i] == read_entry(es, i));
        }
    }
    assert(plain(root) == Val::Object(plain_members(o)));
}

} // verus!
