//! What is written as INI reads back with the values it was written for.
use crate::comment::{dotted, flat_members, flattened, plain, plain_members, Flat};
use crate::convert::{flat_member_pairs, flat_pairs};
use crate::flat_laws::{flattening_keeps_all, line_pairs, peopled};
use crate::ini::{
    flat_rows, header_from, header_from_bounds, header_from_is, heads, ini_emitted, ini_parsed,
    ini_style, ini_whole, inline_suffix, member_flats, new_header, new_header_reads_back,
    section_fault, section_flats, section_members, section_text, trailing_notes, with_inline,
    with_sections, IniDoc,
};
use crate::line_comment::{comment_row, comment_rows, one_line};
use crate::lines::{are_lines, flat, flat_add, flat_one, flat_push, is_line, lines_of_flat};
use crate::model::{Cmt, Val};
use crate::note_laws::{inline_says_the_same, says};
use crate::rows::{
    body_end, entry_members, header_name, malformed, new_entry, new_entry_reads_back, plain_key,
    plain_value, row_kind, text_at, white_from_is, RowKind, Scheme,
};
use vstd::prelude::*;
use vstd::string::*;

verus! {

/// A comment's line.
spec fn row(x: Seq<char>) -> Seq<char> {
    comment_row(ini_style(), ""@, x)
}

/// Is the line one that ends in a line feed and holds neither an entry nor a header?
spec fn aside(t: Seq<char>) -> bool {
    &&& is_line(t)
    &&& t.last() == '\n'
    &&& row_kind(t, Scheme::Sections) == RowKind::Note || row_kind(t, Scheme::Sections)
        == RowKind::Blank
}

proof fn row_is_aside(x: Seq<char>)
    ensures
        aside(row(x)),
{
    reveal_strlit("");
    reveal_strlit("; ");
    let w = one_line(x);
    let t = row(x);
    assert(t =~= seq![';', ' '] + w + seq!['\n']);
    let e = t.len() - 1;
    assert(t[t.len() - 2] != '\r') by {
        if w.len() > 0 {
            assert(t[t.len() - 2] == w[w.len() - 1]);
        } else {
            assert(t[t.len() - 2] == ' ');
        }
    }
    assert(body_end(t) == e);
    white_from_is(t, 0, e, 0);
    assert(text_at(t) == 0);
    assert forall|j: int| 0 <= j < t.len() - 1 implies #[trigger] t[j] != '\n' by {
        if j >= 2 {
            assert(t[j] == w[j - 2]);
        }
    }
}

proof fn empty_line_is_aside()
    ensures
        aside("\n"@),
{
    reveal_strlit("\n");
    let t = "\n"@;
    assert(body_end(t) == 0);
    white_from_is(t, 0, 0, 0);
}

spec fn all_aside(ls: Seq<Seq<char>>) -> bool {
    forall|i: int| 0 <= i < ls.len() ==> aside(#[trigger] ls[i])
}

/// The lines of comments.
spec fn rows(lines: Seq<Seq<char>>) -> Seq<Seq<char>> {
    Seq::new(lines.len(), |i: int| row(lines[i]))
}

proof fn rows_are_aside(lines: Seq<Seq<char>>)
    ensures
        all_aside(rows(lines)),
{
    assert forall|i: int| 0 <= i < rows(lines).len() implies aside(#[trigger] rows(lines)[i]) by {
        row_is_aside(lines[i]);
    }
}

proof fn rows_flat(lines: Seq<Seq<char>>, n: nat)
    requires
        n <= lines.len(),
    ensures
        comment_rows(ini_style(), ""@, lines, n) == flat(rows(lines).take(n as int)),
        n == lines.len() ==> comment_rows(ini_style(), ""@, lines, n) == flat(rows(lines)),
    decreases n,
{
    let r = rows(lines);
    if n == 0 {
        assert(r.take(0) =~= Seq::<Seq<char>>::empty());
    } else {
        rows_flat(lines, (n - 1) as nat);
        assert(r.take(n as int) =~= r.take(n - 1).push(r[n - 1]));
        flat_push(r.take(n - 1), r[n - 1]);
    }
    assert(r.take(r.len() as int) =~= r);
}

/// Can the line be written, so that it reads back?
pub open spec fn writable(e: Flat) -> bool {
    plain_key(Scheme::Sections, e.key) && plain_value(Scheme::Sections, e.value)
}

/// An entry's line.
spec fn entry_row(e: Flat) -> Seq<char> {
    (e.key + " = "@ + e.value) + inline_suffix(e.notes.inline) + "\n"@
}

/// A section's header line.
spec fn header_row(name: Seq<char>, c: Cmt) -> Seq<char> {
    ("["@ + name + "]"@) + inline_suffix(c.notes.inline) + "\n"@
}

proof fn one_line_ends(x: Seq<char>, front: Seq<char>)
    requires
        forall|j: int| 0 <= j < front.len() ==> #[trigger] front[j] != '\n',
    ensures
        is_line(front + ("  ; "@ + one_line(x)) + "\n"@),
        (front + ("  ; "@ + one_line(x)) + "\n"@).last() == '\n',
{
    reveal_strlit("  ; ");
    reveal_strlit("\n");
    let w = one_line(x);
    let t = front + ("  ; "@ + w) + "\n"@;
    assert forall|j: int| 0 <= j < t.len() - 1 implies #[trigger] t[j] != '\n' by {
        if j < front.len() {
            assert(t[j] == front[j]);
        } else if j >= front.len() + 4 {
            assert(t[j] == w[j - front.len() - 4]);
        }
    }
}

proof fn entry_row_reads(e: Flat)
    requires
        writable(e),
    ensures
        ({
            let t = entry_row(e);
            &&& is_line(t)
            &&& t.last() == '\n'
            &&& row_kind(t, Scheme::Sections) == RowKind::Entry
            &&& crate::rows::entry_key(t, Scheme::Sections) == e.key
            &&& crate::rows::entry_value(t, Scheme::Sections) == e.value
        }),
{
    let g = Scheme::Sections;
    let u = new_entry(g, e.key, e.value, "\n"@);
    new_entry_reads_back(g, e.key, e.value, "\n"@);
    reveal_strlit("\n");
    reveal_strlit("\r\n");
    reveal_strlit(" = ");
    let front = e.key + " = "@ + e.value;
    assert(u == front + "\n"@);
    let t = entry_row(e);
    match e.notes.inline {
        None => {
            assert(t =~= u);
        },
        Some(x) => {
            inline_says_the_same(u, Some(x));
            assert(u.take(front.len() as int) =~= front);
            assert(crate::ini::own_end(u) == front.len());
            assert(crate::text::line_ending(u) =~= "\n"@) by {
                crlf_not(e, u);
            }
            assert(t =~= with_inline(u, Some(x)));
            assert(says(t, g) == says(u, g));
            assert forall|j: int| 0 <= j < front.len() implies #[trigger] front[j] != '\n' by {
                assert(u[j] == front[j]);
            }
            one_line_ends(x, front);
        },
    }
}

proof fn crlf_not(e: Flat, u: Seq<char>)
    requires
        writable(e),
        u == e.key + " = "@ + e.value + "\n"@,
    ensures
        !crate::text::ends_crlf(u),
        crate::text::ends_lf(u),
{
    reveal_strlit("\n");
    reveal_strlit("\r\n");
    reveal_strlit(" = ");
    let n = u.len() as int;
    assert(u[n - 1] == '\n');
    if e.value.len() > 0 {
        assert(u[n - 2] == e.value.last());
        assert(crate::strs::white_space('\r'));
    } else {
        assert(u[n - 2] == ' ');
    }
}

proof fn header_row_reads(name: Seq<char>, c: Cmt)
    requires
        section_fault(name) is None,
    ensures
        ({
            let t = header_row(name, c);
            &&& is_line(t)
            &&& t.last() == '\n'
            &&& heads(t)
            &&& header_name(t) == name
        }),
{
    let g = Scheme::Sections;
    let u = new_header(name, "\n"@);
    new_header_reads_back(name, "\n"@);
    reveal_strlit("\n");
    reveal_strlit("\r\n");
    reveal_strlit("[");
    reveal_strlit("]");
    let front = "["@ + name + "]"@;
    assert(u == front + "\n"@);
    let t = header_row(name, c);
    match c.notes.inline {
        None => {
            assert(t =~= u);
        },
        Some(x) => {
            inline_says_the_same(u, Some(x));
            assert(u.take(front.len() as int) =~= front);
            assert(crate::ini::own_end(u) == front.len());
            let n = u.len() as int;
            assert(u[n - 1] == '\n');
            assert(u[n - 2] == ']');
            assert(crate::text::line_ending(u) =~= "\n"@);
            assert(t =~= with_inline(u, Some(x)));
            assert(says(t, g) == says(u, g));
            assert forall|j: int| 0 <= j < front.len() implies #[trigger] front[j] != '\n' by {
                assert(u[j] == front[j]);
            }
            one_line_ends(x, front);
        },
    }
}

/// The lines of the first `n` flattened lines with their comments.
spec fn flat_lines(es: Seq<Flat>, n: nat) -> Seq<Seq<char>>
    decreases n,
{
    if n == 0 {
        Seq::empty()
    } else {
        let e = es[n - 1];
        flat_lines(es, (n - 1) as nat) + rows(e.notes.head) + seq![entry_row(e)] + rows(e.notes.foot)
    }
}

/// The lines of a section.
spec fn section_lines(name: Seq<char>, c: Cmt, first: bool) -> Seq<Seq<char>> {
    (if first {
        Seq::empty()
    } else {
        seq!["\n"@]
    }) + rows(c.notes.head) + seq![header_row(name, c)] + (flat_lines(
        section_flats(c),
        section_flats(c).len(),
    ) + rows(c.notes.foot))
}

/// Lines that end in a line feed, none of them a header or malformed.
spec fn body(ls: Seq<Seq<char>>) -> bool {
    forall|i: int| 0 <= i < ls.len() ==> body_line(#[trigger] ls[i])
}

spec fn body_line(t: Seq<char>) -> bool {
    is_line(t) && t.last() == '\n' && !heads(t) && row_kind(t, Scheme::Sections) != RowKind::Bad
}

proof fn body_add(a: Seq<Seq<char>>, b: Seq<Seq<char>>)
    requires
        body(a),
        body(b),
    ensures
        body(a + b),
{
    let c = a + b;
    assert forall|i: int| 0 <= i < c.len() implies body_line(#[trigger] c[i]) by {
        if i < a.len() {
            assert(c[i] == a[i]);
        } else {
            assert(c[i] == b[i - a.len()]);
        }
    }
}

proof fn aside_is_body(ls: Seq<Seq<char>>)
    requires
        all_aside(ls),
    ensures
        body(ls),
{
    assert forall|i: int| 0 <= i < ls.len() implies body_line(#[trigger] ls[i]) by {
        assert(aside(ls[i]));
    }
}

/// The entries among lines.
spec fn entries(ls: Seq<Seq<char>>) -> Seq<(Seq<char>, Val)> {
    entry_members(ls, Scheme::Sections, 0, ls.len() as int)
}

proof fn entries_shift(a: Seq<Seq<char>>, b: Seq<Seq<char>>, from: int, to: int)
    requires
        0 <= from <= to <= b.len(),
    ensures
        entry_members(a + b, Scheme::Sections, a.len() + from, a.len() + to) == entry_members(
            b,
            Scheme::Sections,
            from,
            to,
        ),
    decreases to - from,
{
    if from < to {
        entries_shift(a, b, from, to - 1);
        assert((a + b)[a.len() + to - 1] == b[to - 1]);
    }
}

proof fn entries_same(a: Seq<Seq<char>>, b: Seq<Seq<char>>, from: int, to: int)
    requires
        0 <= from <= to <= a.len(),
    ensures
        entry_members(a + b, Scheme::Sections, from, to) == entry_members(a, Scheme::Sections, from, to),
    decreases to - from,
{
    if from < to {
        entries_same(a, b, from, to - 1);
        assert((a + b)[to - 1] == a[to - 1]);
    }
}

proof fn entries_split(ls: Seq<Seq<char>>, from: int, mid: int, to: int)
    requires
        0 <= from <= mid <= to <= ls.len(),
    ensures
        entry_members(ls, Scheme::Sections, from, to) == entry_members(
            ls,
            Scheme::Sections,
            from,
            mid,
        ) + entry_members(ls, Scheme::Sections, mid, to),
    decreases to - mid,
{
    let a = entry_members(ls, Scheme::Sections, from, mid);
    if mid < to {
        entries_split(ls, from, mid, to - 1);
        let b = entry_members(ls, Scheme::Sections, mid, to - 1);
        let t = ls[to - 1];
        let x = (
            crate::rows::entry_key(t, Scheme::Sections),
            Val::Str(crate::rows::entry_value(t, Scheme::Sections)),
        );
        assert((a + b).push(x) =~= a + b.push(x));
    } else {
        assert(a + Seq::empty() =~= a);
    }
}

proof fn entries_add(a: Seq<Seq<char>>, b: Seq<Seq<char>>)
    ensures
        entries(a + b) == entries(a) + entries(b),
{
    entries_split(a + b, 0, a.len() as int, (a + b).len() as int);
    entries_same(a, b, 0, a.len() as int);
    entries_shift(a, b, 0, b.len() as int);
}

proof fn aside_has_none(ls: Seq<Seq<char>>, from: int, to: int)
    requires
        0 <= from <= to <= ls.len(),
        forall|i: int| from <= i < to ==> aside(#[trigger] ls[i]),
    ensures
        entry_members(ls, Scheme::Sections, from, to).len() == 0,
    decreases to - from,
{
    if from < to {
        aside_has_none(ls, from, to - 1);
        assert(aside(ls[to - 1]));
    }
}

/// Keys and texts as members.
pub open spec fn text_members(ps: Seq<(Seq<char>, Seq<char>)>) -> Seq<(Seq<char>, Val)> {
    Seq::new(ps.len(), |i: int| (ps[i].0, Val::Str(ps[i].1)))
}

#[verifier::rlimit(40)]
#[verifier::spinoff_prover]
proof fn flat_lines_read(es: Seq<Flat>, n: nat)
    requires
        n <= es.len(),
        forall|i: int| 0 <= i < es.len() ==> writable(#[trigger] es[i]),
    ensures
        flat_rows(es, n) == flat(flat_lines(es, n)),
        body(flat_lines(es, n)),
        entries(flat_lines(es, n)) == text_members(line_pairs(es.take(n as int))),
    decreases n,
{
    if n == 0 {
        assert(entries(flat_lines(es, n)) =~= text_members(line_pairs(es.take(0))));
    } else {
        flat_lines_read(es, (n - 1) as nat);
        let e = es[n - 1];
        assert(writable(e));
        entry_row_reads(e);
        let before = flat_lines(es, (n - 1) as nat);
        let h = rows(e.notes.head);
        let l = seq![entry_row(e)];
        let f = rows(e.notes.foot);
        rows_are_aside(e.notes.head);
        rows_are_aside(e.notes.foot);
        aside_is_body(h);
        aside_is_body(f);
        assert(body(l));
        body_add(before, h);
        body_add(before + h, l);
        body_add(before + h + l, f);
        rows_flat(e.notes.head, e.notes.head.len());
        rows_flat(e.notes.foot, e.notes.foot.len());
        flat_add(before, h);
        flat_add(before + h, l);
        flat_add(before + h + l, f);
        flat_one(entry_row(e));
        entry_regroup(flat(before), flat(h), e.key + " = "@ + e.value, inline_suffix(e.notes.inline), flat(f));
        aside_has_none(h, 0, h.len() as int);
        aside_has_none(f, 0, f.len() as int);
        entries_add(before, h);
        entries_add(before + h, l);
        entries_add(before + h + l, f);
        let x = (e.key, Val::Str(e.value));
        assert(l[0] == entry_row(e));
        assert(entry_members(l, Scheme::Sections, 0, 0).len() == 0);
        assert(entries(l) =~= seq![x]);
        assert(es.take(n as int) =~= es.take(n - 1).push(e));
        assert(entries(flat_lines(es, n)) =~= text_members(line_pairs(es.take(n as int))));
    }
}

proof fn entry_regroup(a: Seq<char>, h: Seq<char>, k: Seq<char>, i: Seq<char>, f: Seq<char>)
    ensures
        a + (h + k + i + "\n"@ + f) == a + h + (k + i + "\n"@) + f,
{
    assert(a + (h + k + i + "\n"@ + f) =~= a + h + (k + i + "\n"@) + f);
}

/// Well-formed lines.
spec fn proper(ls: Seq<Seq<char>>) -> bool {
    forall|i: int| 0 <= i < ls.len() ==> proper_line(#[trigger] ls[i])
}

spec fn proper_line(t: Seq<char>) -> bool {
    is_line(t) && t.last() == '\n' && row_kind(t, Scheme::Sections) != RowKind::Bad
}

proof fn proper_add(a: Seq<Seq<char>>, b: Seq<Seq<char>>)
    requires
        proper(a),
        proper(b),
    ensures
        proper(a + b),
{
    let c = a + b;
    assert forall|i: int| 0 <= i < c.len() implies proper_line(#[trigger] c[i]) by {
        if i < a.len() {
            assert(c[i] == a[i]);
        } else {
            assert(c[i] == b[i - a.len()]);
        }
    }
}

proof fn body_is_proper(ls: Seq<Seq<char>>)
    requires
        body(ls),
    ensures
        proper(ls),
{
    assert forall|i: int| 0 <= i < ls.len() implies proper_line(#[trigger] ls[i]) by {
        assert(body_line(ls[i]));
    }
}

proof fn header_shift(a: Seq<Seq<char>>, b: Seq<Seq<char>>, j: int)
    requires
        0 <= j <= b.len(),
    ensures
        header_from(a + b, a.len() + j) == a.len() + header_from(b, j),
    decreases b.len() - j,
{
    if j < b.len() {
        assert((a + b)[a.len() + j] == b[j]);
        if !heads(b[j]) {
            header_shift(a, b, j + 1);
        }
    }
}

proof fn sections_shift(a: Seq<Seq<char>>, b: Seq<Seq<char>>, j: int)
    requires
        0 <= j <= b.len(),
    ensures
        section_members(a + b, a.len() + j) == section_members(b, j),
    decreases b.len() - j,
{
    if j < b.len() {
        assert((a + b)[a.len() + j] == b[j]);
        header_shift(a, b, j + 1);
        header_from_bounds(b, j + 1);
        let next = header_from(b, j + 1);
        entries_shift(a, b, j + 1, next);
        sections_shift(a, b, next);
    }
}

/// Where the first header stands among joined lines.
proof fn header_joined(a: Seq<Seq<char>>, b: Seq<Seq<char>>, j: int)
    requires
        0 <= j <= a.len(),
    ensures
        header_from(a, j) < a.len() ==> header_from(a + b, j) == header_from(a, j),
        header_from(a, j) >= a.len() ==> header_from(a + b, j) == a.len() + header_from(b, 0),
        j <= header_from(a, j) <= a.len(),
    decreases a.len() - j,
{
    header_from_bounds(a, j);
    if j < a.len() {
        assert((a + b)[j] == a[j]);
        if !heads(a[j]) {
            header_joined(a, b, j + 1);
        }
    } else {
        header_shift(a, b, 0);
    }
}

/// What is added behind a section adds its sections, where it starts with no entries.
#[verifier::rlimit(40)]
#[verifier::spinoff_prover]
proof fn sections_joined(a: Seq<Seq<char>>, b: Seq<Seq<char>>, h: int)
    requires
        0 <= h < a.len(),
        heads(a[h]),
        entry_members(b, Scheme::Sections, 0, header_from(b, 0)).len() == 0,
    ensures
        section_members(a + b, h) == section_members(a, h) + section_members(b, header_from(b, 0)),
    decreases a.len() - h,
{
    let c = a + b;
    let k = header_from(b, 0);
    header_from_bounds(b, 0);
    header_joined(a, b, h + 1);
    let next = header_from(a, h + 1);
    assert(c[h] == a[h]);
    let name = header_name(a[h]);
    let own = entry_members(a, Scheme::Sections, h + 1, next);
    let one = seq![(name, Val::Object(own))];
    if next < a.len() {
        header_stops(a, h + 1);
        entries_same(a, b, h + 1, next);
        sections_joined(a, b, next);
        assert(one + (section_members(a, next) + section_members(b, k)) =~= one + section_members(
            a,
            next,
        ) + section_members(b, k));
    } else {
        let far = a.len() + k;
        entries_split(c, h + 1, a.len() as int, far);
        entries_same(a, b, h + 1, a.len() as int);
        entries_shift(a, b, 0, k);
        assert(entry_members(c, Scheme::Sections, h + 1, far) =~= own);
        sections_shift(a, b, k);
        assert(section_members(a, next).len() == 0);
        assert(section_members(a, h) =~= one);
    }
}

proof fn header_stops(a: Seq<Seq<char>>, j: int)
    requires
        0 <= j,
        header_from(a, j) < a.len(),
    ensures
        heads(a[header_from(a, j)]),
    decreases a.len() - j,
{
    if j < a.len() && !heads(a[j]) {
        header_stops(a, j + 1);
    }
}

/// What lines hold.
spec fn holds(ls: Seq<Seq<char>>) -> Seq<(Seq<char>, Val)> {
    ini_whole(IniDoc { lines: ls, bom: false })->Object_0
}

proof fn whole_joined(a: Seq<Seq<char>>, b: Seq<Seq<char>>)
    requires
        entry_members(b, Scheme::Sections, 0, header_from(b, 0)).len() == 0,
    ensures
        holds(a + b) == holds(a) + section_members(b, header_from(b, 0)),
{
    let c = a + b;
    let k = header_from(b, 0);
    header_from_bounds(b, 0);
    header_joined(a, b, 0);
    let h = header_from(a, 0);
    let own = entry_members(a, Scheme::Sections, 0, h);
    if h < a.len() {
        header_stops(a, 0);
        entries_same(a, b, 0, h);
        sections_joined(a, b, h);
        assert(own + (section_members(a, h) + section_members(b, k)) =~= own + section_members(a, h)
            + section_members(b, k));
    } else {
        let far = a.len() + k;
        entries_split(c, 0, a.len() as int, far);
        entries_same(a, b, 0, a.len() as int);
        entries_shift(a, b, 0, k);
        assert(entry_members(c, Scheme::Sections, 0, far) =~= own);
        sections_shift(a, b, k);
        assert(section_members(a, h).len() == 0);
        assert(holds(a) =~= own);
        assert(holds(c) =~= own + section_members(b, k));
    }
}

#[verifier::rlimit(40)]
#[verifier::spinoff_prover]
proof fn section_reads(name: Seq<char>, c: Cmt, first: bool)
    requires
        section_fault(name) is None,
        forall|i: int| 0 <= i < section_flats(c).len() ==> writable(#[trigger] section_flats(c)[i]),
    ensures
        ({
            let ls = section_lines(name, c, first);
            &&& section_text(name, c, first) == flat(ls)
            &&& proper(ls)
            &&& entry_members(ls, Scheme::Sections, 0, header_from(ls, 0)).len() == 0
            &&& section_members(ls, header_from(ls, 0)) == seq![
                (name, Val::Object(text_members(line_pairs(section_flats(c))))),
            ]
            &&& ls.len() > 0
        }),
{
    let es = section_flats(c);
    let q0 = if first {
        Seq::empty()
    } else {
        seq!["\n"@]
    };
    let q1 = rows(c.notes.head);
    let q = q0 + q1;
    let l = seq![header_row(name, c)];
    let bd = flat_lines(es, es.len());
    let f = rows(c.notes.foot);
    let ls = section_lines(name, c, first);
    empty_line_is_aside();
    rows_are_aside(c.notes.head);
    rows_are_aside(c.notes.foot);
    assert forall|i: int| 0 <= i < q.len() implies aside(#[trigger] q[i]) by {
        if i < q0.len() {
            assert(q[i] == q0[i]);
        } else {
            assert(q[i] == q1[i - q0.len()]);
        }
    }
    flat_lines_read(es, es.len());
    assert(es.take(es.len() as int) =~= es);
    header_row_reads(name, c);
    aside_is_body(q);
    aside_is_body(f);
    body_is_proper(q);
    body_add(bd, f);
    body_is_proper(bd + f);
    assert(proper(l));
    proper_add(q, l);
    proper_add(q + l, bd + f);
    assert(ls == q + l + (bd + f));
    let at = q.len() as int;
    assert(ls[at] == l[0]);
    assert forall|k: int| 0 <= k < at implies !heads(#[trigger] ls[k]) && aside(ls[k]) by {
        assert(ls[k] == q[k]);
        assert(aside(q[k]));
    }
    header_from_is(ls, 0, at);
    aside_has_none(ls, 0, at);
    let n = ls.len() as int;
    assert forall|k: int| at + 1 <= k < n implies !heads(#[trigger] ls[k]) by {
        assert(ls[k] == (bd + f)[k - at - 1]);
        assert(body_line((bd + f)[k - at - 1]));
    }
    header_from_is(ls, at + 1, n);
    entries_shift(q + l, bd + f, 0, (bd + f).len() as int);
    entries_add(bd, f);
    aside_has_none(f, 0, f.len() as int);
    assert(entries(bd + f) =~= entries(bd));
    let one = seq![(name, Val::Object(text_members(line_pairs(es))))];
    assert(section_members(ls, n).len() == 0);
    assert(section_members(ls, at) =~= one);
    // The text.
    flat_add(q0, q1);
    flat_add(q, l);
    flat_add(q + l, bd + f);
    flat_add(bd, f);
    flat_one(header_row(name, c));
    flat_one("\n"@);
    rows_flat(c.notes.head, c.notes.head.len());
    rows_flat(c.notes.foot, c.notes.foot.len());
    assert(flat(Seq::<Seq<char>>::empty()) =~= Seq::<char>::empty());
    let t0 = if first {
        Seq::<char>::empty()
    } else {
        "\n"@
    };
    assert(flat(q0) =~= t0);
    section_regroup(t0, flat(q1), "["@ + name + "]"@, inline_suffix(c.notes.inline), flat(bd), flat(f));
}

proof fn section_regroup(
    t0: Seq<char>,
    h: Seq<char>,
    k: Seq<char>,
    i: Seq<char>,
    b: Seq<char>,
    f: Seq<char>,
)
    ensures
        t0 + h + k + i + "\n"@ + b + f == t0 + h + (k + i + "\n"@) + (b + f),
{
    assert(t0 + h + k + i + "\n"@ + b + f =~= t0 + h + (k + i + "\n"@) + (b + f));
}

/// A member that is a section.
pub open spec fn is_section() -> spec_fn((Seq<char>, Cmt)) -> bool {
    |x: (Seq<char>, Cmt)| x.1.node is Object
}

/// A member that is no section.
pub open spec fn is_entry() -> spec_fn((Seq<char>, Cmt)) -> bool {
    |x: (Seq<char>, Cmt)| !(x.1.node is Object)
}

/// The sections of members: each has the texts of its own flattened value.
pub open spec fn sections_of(m: Seq<(Seq<char>, Cmt)>) -> Seq<(Seq<char>, Val)> {
    Seq::new(
        m.len(),
        |i: int| (m[i].0, Val::Object(text_members(flat_pairs(""@, plain(m[i].1))))),
    )
}

proof fn member_flats_are(m: Seq<(Seq<char>, Cmt)>, n: nat)
    requires
        n <= m.len(),
    ensures
        member_flats(m, false, n) == flat_members(""@, m, n),
    decreases n,
{
    reveal_strlit("");
    if n > 0 {
        member_flats_are(m, (n - 1) as nat);
        assert(dotted(""@, m[n - 1].0) == m[n - 1].0);
    }
}

proof fn section_pairs(c: Cmt)
    requires
        c.node is Object,
        peopled(c),
    ensures
        line_pairs(section_flats(c)) == flat_pairs(""@, plain(c)),
{
    let m = c.node->Object_0;
    member_flats_are(m, m.len());
    crate::flat_laws::members_keep_all(""@, m, m.len());
}

/// The entries in front of the sections.
proof fn entry_pairs(m: Seq<(Seq<char>, Cmt)>, n: nat)
    requires
        n <= m.len(),
        forall|i: int| 0 <= i < m.len() ==> peopled((#[trigger] m[i]).1),
    ensures
        ({
            let k = m.take(n as int).filter(is_entry());
            line_pairs(member_flats(m, true, n)) == flat_member_pairs(""@, plain_members(k), k.len())
        }),
    decreases n,
{
    reveal(Seq::filter);
    reveal_strlit("");
    let k = m.take(n as int).filter(is_entry());
    if n == 0 {
        assert(line_pairs(member_flats(m, true, n)) =~= Seq::empty());
    } else {
        entry_pairs(m, (n - 1) as nat);
        assert(m.take(n as int).drop_last() =~= m.take(n - 1));
        assert(m.take(n as int).last() == m[n - 1]);
        let j = m.take(n - 1).filter(is_entry());
        let (name, c) = m[n - 1];
        if !(c.node is Object) {
            assert(k == j.push(m[n - 1]));
            assert(peopled(m[n - 1].1));
            flattening_keeps_all(name, c);
            let before = member_flats(m, true, (n - 1) as nat);
            assert(line_pairs(before + flattened(name, c)) =~= line_pairs(before) + line_pairs(
                flattened(name, c),
            ));
            assert(dotted(""@, name) == name);
            let pk = plain_members(k);
            let pj = plain_members(j);
            assert(pk =~= pj.push((name, plain(c))));
            crate::flat_laws::members_start(""@, pj, (name, plain(c)), pj.len());
        }
    }
}

/// The sections of a document can be written.
pub open spec fn sections_writable(m: Seq<(Seq<char>, Cmt)>) -> bool {
    forall|i: int|
        0 <= i < m.len() && (#[trigger] m[i]).1.node is Object ==> section_fault(m[i].0) is None
            && flats_writable(section_flats(m[i].1))
}

/// Every line can be written.
pub open spec fn flats_writable(es: Seq<Flat>) -> bool {
    forall|i: int| 0 <= i < es.len() ==> writable(#[trigger] es[i])
}

#[verifier::rlimit(40)]
#[verifier::spinoff_prover]
proof fn sections_read(start: Seq<Seq<char>>, m: Seq<(Seq<char>, Cmt)>, n: nat) -> (ls: Seq<Seq<char>>)
    requires
        n <= m.len(),
        proper(start),
        sections_writable(m),
        forall|i: int| 0 <= i < m.len() ==> peopled((#[trigger] m[i]).1),
    ensures
        with_sections(flat(start), m, n) == flat(ls),
        proper(ls),
        holds(ls) == holds(start) + sections_of(m.take(n as int).filter(is_section())),
    decreases n,
{
    reveal(Seq::filter);
    let k = m.take(n as int).filter(is_section());
    if n == 0 {
        assert(holds(start) + sections_of(k) =~= holds(start));
        start
    } else {
        let before = sections_read(start, m, (n - 1) as nat);
        assert(m.take(n as int).drop_last() =~= m.take(n - 1));
        assert(m.take(n as int).last() == m[n - 1]);
        let j = m.take(n - 1).filter(is_section());
        let (name, c) = m[n - 1];
        if c.node is Object {
            let first = flat(before).len() == 0;
            assert(m[n - 1].1.node is Object);
            assert(peopled(m[n - 1].1));
            section_reads(name, c, first);
            let more = section_lines(name, c, first);
            section_pairs(c);
            flat_add(before, more);
            proper_add(before, more);
            whole_joined(before, more);
            assert(k == j.push(m[n - 1]));
            assert(sections_of(k) =~= sections_of(j) + seq![
                (name, Val::Object(text_members(flat_pairs(""@, plain(c))))),
            ]);
            assert(holds(start) + (sections_of(j) + seq![
                (name, Val::Object(text_members(flat_pairs(""@, plain(c))))),
            ]) =~= holds(start) + sections_of(j) + seq![
                (name, Val::Object(text_members(flat_pairs(""@, plain(c))))),
            ]);
            before + more
        } else {
            before
        }
    }
}

/// A commented value written as INI parses back: what is no object stands in front, by its
/// flattened names, then each object as a section with the flattened names in it, all in
/// their order and with their texts.
#[verifier::rlimit(40)]
#[verifier::spinoff_prover]
pub proof fn ini_emission_reads_back(c: Cmt)
    requires
        c.node is Object,
        forall|i: int| 0 <= i < c.node->Object_0.len() ==> peopled((#[trigger] c.node->Object_0[i]).1),
        flats_writable(member_flats(c.node->Object_0, true, c.node->Object_0.len())),
        sections_writable(c.node->Object_0),
        ini_emitted(c)->Ok_0.0.len() > 0 ==> ini_emitted(c)->Ok_0.0[0] != '\u{feff}',
    ensures
        ({
            let m = c.node->Object_0;
            let back = ini_parsed(ini_emitted(c)->Ok_0.0);
            &&& ini_emitted(c) is Ok
            &&& back is Ok
            &&& ini_whole(back->Ok_0) == Val::Object(
                text_members(flat_pairs(""@, Val::Object(plain_members(m.filter(is_entry())))))
                    + sections_of(m.filter(is_section())),
            )
        }),
{
    let m = c.node->Object_0;
    let n = m.len();
    let pre = member_flats(m, true, n);
    let h = rows(c.notes.head);
    let bd = flat_lines(pre, pre.len());
    let tail = trailing_notes(c.notes);
    let f = rows(tail);
    rows_are_aside(c.notes.head);
    rows_are_aside(tail);
    aside_is_body(h);
    aside_is_body(f);
    body_is_proper(f);
    flat_lines_read(pre, pre.len());
    assert(pre.take(pre.len() as int) =~= pre);
    body_add(h, bd);
    let start = h + bd;
    body_is_proper(start);
    rows_flat(c.notes.head, c.notes.head.len());
    rows_flat(tail, tail.len());
    flat_add(h, bd);
    assert(m.take(n as int) =~= m);
    let ls = sections_read(start, m, n);
    let all = ls + f;
    flat_add(ls, f);
    proper_add(ls, f);
    let text = ini_emitted(c)->Ok_0.0;
    assert(text == flat(all));
    // What stands in front of the sections.
    assert forall|k: int| 0 <= k < start.len() implies !heads(#[trigger] start[k]) by {
        assert(body_line(start[k]));
    }
    header_from_is(start, 0, start.len() as int);
    entries_add(h, bd);
    aside_has_none(h, 0, h.len() as int);
    assert(section_members(start, start.len() as int).len() == 0);
    assert(holds(start) =~= entries(bd));
    entry_pairs(m, n);
    // What stands behind them.
    assert forall|k: int| 0 <= k < f.len() implies !heads(#[trigger] f[k]) by {
        assert(aside(f[k]));
    }
    header_from_is(f, 0, f.len() as int);
    aside_has_none(f, 0, f.len() as int);
    whole_joined(ls, f);
    assert(section_members(f, f.len() as int).len() == 0);
    assert(holds(all) =~= holds(ls));
    assert(are_lines(all)) by {
        assert forall|i: int| 0 <= i < all.len() implies is_line(#[trigger] all[i]) && all[i].last()
            == '\n' by {
            assert(proper_line(all[i]));
        }
    }
    lines_of_flat(all);
    assert(!malformed(all, Scheme::Sections)) by {
        assert forall|i: int| 0 <= i < all.len() implies row_kind(#[trigger] all[i], Scheme::Sections)
            != RowKind::Bad by {
            assert(proper_line(all[i]));
        }
    }
    assert(ini_parsed(text) == Ok::<IniDoc, Seq<char>>(IniDoc { lines: all, bom: false }));
    let v = Val::Object(plain_members(m.filter(is_entry())));
    assert(v->Object_0 == plain_members(m.filter(is_entry())));
    assert(plain_members(m.filter(is_entry())).len() == m.filter(is_entry()).len());
}

} // verus!
