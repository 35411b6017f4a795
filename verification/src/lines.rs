//! A text as its lines, each with its terminator.
use crate::strs::{chars_of, slice_text};
use crate::value::texts;
use vstd::prelude::*;
use vstd::string::*;

verus! {

/// The position behind the first line feed at or after `i`, or the end.
pub open spec fn line_end(s: Seq<char>, i: int) -> int
    decreases s.len() - i,
{
    if i >= s.len() {
        s.len() as int
    } else if s[i] == '\n' {
        i + 1
    } else {
        line_end(s, i + 1)
    }
}

/// A line that starts before the end is not empty.
pub proof fn line_end_bounds(s: Seq<char>, i: int)
    requires
        0 <= i,
    ensures
        line_end(s, i) <= s.len(),
        i < s.len() ==> i < line_end(s, i),
        forall|j: int| i <= j < line_end(s, i) - 1 ==> #[trigger] s[j] != '\n',
        i < s.len() ==> s[line_end(s, i) - 1] == '\n' || line_end(s, i) == s.len(),
    decreases s.len() - i,
{
    if i < s.len() && s[i] != '\n' {
        line_end_bounds(s, i + 1);
    }
}

/// The lines of `s` from position `i` on.
pub open spec fn lines_from(s: Seq<char>, i: int) -> Seq<Seq<char>>
    decreases s.len() - i,
    when i >= 0
    via lines_decreases
{
    if i >= s.len() {
        Seq::empty()
    } else {
        seq![s.subrange(i, line_end(s, i))] + lines_from(s, line_end(s, i))
    }
}

#[via_fn]
proof fn lines_decreases(s: Seq<char>, i: int) {
    line_end_bounds(s, i);
}

/// The lines of `s`, each with its terminator.
pub open spec fn lines_of(s: Seq<char>) -> Seq<Seq<char>> {
    lines_from(s, 0)
}

/// The parts one after another.
pub open spec fn flat(parts: Seq<Seq<char>>) -> Seq<char>
    decreases parts.len(),
{
    if parts.len() == 0 {
        Seq::empty()
    } else {
        flat(parts.drop_last()) + parts.last()
    }
}

/// Parts behind parts.
pub proof fn flat_add(a: Seq<Seq<char>>, b: Seq<Seq<char>>)
    ensures
        flat(a + b) == flat(a) + flat(b),
    decreases b.len(),
{
    if b.len() == 0 {
        assert(a + b =~= a);
        assert(flat(a) + flat(b) =~= flat(a));
    } else {
        flat_add(a, b.drop_last());
        assert((a + b).drop_last() =~= a + b.drop_last());
        assert(flat(a) + flat(b) =~= flat(a) + flat(b.drop_last()) + b.last());
    }
}

/// A single part.
pub proof fn flat_one(p: Seq<char>)
    ensures
        flat(seq![p]) == p,
{
    assert(seq![p].drop_last() =~= Seq::<Seq<char>>::empty());
    assert(flat(Seq::<Seq<char>>::empty()) =~= Seq::<char>::empty());
    assert(flat(seq![p]) =~= p);
}

/// One more part.
pub proof fn flat_push(a: Seq<Seq<char>>, p: Seq<char>)
    ensures
        flat(a.push(p)) == flat(a) + p,
{
    assert(a.push(p).drop_last() =~= a);
}

/// A text is its lines, one after another.
pub proof fn lines_round_trip(s: Seq<char>)
    ensures
        flat(lines_of(s)) == s,
{
    lines_from_flat(s, 0);
    assert(s.skip(0) =~= s);
}

proof fn lines_from_flat(s: Seq<char>, i: int)
    requires
        0 <= i <= s.len(),
    ensures
        flat(lines_from(s, i)) == s.skip(i),
    decreases s.len() - i,
{
    if i < s.len() {
        let e = line_end(s, i);
        line_end_bounds(s, i);
        lines_from_flat(s, e);
        flat_add(seq![s.subrange(i, e)], lines_from(s, e));
        flat_one(s.subrange(i, e));
        assert(s.subrange(i, e) + s.skip(e) =~= s.skip(i));
    } else {
        assert(s.skip(i) =~= Seq::<char>::empty());
    }
}

/// A line as a text is cut into them: not empty, and with a line feed at its
/// end at most.
pub open spec fn is_line(l: Seq<char>) -> bool {
    l.len() > 0 && forall|j: int| 0 <= j < l.len() - 1 ==> #[trigger] l[j] != '\n'
}

/// Lines as a text is cut into them: all but the last are terminated.
pub open spec fn are_lines(ls: Seq<Seq<char>>) -> bool {
    &&& forall|i: int| 0 <= i < ls.len() ==> is_line(#[trigger] ls[i])
    &&& forall|i: int| 0 <= i < ls.len() - 1 ==> (#[trigger] ls[i]).last() == '\n'
}

/// The lines of a text are lines.
pub proof fn lines_are_lines(s: Seq<char>)
    ensures
        are_lines(lines_of(s)),
{
    lines_from_lines(s, 0);
}

proof fn lines_from_lines(s: Seq<char>, i: int)
    requires
        0 <= i,
    ensures
        are_lines(lines_from(s, i)),
        i < s.len() ==> lines_from(s, i).len() > 0,
    decreases s.len() - i,
{
    if i < s.len() {
        let e = line_end(s, i);
        line_end_bounds(s, i);
        lines_from_lines(s, e);
        let ls = lines_from(s, i);
        let rest = lines_from(s, e);
        assert(ls == seq![s.subrange(i, e)] + rest);
        assert forall|k: int| 0 <= k < ls.len() implies is_line(#[trigger] ls[k]) by {
            if k > 0 {
                assert(ls[k] == rest[k - 1]);
            }
        }
        assert forall|k: int| 0 <= k < ls.len() - 1 implies (#[trigger] ls[k]).last() == '\n' by {
            if k > 0 {
                assert(ls[k] == rest[k - 1]);
            } else {
                assert(e < s.len());
            }
        }
    }
}

/// A text made of lines is cut into those lines.
pub proof fn lines_of_flat(ls: Seq<Seq<char>>)
    requires
        are_lines(ls),
    ensures
        lines_of(flat(ls)) == ls,
{
    flat_from(ls, 0);
    assert(ls.skip(0) =~= ls);
    assert(ls.take(0) =~= Seq::<Seq<char>>::empty());
}

proof fn flat_from(ls: Seq<Seq<char>>, k: int)
    requires
        are_lines(ls),
        0 <= k <= ls.len(),
    ensures
        lines_from(flat(ls), flat(ls.take(k)).len() as int) == ls.skip(k),
    decreases ls.len() - k,
{
    let s = flat(ls);
    let i = flat(ls.take(k)).len() as int;
    assert(ls.take(k) + ls.skip(k) =~= ls);
    flat_add(ls.take(k), ls.skip(k));
    if k < ls.len() {
        flat_from(ls, k + 1);
        assert(ls.take(k + 1) =~= ls.take(k).push(ls[k]));
        flat_push(ls.take(k), ls[k]);
        assert(ls.take(k + 1) + ls.skip(k + 1) =~= ls);
        flat_add(ls.take(k + 1), ls.skip(k + 1));
        let e = flat(ls.take(k + 1)).len() as int;
        assert(s.subrange(i, e) =~= ls[k]);
        assert forall|j: int| i <= j < e - 1 implies #[trigger] s[j] != '\n' by {
            assert(s[j] == ls[k][j - i]);
        }
        assert(s[e - 1] == ls[k].last());
        if k == ls.len() - 1 {
            assert(ls.take(k + 1) =~= ls);
        }
        line_end_at(s, i, e);
        assert(ls.skip(k) =~= seq![ls[k]] + ls.skip(k + 1));
    } else {
        assert(ls.take(k) =~= ls);
        assert(ls.skip(k) =~= Seq::<Seq<char>>::empty());
    }
}

/// Where a line that starts at `i` ends.
pub proof fn line_end_at(s: Seq<char>, i: int, e: int)
    requires
        0 <= i < e <= s.len(),
        forall|j: int| i <= j < e - 1 ==> #[trigger] s[j] != '\n',
        s[e - 1] == '\n' || e == s.len(),
    ensures
        line_end(s, i) == e,
    decreases e - i,
{
    if i < e - 1 {
        line_end_at(s, i + 1, e);
    } else if s[i] != '\n' {
        assert(line_end(s, i + 1) == s.len());
    }
}

/// The lines of `s`, each with its terminator.
pub fn split_lines(s: &str) -> (r: Vec<String>)
    ensures
        texts(r@) == lines_of(s@),
{
    let cs = chars_of(s);
    let mut out: Vec<String> = Vec::new();
    let mut i: usize = 0;
    assert(texts(out@) + lines_from(s@, 0) =~= lines_of(s@));
    while i < cs.len()
        invariant
            i <= cs.len(),
            cs@ == s@,
            texts(out@) + lines_from(s@, i as int) == lines_of(s@),
        decreases cs.len() - i,
    {
        let mut e: usize = i;
        while e < cs.len() && cs[e] != '\n'
            invariant
                i <= e <= cs.len(),
                cs@ == s@,
                line_end(s@, i as int) == line_end(s@, e as int),
            decreases cs.len() - e,
        {
            e = e + 1;
        }
        if e < cs.len() {
            e = e + 1;
        }
        let ghost before = texts(out@);
        out.push(slice_text(&cs, i, e));
        assert(texts(out@) =~= before.push(s@.subrange(i as int, e as int)));
        assert(texts(out@) + lines_from(s@, e as int) =~= before + lines_from(s@, i as int));
        i = e;
    }
    assert(texts(out@) + lines_from(s@, i as int) =~= texts(out@));
    out
}

/// The parts one after another.
pub fn concat(parts: &Vec<String>) -> (r: String)
    ensures
        r@ == flat(texts(parts@)),
{
    let mut out = String::new();
    let ghost all = texts(parts@);
    assert(all.take(0) =~= Seq::<Seq<char>>::empty());
    let mut i: usize = 0;
    while i < parts.len()
        invariant
            i <= parts.len(),
            all == texts(parts@),
            out@ == flat(all.take(i as int)),
        decreases parts.len() - i,
    {
        out.append(&parts[i]);
        assert(all.take(i + 1).drop_last() =~= all.take(i as int));
        i = i + 1;
    }
    assert(all.take(i as int) =~= all);
    out
}

/// The first character of the lines together is that of the first line.
pub proof fn flat_starts(lines: Seq<Seq<char>>)
    requires
        lines.len() > 0,
        lines[0].len() > 0,
    ensures
        flat(lines).len() > 0,
        flat(lines)[0] == lines[0][0],
{
    flat_one(lines[0]);
    flat_add(seq![lines[0]], lines.skip(1));
    assert(lines =~= seq![lines[0]] + lines.skip(1));
}

} // verus!
