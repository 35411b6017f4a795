//! Sequences: mapping with a first error, joining, and sorting.
use crate::error::Er;
use vstd::prelude::*;

verus! {

/// The concatenation of `f` over `s`, or the first error.
pub open spec fn bind_all<A, B>(s: Seq<A>, f: spec_fn(A) -> Result<Seq<B>, Er>) -> Result<
    Seq<B>,
    Er,
>
    decreases s.len(),
{
    if s.len() == 0 {
        Ok(Seq::empty())
    } else {
        match bind_all(s.drop_last(), f) {
            Err(e) => Err(e),
            Ok(a) => match f(s.last()) {
                Err(e) => Err(e),
                Ok(b) => Ok(a + b),
            },
        }
    }
}

/// `f` of each element of `s`, or the first error.
pub open spec fn map_all<A, B>(s: Seq<A>, f: spec_fn(A) -> Result<B, Er>) -> Result<Seq<B>, Er>
    decreases s.len(),
{
    if s.len() == 0 {
        Ok(Seq::empty())
    } else {
        match map_all(s.drop_last(), f) {
            Err(e) => Err(e),
            Ok(a) => match f(s.last()) {
                Err(e) => Err(e),
                Ok(b) => Ok(a.push(b)),
            },
        }
    }
}

/// One more element of `bind_all`.
pub proof fn bind_step<A, B>(s: Seq<A>, f: spec_fn(A) -> Result<Seq<B>, Er>, i: int)
    requires
        0 <= i < s.len(),
    ensures
        bind_all(s.take(i + 1), f) == (match bind_all(s.take(i), f) {
            Err(e) => Err(e),
            Ok(a) => match f(s[i]) {
                Err(e) => Err(e),
                Ok(b) => Ok(a + b),
            },
        }),
{
    assert(s.take(i + 1).drop_last() =~= s.take(i));
}

/// An error met on the way is the error of the whole.
pub proof fn bind_stop<A, B>(s: Seq<A>, f: spec_fn(A) -> Result<Seq<B>, Er>, i: int)
    requires
        0 <= i <= s.len(),
        bind_all(s.take(i), f) is Err,
    ensures
        bind_all(s, f) == bind_all(s.take(i), f),
    decreases s.len() - i,
{
    if i == s.len() {
        assert(s.take(i) =~= s);
    } else {
        bind_step(s, f, i);
        bind_stop(s, f, i + 1);
    }
}

/// One more element of `map_all`.
pub proof fn map_step<A, B>(s: Seq<A>, f: spec_fn(A) -> Result<B, Er>, i: int)
    requires
        0 <= i < s.len(),
    ensures
        map_all(s.take(i + 1), f) == (match map_all(s.take(i), f) {
            Err(e) => Err(e),
            Ok(a) => match f(s[i]) {
                Err(e) => Err(e),
                Ok(b) => Ok(a.push(b)),
            },
        }),
{
    assert(s.take(i + 1).drop_last() =~= s.take(i));
}

/// An error met on the way is the error of the whole.
pub proof fn map_stop<A, B>(s: Seq<A>, f: spec_fn(A) -> Result<B, Er>, i: int)
    requires
        0 <= i <= s.len(),
        map_all(s.take(i), f) is Err,
    ensures
        map_all(s, f) == map_all(s.take(i), f),
    decreases s.len() - i,
{
    if i == s.len() {
        assert(s.take(i) =~= s);
    } else {
        map_step(s, f, i);
        map_stop(s, f, i + 1);
    }
}

/// The parts one after another, `sep` between neighbours.
pub open spec fn joined(parts: Seq<Seq<char>>, sep: Seq<char>) -> Seq<char>
    decreases parts.len(),
{
    if parts.len() == 0 {
        Seq::empty()
    } else if parts.len() == 1 {
        parts[0]
    } else {
        joined(parts.drop_last(), sep) + sep + parts.last()
    }
}

/// One more part.
pub proof fn joined_step(parts: Seq<Seq<char>>, sep: Seq<char>, i: int)
    requires
        0 <= i < parts.len(),
    ensures
        joined(parts.take(i + 1), sep) == (if i == 0 {
            parts[0]
        } else {
            joined(parts.take(i), sep) + sep + parts[i]
        }),
{
    assert(parts.take(i + 1).drop_last() =~= parts.take(i));
}

/// How one thing compares to another.
#[derive(Debug, Clone, Copy, PartialEq, Eq, Structural)]
pub enum Rank {
    Below,
    Level,
    Above,
}

/// Comparison of two integers.
pub open spec fn int_rank(a: int, b: int) -> Rank {
    if a < b {
        Rank::Below
    } else if a > b {
        Rank::Above
    } else {
        Rank::Level
    }
}

/// Lexicographic comparison from position `i` on; a proper prefix is below.
pub open spec fn lex_rank<A>(a: Seq<A>, b: Seq<A>, ord: spec_fn(A, A) -> Rank, i: int) -> Rank
    decreases a.len() - i,
{
    if i >= a.len() || i >= b.len() {
        int_rank(a.len() as int, b.len() as int)
    } else if ord(a[i], b[i]) != Rank::Level {
        ord(a[i], b[i])
    } else {
        lex_rank(a, b, ord, i + 1)
    }
}

/// Comparison of two characters by code point.
pub open spec fn char_rank() -> spec_fn(char, char) -> Rank {
    |x: char, y: char| int_rank(x as int, y as int)
}

/// Strings in code point order.
pub open spec fn str_rank(a: Seq<char>, b: Seq<char>) -> Rank {
    lex_rank(a, b, char_rank(), 0)
}

/// `s` with `x` put behind everything that is not above it.
pub open spec fn insert_by<A>(s: Seq<A>, x: A, ord: spec_fn(A, A) -> Rank) -> Seq<A>
    decreases s.len(),
{
    if s.len() == 0 || ord(s.last(), x) != Rank::Above {
        s.push(x)
    } else {
        insert_by(s.drop_last(), x, ord).push(s.last())
    }
}

/// The stable sort of `s`.
pub open spec fn sort_with<A>(s: Seq<A>, ord: spec_fn(A, A) -> Rank) -> Seq<A>
    decreases s.len(),
{
    if s.len() == 0 {
        s
    } else {
        insert_by(sort_with(s.drop_last(), ord), s.last(), ord)
    }
}

/// Where `insert_by` puts `x`.
pub proof fn insert_at<A>(s: Seq<A>, x: A, ord: spec_fn(A, A) -> Rank, p: int)
    requires
        0 <= p <= s.len(),
        forall|j: int| p <= j < s.len() ==> ord(#[trigger] s[j], x) == Rank::Above,
        p > 0 ==> ord(s[p - 1], x) != Rank::Above,
    ensures
        insert_by(s, x, ord) == s.insert(p, x),
    decreases s.len(),
{
    if p < s.len() {
        insert_at(s.drop_last(), x, ord, p);
        assert(s.drop_last().insert(p, x).push(s.last()) =~= s.insert(p, x));
    } else {
        assert(s.push(x) =~= s.insert(p, x));
    }
}

/// Sorting keeps every element, each as often as it was there.
pub proof fn sort_is_permutation<A>(s: Seq<A>, ord: spec_fn(A, A) -> Rank)
    ensures
        sort_with(s, ord).to_multiset() == s.to_multiset(),
    decreases s.len(),
{
    broadcast use vstd::seq_lib::group_to_multiset_ensures;

    if s.len() > 0 {
        sort_is_permutation(s.drop_last(), ord);
        insert_adds(sort_with(s.drop_last(), ord), s.last(), ord);
        assert(s.drop_last().push(s.last()) =~= s);
    }
}

proof fn insert_adds<A>(s: Seq<A>, x: A, ord: spec_fn(A, A) -> Rank)
    ensures
        insert_by(s, x, ord).to_multiset() == s.to_multiset().insert(x),
    decreases s.len(),
{
    broadcast use vstd::seq_lib::group_to_multiset_ensures;

    if s.len() == 0 || ord(s.last(), x) != Rank::Above {
    } else {
        insert_adds(s.drop_last(), x, ord);
        assert(s.drop_last().push(s.last()) =~= s);
        assert(s.to_multiset() == s.drop_last().to_multiset().insert(s.last()));
        assert(s.drop_last().to_multiset().insert(x).insert(s.last())
            =~= s.drop_last().to_multiset().insert(s.last()).insert(x));
    }
}

} // verus!
