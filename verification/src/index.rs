//! jq-style array indices: a negative index counts from the end.
//!
//! Every place that resolves `.a[i]` (the evaluator, path resolution, comment
//! lookup, each format's edits) goes through these two, so "what does `[-1]`
//! name" has one answer.
use vstd::prelude::*;

verus! {

/// The position `i` names in a sequence of length `len`: itself, or counted
/// from the end when negative. `None` before the start.
pub open spec fn normalized(i: int, len: int) -> Option<int> {
    let n = if i < 0 {
        len + i
    } else {
        i
    };
    if 0 <= n <= usize::MAX {
        Some(n)
    } else {
        None
    }
}

/// The existing position `i` names in a sequence of length `len`.
pub open spec fn resolved(i: int, len: int) -> Option<int> {
    match normalized(i, len) {
        Some(n) => if n < len {
            Some(n)
        } else {
            None
        },
        None => None,
    }
}

/// Normalize `i` against a sequence of length `len`: a negative index counts
/// from the end. `None` when it lands before the start; a result `>= len` is
/// past the end (an append position for `len`, out of range beyond it).
pub fn normalize_index(i: i64, len: usize) -> (r: Option<usize>)
    ensures
        r is Some <==> normalized(i as int, len as int) is Some,
        r is Some ==> r->0 == normalized(i as int, len as int)->0,
{
    let n: i128 = if i < 0 {
        len as i128 + i as i128
    } else {
        i as i128
    };
    if 0 <= n && n <= usize::MAX as i128 {
        Some(n as usize)
    } else {
        None
    }
}

/// Resolve `i` to an existing element's position in a sequence of length `len`
/// (negative counts from the end), or `None` when out of range.
pub fn resolve_index(i: i64, len: usize) -> (r: Option<usize>)
    ensures
        r is Some <==> resolved(i as int, len as int) is Some,
        r is Some ==> r->0 == resolved(i as int, len as int)->0 && r->0 < len,
{
    match normalize_index(i, len) {
        Some(n) => if n < len {
            Some(n)
        } else {
            None
        },
        None => None,
    }
}

/// A resolved index is one that normalizes to an existing position, and `-k`
/// names the same element as `len - k`.
pub proof fn index_from_the_end(k: int, len: int)
    requires
        0 < k <= len <= usize::MAX,
    ensures
        resolved(-k, len) == resolved(len - k, len),
        resolved(-k, len) == Some(len - k),
{
}

} // verus!
