//! The total order on scored candidates.
//!
//! A candidate pairs a score key with the global id of a stored vector.
//! The score key is an unsigned 32-bit total-order encoding of the metric
//! value: callers map each metric value to a key so that key order agrees
//! with the metric order they want (larger key = larger metric value, with
//! the not-a-number values mapped to the largest keys). The core never
//! interprets the key beyond its integer order.
//!
//! Candidates are ordered lexicographically: first by score key, then by
//! id. Equal scores are therefore broken deterministically by id, which is
//! exactly the order of the standard library on pairs of unsigned integers.
use vstd::prelude::*;

verus! {

/// `a` orders at or below `b`: lexicographic on (score key, id).
///
/// This is the order of `Ord` on the pair `(u32, usize)`.
pub open spec fn cand_le(a: (u32, usize), b: (u32, usize)) -> bool {
    a.0 < b.0 || (a.0 == b.0 && a.1 <= b.1)
}

/// `a` is at least as good as `b` under the given discipline:
/// keep-largest prefers high candidates, keep-smallest prefers low ones.
pub open spec fn pref(largest: bool, a: (u32, usize), b: (u32, usize)) -> bool {
    if largest {
        cand_le(b, a)
    } else {
        cand_le(a, b)
    }
}

/// The sequence is sorted best-first for a keep-largest discipline:
/// descending under `cand_le`.
pub open spec fn sorted_desc(s: Seq<(u32, usize)>) -> bool {
    forall|i: int, j: int| 0 <= i < j < s.len() ==> cand_le(s[j], s[i])
}

/// The sequence is sorted best-first for a keep-smallest discipline:
/// ascending under `cand_le`.
pub open spec fn sorted_asc(s: Seq<(u32, usize)>) -> bool {
    forall|i: int, j: int| 0 <= i < j < s.len() ==> cand_le(s[i], s[j])
}

} // verus!
