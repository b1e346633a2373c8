//! Trusted boundary around the double-ended priority queue of the
//! `min-max-heap` crate, which backs the bounded selector.
//!
//! The heap holds `(u32, usize)` candidates, compared by the standard
//! library's lexicographic order on pairs — the order written down as
//! [`cand_le`]. The contracts below speak of the heap's contents through
//! the uninterpreted multiset [`heap_contents`] and state only what the
//! crate's documentation and source show of each call.
use vstd::prelude::*;

use crate::rank::cand_le;
use min_max_heap::MinMaxHeap;
use vstd::multiset::Multiset;

verus! {

#[verifier::external_type_specification]
#[verifier::external_body]
#[verifier::reject_recursive_types(T)]
pub struct ExMinMaxHeap<T>(MinMaxHeap<T>);

/// The multiset of candidates currently stored in the heap.
pub uninterp spec fn heap_contents(h: MinMaxHeap<(u32, usize)>) -> Multiset<(u32, usize)>;

/// Relies on `MinMaxHeap::with_capacity`: creates an empty heap
/// (the argument only pre-allocates space).
#[verifier::external_body]
pub(crate) fn heap_new(capacity: usize) -> (h: MinMaxHeap<(u32, usize)>)
    ensures
        heap_contents(h) == Multiset::<(u32, usize)>::empty(),
{
    MinMaxHeap::with_capacity(capacity)
}

/// Relies on `MinMaxHeap::len`: the number of stored elements.
#[verifier::external_body]
pub(crate) fn heap_len(h: &MinMaxHeap<(u32, usize)>) -> (n: usize)
    ensures
        n as nat == heap_contents(*h).len(),
{
    h.len()
}

/// Relies on `MinMaxHeap::push`: adds the element to the heap.
#[verifier::external_body]
pub(crate) fn heap_push(h: &mut MinMaxHeap<(u32, usize)>, e: (u32, usize))
    ensures
        heap_contents(*final(h)) == heap_contents(*old(h)).insert(e),
{
    h.push(e)
}

/// Relies on `MinMaxHeap::push_pop_min`: pushes the element, then pops
/// and returns the minimum of the grown heap (the pushed element itself
/// when the heap was empty or the element is below the stored minimum).
#[verifier::external_body]
pub(crate) fn heap_push_pop_min(h: &mut MinMaxHeap<(u32, usize)>, e: (u32, usize)) -> (r: (
    u32,
    usize,
))
    ensures
        heap_contents(*old(h)).insert(e).contains(r),
        heap_contents(*final(h)) == heap_contents(*old(h)).insert(e).remove(r),
        forall|y: (u32, usize)| heap_contents(*old(h)).insert(e).contains(y) ==> cand_le(r, y),
{
    h.push_pop_min(e)
}

/// Relies on `MinMaxHeap::push_pop_max`: pushes the element, then pops
/// and returns the maximum of the grown heap.
#[verifier::external_body]
pub(crate) fn heap_push_pop_max(h: &mut MinMaxHeap<(u32, usize)>, e: (u32, usize)) -> (r: (
    u32,
    usize,
))
    ensures
        heap_contents(*old(h)).insert(e).contains(r),
        heap_contents(*final(h)) == heap_contents(*old(h)).insert(e).remove(r),
        forall|y: (u32, usize)| heap_contents(*old(h)).insert(e).contains(y) ==> cand_le(y, r),
{
    h.push_pop_max(e)
}

/// Relies on `MinMaxHeap::into_vec_desc`: consumes the heap and returns
/// every stored element, sorted descending.
#[verifier::external_body]
pub(crate) fn heap_into_vec_desc(h: MinMaxHeap<(u32, usize)>) -> (r: Vec<(u32, usize)>)
    ensures
        r@.to_multiset() == heap_contents(h),
        forall|i: int, j: int| 0 <= i < j < r@.len() ==> cand_le(r@[j], r@[i]),
{
    h.into_vec_desc()
}

/// Relies on `MinMaxHeap::into_vec_asc`: consumes the heap and returns
/// every stored element, sorted ascending.
#[verifier::external_body]
pub(crate) fn heap_into_vec_asc(h: MinMaxHeap<(u32, usize)>) -> (r: Vec<(u32, usize)>)
    ensures
        r@.to_multiset() == heap_contents(h),
        forall|i: int, j: int| 0 <= i < j < r@.len() ==> cand_le(r@[i], r@[j]),
{
    h.into_vec_asc()
}

} // verus!
