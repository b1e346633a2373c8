//! The bounded selector: a streaming structure that retains only the
//! k best-so-far scored candidates, in O(log k) per pushed candidate.
//!
//! [`kept_spec`] is the mathematical model: the multiset a selector holds
//! after a sequence of pushes. [`is_selection`] characterises that multiset
//! as "exactly a best-k sub-multiset of everything pushed", and the public
//! lemmas prove that the model both satisfies and uniquely determines that
//! characterisation.
use vstd::prelude::*;

use crate::heap::{
    heap_contents, heap_into_vec_asc, heap_into_vec_desc, heap_len, heap_new, heap_push,
    heap_push_pop_max, heap_push_pop_min,
};
use crate::rank::{cand_le, pref, sorted_asc, sorted_desc};
use min_max_heap::MinMaxHeap;
use vstd::multiset::Multiset;

verus! {

broadcast use vstd::multiset::group_multiset_axioms;

/// `w` is a worst element of `m` under the discipline: every element of
/// `m` is at least as good as `w`.
pub open spec fn is_worst(m: Multiset<(u32, usize)>, largest: bool, w: (u32, usize)) -> bool {
    &&& m.count(w) > 0
    &&& forall|y: (u32, usize)| #[trigger] m.count(y) > 0 ==> pref(largest, y, w)
}

/// Some worst element of `m` under the discipline (unique as a value
/// whenever one exists, since the candidate order is antisymmetric).
pub open spec fn evict_of(m: Multiset<(u32, usize)>, largest: bool) -> (u32, usize) {
    choose|w: (u32, usize)| is_worst(m, largest, w)
}

/// The multiset held by a bounded selector of capacity `k` after pushing
/// the candidates of `cands` in order: each push inserts the candidate,
/// and past capacity the worst element of the grown multiset is evicted.
pub open spec fn kept_spec(cands: Seq<(u32, usize)>, k: nat, largest: bool) -> Multiset<
    (u32, usize),
>
    decreases cands.len(),
{
    if cands.len() == 0 {
        Multiset::empty()
    } else {
        let prev = kept_spec(cands.drop_last(), k, largest);
        let grown = prev.insert(cands.last());
        if prev.len() < k {
            grown
        } else {
            grown.remove(evict_of(grown, largest))
        }
    }
}

/// `kept` is a best-`k` selection out of `all`: it is contained in `all`,
/// has exactly `min(k, all.len())` elements, and every element kept is at
/// least as good as every occurrence left out.
pub open spec fn is_selection(
    kept: Multiset<(u32, usize)>,
    all: Multiset<(u32, usize)>,
    k: nat,
    largest: bool,
) -> bool {
    &&& kept.subset_of(all)
    &&& kept.len() == if all.len() < k {
        all.len()
    } else {
        k
    }
    &&& forall|x: (u32, usize), y: (u32, usize)|
        #![trigger kept.count(x), all.count(y)]
        kept.count(x) > 0 && all.count(y) > kept.count(y) ==> pref(largest, x, y)
}

/// Two multisets with the same size, one contained in the other, are equal.
proof fn lemma_subset_len_equal(m1: Multiset<(u32, usize)>, m2: Multiset<(u32, usize)>)
    requires
        m1.subset_of(m2),
        m1.len() == m2.len(),
    ensures
        m1 == m2,
{
    assert(m2.sub(m1).len() == 0);
    assert forall|v: (u32, usize)| m1.count(v) == m2.count(v) by {
        assert(m2.sub(m1).count(v) == 0);
    }
    assert(m1 =~= m2);
}

/// Every nonempty candidate multiset has a worst element.
proof fn lemma_exists_worst(m: Multiset<(u32, usize)>, largest: bool)
    requires
        m.len() > 0,
    ensures
        exists|w: (u32, usize)| is_worst(m, largest, w),
    decreases m.len(),
{
    let v = m.choose();
    let rest = m.remove(v);
    assert(m.count(v) > 0);
    assert(rest.len() == m.len() - 1);
    if rest.len() == 0 {
        assert forall|y: (u32, usize)| #[trigger] m.count(y) > 0 implies pref(largest, y, v) by {
            if y != v {
                assert(rest.count(y) > 0);
                assert(rest.len() > 0);
            }
        }
        assert(is_worst(m, largest, v));
    } else {
        lemma_exists_worst(rest, largest);
        let w0 = choose|w: (u32, usize)| is_worst(rest, largest, w);
        assert(is_worst(rest, largest, w0));
        if pref(largest, v, w0) {
            assert forall|y: (u32, usize)| #[trigger] m.count(y) > 0 implies pref(
                largest,
                y,
                w0,
            ) by {
                if y != v {
                    assert(rest.count(y) > 0);
                }
            }
            assert(m.count(w0) > 0) by {
                assert(rest.count(w0) > 0);
            }
            assert(is_worst(m, largest, w0));
        } else {
            assert(pref(largest, w0, v));
            assert forall|y: (u32, usize)| #[trigger] m.count(y) > 0 implies pref(
                largest,
                y,
                v,
            ) by {
                if y != v {
                    assert(rest.count(y) > 0);
                    assert(pref(largest, y, w0));
                }
            }
            assert(is_worst(m, largest, v));
        }
    }
}

/// If some worst element is exhibited, `evict_of` returns exactly it.
proof fn lemma_evict_is(m: Multiset<(u32, usize)>, largest: bool, w: (u32, usize))
    requires
        is_worst(m, largest, w),
    ensures
        evict_of(m, largest) == w,
{
    let e = evict_of(m, largest);
    assert(is_worst(m, largest, e));
    assert(pref(largest, e, w));
    assert(pref(largest, w, e));
}

/// The selector keeps exactly `min(k, n)` of the `n` candidates pushed.
pub proof fn lemma_kept_len(cands: Seq<(u32, usize)>, k: nat, largest: bool)
    ensures
        kept_spec(cands, k, largest).len() == if cands.len() < k {
            cands.len()
        } else {
            k
        },
    decreases cands.len(),
{
    if cands.len() == 0 {
    } else {
        lemma_kept_len(cands.drop_last(), k, largest);
        let prev = kept_spec(cands.drop_last(), k, largest);
        let grown = prev.insert(cands.last());
        if prev.len() < k {
        } else {
            lemma_exists_worst(grown, largest);
            let w = evict_of(grown, largest);
            assert(is_worst(grown, largest, w));
            assert(grown.remove(w).len() == grown.len() - 1);
        }
    }
}

/// Top-k / bottom-k correctness: after any sequence of pushes, the
/// selector's model holds exactly a best-`k` selection of everything
/// pushed — it is contained in the pushed candidates, has `min(k, n)`
/// elements, and every kept candidate is at least as good as every
/// occurrence left out.
pub proof fn lemma_selection_exact(cands: Seq<(u32, usize)>, k: nat, largest: bool)
    ensures
        is_selection(kept_spec(cands, k, largest), cands.to_multiset(), k, largest),
    decreases cands.len(),
{
    broadcast use vstd::seq_lib::group_to_multiset_ensures;

    if cands.len() == 0 {
        assert(cands.to_multiset().len() == 0);
        assert(cands.to_multiset() =~= Multiset::<(u32, usize)>::empty());
    } else {
        let sub = cands.drop_last();
        let c = cands.last();
        lemma_selection_exact(sub, k, largest);
        let prev = kept_spec(sub, k, largest);
        let all_prev = sub.to_multiset();
        assert(cands =~= sub.push(c));
        let all = cands.to_multiset();
        assert(all == all_prev.insert(c));
        let grown = prev.insert(c);
        if prev.len() < k {
            assert(prev.len() == all_prev.len()) by {
                if all_prev.len() >= k {
                    assert(prev.len() == k);
                }
            }
            lemma_subset_len_equal(prev, all_prev);
            assert(kept_spec(cands, k, largest) == grown);
            assert(grown =~= all);
            assert(is_selection(grown, all, k, largest));
        } else {
            assert(prev.len() == k);
            assert(all_prev.len() >= k);
            assert(grown.len() == k + 1);
            lemma_exists_worst(grown, largest);
            let w = evict_of(grown, largest);
            assert(is_worst(grown, largest, w));
            let kept = grown.remove(w);
            assert(kept_spec(cands, k, largest) == kept);
            assert(kept.len() == k);
            assert(kept.subset_of(all)) by {
                assert forall|x: (u32, usize)| kept.count(x) <= all.count(x) by {
                    assert(prev.count(x) <= all_prev.count(x));
                }
            }
            assert forall|x: (u32, usize), y: (u32, usize)|
                kept.count(x) > 0 && all.count(y) > kept.count(y) implies #[trigger] pref(
                largest,
                x,
                y,
            ) by {
                assert(grown.count(x) > 0);
                assert(pref(largest, x, w));
                if y != w {
                    assert(kept.count(y) == grown.count(y));
                    assert(all_prev.count(y) > prev.count(y));
                    if prev.count(x) > 0 {
                        assert(pref(largest, x, y));
                    } else {
                        assert(x == c);
                        if prev.count(w) > 0 {
                            assert(pref(largest, w, y));
                            assert(pref(largest, c, w));
                        } else {
                            assert(w == c);
                            assert(kept.count(c) == 0);
                        }
                    }
                }
            }
            assert(is_selection(kept, all, k, largest));
        }
    }
}

proof fn lemma_selection_subset(
    kept1: Multiset<(u32, usize)>,
    kept2: Multiset<(u32, usize)>,
    all: Multiset<(u32, usize)>,
    k: nat,
    largest: bool,
)
    requires
        is_selection(kept1, all, k, largest),
        is_selection(kept2, all, k, largest),
    ensures
        kept1.subset_of(kept2),
{
    assert(kept1.len() == kept2.len());
    assert forall|v: (u32, usize)| kept1.count(v) <= kept2.count(v) by {
        if kept1.count(v) > kept2.count(v) {
            assert(exists|u: (u32, usize)| kept2.count(u) > kept1.count(u)) by {
                if forall|u: (u32, usize)| #[trigger] kept2.count(u) <= kept1.count(u) {
                    lemma_subset_len_equal(kept2, kept1);
                    assert(kept1.count(v) == kept2.count(v));
                }
            }
            let u = choose|u: (u32, usize)| kept2.count(u) > kept1.count(u);
            assert(all.count(u) >= kept2.count(u));
            assert(all.count(v) >= kept1.count(v));
            assert(pref(largest, v, u)) by {
                assert(kept1.count(v) > 0 && all.count(u) > kept1.count(u));
            }
            assert(pref(largest, u, v)) by {
                assert(kept2.count(u) > 0 && all.count(v) > kept2.count(v));
            }
            assert(u == v);
            assert(false);
        }
    }
}

/// A best-`k` selection is unique: any two multisets that both satisfy
/// [`is_selection`] over the same candidates are equal. Together with
/// sortedness this pins a query result down completely.
pub proof fn lemma_selection_unique(
    kept1: Multiset<(u32, usize)>,
    kept2: Multiset<(u32, usize)>,
    all: Multiset<(u32, usize)>,
    k: nat,
    largest: bool,
)
    requires
        is_selection(kept1, all, k, largest),
        is_selection(kept2, all, k, largest),
    ensures
        kept1 == kept2,
{
    lemma_selection_subset(kept1, kept2, all, k, largest);
    lemma_subset_len_equal(kept1, kept2);
}

/// A bounded selector: capacity `k`, a discipline flag (`largest` keeps
/// the top-k, otherwise the bottom-k), and at most `k` retained scored
/// candidates, backed by a double-ended heap for O(log k) pushes.
///
/// A selector is created fresh per query and consumed by
/// [`Selector::drain_sorted`]; `pushed` is the ghost record of every
/// candidate streamed into it.
pub struct Selector {
    /// The backing double-ended heap; opaque, described only by `inv`.
    pub heap: MinMaxHeap<(u32, usize)>,
    /// Capacity: how many candidates are retained.
    pub k: usize,
    /// Discipline: `true` keeps the largest candidates, `false` the smallest.
    pub largest: bool,
    /// Every candidate pushed so far, in push order.
    pub pushed: Ghost<Seq<(u32, usize)>>,
}

impl Selector {
    /// The heap holds exactly the model's best-k multiset of the pushed
    /// candidates.
    pub closed spec fn inv(self) -> bool {
        heap_contents(self.heap) == kept_spec(self.pushed@, self.k as nat, self.largest)
    }

    /// A fresh selector with capacity `k` and the given discipline.
    pub fn new(k: usize, largest: bool) -> (s: Selector)
        ensures
            s.inv(),
            s.k == k,
            s.largest == largest,
            s.pushed@ == Seq::<(u32, usize)>::empty(),
    {
        Selector { heap: heap_new(k), k, largest, pushed: Ghost(Seq::empty()) }
    }

    /// Streams one scored candidate into the selector: below capacity it
    /// is retained unconditionally, at capacity it displaces the worst
    /// retained candidate exactly when it is better under the discipline.
    pub fn push(&mut self, score: u32, id: usize)
        requires
            old(self).inv(),
        ensures
            final(self).inv(),
            final(self).k == old(self).k,
            final(self).largest == old(self).largest,
            final(self).pushed@ == old(self).pushed@.push((score, id)),
    {
        let c = (score, id);
        let ghost prev_pushed = self.pushed@;
        let ghost prev = kept_spec(prev_pushed, self.k as nat, self.largest);
        proof {
            self.pushed@ = prev_pushed.push(c);
            assert(self.pushed@.drop_last() =~= prev_pushed);
            assert(self.pushed@.last() == c);
        }
        let n = heap_len(&self.heap);
        if n < self.k {
            heap_push(&mut self.heap, c);
        } else if self.largest {
            let ghost grown = prev.insert(c);
            let evicted = heap_push_pop_min(&mut self.heap, c);
            proof {
                assert(is_worst(grown, true, evicted)) by {
                    assert forall|y: (u32, usize)| #[trigger] grown.count(y) > 0 implies pref(
                        true,
                        y,
                        evicted,
                    ) by {
                        assert(cand_le(evicted, y));
                    }
                }
                lemma_evict_is(grown, true, evicted);
            }
        } else {
            let ghost grown = prev.insert(c);
            let evicted = heap_push_pop_max(&mut self.heap, c);
            proof {
                assert(is_worst(grown, false, evicted)) by {
                    assert forall|y: (u32, usize)| #[trigger] grown.count(y) > 0 implies pref(
                        false,
                        y,
                        evicted,
                    ) by {
                        assert(cand_le(y, evicted));
                    }
                }
                lemma_evict_is(grown, false, evicted);
            }
        }
    }

    /// Consumes the selector and returns the retained candidates in
    /// best-first order: descending for a keep-largest selector,
    /// ascending for a keep-smallest one, ties listed by the same order.
    pub fn drain_sorted(self) -> (r: Vec<(u32, usize)>)
        requires
            self.inv(),
        ensures
            r@.to_multiset() == kept_spec(self.pushed@, self.k as nat, self.largest),
            self.largest ==> sorted_desc(r@),
            !self.largest ==> sorted_asc(r@),
    {
        if self.largest {
            heap_into_vec_desc(self.heap)
        } else {
            heap_into_vec_asc(self.heap)
        }
    }
}

/// The exhaustively sorted candidate list, best first for a keep-largest
/// discipline: descending under the candidate order.
pub open spec fn ranked_desc(cands: Seq<(u32, usize)>) -> Seq<(u32, usize)> {
    cands.sort_by(|a: (u32, usize), b: (u32, usize)| cand_le(b, a))
}

/// The exhaustively sorted candidate list, best first for a keep-smallest
/// discipline: ascending under the candidate order.
pub open spec fn ranked_asc(cands: Seq<(u32, usize)>) -> Seq<(u32, usize)> {
    cands.sort_by(|a: (u32, usize), b: (u32, usize)| cand_le(a, b))
}

/// The first `min(k, n)` entries of the exhaustively sorted candidate
/// list are themselves a best-`k` selection.
proof fn lemma_sorted_prefix_selection(cands: Seq<(u32, usize)>, k: nat, largest: bool)
    ensures
        ({
            let sorted = if largest {
                ranked_desc(cands)
            } else {
                ranked_asc(cands)
            };
            let m = if cands.len() < k {
                cands.len() as int
            } else {
                k as int
            };
            &&& sorted.len() == cands.len()
            &&& sorted.to_multiset() == cands.to_multiset()
            &&& (largest ==> sorted_desc(sorted.take(m)))
            &&& (!largest ==> sorted_asc(sorted.take(m)))
            &&& is_selection(sorted.take(m).to_multiset(), cands.to_multiset(), k, largest)
        }),
{
    broadcast use vstd::seq_lib::group_to_multiset_ensures;

    let leq = if largest {
        |a: (u32, usize), b: (u32, usize)| cand_le(b, a)
    } else {
        |a: (u32, usize), b: (u32, usize)| cand_le(a, b)
    };
    assert(vstd::relations::total_ordering(leq)) by {
        assert forall|x: (u32, usize)| #[trigger] leq(x, x) by {}
        assert forall|x: (u32, usize), y: (u32, usize)|
            #[trigger] leq(x, y) && #[trigger] leq(y, x) implies x == y by {}
        assert forall|x: (u32, usize), y: (u32, usize), z: (u32, usize)|
            #[trigger] leq(x, y) && #[trigger] leq(y, z) implies leq(x, z) by {}
        assert forall|x: (u32, usize), y: (u32, usize)| #[trigger] leq(x, y) || #[trigger] leq(
            y,
            x,
        ) by {}
    }
    cands.lemma_sort_by_ensures(leq);
    let sorted = if largest {
        ranked_desc(cands)
    } else {
        ranked_asc(cands)
    };
    assert(sorted == cands.sort_by(leq));
    let m = if cands.len() < k {
        cands.len() as int
    } else {
        k as int
    };
    assert(sorted.to_multiset().len() == sorted.len());
    assert(cands.to_multiset().len() == cands.len());
    assert(sorted.len() == cands.len());
    assert(0 <= m <= sorted.len());
    let prefix = sorted.take(m);
    let suffix = sorted.skip(m);
    assert(prefix.len() == m);
    assert(prefix + suffix =~= sorted);
    vstd::seq_lib::lemma_multiset_commutative(prefix, suffix);
    assert(cands.to_multiset() == prefix.to_multiset().add(suffix.to_multiset()));
    assert(prefix.to_multiset().len() == m);
    assert(cands.to_multiset().len() == cands.len());
    assert forall|x: (u32, usize), y: (u32, usize)|
        #![trigger prefix.to_multiset().count(x), cands.to_multiset().count(y)]
        prefix.to_multiset().count(x) > 0 && cands.to_multiset().count(y) > prefix.to_multiset()
            .count(y) implies pref(largest, x, y) by {
        assert(suffix.to_multiset().count(y) > 0);
        assert(prefix.contains(x));
        assert(suffix.contains(y));
        let i = choose|i: int| 0 <= i < prefix.len() && prefix[i] == x;
        let j = choose|j: int| 0 <= j < suffix.len() && suffix[j] == y;
        assert(sorted[i] == x);
        assert(sorted[m + j] == y);
        assert(vstd::relations::sorted_by(sorted, leq));
        assert(leq(sorted[i], sorted[m + j]));
    }
    assert(is_selection(prefix.to_multiset(), cands.to_multiset(), k, largest));
    assert(vstd::relations::sorted_by(sorted, leq));
    if largest {
        assert forall|i: int, j: int| 0 <= i < j < prefix.len() implies cand_le(
            prefix[j],
            prefix[i],
        ) by {
            assert(leq(sorted[i], sorted[j]));
        }
        assert(sorted_desc(prefix));
    } else {
        assert forall|i: int, j: int| 0 <= i < j < prefix.len() implies cand_le(
            prefix[i],
            prefix[j],
        ) by {
            assert(leq(sorted[i], sorted[j]));
        }
        assert(sorted_asc(prefix));
    }
}

/// Top-k correctness, slice form: a descending-sorted sequence holding
/// the keep-largest selector's model is exactly the first `min(k, n)`
/// entries of the exhaustively sorted candidate list.
pub proof fn lemma_top_k_slice(r: Seq<(u32, usize)>, cands: Seq<(u32, usize)>, k: nat)
    requires
        sorted_desc(r),
        r.to_multiset() == kept_spec(cands, k, true),
    ensures
        r == ranked_desc(cands).take(
            if cands.len() < k {
                cands.len() as int
            } else {
                k as int
            },
        ),
{
    let m = if cands.len() < k {
        cands.len() as int
    } else {
        k as int
    };
    let prefix = ranked_desc(cands).take(m);
    lemma_sorted_prefix_selection(cands, k, true);
    lemma_selection_exact(cands, k, true);
    lemma_selection_unique(
        r.to_multiset(),
        prefix.to_multiset(),
        cands.to_multiset(),
        k,
        true,
    );
    lemma_sorted_desc_unique(r, prefix);
}

/// Bottom-k correctness, slice form: the ascending counterpart of
/// [`lemma_top_k_slice`].
pub proof fn lemma_bottom_k_slice(r: Seq<(u32, usize)>, cands: Seq<(u32, usize)>, k: nat)
    requires
        sorted_asc(r),
        r.to_multiset() == kept_spec(cands, k, false),
    ensures
        r == ranked_asc(cands).take(
            if cands.len() < k {
                cands.len() as int
            } else {
                k as int
            },
        ),
{
    let m = if cands.len() < k {
        cands.len() as int
    } else {
        k as int
    };
    let prefix = ranked_asc(cands).take(m);
    lemma_sorted_prefix_selection(cands, k, false);
    lemma_selection_exact(cands, k, false);
    lemma_selection_unique(
        r.to_multiset(),
        prefix.to_multiset(),
        cands.to_multiset(),
        k,
        false,
    );
    lemma_sorted_asc_unique(r, prefix);
}

/// Boundary behaviour, upper side: with capacity at least the number of
/// candidates pushed, the selector keeps everything.
pub proof fn lemma_kept_all(cands: Seq<(u32, usize)>, k: nat, largest: bool)
    requires
        k >= cands.len(),
    ensures
        kept_spec(cands, k, largest) == cands.to_multiset(),
    decreases cands.len(),
{
    broadcast use vstd::seq_lib::group_to_multiset_ensures;

    lemma_selection_exact(cands, k, largest);
    let kept = kept_spec(cands, k, largest);
    let all = cands.to_multiset();
    assert(all.len() == cands.len());
    assert(kept.len() == all.len());
    lemma_subset_len_equal(kept, all);
}

/// The candidate stream of a scored pass over storage: position `i`
/// carries the score of the vector with global id `i`.
pub open spec fn cands_of(scores: Seq<u32>) -> Seq<(u32, usize)> {
    Seq::new(scores.len(), |i: int| (scores[i], i as usize))
}

/// Two descending-sorted sequences with the same candidates are equal:
/// with the uniqueness of the best-k selection this pins every query
/// result down completely.
pub proof fn lemma_sorted_desc_unique(r1: Seq<(u32, usize)>, r2: Seq<(u32, usize)>)
    requires
        sorted_desc(r1),
        sorted_desc(r2),
        r1.to_multiset() == r2.to_multiset(),
    ensures
        r1 == r2,
{
    let leq = |a: (u32, usize), b: (u32, usize)| cand_le(b, a);
    assert(vstd::relations::total_ordering(leq)) by {
        assert forall|x: (u32, usize)| #[trigger] leq(x, x) by {}
        assert forall|x: (u32, usize), y: (u32, usize)|
            #[trigger] leq(x, y) && #[trigger] leq(y, x) implies x == y by {}
        assert forall|x: (u32, usize), y: (u32, usize), z: (u32, usize)|
            #[trigger] leq(x, y) && #[trigger] leq(y, z) implies leq(x, z) by {}
        assert forall|x: (u32, usize), y: (u32, usize)| #[trigger] leq(x, y) || #[trigger] leq(
            y,
            x,
        ) by {}
    }
    assert(vstd::relations::sorted_by(r1, leq));
    assert(vstd::relations::sorted_by(r2, leq));
    vstd::seq_lib::lemma_sorted_unique(r1, r2, leq);
}

/// Ascending counterpart of [`lemma_sorted_desc_unique`].
pub proof fn lemma_sorted_asc_unique(r1: Seq<(u32, usize)>, r2: Seq<(u32, usize)>)
    requires
        sorted_asc(r1),
        sorted_asc(r2),
        r1.to_multiset() == r2.to_multiset(),
    ensures
        r1 == r2,
{
    let leq = |a: (u32, usize), b: (u32, usize)| cand_le(a, b);
    assert(vstd::relations::total_ordering(leq)) by {
        assert forall|x: (u32, usize)| #[trigger] leq(x, x) by {}
        assert forall|x: (u32, usize), y: (u32, usize)|
            #[trigger] leq(x, y) && #[trigger] leq(y, x) implies x == y by {}
        assert forall|x: (u32, usize), y: (u32, usize), z: (u32, usize)|
            #[trigger] leq(x, y) && #[trigger] leq(y, z) implies leq(x, z) by {}
        assert forall|x: (u32, usize), y: (u32, usize)| #[trigger] leq(x, y) || #[trigger] leq(
            y,
            x,
        ) by {}
    }
    assert(vstd::relations::sorted_by(r1, leq));
    assert(vstd::relations::sorted_by(r2, leq));
    vstd::seq_lib::lemma_sorted_unique(r1, r2, leq);
}

/// Boundary behaviour, lower side: with capacity zero nothing is kept.
pub proof fn lemma_kept_none(cands: Seq<(u32, usize)>, largest: bool)
    ensures
        kept_spec(cands, 0, largest) == Multiset::<(u32, usize)>::empty(),
{
    lemma_kept_len(cands, 0, largest);
    assert(kept_spec(cands, 0, largest) =~= Multiset::<(u32, usize)>::empty());
}

} // verus!
