//! An id-filtering set backed by the compressed bitmap of the `roaring`
//! crate. The bitmap is opaque to the core; its contents are named by the
//! uninterpreted set [`bitmap_set`], and each trusted call below states
//! only what the crate's source shows of it.
use vstd::prelude::*;

use roaring::RoaringBitmap;

verus! {

#[verifier::external_type_specification]
#[verifier::external_body]
pub struct ExRoaringBitmap(RoaringBitmap);

/// The set of ids a bitmap holds.
pub uninterp spec fn bitmap_set(b: RoaringBitmap) -> Set<u32>;

/// Relies on `RoaringBitmap::new`: an empty bitmap.
#[verifier::external_body]
fn bitmap_new() -> (b: RoaringBitmap)
    ensures
        bitmap_set(b) == Set::<u32>::empty(),
{
    RoaringBitmap::new()
}

/// Relies on `RoaringBitmap::insert`: adds the value to the bitmap and
/// reports whether it was absent before.
#[verifier::external_body]
fn bitmap_insert(b: &mut RoaringBitmap, id: u32) -> (r: bool)
    ensures
        bitmap_set(*final(b)) == bitmap_set(*old(b)).insert(id),
        r == !bitmap_set(*old(b)).contains(id),
{
    b.insert(id)
}

/// Relies on `RoaringBitmap::contains`.
#[verifier::external_body]
fn bitmap_contains(b: &RoaringBitmap, id: u32) -> (r: bool)
    ensures
        r == bitmap_set(*b).contains(id),
{
    b.contains(id)
}

/// Relies on the `BitAnd` impl of `RoaringBitmap`: set intersection.
#[verifier::external_body]
fn bitmap_and(a: &RoaringBitmap, b: &RoaringBitmap) -> (r: RoaringBitmap)
    ensures
        bitmap_set(r) == bitmap_set(*a).intersect(bitmap_set(*b)),
{
    a.clone() & b.clone()
}

/// Relies on the `BitOr` impl of `RoaringBitmap`: set union.
#[verifier::external_body]
fn bitmap_or(a: &RoaringBitmap, b: &RoaringBitmap) -> (r: RoaringBitmap)
    ensures
        bitmap_set(r) == bitmap_set(*a).union(bitmap_set(*b)),
{
    a.clone() | b.clone()
}

/// Relies on the `PartialEq` impl of `RoaringBitmap`: equality of the
/// represented sets (representations are canonical per size class).
#[verifier::external_body]
fn bitmap_eq(a: &RoaringBitmap, b: &RoaringBitmap) -> (r: bool)
    ensures
        r == (bitmap_set(*a) =~= bitmap_set(*b)),
{
    a == b
}

/// A set of global ids used to restrict candidate iteration.
#[derive(Debug)]
pub struct Filter {
    bitmap: RoaringBitmap,
}

impl View for Filter {
    type V = Set<u32>;

    /// The filter seen as the mathematical set of ids it holds.
    closed spec fn view(&self) -> Set<u32> {
        bitmap_set(self.bitmap)
    }
}

impl Filter {
    /// An empty filter.
    pub fn new() -> (r: Filter)
        ensures
            r@ == Set::<u32>::empty(),
    {
        Filter { bitmap: bitmap_new() }
    }

    /// A filter over an existing bitmap.
    pub fn from_bitmap(bitmap: RoaringBitmap) -> (r: Filter)
        ensures
            r@ == bitmap_set(bitmap),
    {
        Filter { bitmap }
    }

    /// Adds one id.
    pub fn insert(&mut self, id: u32)
        ensures
            final(self)@ == old(self)@.insert(id),
    {
        bitmap_insert(&mut self.bitmap, id);
    }

    /// Adds every id of `ids`.
    pub fn insert_many(&mut self, ids: &[u32])
        ensures
            final(self)@ == old(self)@ + ids@.to_set(),
    {
        let n = ids.len();
        let mut i: usize = 0;
        while i < n
            invariant
                i <= n,
                n == ids@.len(),
                forall|x: u32|
                    #[trigger] self@.contains(x) <==> (old(self)@.contains(x) || ids@.subrange(
                        0,
                        i as int,
                    ).contains(x)),
            decreases n - i,
        {
            let ghost prior = self@;
            self.insert(ids[i]);
            proof {
                assert forall|x: u32| #[trigger] self@.contains(x) <==> (old(self)@.contains(x)
                    || ids@.subrange(0, i + 1).contains(x)) by {
                    if self@.contains(x) {
                        if x == ids@[i as int] {
                            assert(ids@.subrange(0, i + 1)[i as int] == x);
                        } else {
                            assert(prior.contains(x));
                            if ids@.subrange(0, i as int).contains(x) {
                                let j = choose|j: int|
                                    0 <= j < i && ids@.subrange(0, i as int)[j] == x;
                                assert(ids@.subrange(0, i + 1)[j] == x);
                            }
                        }
                    } else {
                        assert(!prior.contains(x) && x != ids@[i as int]);
                        if ids@.subrange(0, i + 1).contains(x) {
                            let j = choose|j: int|
                                0 <= j < i + 1 && #[trigger] ids@.subrange(0, i + 1)[j] == x;
                            assert(j < i);
                            assert(ids@.subrange(0, i as int)[j] == x);
                        }
                    }
                }
            }
            i = i + 1;
        }
        proof {
            assert(ids@.subrange(0, n as int) =~= ids@);
            assert(self@ =~= old(self)@ + ids@.to_set());
        }
    }

    /// Whether the filter holds the id.
    pub fn contains(&self, id: u32) -> (r: bool)
        ensures
            r == self@.contains(id),
    {
        bitmap_contains(&self.bitmap, id)
    }

    /// The intersection of two filters.
    pub fn and(&self, other: &Filter) -> (r: Filter)
        ensures
            r@ == self@.intersect(other@),
    {
        Filter::from_bitmap(bitmap_and(&self.bitmap, &other.bitmap))
    }

    /// The union of two filters.
    pub fn or(&self, other: &Filter) -> (r: Filter)
        ensures
            r@ == self@.union(other@),
    {
        Filter::from_bitmap(bitmap_or(&self.bitmap, &other.bitmap))
    }
}

impl PartialEq for Filter {
    /// Two filters are equal when they hold the same ids.
    fn eq(&self, other: &Filter) -> (r: bool) {
        let r = bitmap_eq(&self.bitmap, &other.bitmap);
        proof {
            if r {
                assert(self@ == other@);
            } else {
                if self@ == other@ {
                    assert(bitmap_set(self.bitmap) =~= bitmap_set(other.bitmap));
                }
            }
        }
        r
    }
}

impl vstd::std_specs::cmp::PartialEqSpecImpl for Filter {
    open spec fn obeys_eq_spec() -> bool {
        true
    }

    open spec fn eq_spec(&self, other: &Filter) -> bool {
        self@ == other@
    }
}

impl Eq for Filter {

}

} // verus!
