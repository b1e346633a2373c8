//! Append-only list of record ids, the payload of one inverted-index entry.
use vstd::prelude::*;

verus! {

/// An ordered list of record ids, kept in insertion order.
#[derive(Debug, PartialEq)]
pub struct PostingList {
    pub ids: Vec<u32>,
}

impl PostingList {
    /// The list seen as a mathematical sequence of ids.
    pub open spec fn view(self) -> Seq<u32> {
        self.ids@
    }

    /// An empty posting list.
    pub fn new() -> (r: PostingList)
        ensures
            r@ == Seq::<u32>::empty(),
    {
        PostingList { ids: Vec::<u32>::new() }
    }

    /// Appends one id at the end of the list.
    pub fn insert(&mut self, id: u32)
        ensures
            final(self)@ == old(self)@.push(id),
    {
        self.ids.push(id);
    }

    /// Appends every id of `ids` at the end of the list, in order.
    pub fn insert_many(&mut self, ids: &[u32])
        ensures
            final(self)@ == old(self)@ + ids@,
    {
        let n = ids.len();
        let mut i: usize = 0;
        while i < n
            invariant
                i <= n,
                n == ids@.len(),
                self@ == old(self)@ + ids@.subrange(0, i as int),
            decreases n - i,
        {
            let id = ids[i];
            self.ids.push(id);
            proof {
                assert(old(self)@ + ids@.subrange(0, i as int) + seq![ids@[i as int]] =~= old(
                    self,
                )@ + ids@.subrange(0, i + 1));
            }
            i = i + 1;
        }
        proof {
            assert(ids@.subrange(0, n as int) =~= ids@);
        }
    }
}

} // verus!
