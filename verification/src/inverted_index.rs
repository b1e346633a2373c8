//! Exact-match secondary lookup: a map from keys to posting lists of
//! record ids, each list in insertion order.
use vstd::prelude::*;

use crate::posting_list::PostingList;
use std::collections::HashMap;

verus! {

broadcast use vstd::std_specs::hash::group_hash_axioms;

/// A map from `u32` keys to the posting list of every id inserted under
/// that key, in insertion order.
pub struct InvertedIndex {
    postings: HashMap<u32, PostingList>,
}

impl View for InvertedIndex {
    type V = Map<u32, Seq<u32>>;

    /// The index seen as a map from keys to id sequences.
    closed spec fn view(&self) -> Map<u32, Seq<u32>> {
        self.postings@.map_values(|p: PostingList| p@)
    }
}

impl InvertedIndex {
    /// The posting list recorded for `key` so far: empty if the key is new.
    pub open spec fn entry(self, key: u32) -> Seq<u32> {
        if self@.contains_key(key) {
            self@[key]
        } else {
            Seq::empty()
        }
    }

    /// An empty index.
    pub fn new() -> (r: InvertedIndex)
        ensures
            r@ == Map::<u32, Seq<u32>>::empty(),
    {
        let r = InvertedIndex { postings: HashMap::new() };
        proof {
            assert(r@ =~= Map::<u32, Seq<u32>>::empty());
        }
        r
    }

    /// Appends `value` to the posting list of `key`, creating the list if
    /// the key is new.
    pub fn insert(&mut self, key: u32, value: u32)
        ensures
            final(self)@ == old(self)@.insert(key, old(self).entry(key).push(value)),
    {
        let mut list = match self.postings.remove(&key) {
            Some(l) => l,
            None => PostingList::new(),
        };
        list.insert(value);
        self.postings.insert(key, list);
        proof {
            assert(self@ =~= old(self)@.insert(key, old(self).entry(key).push(value)));
        }
    }

    /// Appends every id of `values` to the posting list of `key`, in
    /// order, creating the list if the key is new.
    pub fn insert_many(&mut self, key: u32, values: &[u32])
        ensures
            final(self)@ == old(self)@.insert(key, old(self).entry(key) + values@),
    {
        let mut list = match self.postings.remove(&key) {
            Some(l) => l,
            None => PostingList::new(),
        };
        list.insert_many(values);
        self.postings.insert(key, list);
        proof {
            assert(self@ =~= old(self)@.insert(key, old(self).entry(key) + values@));
        }
    }

    /// The posting list stored under `key`, if any.
    pub fn get(&self, key: u32) -> (r: Option<&PostingList>)
        ensures
            match r {
                Some(p) => self@.contains_key(key) && p@ == self@[key],
                None => !self@.contains_key(key),
            },
    {
        self.postings.get(&key)
    }
}

} // verus!
