//! The long-term tier: entries that stay until their owner lets them go.

use crate::artifact::CacheItem;
use crate::entries::{
    distinct_keys, has_key, keep, key_index, lemma_found_at, lemma_keep, lemma_without, lookup,
    without, Entry,
};
use crate::key::CacheKey;
use vstd::prelude::*;

verus! {

/// A map from keys to programs without a bound. Its entries stand in the
/// order in which their keys were first kept.
pub struct LongTermStore {
    entries: Vec<(CacheKey, CacheItem)>,
}

/// The entries that a vector of keys and items stands for: each item as
/// what it is known by.
pub open spec fn entries_of(held: Seq<(CacheKey, CacheItem)>) -> Seq<Entry> {
    held.map_values(|pair: (CacheKey, CacheItem)| (pair.0, pair.1@))
}

impl View for LongTermStore {
    type V = Seq<Entry>;

    closed spec fn view(&self) -> Seq<Entry> {
        entries_of(self.entries@)
    }
}

impl LongTermStore {
    /// No key is held twice.
    pub open spec fn wf(&self) -> bool {
        distinct_keys(self@)
    }

    pub fn new() -> (store: LongTermStore)
        ensures
            store.wf(),
            store@ == Seq::<Entry>::empty(),
    {
        LongTermStore { entries: Vec::new() }
    }

    /// Where the entry under `key` stands.
    fn position(&self, key: &CacheKey) -> (at: Option<usize>)
        requires
            self.wf(),
        ensures
            match at {
                Some(i) => has_key(self@, *key) && i == key_index(self@, *key),
                None => !has_key(self@, *key),
            },
    {
        let mut i: usize = 0;
        while i < self.entries.len()
            invariant
                self.wf(),
                i <= self.entries.len(),
                forall|j: int| 0 <= j < i ==> (#[trigger] self.entries@[j]).0 != *key,
            decreases self.entries.len() - i,
        {
            if self.entries[i].0.same(key) {
                proof {
                    lemma_found_at(self@, i as int);
                }
                return Some(i);
            }
            i += 1;
        }
        None
    }

    /// The program kept under `key`.
    pub fn get(&self, key: &CacheKey) -> (found: Option<&CacheItem>)
        requires
            self.wf(),
        ensures
            match found {
                Some(item) => lookup(self@, *key) == Some(item@),
                None => lookup(self@, *key) is None,
            },
    {
        match self.position(key) {
            Some(i) => Some(&self.entries[i].1),
            None => None,
        }
    }

    /// Keeps `item` under `key` and returns what was kept there before.
    pub fn insert(&mut self, key: CacheKey, item: CacheItem) -> (previous: Option<CacheItem>)
        requires
            old(self).wf(),
        ensures
            final(self).wf(),
            final(self)@ == keep(old(self)@, key, item@),
            match previous {
                Some(before) => lookup(old(self)@, key) == Some(before@),
                None => lookup(old(self)@, key) is None,
            },
    {
        let ghost before = self@;
        let ghost kept = item@;
        proof {
            lemma_keep(before, key, kept);
        }
        match self.position(&key) {
            Some(i) => {
                self.entries.push((key, item));
                let last = self.entries.swap_remove(i);
                assert(self@ =~= keep(before, key, kept));
                Some(last.1)
            },
            None => {
                self.entries.push((key, item));
                assert(self@ =~= keep(before, key, kept));
                None
            },
        }
    }

    /// Lets the entry under `key` go and returns its program.
    pub fn remove(&mut self, key: &CacheKey) -> (removed: Option<CacheItem>)
        requires
            old(self).wf(),
        ensures
            final(self).wf(),
            final(self)@ == without(old(self)@, *key),
            match removed {
                Some(item) => lookup(old(self)@, *key) == Some(item@),
                None => lookup(old(self)@, *key) is None,
            },
    {
        let ghost before = self@;
        proof {
            lemma_without(before, *key);
        }
        match self.position(key) {
            Some(i) => {
                let entry = self.entries.remove(i);
                assert(self@ =~= without(before, *key));
                Some(entry.1)
            },
            None => None,
        }
    }

    /// Lets every entry go and returns them in their order.
    pub fn drain(&mut self) -> (all: Vec<(CacheKey, CacheItem)>)
        ensures
            final(self).wf(),
            final(self)@ == Seq::<Entry>::empty(),
            entries_of(all@) == old(self)@,
    {
        let mut all: Vec<(CacheKey, CacheItem)> = Vec::new();
        std::mem::swap(&mut all, &mut self.entries);
        all
    }
}

} // verus!
