//! What the cache holds, as plain sequences, and what each operation makes
//! of it.

use crate::artifact::Program;
use crate::entries::{
    distinct_keys, fit, has_key, keep, lookup, put, put_all, touch, used, without, Entry,
};
use crate::key::CacheKey;
use vstd::prelude::*;

verus! {

/// The one tag that pins entries to the long-term tier. Every other tag,
/// zero among them, leaves that tier alone.
pub const ARBOS_TAG: u32 = 1;

/// The budgets that a bounded tier can have: positive, and small enough that
/// what the tier holds and one more item, added up, fit the machine's word.
pub open spec fn valid_capacity(capacity: nat) -> bool {
    0 < capacity && 2 * capacity <= usize::MAX
}

/// Whether `size` kilobytes are a budget that a tier can have.
pub fn capacity_is_valid(size: usize) -> (valid: bool)
    ensures
        valid == valid_capacity(size as nat),
{
    0 < size && size <= usize::MAX / 2
}

/// The two tiers and the budget of the bounded one.
#[verifier::ext_equal]
pub struct CacheState {
    /// The pinned entries, in the order in which their keys were pinned.
    pub long_term: Seq<Entry>,
    /// The entries of the bounded tier, most recently used first.
    pub lru: Seq<Entry>,
    /// The budget of the bounded tier, in kilobytes.
    pub capacity: nat,
}

impl CacheState {
    /// Neither tier holds a key twice, and the bounded tier keeps its
    /// budget, which is one that a tier can have.
    pub open spec fn wf(self) -> bool {
        &&& distinct_keys(self.long_term)
        &&& distinct_keys(self.lru)
        &&& used(self.lru) <= self.capacity
        &&& valid_capacity(self.capacity)
    }

    /// No key is held by both tiers.
    pub open spec fn tiers_apart(self) -> bool {
        forall|key: CacheKey| !(#[trigger] has_key(self.long_term, key) && has_key(self.lru, key))
    }

    /// The program that a request for `key` finds: the pinned one if there
    /// is one, else the one in the bounded tier.
    pub open spec fn found(self, key: CacheKey) -> Option<Program> {
        if has_key(self.long_term, key) {
            lookup(self.long_term, key)
        } else {
            lookup(self.lru, key)
        }
    }

    /// A cache that holds nothing.
    pub open spec fn empty(capacity: nat) -> CacheState {
        CacheState { long_term: Seq::empty(), lru: Seq::empty(), capacity }
    }

    /// After a request for `key`: a hit in the bounded tier makes the entry
    /// the most recently used.
    pub open spec fn after_get(self, key: CacheKey) -> CacheState {
        if has_key(self.long_term, key) {
            self
        } else {
            CacheState { lru: touch(self.lru, key), ..self }
        }
    }

    /// After the first half of an insertion, which looks for the key. A
    /// pinned entry is left as it is. An entry of the bounded tier is pinned
    /// too if the tag asks for it, and otherwise becomes the most recently
    /// used. A miss changes nothing.
    pub open spec fn after_probe(self, key: CacheKey, tag: u32) -> CacheState {
        if has_key(self.long_term, key) {
            self
        } else if has_key(self.lru, key) {
            if tag == ARBOS_TAG {
                CacheState {
                    long_term: keep(self.long_term, key, lookup(self.lru, key).unwrap()),
                    ..self
                }
            } else {
                CacheState { lru: touch(self.lru, key), ..self }
            }
        } else {
            self
        }
    }

    /// After the second half of an insertion, which takes the compiled
    /// program in: pinned if the tag asks for it, else put into the bounded
    /// tier.
    pub open spec fn after_store(self, key: CacheKey, item: Program, tag: u32) -> CacheState {
        if tag == ARBOS_TAG {
            CacheState { long_term: keep(self.long_term, key, item), ..self }
        } else {
            CacheState { lru: put(self.lru, self.capacity, key, item), ..self }
        }
    }

    /// After a whole insertion by a caller that holds the cache alone. If
    /// the key is cached, only the first half happens. Otherwise the program
    /// is compiled: `compiled` is what came of it, `None` for a failure,
    /// which changes nothing.
    pub open spec fn after_insert(
        self,
        key: CacheKey,
        compiled: Option<Program>,
        tag: u32,
    ) -> CacheState {
        if self.found(key) is Some {
            self.after_probe(key, tag)
        } else {
            match compiled {
                Some(item) => self.after_store(key, item, tag),
                None => self,
            }
        }
    }

    /// After the pinned entry under `key` is released: it is put into the
    /// bounded tier. Another tag, or a key that is not pinned, changes
    /// nothing.
    pub open spec fn after_evict(self, key: CacheKey, tag: u32) -> CacheState {
        if tag == ARBOS_TAG && has_key(self.long_term, key) {
            CacheState {
                long_term: without(self.long_term, key),
                lru: put(self.lru, self.capacity, key, lookup(self.long_term, key).unwrap()),
                ..self
            }
        } else {
            self
        }
    }

    /// After all pinned entries are released: each is put into the bounded
    /// tier, the one pinned first going first. Another tag changes nothing.
    pub open spec fn after_clear(self, tag: u32) -> CacheState {
        if tag == ARBOS_TAG {
            CacheState {
                long_term: Seq::empty(),
                lru: put_all(self.lru, self.capacity, self.long_term),
                ..self
            }
        } else {
            self
        }
    }

    /// After the budget of the bounded tier is set anew: the least recently
    /// used entries leave until the rest fits.
    pub open spec fn after_resize(self, capacity: nat) -> CacheState {
        CacheState { lru: fit(self.lru, capacity as int), capacity, ..self }
    }
}

} // verus!
