//! The cache itself.

use crate::artifact::{engine_id, store_engine, CacheItem, Program};
use crate::bounded::{
    tier_capacity, tier_entries, tier_estimates, tier_get, tier_len, tier_limit, tier_new,
    tier_peek, tier_pop_back, tier_put, tier_resize, BoundedTier,
};
use crate::entries::{
    charge, declared_kb, distinct_keys, has_key, lemma_declared_within_used, lemma_fit,
    lemma_keep, lemma_put, lemma_put_all, lemma_sums_concat, lemma_sums_next,
    lemma_sums_of_parts, lemma_sums_single, lemma_touch, put_all, used, Entry,
};
use crate::key::CacheKey;
use crate::long_term::{entries_of, LongTermStore};
use crate::state::{valid_capacity, CacheState, ARBOS_TAG};
use vstd::prelude::*;
use wasmer::{Engine, Module, Store};

verus! {

/// How full the bounded tier is.
#[derive(Clone, Copy, Debug, PartialEq, Eq)]
pub struct LruCacheMetrics {
    /// The sum of the kilobyte estimates of the entries.
    pub size_kb: u64,
    /// The number of entries.
    pub count: u64,
}

/// A cache of compiled programs in two tiers. Pinned entries stay until
/// they are released; the others share a budget of kilobytes, and the least
/// recently used of them leave when it runs out.
pub struct InitCache {
    long_term: LongTermStore,
    lru: BoundedTier,
}

impl View for InitCache {
    type V = CacheState;

    closed spec fn view(&self) -> CacheState {
        CacheState {
            long_term: self.long_term@,
            lru: tier_entries(self.lru),
            capacity: tier_capacity(self.lru),
        }
    }
}

impl InitCache {
    /// What every cache keeps: see [`CacheState::wf`].
    pub open spec fn wf(&self) -> bool {
        self@.wf()
    }

    /// An empty cache whose bounded tier has a budget of `size` kilobytes.
    pub fn new(size: usize) -> (cache: InitCache)
        requires
            valid_capacity(size as nat),
        ensures
            cache.wf(),
            cache@ == CacheState::empty(size as nat),
    {
        InitCache { long_term: LongTermStore::new(), lru: tier_new(size) }
    }

    /// Sets the budget of the bounded tier to `size_kb` kilobytes. Under a
    /// smaller budget the least recently used entries leave until the rest
    /// fits; under a larger one every entry stays where it is in the order.
    pub fn set_lru_size(&mut self, size_kb: u32)
        requires
            old(self).wf(),
            valid_capacity(size_kb as nat),
        ensures
            final(self).wf(),
            final(self)@ == old(self)@.after_resize(size_kb as nat),
    {
        let capacity: usize = size_kb as usize;
        let current: usize = tier_limit(&self.lru);
        proof {
            lemma_fit(self@.lru, size_kb as int);
        }
        if capacity < current {
            tier_resize(&mut self.lru, capacity);
        } else if capacity > current {
            let grown = regrown(&mut self.lru, capacity);
            self.lru = grown;
        }
    }

    /// Looks a program up, in the long-term tier first. A hit in the
    /// bounded tier makes the entry the most recently used. The result is a
    /// handle on the cached program and a fresh context on a clone of its
    /// engine, which is known by the same number.
    pub fn get(&mut self, module_hash: [u8; 32], version: u16, debug: bool) -> (hit: Option<
        (Module, Store),
    >)
        requires
            old(self).wf(),
        ensures
            final(self).wf(),
            final(self)@ == old(self)@.after_get(CacheKey { module_hash, version, debug }),
            match old(self)@.found(CacheKey { module_hash, version, debug }) {
                Some(item) => hit matches Some(pair) && pair.0 == item.module && engine_id(
                    store_engine(pair.1),
                ) == item.engine,
                None => hit is None,
            },
    {
        let key = CacheKey::new(module_hash, version, debug);
        proof {
            lemma_touch(self@.lru, key);
        }
        if let Some(item) = self.long_term.get(&key) {
            return Some(item.data());
        }
        if let Some(item) = tier_get(&mut self.lru, &key) {
            return Some(item.data());
        }
        None
    }

    /// The first half of an insertion: looks the program up, as
    /// [`InitCache::get`] does, but pins a hit in the bounded tier if
    /// `long_term_tag` is [`ARBOS_TAG`]. The entry stays in the bounded tier
    /// as well, until that tier discards it. On a miss the caller compiles
    /// the program and hands it to [`InitCache::insert_compiled`].
    pub fn probe(
        &mut self,
        module_hash: [u8; 32],
        version: u16,
        long_term_tag: u32,
        debug: bool,
    ) -> (hit: Option<(Module, Store)>)
        requires
            old(self).wf(),
        ensures
            final(self).wf(),
            final(self)@ == old(self)@.after_probe(
                CacheKey { module_hash, version, debug },
                long_term_tag,
            ),
            match old(self)@.found(CacheKey { module_hash, version, debug }) {
                Some(item) => hit matches Some(pair) && pair.0 == item.module && engine_id(
                    store_engine(pair.1),
                ) == item.engine,
                None => hit is None,
            },
    {
        let key = CacheKey::new(module_hash, version, debug);
        proof {
            lemma_touch(self@.lru, key);
        }
        if let Some(item) = self.long_term.get(&key) {
            return Some(item.data());
        }
        let found = match tier_peek(&self.lru, &key) {
            Some(item) => Some(item.share()),
            None => None,
        };
        if let Some(item) = found {
            let data = item.data();
            if long_term_tag == ARBOS_TAG {
                proof {
                    lemma_keep(self@.long_term, key, item@);
                }
                self.long_term.insert(key, item);
            } else {
                tier_get(&mut self.lru, &key);
            }
            return Some(data);
        }
        None
    }

    /// The second half of an insertion: takes in a program that was
    /// compiled for the key. With [`ARBOS_TAG`] it is pinned; with any other
    /// tag it is put into the bounded tier, from which the least recently
    /// used entries leave to make room. A program that alone exceeds the
    /// budget is not kept. The result is a handle on the program and a
    /// fresh context on a clone of its engine, which is known by the same
    /// number.
    pub fn insert_compiled(
        &mut self,
        module_hash: [u8; 32],
        module: Module,
        engine: Engine,
        asm_size_estimate_kb: u32,
        version: u16,
        long_term_tag: u32,
        debug: bool,
    ) -> (pair: (Module, Store))
        requires
            old(self).wf(),
        ensures
            final(self).wf(),
            final(self)@ == old(self)@.after_store(
                CacheKey { module_hash, version, debug },
                Program { module, engine: engine_id(engine), asm_size_estimate_kb },
                long_term_tag,
            ),
            pair.0 == module,
            engine_id(store_engine(pair.1)) == engine_id(engine),
    {
        let key = CacheKey::new(module_hash, version, debug);
        let item = CacheItem::new(module, engine, asm_size_estimate_kb);
        let data = item.data();
        proof {
            lemma_keep(self@.long_term, key, item@);
            lemma_put(self@.lru, self@.capacity, key, item@);
        }
        if long_term_tag != ARBOS_TAG {
            let _ = tier_put(&mut self.lru, key, item);
        } else {
            self.long_term.insert(key, item);
        }
        data
    }

    /// Inserts a program: both halves in one call, for a caller that holds
    /// the cache alone. If the key is cached, the entry is returned as by
    /// [`InitCache::probe`] and `compile` is not called. Otherwise `compile`
    /// turns `module`, the serialized program, into a compiled one for the
    /// version and debug mode; what it returns is taken in as by
    /// [`InitCache::insert_compiled`], and its error is handed on with the
    /// cache left as it was.
    pub fn insert<E, F>(
        &mut self,
        module_hash: [u8; 32],
        module: &[u8],
        asm_size_estimate_kb: u32,
        version: u16,
        long_term_tag: u32,
        debug: bool,
        compile: F,
    ) -> (outcome: Result<(Module, Store), E>) where
        F: FnOnce(u16, bool, &[u8]) -> Result<(Module, Engine), E>,

        requires
            old(self).wf(),
            old(self)@.found(CacheKey { module_hash, version, debug }) is None
                ==> compile.requires((version, debug, module)),
        ensures
            final(self).wf(),
            final(self)@ == old(self)@.after_insert(
                CacheKey { module_hash, version, debug },
                match outcome {
                    Ok(pair) => Some(
                        Program {
                            module: pair.0,
                            engine: engine_id(store_engine(pair.1)),
                            asm_size_estimate_kb,
                        },
                    ),
                    Err(_) => None,
                },
                long_term_tag,
            ),
            match old(self)@.found(CacheKey { module_hash, version, debug }) {
                Some(item) => outcome matches Ok(pair) && pair.0 == item.module && engine_id(
                    store_engine(pair.1),
                ) == item.engine,
                None => match outcome {
                    Ok(pair) => exists|engine: Engine| #[trigger]
                        compile.ensures((version, debug, module), Ok((pair.0, engine)))
                            && engine_id(engine) == engine_id(store_engine(pair.1)),
                    Err(error) => compile.ensures((version, debug, module), Err(error)),
                },
            },
    {
        if let Some(pair) = self.probe(module_hash, version, long_term_tag, debug) {
            return Ok(pair);
        }
        match compile(version, debug, module) {
            Ok((compiled, engine)) => Ok(
                self.insert_compiled(
                    module_hash,
                    compiled,
                    engine,
                    asm_size_estimate_kb,
                    version,
                    long_term_tag,
                    debug,
                ),
            ),
            Err(error) => Err(error),
        }
    }

    /// Releases the pinned entry under the key, if `long_term_tag` is
    /// [`ARBOS_TAG`] and there is one: it moves to the bounded tier.
    pub fn evict(&mut self, module_hash: [u8; 32], version: u16, long_term_tag: u32, debug: bool)
        requires
            old(self).wf(),
        ensures
            final(self).wf(),
            final(self)@ == old(self)@.after_evict(
                CacheKey { module_hash, version, debug },
                long_term_tag,
            ),
            long_term_tag != ARBOS_TAG ==> final(self)@ == old(self)@,
    {
        if long_term_tag != ARBOS_TAG {
            return ;
        }
        let key = CacheKey::new(module_hash, version, debug);
        if let Some(item) = self.long_term.remove(&key) {
            proof {
                lemma_put(self@.lru, self@.capacity, key, item@);
            }
            let _ = tier_put(&mut self.lru, key, item);
        }
    }

    /// Releases every pinned entry, if `long_term_tag` is [`ARBOS_TAG`]:
    /// each is put into the bounded tier, the one pinned first going first.
    /// Not all of them need to fit.
    pub fn clear_long_term(&mut self, long_term_tag: u32)
        requires
            old(self).wf(),
        ensures
            final(self).wf(),
            final(self)@ == old(self)@.after_clear(long_term_tag),
            long_term_tag != ARBOS_TAG ==> final(self)@ == old(self)@,
    {
        if long_term_tag != ARBOS_TAG {
            return ;
        }
        let ghost before = self@;
        let pinned = self.long_term.drain();
        let ghost all = entries_of(pinned@);
        proof {
            lemma_put_all(before.lru, before.capacity, all);
        }
        for entry in it: pinned
            invariant
                entries_of(it.seq()) == all,
                self.long_term@ == Seq::<Entry>::empty(),
                tier_capacity(self.lru) == before.capacity,
                valid_capacity(before.capacity),
                tier_entries(self.lru) == put_all(
                    before.lru,
                    before.capacity,
                    all.take(it.index() as int),
                ),
        {
            proof {
                let i = it.index() as int;
                assert(all.take(i + 1).drop_last() == all.take(i));
                assert(all.take(i + 1).last() == (entry.0, entry.1@));
            }
            let _ = tier_put(&mut self.lru, entry.0, entry.1);
        }
        proof {
            assert(all.take(all.len() as int) == all);
        }
    }

    /// How many kilobytes the entries of the bounded tier were estimated
    /// at, all together, and how many entries there are. The pinned entries
    /// are not counted.
    pub fn get_lru_metrics(&self) -> (metrics: LruCacheMetrics)
        requires
            self.wf(),
        ensures
            metrics.size_kb == declared_kb(self@.lru),
            metrics.count == self@.lru.len(),
            metrics.size_kb <= self@.capacity,
    {
        let estimates = tier_estimates(&self.lru);
        let count: usize = tier_len(&self.lru);
        let ghost entries = self@.lru;
        proof {
            lemma_declared_within_used(entries);
        }
        let mut size_kb: u64 = 0;
        let mut i: usize = 0;
        while i < estimates.len()
            invariant
                i <= estimates.len(),
                estimates@.len() == entries.len(),
                forall|j: int|
                    0 <= j < estimates@.len() ==> estimates@[j] == (
                    #[trigger] entries[j]).1.asm_size_estimate_kb,
                size_kb == declared_kb(entries.take(i as int)),
                declared_kb(entries) <= usize::MAX,
            decreases estimates.len() - i,
        {
            proof {
                lemma_sums_next(entries, i as int);
                lemma_sums_of_parts(entries, i + 1);
            }
            size_kb = size_kb + estimates[i] as u64;
            i += 1;
        }
        proof {
            assert(entries.take(entries.len() as int) == entries);
        }
        LruCacheMetrics { size_kb, count: count as u64 }
    }
}

/// A tier of a larger capacity with the entries of `tier`, which it takes
/// out of it, in their order.
fn regrown(tier: &mut BoundedTier, capacity: usize) -> (grown: BoundedTier)
    requires
        distinct_keys(tier_entries(*old(tier))),
        used(tier_entries(*old(tier))) <= tier_capacity(*old(tier)),
        tier_capacity(*old(tier)) < capacity,
        valid_capacity(capacity as nat),
    ensures
        tier_capacity(grown) == capacity,
        tier_entries(grown) == tier_entries(*old(tier)),
{
    let ghost all = tier_entries(*tier);
    let mut grown = tier_new(capacity);
    let mut left: usize = tier_len(tier);
    proof {
        assert(all.take(left as int) == all);
        assert(all.skip(left as int) == Seq::<Entry>::empty());
    }
    while left > 0
        invariant
            distinct_keys(all),
            used(all) < capacity,
            valid_capacity(capacity as nat),
            left <= all.len(),
            tier_entries(*tier) == all.take(left as int),
            tier_capacity(grown) == capacity,
            tier_entries(grown) == all.skip(left as int),
        decreases left,
    {
        let last = tier_pop_back(tier);
        if let Some(entry) = last {
            proof {
                let n = left as int;
                let behind = all.skip(n);
                let entry = (entry.0, entry.1@);
                assert(entry == all[n - 1]);
                assert(all.take(n).drop_last() == all.take(n - 1));
                assert forall|j: int| 0 <= j < behind.len() implies (#[trigger] behind[j]).0
                    != entry.0 by {
                    assert(all[n - 1].0 != all[n + j].0);
                }
                assert(!has_key(behind, entry.0));
                assert(all.skip(n - 1) == seq![entry] + behind);
                lemma_sums_of_parts(all, n - 1);
                lemma_sums_single(entry);
                lemma_sums_concat(seq![entry], behind);
                lemma_fit(behind, capacity - charge(entry.1.asm_size_estimate_kb));
            }
            let _ = tier_put(&mut grown, entry.0, entry.1);
        }
        left = left - 1;
    }
    proof {
        assert(all.skip(0) == all);
    }
    grown
}

} // verus!
