//! What holds of the cache whatever is asked of it.

use crate::artifact::Program;
use crate::entries::{
    charge, declared_kb, distinct_keys, fit, has_key, keep, lemma_fit, lemma_fit_lookup,
    lemma_found_at, lemma_front, lemma_keep, lemma_keep_other, key_index, lemma_put,
    lemma_put_all, lemma_put_other, lemma_touch, lemma_touch_lookup, lemma_without,
    lemma_without_other, lookup, put, touch, used, without, Entry,
};
use crate::key::CacheKey;
use crate::state::{valid_capacity, CacheState, ARBOS_TAG};
use vstd::prelude::*;

verus! {

/// One request to a cache that a single caller holds.
pub enum Operation {
    /// A lookup.
    Get { key: CacheKey },
    /// An insertion; `compiled` is what compiling gives if it comes to
    /// that, `None` for a failure.
    Insert { key: CacheKey, compiled: Option<Program>, tag: u32 },
    /// The first half of an insertion alone.
    Probe { key: CacheKey, tag: u32 },
    /// The second half of an insertion alone.
    InsertCompiled { key: CacheKey, item: Program, tag: u32 },
    /// The release of one pinned entry.
    Evict { key: CacheKey, tag: u32 },
    /// The release of all pinned entries.
    ClearLongTerm { tag: u32 },
    /// A new budget for the bounded tier.
    SetLruSize { size_kb: u32 },
}

/// The cache after one request.
pub open spec fn step(s: CacheState, op: Operation) -> CacheState {
    match op {
        Operation::Get { key } => s.after_get(key),
        Operation::Insert { key, compiled, tag } => s.after_insert(key, compiled, tag),
        Operation::Probe { key, tag } => s.after_probe(key, tag),
        Operation::InsertCompiled { key, item, tag } => s.after_store(key, item, tag),
        Operation::Evict { key, tag } => s.after_evict(key, tag),
        Operation::ClearLongTerm { tag } => s.after_clear(tag),
        Operation::SetLruSize { size_kb } => s.after_resize(size_kb as nat),
    }
}

/// The cache after a sequence of requests, the first of them first.
pub open spec fn run(s: CacheState, ops: Seq<Operation>) -> CacheState
    decreases ops.len(),
{
    if ops.len() == 0 {
        s
    } else {
        step(run(s, ops.drop_last()), ops.last())
    }
}

/// A request that the cache can serve: a new budget must be one that a tier
/// can have.
pub open spec fn admissible(op: Operation) -> bool {
    op matches Operation::SetLruSize { size_kb } ==> valid_capacity(size_kb as nat)
}

/// Whether the pinning tag meets a key that only the bounded tier holds.
pub open spec fn pins_bounded_entry(s: CacheState, key: CacheKey, tag: u32) -> bool {
    tag == ARBOS_TAG && has_key(s.lru, key) && !has_key(s.long_term, key)
}

/// Whether the request gives a key to a second tier. An insertion, or its
/// first half, does so when it pins an entry of the bounded tier, for the
/// entry stays there too. The second half of an insertion does so when,
/// since the first half, the key has come to the tier that the tag does not
/// choose.
pub open spec fn duplicates(s: CacheState, op: Operation) -> bool {
    match op {
        Operation::Insert { key, tag, .. } => pins_bounded_entry(s, key, tag),
        Operation::Probe { key, tag } => pins_bounded_entry(s, key, tag),
        Operation::InsertCompiled { key, tag, .. } => if tag == ARBOS_TAG {
            has_key(s.lru, key)
        } else {
            has_key(s.long_term, key)
        },
        _ => false,
    }
}

/// Every request leaves the cache well formed: no tier holds a key twice,
/// and the bounded tier keeps its budget.
pub proof fn lemma_step_keeps_wf(s: CacheState, op: Operation)
    requires
        s.wf(),
        admissible(op),
    ensures
        step(s, op).wf(),
{
    match op {
        Operation::Get { key } => {
            lemma_touch(s.lru, key);
        },
        Operation::Insert { key, compiled, tag } => {
            lemma_touch(s.lru, key);
            if has_key(s.lru, key) {
                lemma_keep(s.long_term, key, lookup(s.lru, key).unwrap());
            }
            if let Some(item) = compiled {
                lemma_keep(s.long_term, key, item);
                lemma_put(s.lru, s.capacity, key, item);
            }
        },
        Operation::Probe { key, tag } => {
            lemma_touch(s.lru, key);
            if has_key(s.lru, key) {
                lemma_keep(s.long_term, key, lookup(s.lru, key).unwrap());
            }
        },
        Operation::InsertCompiled { key, item, tag } => {
            lemma_keep(s.long_term, key, item);
            lemma_put(s.lru, s.capacity, key, item);
        },
        Operation::Evict { key, tag } => {
            lemma_without(s.long_term, key);
            if has_key(s.long_term, key) {
                lemma_put(s.lru, s.capacity, key, lookup(s.long_term, key).unwrap());
            }
        },
        Operation::ClearLongTerm { tag } => {
            lemma_put_all(s.lru, s.capacity, s.long_term);
        },
        Operation::SetLruSize { size_kb } => {
            lemma_fit(s.lru, size_kb as int);
        },
    }
}

/// A request that gives no key to a second tier leaves the tiers apart: if
/// no key was held by both before, none is afterwards.
pub proof fn lemma_step_keeps_tiers_apart(s: CacheState, op: Operation)
    requires
        s.wf(),
        s.tiers_apart(),
        !duplicates(s, op),
    ensures
        step(s, op).tiers_apart(),
{
    let t = step(s, op);
    assert forall|k: CacheKey| !(#[trigger] has_key(t.long_term, k) && has_key(t.lru, k)) by {
        assert(!(has_key(s.long_term, k) && has_key(s.lru, k)));
        match op {
            Operation::Get { key } => {
                lemma_touch_lookup(s.lru, key, k);
            },
            Operation::Insert { key, compiled, tag } => {
                lemma_touch_lookup(s.lru, key, k);
                assert(!(has_key(s.long_term, key) && has_key(s.lru, key)));
                if s.found(key) is None {
                    if let Some(item) = compiled {
                        if k != key {
                            lemma_keep_other(s.long_term, key, item, k);
                            lemma_put_other(s.lru, s.capacity, key, item, k);
                        }
                    }
                }
            },
            Operation::Probe { key, tag } => {
                lemma_touch_lookup(s.lru, key, k);
            },
            Operation::InsertCompiled { key, item, tag } => {
                if k != key {
                    lemma_keep_other(s.long_term, key, item, k);
                    lemma_put_other(s.lru, s.capacity, key, item, k);
                } else {
                    lemma_put(s.lru, s.capacity, key, item);
                }
            },
            Operation::Evict { key, tag } => {
                if tag == ARBOS_TAG && has_key(s.long_term, key) {
                    lemma_without(s.long_term, key);
                    if k != key {
                        lemma_without_other(s.long_term, key, k);
                        lemma_put_other(
                            s.lru,
                            s.capacity,
                            key,
                            lookup(s.long_term, key).unwrap(),
                            k,
                        );
                    }
                }
            },
            Operation::ClearLongTerm { tag } => {},
            Operation::SetLruSize { size_kb } => {
                lemma_fit_lookup(s.lru, size_kb as int, k);
            },
        }
    }
}

/// Mutual exclusion. From an empty cache, after any sequence of requests
/// none of which gives a key to a second tier, every key is held by at most
/// one tier; and the cache is well formed after any sequence at all.
pub proof fn lemma_run_keeps_tiers_apart(capacity: nat, ops: Seq<Operation>)
    requires
        valid_capacity(capacity),
        forall|i: int| 0 <= i < ops.len() ==> admissible(#[trigger] ops[i]),
    ensures
        run(CacheState::empty(capacity), ops).wf(),
        (forall|i: int|
            0 <= i < ops.len() ==> !duplicates(
                run(CacheState::empty(capacity), #[trigger] ops.take(i)),
                ops[i],
            )) ==> run(CacheState::empty(capacity), ops).tiers_apart(),
    decreases ops.len(),
{
    let start = CacheState::empty(capacity);
    if ops.len() == 0 {
        assert(used(start.lru) == 0);
    } else {
        let before = ops.drop_last();
        lemma_run_keeps_tiers_apart(capacity, before);
        lemma_step_keeps_wf(run(start, before), ops.last());
        if forall|i: int|
            0 <= i < ops.len() ==> !duplicates(run(start, #[trigger] ops.take(i)), ops[i]) {
            assert forall|i: int| 0 <= i < before.len() implies !duplicates(
                run(start, #[trigger] before.take(i)),
                before[i],
            ) by {
                assert(before.take(i) == ops.take(i));
            }
            assert(ops.take(ops.len() - 1) == before);
            lemma_step_keeps_tiers_apart(run(start, before), ops.last());
        }
    }
}

/// Tier promotion. An insertion with the pinning tag of a key that only the
/// bounded tier holds pins the very program that the bounded tier holds:
/// nothing is compiled, and a lookup finds the same program as before.
pub proof fn lemma_promotion_pins_cached_program(
    s: CacheState,
    key: CacheKey,
    compiled: Option<Program>,
)
    requires
        s.wf(),
        has_key(s.lru, key),
        !has_key(s.long_term, key),
    ensures
        lookup(s.after_insert(key, compiled, ARBOS_TAG).long_term, key) == lookup(s.lru, key),
        s.after_insert(key, compiled, ARBOS_TAG).found(key) == s.found(key),
        s.after_insert(key, compiled, ARBOS_TAG).lru == s.lru,
{
    lemma_keep(s.long_term, key, lookup(s.lru, key).unwrap());
}

/// Eviction by weight. When an insertion brings a program into the bounded
/// tier, what stays of the other entries are the most recently used ones,
/// as many as fit beside the new one and no fewer; the charges of all that
/// the tier then holds, and so the estimates that their inserters gave, sum
/// to no more than the budget.
pub proof fn lemma_insert_discards_least_recently_used(
    s: CacheState,
    key: CacheKey,
    item: Program,
    tag: u32,
)
    requires
        s.wf(),
        tag != ARBOS_TAG,
        charge(item.asm_size_estimate_kb) <= s.capacity,
    ensures
        ({
            let others = without(s.lru, key);
            let after = s.after_store(key, item, tag).lru;
            let kept = after.len() - 1;
            &&& after[0] == (key, item)
            &&& 0 <= kept <= others.len()
            &&& after.skip(1) == others.take(kept)
            &&& used(after) <= s.capacity
            &&& declared_kb(after) <= s.capacity
            &&& kept < others.len() ==> charge(item.asm_size_estimate_kb) + used(
                others.take(kept + 1),
            ) > s.capacity
        }),
{
    let others = without(s.lru, key);
    let room = s.capacity - charge(item.asm_size_estimate_kb);
    lemma_put(s.lru, s.capacity, key, item);
    lemma_fit(others, room);
    assert(put(s.lru, s.capacity, key, item).skip(1) == fit(others, room));
}

/// A lookup makes its entry the most recently used of the bounded tier and
/// leaves the order of the others as it was.
pub proof fn lemma_get_refreshes(s: CacheState, key: CacheKey)
    requires
        s.wf(),
        !has_key(s.long_term, key),
        has_key(s.lru, key),
    ensures
        s.after_get(key).lru[0].0 == key,
        s.after_get(key).lru.skip(1) == without(s.lru, key),
{
    lemma_touch(s.lru, key);
    assert(touch(s.lru, key).skip(1) == without(s.lru, key));
}

/// Round trip. A lookup straight after an insertion finds the program that
/// the insertion returned: the cached one if the key was cached, else the
/// compiled one. This leaves out a program that is not pinned and alone
/// exceeds the budget of the bounded tier, for it is not kept.
pub proof fn lemma_insert_then_get(s: CacheState, key: CacheKey, item: Program, tag: u32)
    requires
        s.wf(),
        s.found(key) is Some || tag == ARBOS_TAG || charge(item.asm_size_estimate_kb)
            <= s.capacity,
    ensures
        s.after_insert(key, Some(item), tag).found(key) == (match s.found(key) {
            Some(cached) => Some(cached),
            None => Some(item),
        }),
{
    lemma_touch_lookup(s.lru, key, key);
    lemma_keep(s.long_term, key, item);
    lemma_put(s.lru, s.capacity, key, item);
    if has_key(s.lru, key) {
        lemma_keep(s.long_term, key, lookup(s.lru, key).unwrap());
    }
}

/// Racing insertions. Two callers that miss the same key may both compile
/// it and hand their programs in, one after the other, under the same tag
/// and with the same estimate. The cache is then as if only the second had
/// done so: the key has one entry, in one tier, with the second program.
pub proof fn lemma_last_insert_wins(
    s: CacheState,
    key: CacheKey,
    first: Program,
    second: Program,
    tag: u32,
)
    requires
        s.wf(),
        first.asm_size_estimate_kb == second.asm_size_estimate_kb,
    ensures
        s.after_store(key, first, tag).after_store(key, second, tag) == s.after_store(
            key,
            second,
            tag,
        ),
{
    if tag == ARBOS_TAG {
        let once = keep(s.long_term, key, first);
        lemma_keep(s.long_term, key, first);
        if has_key(s.long_term, key) {
            let at = key_index(s.long_term, key);
            assert(once[at] == (key, first));
            lemma_found_at(once, at);
        } else {
            let at = s.long_term.len() as int;
            assert(once[at] == (key, first));
            lemma_found_at(once, at);
        }
        assert(keep(once, key, second) == keep(s.long_term, key, second));
    } else if charge(first.asm_size_estimate_kb) <= s.capacity {
        let room = s.capacity - charge(first.asm_size_estimate_kb);
        let others = fit(without(s.lru, key), room);
        let once = put(s.lru, s.capacity, key, first);
        lemma_without(s.lru, key);
        lemma_fit(without(s.lru, key), room);
        lemma_fit_lookup(without(s.lru, key), room, key);
        lemma_front((key, first), others);
        assert(once[0] == (key, first));
        lemma_found_at(once, 0);
        assert(once.remove(0) == others);
        lemma_fit(others, room);
    }
}

/// Demotion is not destruction. After a pinned entry is released, a lookup
/// still finds its program, now in the bounded tier. This leaves out a
/// program that alone exceeds the budget of the bounded tier, for that
/// tier refuses it.
pub proof fn lemma_evict_then_get(s: CacheState, key: CacheKey)
    requires
        s.wf(),
        has_key(s.long_term, key),
        charge(lookup(s.long_term, key).unwrap().asm_size_estimate_kb) <= s.capacity,
    ensures
        !has_key(s.after_evict(key, ARBOS_TAG).long_term, key),
        lookup(s.after_evict(key, ARBOS_TAG).lru, key) == lookup(s.long_term, key),
        s.after_evict(key, ARBOS_TAG).found(key) == s.found(key),
{
    lemma_without(s.long_term, key);
    lemma_put(s.lru, s.capacity, key, lookup(s.long_term, key).unwrap());
}

/// Tags that do not pin change nothing: a release under any tag but the
/// pinning one leaves both tiers as they were.
pub proof fn lemma_other_tags_change_nothing(s: CacheState, key: CacheKey, tag: u32)
    requires
        tag != ARBOS_TAG,
    ensures
        s.after_evict(key, tag) == s,
        s.after_clear(tag) == s,
{
}

} // verus!
