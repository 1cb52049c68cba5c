use init_cache::cache::{InitCache, LruCacheMetrics};
use init_cache::state::ARBOS_TAG;
use wasmer::{Engine, Module};

fn compiled() -> (Module, Engine) {
    let engine = Engine::default();
    let module = Module::new(&engine, "(module)").unwrap();
    (module, engine)
}

fn hash(byte: u8) -> [u8; 32] {
    [byte; 32]
}

/// Puts a freshly compiled program under `hash(byte)` and returns it.
fn store(cache: &mut InitCache, byte: u8, kb: u32, tag: u32) -> Module {
    let (module, engine) = compiled();
    let (handle, _) = cache.insert_compiled(hash(byte), module, engine, kb, 1, tag, false);
    handle
}

fn holds(cache: &mut InitCache, byte: u8) -> bool {
    cache.get(hash(byte), 1, false).is_some()
}

fn metrics(cache: &InitCache) -> (u64, u64) {
    let m = cache.get_lru_metrics();
    (m.size_kb, m.count)
}

#[test]
fn new_cache_is_empty() {
    let mut cache = InitCache::new(256 * 10 * 1024);
    assert_eq!(cache.get_lru_metrics(), LruCacheMetrics { size_kb: 0, count: 0 });
    assert!(!holds(&mut cache, 1));
}

#[test]
fn pinning_tag_is_one() {
    assert_eq!(ARBOS_TAG, 1);
}

#[test]
fn second_insert_evicts_least_recently_used() {
    let mut cache = InitCache::new(10);
    store(&mut cache, 1, 6, 0);
    assert_eq!(metrics(&cache), (6, 1));
    assert!(holds(&mut cache, 1));

    store(&mut cache, 2, 6, 0);
    assert_eq!(metrics(&cache), (6, 1));
    assert!(!holds(&mut cache, 1));
    assert!(holds(&mut cache, 2));
}

#[test]
fn pinned_insert_leaves_bounded_tier_alone() {
    let mut cache = InitCache::new(10);
    store(&mut cache, 1, 4, 0);
    let before = metrics(&cache);
    let pinned = store(&mut cache, 3, 400, ARBOS_TAG);
    assert_eq!(metrics(&cache), before);
    assert_eq!(before, (4, 1));
    let (found, _) = cache.get(hash(3), 1, false).unwrap();
    assert!(found == pinned);
    // No pressure on the bounded tier reaches a pinned entry.
    store(&mut cache, 4, 9, 0);
    cache.set_lru_size(1);
    assert_eq!(metrics(&cache), (0, 0));
    assert!(holds(&mut cache, 3));
    assert!(!holds(&mut cache, 1));
}

#[test]
fn racing_inserts_of_one_key_end_in_one_entry() {
    let mut cache = InitCache::new(10);
    // Both callers miss, both compile, both hand their program in.
    assert!(cache.probe(hash(9), 1, 0, false).is_none());
    assert!(cache.probe(hash(9), 1, 0, false).is_none());
    let first = store(&mut cache, 9, 3, 0);
    let second = store(&mut cache, 9, 3, 0);
    // Compiled from the same code, the two programs are alike.
    assert_eq!(first.serialize().unwrap(), second.serialize().unwrap());
    assert_eq!(metrics(&cache), (3, 1));
    let (found, _) = cache.get(hash(9), 1, false).unwrap();
    assert!(found == second);
    // Nothing is pinned: the key was in one tier only.
    cache.set_lru_size(1);
    assert!(!holds(&mut cache, 9));
}

#[test]
fn racing_pinned_inserts_of_one_key_end_in_one_entry() {
    let mut cache = InitCache::new(10);
    assert!(cache.probe(hash(9), 1, ARBOS_TAG, false).is_none());
    assert!(cache.probe(hash(9), 1, ARBOS_TAG, false).is_none());
    let first = store(&mut cache, 9, 3, ARBOS_TAG);
    let second = store(&mut cache, 9, 3, ARBOS_TAG);
    assert_eq!(first.serialize().unwrap(), second.serialize().unwrap());
    assert_eq!(metrics(&cache), (0, 0));
    let (found, _) = cache.get(hash(9), 1, false).unwrap();
    assert!(found == second);
    // One release empties the long-term tier of the key.
    cache.evict(hash(9), 1, ARBOS_TAG, false);
    assert_eq!(metrics(&cache), (3, 1));
    cache.set_lru_size(1);
    assert!(!holds(&mut cache, 9));
}

#[test]
fn key_of_bounded_tier_is_in_no_other_tier() {
    let mut cache = InitCache::new(10);
    store(&mut cache, 1, 5, 0);
    assert_eq!(metrics(&cache), (5, 1));
    // Were the key pinned as well, it would outlive the bounded tier's entry.
    cache.set_lru_size(1);
    assert_eq!(metrics(&cache), (0, 0));
    assert!(!holds(&mut cache, 1));
}

#[test]
fn key_of_long_term_tier_is_in_no_other_tier() {
    let mut cache = InitCache::new(10);
    store(&mut cache, 1, 5, ARBOS_TAG);
    assert_eq!(metrics(&cache), (0, 0));
    assert!(holds(&mut cache, 1));
    assert_eq!(metrics(&cache), (0, 0));
}

#[test]
fn promotion_pins_the_cached_program() {
    let mut cache = InitCache::new(10);
    let first = store(&mut cache, 1, 5, 0);
    let outcome: Result<_, String> = cache.insert(
        hash(1),
        b"not looked at",
        5,
        1,
        ARBOS_TAG,
        false,
        |_version: u16, _debug: bool, _bytes: &[u8]| -> Result<(Module, Engine), String> {
            panic!("a cached program is not compiled again")
        },
    );
    let (promoted, _) = outcome.unwrap();
    assert!(promoted == first);
    // The copy in the bounded tier stays until that tier discards it.
    assert_eq!(metrics(&cache), (5, 1));
    cache.set_lru_size(1);
    assert_eq!(metrics(&cache), (0, 0));
    let (found, _) = cache.get(hash(1), 1, false).unwrap();
    assert!(found == first);
}

#[test]
fn probe_with_other_tag_only_refreshes() {
    let mut cache = InitCache::new(10);
    store(&mut cache, 1, 4, 0);
    store(&mut cache, 2, 4, 0);
    // 1 is the least recently used; a probe makes it the most recently used.
    assert!(cache.probe(hash(1), 1, 0, false).is_some());
    store(&mut cache, 3, 4, 0);
    assert!(holds(&mut cache, 1));
    assert!(!holds(&mut cache, 2));
    assert!(holds(&mut cache, 3));
    // It was not pinned.
    cache.set_lru_size(1);
    assert!(!holds(&mut cache, 1));
}

#[test]
fn probe_with_pinning_tag_does_not_refresh() {
    let mut cache = InitCache::new(10);
    store(&mut cache, 1, 4, 0);
    store(&mut cache, 2, 4, 0);
    assert!(cache.probe(hash(1), 1, ARBOS_TAG, false).is_some());
    // In the bounded tier 1 is still the least recently used.
    store(&mut cache, 3, 4, 0);
    assert_eq!(metrics(&cache), (8, 2));
    cache.clear_long_term(ARBOS_TAG);
    // Released, 1 goes back in as the most recently used and drives 2 out.
    assert_eq!(metrics(&cache), (8, 2));
    assert!(holds(&mut cache, 1));
    assert!(holds(&mut cache, 3));
    assert!(!holds(&mut cache, 2));
}

#[test]
fn recently_used_entries_are_evicted_later() {
    let mut cache = InitCache::new(10);
    store(&mut cache, 1, 3, 0);
    store(&mut cache, 2, 3, 0);
    store(&mut cache, 3, 3, 0);
    assert_eq!(metrics(&cache), (9, 3));
    // A lookup of 1 leaves 2 as the least recently used.
    assert!(holds(&mut cache, 1));
    store(&mut cache, 4, 3, 0);
    assert_eq!(metrics(&cache), (9, 3));
    assert!(!cache.get(hash(2), 1, false).is_some());
    assert!(holds(&mut cache, 3));
    assert!(holds(&mut cache, 1));
    assert!(holds(&mut cache, 4));
}

#[test]
fn eviction_stops_as_soon_as_the_new_entry_fits() {
    let mut cache = InitCache::new(10);
    store(&mut cache, 1, 2, 0);
    store(&mut cache, 2, 2, 0);
    store(&mut cache, 3, 2, 0);
    store(&mut cache, 4, 2, 0);
    assert_eq!(metrics(&cache), (8, 4));
    // 5 KB need 3 KB more than the 2 that are free: two entries leave.
    store(&mut cache, 5, 5, 0);
    assert_eq!(metrics(&cache), (9, 3));
    assert!(!holds(&mut cache, 1));
    assert!(!holds(&mut cache, 2));
    assert!(holds(&mut cache, 3));
    assert!(holds(&mut cache, 4));
    assert!(holds(&mut cache, 5));
}

#[test]
fn budget_may_be_used_to_the_last_kilobyte() {
    let mut cache = InitCache::new(10);
    store(&mut cache, 1, 4, 0);
    store(&mut cache, 2, 6, 0);
    assert_eq!(metrics(&cache), (10, 2));
    store(&mut cache, 3, 10, 0);
    assert_eq!(metrics(&cache), (10, 1));
    assert!(holds(&mut cache, 3));
}

#[test]
fn program_over_budget_is_not_kept() {
    let mut cache = InitCache::new(10);
    store(&mut cache, 1, 4, 0);
    let handle = store(&mut cache, 2, 11, 0);
    drop(handle);
    assert_eq!(metrics(&cache), (4, 1));
    assert!(!holds(&mut cache, 2));
    assert!(holds(&mut cache, 1));
}

#[test]
fn program_over_budget_does_not_replace() {
    let mut cache = InitCache::new(10);
    let small = store(&mut cache, 1, 4, 0);
    store(&mut cache, 1, 11, 0);
    assert_eq!(metrics(&cache), (4, 1));
    let (found, _) = cache.get(hash(1), 1, false).unwrap();
    assert!(found == small);
}

#[test]
fn replacing_an_entry_frees_its_kilobytes_first() {
    let mut cache = InitCache::new(10);
    store(&mut cache, 1, 6, 0);
    store(&mut cache, 2, 4, 0);
    let newer = store(&mut cache, 1, 5, 0);
    assert_eq!(metrics(&cache), (9, 2));
    assert!(holds(&mut cache, 2));
    let (found, _) = cache.get(hash(1), 1, false).unwrap();
    assert!(found == newer);
}

#[test]
fn entry_of_zero_kilobytes_takes_one_unit_of_the_budget() {
    let mut cache = InitCache::new(2);
    store(&mut cache, 1, 0, 0);
    assert_eq!(metrics(&cache), (0, 1));
    store(&mut cache, 2, 0, 0);
    assert_eq!(metrics(&cache), (0, 2));
    // A third entry does not fit a budget of two, though none weighs anything.
    store(&mut cache, 3, 0, 0);
    assert_eq!(metrics(&cache), (0, 2));
    assert!(!holds(&mut cache, 1));
    assert!(holds(&mut cache, 2));
    assert!(holds(&mut cache, 3));
}

#[test]
fn metrics_sum_the_estimates() {
    let mut cache = InitCache::new(100);
    store(&mut cache, 1, 0, 0);
    assert_eq!(metrics(&cache), (0, 1));
    store(&mut cache, 2, 7, 0);
    store(&mut cache, 3, 0, 0);
    store(&mut cache, 4, 1, 0);
    store(&mut cache, 5, 30, 0);
    assert_eq!(metrics(&cache), (38, 5));
    // Pinned entries count for nothing, and asking changes nothing.
    store(&mut cache, 6, 50, ARBOS_TAG);
    assert_eq!(metrics(&cache), (38, 5));
    assert_eq!(metrics(&cache), (38, 5));
    // The five entries take 40 of the budget, each of the empty ones 1.
    cache.set_lru_size(40);
    assert_eq!(metrics(&cache), (38, 5));
    // The order of use is as it was: 1 is still the first to leave.
    cache.set_lru_size(39);
    assert_eq!(metrics(&cache), (38, 4));
    assert!(!holds(&mut cache, 1));
}

#[test]
fn entry_of_one_kilobyte_takes_one() {
    let mut cache = InitCache::new(3);
    store(&mut cache, 1, 1, 0);
    store(&mut cache, 2, 1, 0);
    store(&mut cache, 3, 1, 0);
    assert_eq!(metrics(&cache), (3, 3));
    store(&mut cache, 4, 2, 0);
    assert_eq!(metrics(&cache), (3, 2));
    assert!(holds(&mut cache, 3));
    assert!(holds(&mut cache, 4));
}

#[test]
fn insert_then_get_returns_the_same_program() {
    let mut cache = InitCache::new(10);
    let (module, engine) = compiled();
    let expected = module.clone();
    let engine_id = engine.id();
    let outcome: Result<_, String> = cache.insert(
        hash(1),
        b"serialized",
        3,
        7,
        0,
        true,
        move |version: u16, debug: bool, bytes: &[u8]| -> Result<(Module, Engine), String> {
            assert_eq!(version, 7);
            assert!(debug);
            assert_eq!(bytes, b"serialized");
            Ok((module, engine))
        },
    );
    let (inserted, context) = outcome.unwrap();
    assert!(inserted == expected);
    assert!(context.engine().id() == engine_id);
    let (found, context) = cache.get(hash(1), 7, true).unwrap();
    assert!(found == inserted);
    assert!(context.engine().id() == engine_id);
    assert_eq!(metrics(&cache), (3, 1));
}

#[test]
fn pinned_insert_then_get_returns_the_same_program() {
    let mut cache = InitCache::new(10);
    let inserted = store(&mut cache, 1, 300, ARBOS_TAG);
    let (found, _) = cache.get(hash(1), 1, false).unwrap();
    assert!(found == inserted);
}

#[test]
fn insert_of_cached_key_returns_the_cached_program() {
    let mut cache = InitCache::new(10);
    let first = store(&mut cache, 1, 3, 0);
    let (other, engine) = compiled();
    let outcome: Result<_, String> = cache.insert(
        hash(1),
        b"",
        9,
        1,
        0,
        false,
        move |_version: u16, _debug: bool, _bytes: &[u8]| -> Result<(Module, Engine), String> {
            Ok((other, engine))
        },
    );
    let (returned, _) = outcome.unwrap();
    assert!(returned == first);
    assert_eq!(metrics(&cache), (3, 1));
}

#[test]
fn failed_compilation_leaves_the_cache_as_it_was() {
    let mut cache = InitCache::new(10);
    store(&mut cache, 1, 3, 0);
    let outcome = cache.insert(
        hash(2),
        b"garbage",
        3,
        1,
        0,
        false,
        |_version: u16, _debug: bool, _bytes: &[u8]| -> Result<(Module, Engine), String> {
            Err(String::from("malformed"))
        },
    );
    assert_eq!(outcome.err(), Some(String::from("malformed")));
    let outcome = cache.insert(
        hash(2),
        b"garbage",
        3,
        1,
        ARBOS_TAG,
        false,
        |_version: u16, _debug: bool, _bytes: &[u8]| -> Result<(Module, Engine), String> {
            Err(String::from("incompatible"))
        },
    );
    assert_eq!(outcome.err(), Some(String::from("incompatible")));
    assert_eq!(metrics(&cache), (3, 1));
    assert!(!holds(&mut cache, 2));
    assert!(holds(&mut cache, 1));
}

#[test]
fn released_entry_is_still_found() {
    let mut cache = InitCache::new(10);
    let pinned = store(&mut cache, 1, 6, ARBOS_TAG);
    assert_eq!(metrics(&cache), (0, 0));
    cache.evict(hash(1), 1, ARBOS_TAG, false);
    assert_eq!(metrics(&cache), (6, 1));
    let (found, _) = cache.get(hash(1), 1, false).unwrap();
    assert!(found == pinned);
    // From now on the budget decides.
    store(&mut cache, 2, 6, 0);
    assert!(!holds(&mut cache, 1));
}

#[test]
fn released_entry_over_budget_is_lost() {
    let mut cache = InitCache::new(10);
    store(&mut cache, 1, 11, ARBOS_TAG);
    assert!(holds(&mut cache, 1));
    cache.evict(hash(1), 1, ARBOS_TAG, false);
    assert_eq!(metrics(&cache), (0, 0));
    assert!(!holds(&mut cache, 1));
}

#[test]
fn release_of_absent_key_does_nothing() {
    let mut cache = InitCache::new(10);
    store(&mut cache, 1, 4, 0);
    store(&mut cache, 2, 4, ARBOS_TAG);
    cache.evict(hash(1), 1, ARBOS_TAG, false);
    cache.evict(hash(3), 1, ARBOS_TAG, false);
    cache.evict(hash(2), 2, ARBOS_TAG, false);
    cache.evict(hash(2), 1, ARBOS_TAG, true);
    assert_eq!(metrics(&cache), (4, 1));
    cache.set_lru_size(1);
    assert!(holds(&mut cache, 2));
    assert!(!holds(&mut cache, 1));
}

#[test]
fn other_tags_release_nothing() {
    let mut cache = InitCache::new(10);
    store(&mut cache, 1, 4, ARBOS_TAG);
    store(&mut cache, 2, 4, 0);
    cache.evict(hash(1), 1, 0, false);
    cache.evict(hash(1), 1, 2, false);
    cache.evict(hash(1), 1, u32::MAX, false);
    cache.clear_long_term(0);
    cache.clear_long_term(2);
    assert_eq!(metrics(&cache), (4, 1));
    cache.set_lru_size(1);
    assert_eq!(metrics(&cache), (0, 0));
    assert!(holds(&mut cache, 1));
}

#[test]
fn clear_moves_pinned_entries_to_bounded_tier() {
    let mut cache = InitCache::new(10);
    store(&mut cache, 1, 3, ARBOS_TAG);
    store(&mut cache, 2, 3, ARBOS_TAG);
    store(&mut cache, 3, 3, 0);
    cache.clear_long_term(ARBOS_TAG);
    assert_eq!(metrics(&cache), (9, 3));
    assert!(holds(&mut cache, 1));
    assert!(holds(&mut cache, 2));
    assert!(holds(&mut cache, 3));
    cache.set_lru_size(1);
    assert!(!holds(&mut cache, 1));
    assert!(!holds(&mut cache, 2));
}

#[test]
fn clear_keeps_what_fits_last_pinned_first() {
    let mut cache = InitCache::new(10);
    store(&mut cache, 1, 6, ARBOS_TAG);
    store(&mut cache, 2, 6, ARBOS_TAG);
    store(&mut cache, 3, 20, ARBOS_TAG);
    cache.clear_long_term(ARBOS_TAG);
    // 1 goes in, 2 drives it out, 3 is refused.
    assert_eq!(metrics(&cache), (6, 1));
    assert!(!holds(&mut cache, 1));
    assert!(holds(&mut cache, 2));
    assert!(!holds(&mut cache, 3));
}

#[test]
fn smaller_budget_evicts_at_once() {
    let mut cache = InitCache::new(10);
    store(&mut cache, 1, 4, 0);
    store(&mut cache, 2, 4, 0);
    cache.set_lru_size(5);
    assert_eq!(metrics(&cache), (4, 1));
    assert!(!holds(&mut cache, 1));
    assert!(holds(&mut cache, 2));
    // The new budget holds from now on.
    store(&mut cache, 3, 2, 0);
    assert_eq!(metrics(&cache), (2, 1));
}

#[test]
fn larger_budget_keeps_everything() {
    let mut cache = InitCache::new(10);
    store(&mut cache, 1, 4, 0);
    store(&mut cache, 2, 4, 0);
    cache.set_lru_size(100);
    assert_eq!(metrics(&cache), (8, 2));
    store(&mut cache, 3, 90, 0);
    assert_eq!(metrics(&cache), (98, 3));
}

#[test]
fn larger_budget_after_evictions_keeps_everything() {
    let mut cache = InitCache::new(10);
    store(&mut cache, 1, 3, 0);
    store(&mut cache, 2, 3, 0);
    store(&mut cache, 3, 3, 0);
    // 7 KB drive the two least recently used entries out.
    store(&mut cache, 4, 7, 0);
    assert_eq!(metrics(&cache), (10, 2));
    cache.set_lru_size(20);
    assert_eq!(metrics(&cache), (10, 2));
    store(&mut cache, 5, 10, 0);
    assert_eq!(metrics(&cache), (20, 3));
    // The order of use outlived the change: 3 leaves first, then 4.
    store(&mut cache, 6, 3, 0);
    assert_eq!(metrics(&cache), (20, 3));
    assert!(!holds(&mut cache, 3));
    store(&mut cache, 7, 7, 0);
    assert_eq!(metrics(&cache), (20, 3));
    assert!(!holds(&mut cache, 4));
    assert!(holds(&mut cache, 5));
    assert!(holds(&mut cache, 6));
    assert!(holds(&mut cache, 7));
}

#[test]
fn equal_budget_after_evictions_changes_nothing() {
    let mut cache = InitCache::new(10);
    store(&mut cache, 1, 3, 0);
    store(&mut cache, 2, 3, 0);
    store(&mut cache, 3, 3, 0);
    store(&mut cache, 4, 7, 0);
    cache.set_lru_size(10);
    assert_eq!(metrics(&cache), (10, 2));
    assert!(holds(&mut cache, 3));
    assert!(holds(&mut cache, 4));
    store(&mut cache, 5, 1, 0);
    assert_eq!(metrics(&cache), (8, 2));
    assert!(!holds(&mut cache, 3));
}

#[test]
fn larger_budget_after_replacement_and_eviction_keeps_everything() {
    let mut cache = InitCache::new(10);
    store(&mut cache, 1, 2, 0);
    store(&mut cache, 2, 2, 0);
    store(&mut cache, 3, 2, 0);
    store(&mut cache, 4, 2, 0);
    // 5 KB drive two entries out; a second program for 3 takes its place.
    store(&mut cache, 5, 5, 0);
    assert_eq!(metrics(&cache), (9, 3));
    let newer = store(&mut cache, 3, 3, 0);
    assert_eq!(metrics(&cache), (10, 3));
    cache.set_lru_size(u32::MAX);
    assert_eq!(metrics(&cache), (10, 3));
    let (found, _) = cache.get(hash(3), 1, false).unwrap();
    assert!(found == newer);
    assert!(holds(&mut cache, 5));
    assert!(holds(&mut cache, 4));
    store(&mut cache, 6, 4_000_000, 0);
    assert_eq!(metrics(&cache), (4_000_010, 4));
}

#[test]
fn smaller_budget_after_evictions_evicts_least_recently_used() {
    let mut cache = InitCache::new(10);
    store(&mut cache, 1, 3, 0);
    store(&mut cache, 2, 3, 0);
    store(&mut cache, 3, 3, 0);
    store(&mut cache, 4, 7, 0);
    cache.set_lru_size(9);
    assert_eq!(metrics(&cache), (7, 1));
    assert!(!holds(&mut cache, 3));
    assert!(holds(&mut cache, 4));
    store(&mut cache, 5, 2, 0);
    assert_eq!(metrics(&cache), (9, 2));
}

#[test]
fn budget_equal_to_use_keeps_everything() {
    let mut cache = InitCache::new(10);
    store(&mut cache, 1, 4, 0);
    store(&mut cache, 2, 4, 0);
    cache.set_lru_size(8);
    assert_eq!(metrics(&cache), (8, 2));
}

#[test]
fn version_and_debug_tell_entries_apart() {
    let mut cache = InitCache::new(10);
    let (module, engine) = compiled();
    cache.insert_compiled(hash(1), module, engine, 2, 1, 0, false);
    assert!(cache.get(hash(1), 1, false).is_some());
    assert!(cache.get(hash(1), 2, false).is_none());
    assert!(cache.get(hash(1), 1, true).is_none());
    let mut other = hash(1);
    other[31] = 0;
    assert!(cache.get(other, 1, false).is_none());
    let (module, engine) = compiled();
    cache.insert_compiled(hash(1), module, engine, 2, 1, 0, true);
    assert_eq!(metrics(&cache), (4, 2));
}

#[test]
fn pinned_entry_is_found_before_bounded_one() {
    let mut cache = InitCache::new(10);
    // A race leaves the key in both tiers with different programs.
    let bounded = store(&mut cache, 1, 3, 0);
    let pinned = store(&mut cache, 1, 3, ARBOS_TAG);
    let (found, _) = cache.get(hash(1), 1, false).unwrap();
    assert!(found == pinned);
    assert!(found != bounded);
}

#[test]
fn lookup_hands_out_a_context_on_the_entry_engine() {
    let mut cache = InitCache::new(10);
    let (module, engine) = compiled();
    let id = engine.id();
    let (_, context) = cache.insert_compiled(hash(1), module, engine, 2, 1, 0, false);
    assert!(context.engine().id() == id);
    let (_, first) = cache.get(hash(1), 1, false).unwrap();
    let (_, second) = cache.probe(hash(1), 1, 0, false).unwrap();
    assert!(first.engine().id() == id);
    assert!(second.engine().id() == id);
    assert!(first.id() != second.id());
}
