use clru::WeightScale;
use init_cache::artifact::CacheItem;
use init_cache::bounded::KilobyteScale;
use init_cache::key::CacheKey;
use init_cache::long_term::LongTermStore;
use wasmer::{Engine, Module};

fn item(kb: u32) -> CacheItem {
    let engine = Engine::default();
    let module = Module::new(&engine, "(module)").unwrap();
    CacheItem::new(module, engine, kb)
}

fn key(byte: u8) -> CacheKey {
    CacheKey::new([byte; 32], 3, true)
}

#[test]
fn item_keeps_what_it_was_made_of() {
    let engine = Engine::default();
    let module = Module::new(&engine, "(module)").unwrap();
    let id = engine.id();
    let made = CacheItem::new(module.clone(), engine, 17);
    assert!(made.module == module);
    assert!(made.engine.id() == id);
    assert_eq!(made.asm_size_estimate_kb, 17);
}

#[test]
fn item_data_is_the_program_and_a_fresh_context() {
    let held = item(4);
    let (module, first) = held.data();
    let (again, second) = held.data();
    assert!(module == held.module);
    assert!(again == held.module);
    assert!(first.engine().id() == held.engine.id());
    assert!(second.engine().id() == held.engine.id());
    assert!(first.id() != second.id());
}

#[test]
fn shared_item_is_the_same_program() {
    let held = item(9);
    let other = held.share();
    assert!(other.module == held.module);
    assert!(other.engine.id() == held.engine.id());
    assert_eq!(other.asm_size_estimate_kb, 9);
    assert!(item(9).module != held.module);
}

#[test]
fn contexts_of_one_item_run_on_engines_of_one_number() {
    let engine = Engine::default();
    let other = Engine::default();
    assert!(engine.id() != other.id());
    let module = Module::new(&engine, "(module)").unwrap();
    let id = engine.id();
    let held = CacheItem::new(module, engine, 1);
    let copy = held.share();
    let (_, first) = held.data();
    let (_, second) = copy.data();
    let (_, third) = copy.share().data();
    assert!(first.engine().id() == id);
    assert!(second.engine().id() == id);
    assert!(third.engine().id() == id);
    assert!(first.engine().id() != other.id());
}

#[test]
fn scale_reports_one_kilobyte_less() {
    let k = ([0u8; 32], 0u16, false);
    assert_eq!(KilobyteScale.weight(&k, &item(0)), 0);
    assert_eq!(KilobyteScale.weight(&k, &item(1)), 0);
    assert_eq!(KilobyteScale.weight(&k, &item(2)), 1);
    assert_eq!(KilobyteScale.weight(&k, &item(6)), 5);
    assert_eq!(KilobyteScale.weight(&k, &item(u32::MAX)), u32::MAX as usize - 1);
}

#[test]
fn key_new_keeps_its_parts() {
    let k = CacheKey::new([5u8; 32], 12, true);
    assert_eq!(k.module_hash, [5u8; 32]);
    assert_eq!(k.version, 12);
    assert!(k.debug);
}

#[test]
fn keys_are_the_same_iff_all_parts_agree() {
    let k = CacheKey::new([5u8; 32], 12, true);
    assert!(k.same(&CacheKey::new([5u8; 32], 12, true)));
    assert!(!k.same(&CacheKey::new([5u8; 32], 13, true)));
    assert!(!k.same(&CacheKey::new([5u8; 32], 12, false)));
    let mut first = [5u8; 32];
    first[0] = 6;
    assert!(!k.same(&CacheKey::new(first, 12, true)));
    let mut last = [5u8; 32];
    last[31] = 4;
    assert!(!k.same(&CacheKey::new(last, 12, true)));
    assert_eq!(k, CacheKey::new([5u8; 32], 12, true));
}

#[test]
fn long_term_store_starts_empty() {
    let mut store = LongTermStore::new();
    assert!(store.get(&key(1)).is_none());
    assert!(store.remove(&key(1)).is_none());
    assert!(store.drain().is_empty());
}

#[test]
fn long_term_store_keeps_and_replaces() {
    let mut store = LongTermStore::new();
    let first = item(1);
    let second = item(2);
    let first_module = first.module.clone();
    let second_module = second.module.clone();
    assert!(store.insert(key(1), first).is_none());
    assert!(store.get(&key(1)).unwrap().module == first_module);
    let previous = store.insert(key(1), second).unwrap();
    assert!(previous.module == first_module);
    assert!(store.get(&key(1)).unwrap().module == second_module);
    assert_eq!(store.get(&key(1)).unwrap().asm_size_estimate_kb, 2);
    assert!(store.get(&key(2)).is_none());
    assert_eq!(store.drain().len(), 1);
}

#[test]
fn long_term_store_removes_one_key_only() {
    let mut store = LongTermStore::new();
    store.insert(key(1), item(1));
    store.insert(key(2), item(2));
    store.insert(key(3), item(3));
    let removed = store.remove(&key(2)).unwrap();
    assert_eq!(removed.asm_size_estimate_kb, 2);
    assert!(store.remove(&key(2)).is_none());
    assert!(store.get(&key(2)).is_none());
    assert_eq!(store.get(&key(1)).unwrap().asm_size_estimate_kb, 1);
    assert_eq!(store.get(&key(3)).unwrap().asm_size_estimate_kb, 3);
}

#[test]
fn long_term_store_drains_in_order_of_pinning() {
    let mut store = LongTermStore::new();
    store.insert(key(3), item(30));
    store.insert(key(1), item(10));
    store.insert(key(2), item(20));
    store.insert(key(1), item(11));
    store.remove(&key(3));
    store.insert(key(3), item(31));
    let all = store.drain();
    let order: Vec<(u8, u32)> =
        all.iter().map(|entry| (entry.0.module_hash[0], entry.1.asm_size_estimate_kb)).collect();
    assert_eq!(order, vec![(1, 11), (2, 20), (3, 31)]);
    assert!(store.get(&key(1)).is_none());
    assert!(store.drain().is_empty());
}
