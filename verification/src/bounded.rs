//! The bounded tier: a `clru` cache whose capacity counts kilobytes.

use crate::artifact::CacheItem;
use crate::entries::{charge, fit, lookup, put, touch, weight_of, Entry};
use crate::key::CacheKey;
use clru::{CLruCache, WeightScale};
use std::hash::RandomState;
use std::num::NonZeroUsize;
use vstd::prelude::*;

verus! {

/// The scale by which the bounded tier weighs its entries. `clru` charges
/// every entry its weight and one unit more, so an entry reports one
/// kilobyte less than its estimate and is charged the estimate.
pub struct KilobyteScale;

impl WeightScale<([u8; 32], u16, bool), CacheItem> for KilobyteScale {
    fn weight(&self, _key: &([u8; 32], u16, bool), val: &CacheItem) -> (w: usize)
        ensures
            w == weight_of(val.asm_size_estimate_kb),
    {
        if val.asm_size_estimate_kb > 0 {
            (val.asm_size_estimate_kb - 1) as usize
        } else {
            0
        }
    }
}

/// A `clru::CLruCache` from keys to cached programs, weighed by
/// [`KilobyteScale`]. A key is stored as the tuple of its three parts.
#[verifier::external_body]
pub struct BoundedTier {
    inner: CLruCache<([u8; 32], u16, bool), CacheItem, RandomState, KilobyteScale>,
}

/// The entries of the tier, most recently used first: what
/// `CLruCache::iter` walks, each item as what it is known by.
pub uninterp spec fn tier_entries(tier: BoundedTier) -> Seq<Entry>;

/// The capacity the tier was made with or last resized to: what
/// `CLruCache::capacity` returns.
pub uninterp spec fn tier_capacity(tier: BoundedTier) -> nat;

/// `CLruCache::with_scale`: an empty cache of the given capacity.
#[verifier::external_body]
pub(crate) fn tier_new(capacity: usize) -> (tier: BoundedTier)
    requires
        capacity > 0,
    ensures
        tier_entries(tier) == Seq::<Entry>::empty(),
        tier_capacity(tier) == capacity,
{
    BoundedTier { inner: CLruCache::with_scale(NonZeroUsize::new(capacity).unwrap(), KilobyteScale) }
}

/// `CLruCache::capacity`.
#[verifier::external_body]
pub(crate) fn tier_limit(tier: &BoundedTier) -> (capacity: usize)
    ensures
        capacity == tier_capacity(*tier),
{
    tier.inner.capacity()
}

/// `CLruCache::resize` to a smaller capacity: least recently used entries
/// leave until the rest fits the new capacity, which then holds. Only when
/// it shrinks does `clru` close the gaps in its storage before it walks the
/// slots from the first on, so no other capacity is asked of it.
#[verifier::external_body]
pub(crate) fn tier_resize(tier: &mut BoundedTier, capacity: usize)
    requires
        0 < capacity < tier_capacity(*old(tier)),
    ensures
        tier_capacity(*final(tier)) == capacity,
        tier_entries(*final(tier)) == fit(tier_entries(*old(tier)), capacity as int),
{
    tier.inner.resize(NonZeroUsize::new(capacity).unwrap())
}

/// `CLruCache::get`: the value under the key, whose entry becomes the most
/// recently used.
#[verifier::external_body]
pub(crate) fn tier_get<'a>(tier: &'a mut BoundedTier, key: &CacheKey) -> (found: Option<&'a CacheItem>)
    ensures
        tier_capacity(*final(tier)) == tier_capacity(*old(tier)),
        tier_entries(*final(tier)) == touch(tier_entries(*old(tier)), *key),
        match found {
            Some(item) => Some(item@) == lookup(tier_entries(*old(tier)), *key),
            None => lookup(tier_entries(*old(tier)), *key) is None,
        },
{
    tier.inner.get(&(key.module_hash, key.version, key.debug))
}

/// `CLruCache::peek`: the value under the key; the order stays.
#[verifier::external_body]
pub(crate) fn tier_peek<'a>(tier: &'a BoundedTier, key: &CacheKey) -> (found: Option<&'a CacheItem>)
    ensures
        match found {
            Some(item) => Some(item@) == lookup(tier_entries(*tier), *key),
            None => lookup(tier_entries(*tier), *key) is None,
        },
{
    tier.inner.peek(&(key.module_hash, key.version, key.debug))
}

/// `CLruCache::put_with_weight`. An item whose weight is not below the
/// capacity comes back as the error and nothing changes. Otherwise the
/// entry under the key, if any, leaves and its value is returned; least
/// recently used entries leave until the new one fits; the new one becomes
/// the most recently used. On the way `clru` adds the new weight to what
/// the tier holds, which is why twice the capacity must fit a `usize`.
#[verifier::external_body]
pub(crate) fn tier_put(tier: &mut BoundedTier, key: CacheKey, item: CacheItem) -> (replaced: Result<
    Option<CacheItem>,
    CacheItem,
>)
    requires
        2 * tier_capacity(*old(tier)) <= usize::MAX,
    ensures
        tier_capacity(*final(tier)) == tier_capacity(*old(tier)),
        tier_entries(*final(tier)) == put(
            tier_entries(*old(tier)),
            tier_capacity(*old(tier)),
            key,
            item@,
        ),
        match replaced {
            Ok(previous) => charge(item.asm_size_estimate_kb) <= tier_capacity(*old(tier)) && (
            match previous {
                Some(before) => Some(before@) == lookup(tier_entries(*old(tier)), key),
                None => lookup(tier_entries(*old(tier)), key) is None,
            }),
            Err(refused) => charge(item.asm_size_estimate_kb) > tier_capacity(*old(tier))
                && refused == item,
        },
{
    tier.inner.put_with_weight((key.module_hash, key.version, key.debug), item).map_err(|pair| pair.1)
}

/// `CLruCache::pop_back`: the least recently used entry leaves and is
/// returned, if there is any entry.
#[verifier::external_body]
pub(crate) fn tier_pop_back(tier: &mut BoundedTier) -> (last: Option<(CacheKey, CacheItem)>)
    ensures
        tier_capacity(*final(tier)) == tier_capacity(*old(tier)),
        match last {
            Some(entry) => tier_entries(*old(tier)).len() > 0 && (entry.0, entry.1@)
                == tier_entries(*old(tier)).last() && tier_entries(*final(tier)) == tier_entries(
                *old(tier),
            ).drop_last(),
            None => tier_entries(*old(tier)).len() == 0 && tier_entries(*final(tier))
                == tier_entries(*old(tier)),
        },
{
    tier.inner.pop_back().map(|pair| (CacheKey::new(pair.0.0, pair.0.1, pair.0.2), pair.1))
}

/// `CLruCache::iter`: the entries from the most recently used on, of each
/// only its kilobyte estimate.
#[verifier::external_body]
pub(crate) fn tier_estimates(tier: &BoundedTier) -> (estimates: Vec<u32>)
    ensures
        estimates@.len() == tier_entries(*tier).len(),
        forall|i: int|
            0 <= i < estimates@.len() ==> estimates@[i] == (#[trigger] tier_entries(
                *tier,
            )[i]).1.asm_size_estimate_kb,
{
    tier.inner.iter().map(|pair| pair.1.asm_size_estimate_kb).collect()
}

/// `CLruCache::len`: the number of entries.
#[verifier::external_body]
pub(crate) fn tier_len(tier: &BoundedTier) -> (len: usize)
    ensures
        len == tier_entries(*tier).len(),
{
    tier.inner.len()
}

} // verus!
