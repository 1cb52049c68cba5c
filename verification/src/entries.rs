//! Sequences of cache entries, most recently used first, and what the
//! bounded tier does to them.

use crate::artifact::Program;
use crate::key::CacheKey;
use vstd::prelude::*;

verus! {

/// A cached program under its key.
pub type Entry = (CacheKey, Program);

/// What the bounded tier's scale reports for an entry of `kb` kilobytes: one
/// less than the estimate, and zero for an estimate of zero.
pub open spec fn weight_of(kb: u32) -> nat {
    if kb > 0 {
        (kb - 1) as nat
    } else {
        0
    }
}

/// What an entry of `kb` kilobytes takes of the budget: its reported weight
/// and the one unit that every entry takes. This is `kb` itself, except that
/// an entry of zero kilobytes still takes one.
pub open spec fn charge(kb: u32) -> nat {
    weight_of(kb) + 1
}

/// The sum of the entries' reported weights.
pub open spec fn total_weight(s: Seq<Entry>) -> nat
    decreases s.len(),
{
    if s.len() == 0 {
        0
    } else {
        total_weight(s.drop_last()) + weight_of(s.last().1.asm_size_estimate_kb)
    }
}

/// The sum of the entries' charges: how much of the budget they take.
pub open spec fn used(s: Seq<Entry>) -> nat {
    total_weight(s) + s.len()
}

/// The sum of the entries' kilobyte estimates as their inserters gave them.
pub open spec fn declared_kb(s: Seq<Entry>) -> nat
    decreases s.len(),
{
    if s.len() == 0 {
        0
    } else {
        declared_kb(s.drop_last()) + s.last().1.asm_size_estimate_kb as nat
    }
}

/// Whether some entry has this key.
pub open spec fn has_key(s: Seq<Entry>, key: CacheKey) -> bool {
    exists|i: int| 0 <= i < s.len() && (#[trigger] s[i]).0 == key
}

/// Where the entry with this key is, if there is one.
pub open spec fn key_index(s: Seq<Entry>, key: CacheKey) -> int {
    choose|i: int| 0 <= i < s.len() && (#[trigger] s[i]).0 == key
}

/// The program held under this key, if any.
pub open spec fn lookup(s: Seq<Entry>, key: CacheKey) -> Option<Program> {
    if has_key(s, key) {
        Some(s[key_index(s, key)].1)
    } else {
        None
    }
}

/// No key occurs twice.
pub open spec fn distinct_keys(s: Seq<Entry>) -> bool {
    forall|i: int, j: int| 0 <= i < j < s.len() ==> (#[trigger] s[i]).0 != (#[trigger] s[j]).0
}

/// The entries without the one under this key.
pub open spec fn without(s: Seq<Entry>, key: CacheKey) -> Seq<Entry> {
    if has_key(s, key) {
        s.remove(key_index(s, key))
    } else {
        s
    }
}

/// The entries after a use of this key: its entry moves to the front.
pub open spec fn touch(s: Seq<Entry>, key: CacheKey) -> Seq<Entry> {
    if has_key(s, key) {
        seq![s[key_index(s, key)]] + s.remove(key_index(s, key))
    } else {
        s
    }
}

/// The entries that stay when only `room` units may be taken: the least
/// recently used ones leave, one by one, until the rest fits.
pub open spec fn fit(s: Seq<Entry>, room: int) -> Seq<Entry>
    decreases s.len(),
{
    if s.len() > 0 && used(s) > room {
        fit(s.drop_last(), room)
    } else {
        s
    }
}

/// The entries after `item` is put under `key` into a tier of the given
/// capacity. An item whose charge exceeds the capacity is refused and
/// nothing changes. Otherwise an earlier entry under the key leaves, then
/// the least recently used entries leave until the new one fits, and the new
/// one becomes the most recently used.
pub open spec fn put(s: Seq<Entry>, capacity: nat, key: CacheKey, item: Program) -> Seq<Entry> {
    if charge(item.asm_size_estimate_kb) > capacity {
        s
    } else {
        seq![(key, item)] + fit(without(s, key), capacity - charge(item.asm_size_estimate_kb))
    }
}

/// The entries after `item` is kept under `key` where nothing is ever
/// discarded: it takes the place of an earlier entry under the key, or else
/// comes last.
pub open spec fn keep(s: Seq<Entry>, key: CacheKey, item: Program) -> Seq<Entry> {
    if has_key(s, key) {
        s.update(key_index(s, key), (key, item))
    } else {
        s.push((key, item))
    }
}

/// The bounded tier's entries after each of `pinned` was put into it, the
/// first of them first.
pub open spec fn put_all(s: Seq<Entry>, capacity: nat, pinned: Seq<Entry>) -> Seq<Entry>
    decreases pinned.len(),
{
    if pinned.len() == 0 {
        s
    } else {
        put(put_all(s, capacity, pinned.drop_last()), capacity, pinned.last().0, pinned.last().1)
    }
}

/// Among distinct keys, an entry is the one that its key finds.
pub proof fn lemma_found_at(s: Seq<Entry>, i: int)
    requires
        distinct_keys(s),
        0 <= i < s.len(),
    ensures
        has_key(s, s[i].0),
        key_index(s, s[i].0) == i,
        lookup(s, s[i].0) == Some(s[i].1),
{
    let j = key_index(s, s[i].0);
    assert(0 <= j < s.len() && s[j].0 == s[i].0);
    if i < j {
        assert(s[i].0 != s[j].0);
    } else if j < i {
        assert(s[j].0 != s[i].0);
    }
}

/// A prefix of distinct keys has distinct keys, and what it holds under a
/// key, the whole holds too.
pub proof fn lemma_prefix(s: Seq<Entry>, n: int, key: CacheKey)
    requires
        distinct_keys(s),
        0 <= n <= s.len(),
    ensures
        distinct_keys(s.take(n)),
        has_key(s.take(n), key) ==> has_key(s, key) && lookup(s.take(n), key) == lookup(s, key),
{
    let t = s.take(n);
    assert forall|i: int, j: int| 0 <= i < j < t.len() implies (#[trigger] t[i]).0 != (
    #[trigger] t[j]).0 by {
        assert(s[i].0 != s[j].0);
    }
    if has_key(t, key) {
        let i = key_index(t, key);
        assert(t[i] == s[i]);
        lemma_found_at(t, i);
        lemma_found_at(s, i);
    }
}

/// Taking the entry under a key out of distinct keys leaves distinct keys,
/// none of them that key, and no more of the budget used.
pub proof fn lemma_without(s: Seq<Entry>, key: CacheKey)
    requires
        distinct_keys(s),
    ensures
        distinct_keys(without(s, key)),
        !has_key(without(s, key), key),
        used(without(s, key)) <= used(s),
        without(s, key).len() <= s.len(),
{
    if has_key(s, key) {
        let at = key_index(s, key);
        let r = s.remove(at);
        lemma_sums_remove(s, at);
        assert forall|i: int, j: int| 0 <= i < j < r.len() implies (#[trigger] r[i]).0 != (
        #[trigger] r[j]).0 by {
            let si = if i < at { i } else { i + 1 };
            let sj = if j < at { j } else { j + 1 };
            assert(r[i] == s[si] && r[j] == s[sj]);
            assert(s[si].0 != s[sj].0);
        }
        assert forall|i: int| 0 <= i < r.len() implies (#[trigger] r[i]).0 != key by {
            let si = if i < at { i } else { i + 1 };
            assert(r[i] == s[si]);
            if si < at {
                assert(s[si].0 != s[at].0);
            } else {
                assert(s[at].0 != s[si].0);
            }
        }
    }
}

/// Taking the entry under a key out does not touch what is held under
/// another key.
pub proof fn lemma_without_other(s: Seq<Entry>, key: CacheKey, other: CacheKey)
    requires
        distinct_keys(s),
        other != key,
    ensures
        has_key(without(s, key), other) == has_key(s, other),
        lookup(without(s, key), other) == lookup(s, other),
{
    lemma_without(s, key);
    if has_key(s, key) {
        let at = key_index(s, key);
        let r = s.remove(at);
        if has_key(s, other) {
            let j = key_index(s, other);
            let rj = if j < at { j } else { j - 1 };
            assert(r[rj] == s[j]);
            lemma_found_at(r, rj);
        }
        if has_key(r, other) {
            let i = key_index(r, other);
            let si = if i < at { i } else { i + 1 };
            assert(r[i] == s[si]);
            lemma_found_at(s, si);
            lemma_found_at(r, i);
        }
    }
}

/// A use of a key reorders distinct keys and changes nothing else.
pub proof fn lemma_touch(s: Seq<Entry>, key: CacheKey)
    requires
        distinct_keys(s),
    ensures
        distinct_keys(touch(s, key)),
        touch(s, key).len() == s.len(),
        used(touch(s, key)) == used(s),
        declared_kb(touch(s, key)) == declared_kb(s),
        has_key(s, key) ==> touch(s, key)[0] == s[key_index(s, key)],
{
    if has_key(s, key) {
        let at = key_index(s, key);
        let r = s.remove(at);
        let t = touch(s, key);
        lemma_without(s, key);
        lemma_sums_remove(s, at);
        lemma_sums_single(s[at]);
        lemma_sums_concat(seq![s[at]], r);
        assert forall|i: int, j: int| 0 <= i < j < t.len() implies (#[trigger] t[i]).0 != (
        #[trigger] t[j]).0 by {
            assert(t[j] == r[j - 1]);
            if i == 0 {
                assert(t[0] == s[at]);
                assert(r[j - 1].0 != key);
            } else {
                assert(t[i] == r[i - 1]);
                assert(r[i - 1].0 != r[j - 1].0);
            }
        }
    }
}

/// A use of a key does not change what is held under any key.
pub proof fn lemma_touch_lookup(s: Seq<Entry>, key: CacheKey, other: CacheKey)
    requires
        distinct_keys(s),
    ensures
        has_key(touch(s, key), other) == has_key(s, other),
        lookup(touch(s, key), other) == lookup(s, other),
{
    lemma_touch(s, key);
    if has_key(s, key) {
        let at = key_index(s, key);
        let r = s.remove(at);
        let t = touch(s, key);
        if has_key(s, other) {
            let j = key_index(s, other);
            let tj = if j == at { 0 } else if j < at { j + 1 } else { j };
            assert(t[0] == s[at]);
            if j != at {
                assert(t[tj] == r[tj - 1]);
            }
            assert(t[tj] == s[j]);
            lemma_found_at(t, tj);
        }
        if has_key(t, other) {
            let i = key_index(t, other);
            let si = if i == 0 { at } else if i - 1 < at { i - 1 } else { i };
            if i > 0 {
                assert(t[i] == r[i - 1]);
            }
            assert(t[i] == s[si]);
            lemma_found_at(s, si);
            lemma_found_at(t, i);
        }
    }
}

/// Fitting distinct keys leaves distinct keys, and what stays under a key
/// was there before.
pub proof fn lemma_fit_lookup(s: Seq<Entry>, room: int, key: CacheKey)
    requires
        distinct_keys(s),
    ensures
        distinct_keys(fit(s, room)),
        has_key(fit(s, room), key) ==> has_key(s, key) && lookup(fit(s, room), key) == lookup(
            s,
            key,
        ),
{
    lemma_fit(s, room);
    lemma_prefix(s, fit(s, room).len() as int, key);
}

/// A new most recently used entry under a key that the others lack.
pub proof fn lemma_front(e: Entry, rest: Seq<Entry>)
    requires
        distinct_keys(rest),
        !has_key(rest, e.0),
    ensures
        distinct_keys(seq![e] + rest),
        lookup(seq![e] + rest, e.0) == Some(e.1),
        used(seq![e] + rest) == charge(e.1.asm_size_estimate_kb) + used(rest),
        declared_kb(seq![e] + rest) == e.1.asm_size_estimate_kb + declared_kb(rest),
{
    let t = seq![e] + rest;
    lemma_sums_single(e);
    lemma_sums_concat(seq![e], rest);
    assert forall|i: int, j: int| 0 <= i < j < t.len() implies (#[trigger] t[i]).0 != (
    #[trigger] t[j]).0 by {
        assert(t[j] == rest[j - 1]);
        if i == 0 {
            assert(rest[j - 1].0 != e.0);
        } else {
            assert(t[i] == rest[i - 1]);
        }
    }
    assert(t[0] == e);
    lemma_found_at(t, 0);
}

/// Behind a new front entry, the other keys hold what they held.
pub proof fn lemma_front_other(e: Entry, rest: Seq<Entry>, other: CacheKey)
    requires
        distinct_keys(rest),
        !has_key(rest, e.0),
        other != e.0,
    ensures
        has_key(seq![e] + rest, other) == has_key(rest, other),
        lookup(seq![e] + rest, other) == lookup(rest, other),
{
    let t = seq![e] + rest;
    lemma_front(e, rest);
    if has_key(rest, other) {
        let j = key_index(rest, other);
        assert(t[j + 1] == rest[j]);
        lemma_found_at(t, j + 1);
    }
    if has_key(t, other) {
        let i = key_index(t, other);
        assert(t[0] == e);
        assert(t[i] == rest[i - 1]);
        lemma_found_at(rest, i - 1);
        lemma_found_at(t, i);
    }
}

/// Putting an item into a tier that keeps its budget and its keys distinct
/// leaves a tier that does, and the estimates of what it holds sum to no
/// more than the budget.
pub proof fn lemma_put(s: Seq<Entry>, capacity: nat, key: CacheKey, item: Program)
    requires
        distinct_keys(s),
        used(s) <= capacity,
    ensures
        distinct_keys(put(s, capacity, key, item)),
        used(put(s, capacity, key, item)) <= capacity,
        declared_kb(put(s, capacity, key, item)) <= capacity,
        charge(item.asm_size_estimate_kb) <= capacity ==> lookup(put(s, capacity, key, item), key)
            == Some(item),
        charge(item.asm_size_estimate_kb) > capacity ==> put(s, capacity, key, item) == s,
{
    lemma_declared_within_used(put(s, capacity, key, item));
    if charge(item.asm_size_estimate_kb) <= capacity {
        let room = capacity - charge(item.asm_size_estimate_kb);
        let rest = fit(without(s, key), room);
        lemma_without(s, key);
        lemma_fit(without(s, key), room);
        lemma_fit_lookup(without(s, key), room, key);
        lemma_front((key, item), rest);
    }
}

/// Putting an item under one key adds nothing under another: what is held
/// there afterwards was held there before.
pub proof fn lemma_put_other(
    s: Seq<Entry>,
    capacity: nat,
    key: CacheKey,
    item: Program,
    other: CacheKey,
)
    requires
        distinct_keys(s),
        other != key,
    ensures
        has_key(put(s, capacity, key, item), other) ==> has_key(s, other) && lookup(
            put(s, capacity, key, item),
            other,
        ) == lookup(s, other),
{
    if charge(item.asm_size_estimate_kb) <= capacity {
        let room = capacity - charge(item.asm_size_estimate_kb);
        let rest = fit(without(s, key), room);
        lemma_without(s, key);
        lemma_without_other(s, key, other);
        lemma_fit_lookup(without(s, key), room, key);
        lemma_fit_lookup(without(s, key), room, other);
        lemma_front_other((key, item), rest, other);
    }
}

/// Keeping an item among distinct keys leaves distinct keys, the item under
/// its key.
pub proof fn lemma_keep(s: Seq<Entry>, key: CacheKey, item: Program)
    requires
        distinct_keys(s),
    ensures
        distinct_keys(keep(s, key, item)),
        lookup(keep(s, key, item), key) == Some(item),
{
    let t = keep(s, key, item);
    if has_key(s, key) {
        let at = key_index(s, key);
        assert forall|i: int, j: int| 0 <= i < j < t.len() implies (#[trigger] t[i]).0 != (
        #[trigger] t[j]).0 by {
            assert(t[i].0 == s[i].0 && t[j].0 == s[j].0);
        }
        assert(t[at] == (key, item));
        lemma_found_at(t, at);
    } else {
        assert forall|i: int, j: int| 0 <= i < j < t.len() implies (#[trigger] t[i]).0 != (
        #[trigger] t[j]).0 by {
            assert(t[i] == s[i]);
            if j < s.len() {
                assert(t[j] == s[j]);
            }
        }
        assert(t[s.len() as int] == (key, item));
        lemma_found_at(t, s.len() as int);
    }
}

/// Keeping an item under one key does not change what is held under
/// another.
pub proof fn lemma_keep_other(s: Seq<Entry>, key: CacheKey, item: Program, other: CacheKey)
    requires
        distinct_keys(s),
        other != key,
    ensures
        has_key(keep(s, key, item), other) == has_key(s, other),
        lookup(keep(s, key, item), other) == lookup(s, other),
{
    let t = keep(s, key, item);
    lemma_keep(s, key, item);
    if has_key(s, other) {
        let j = key_index(s, other);
        assert(t[j] == s[j]);
        lemma_found_at(t, j);
    }
    if has_key(t, other) {
        let i = key_index(t, other);
        assert(i < s.len());
        assert(t[i] == s[i]);
        lemma_found_at(s, i);
        lemma_found_at(t, i);
    }
}

/// Putting entries one after another into a tier that keeps its budget and
/// its keys distinct leaves a tier that does.
pub proof fn lemma_put_all(s: Seq<Entry>, capacity: nat, pinned: Seq<Entry>)
    requires
        distinct_keys(s),
        used(s) <= capacity,
    ensures
        distinct_keys(put_all(s, capacity, pinned)),
        used(put_all(s, capacity, pinned)) <= capacity,
    decreases pinned.len(),
{
    if pinned.len() > 0 {
        lemma_put_all(s, capacity, pinned.drop_last());
        lemma_put(
            put_all(s, capacity, pinned.drop_last()),
            capacity,
            pinned.last().0,
            pinned.last().1,
        );
    }
}

/// Appending an entry adds its weight, its charge and its estimate to the sums.
pub proof fn lemma_sums_push(s: Seq<Entry>, e: Entry)
    ensures
        total_weight(s.push(e)) == total_weight(s) + weight_of(e.1.asm_size_estimate_kb),
        used(s.push(e)) == used(s) + charge(e.1.asm_size_estimate_kb),
        declared_kb(s.push(e)) == declared_kb(s) + e.1.asm_size_estimate_kb,
{
    assert(s.push(e).drop_last() =~= s);
}

/// The sums of a concatenation are the sums of its parts.
pub proof fn lemma_sums_concat(a: Seq<Entry>, b: Seq<Entry>)
    ensures
        total_weight(a + b) == total_weight(a) + total_weight(b),
        used(a + b) == used(a) + used(b),
        declared_kb(a + b) == declared_kb(a) + declared_kb(b),
    decreases b.len(),
{
    if b.len() == 0 {
        assert(a + b =~= a);
    } else {
        lemma_sums_concat(a, b.drop_last());
        assert((a + b).drop_last() =~= a + b.drop_last());
        assert((a + b).last() == b.last());
    }
}

/// The sums of a single entry.
pub proof fn lemma_sums_single(e: Entry)
    ensures
        total_weight(seq![e]) == weight_of(e.1.asm_size_estimate_kb),
        used(seq![e]) == charge(e.1.asm_size_estimate_kb),
        declared_kb(seq![e]) == e.1.asm_size_estimate_kb,
{
    lemma_sums_push(Seq::<Entry>::empty(), e);
    assert(seq![e] =~= Seq::<Entry>::empty().push(e));
}

/// Taking an entry out takes its share out of the sums.
pub proof fn lemma_sums_remove(s: Seq<Entry>, i: int)
    requires
        0 <= i < s.len(),
    ensures
        total_weight(s.remove(i)) + weight_of(s[i].1.asm_size_estimate_kb) == total_weight(s),
        used(s.remove(i)) + charge(s[i].1.asm_size_estimate_kb) == used(s),
        declared_kb(s.remove(i)) + s[i].1.asm_size_estimate_kb == declared_kb(s),
{
    let front = s.take(i);
    let back = s.skip(i + 1);
    assert(s =~= front + seq![s[i]] + back);
    assert(s.remove(i) =~= front + back);
    lemma_sums_single(s[i]);
    lemma_sums_concat(front, seq![s[i]]);
    lemma_sums_concat(front + seq![s[i]], back);
    lemma_sums_concat(front, back);
}

/// The first entries take no more of the budget than all of them, and
/// neither do the last; the same holds of the estimates.
pub proof fn lemma_sums_of_parts(s: Seq<Entry>, n: int)
    requires
        0 <= n <= s.len(),
    ensures
        used(s.take(n)) + used(s.skip(n)) == used(s),
        declared_kb(s.take(n)) + declared_kb(s.skip(n)) == declared_kb(s),
{
    assert(s =~= s.take(n) + s.skip(n));
    lemma_sums_concat(s.take(n), s.skip(n));
}

/// One entry more adds its estimate to the sum of the estimates and its
/// charge to what is used.
pub proof fn lemma_sums_next(s: Seq<Entry>, n: int)
    requires
        0 <= n < s.len(),
    ensures
        declared_kb(s.take(n + 1)) == declared_kb(s.take(n)) + s[n].1.asm_size_estimate_kb,
        used(s.take(n + 1)) == used(s.take(n)) + charge(s[n].1.asm_size_estimate_kb),
{
    assert(s.take(n + 1) =~= s.take(n).push(s[n]));
    lemma_sums_push(s.take(n), s[n]);
}

/// The estimates that the inserters gave never exceed what is charged.
pub proof fn lemma_declared_within_used(s: Seq<Entry>)
    ensures
        declared_kb(s) <= used(s),
    decreases s.len(),
{
    if s.len() > 0 {
        lemma_declared_within_used(s.drop_last());
    }
}

/// What stays after fitting is a prefix of the entries, so the entries that
/// leave are the least recently used; it fits the room; and it is the
/// longest prefix that does.
pub proof fn lemma_fit(s: Seq<Entry>, room: int)
    ensures
        fit(s, room).len() <= s.len(),
        fit(s, room) == s.take(fit(s, room).len() as int),
        room >= 0 ==> used(fit(s, room)) <= room,
        used(s) <= room ==> fit(s, room) == s,
        fit(s, room).len() < s.len() ==> used(s.take(fit(s, room).len() as int + 1)) > room,
        distinct_keys(s) ==> distinct_keys(fit(s, room)),
    decreases s.len(),
{
    if s.len() > 0 && used(s) > room {
        let shorter = s.drop_last();
        if distinct_keys(s) {
            assert forall|i: int, j: int| 0 <= i < j < shorter.len() implies (
            #[trigger] shorter[i]).0 != (#[trigger] shorter[j]).0 by {
                assert(s[i].0 != s[j].0);
            }
        }
        lemma_fit(shorter, room);
        let n = fit(shorter, room).len() as int;
        assert(shorter.take(n) =~= s.take(n));
        if n < shorter.len() {
            assert(shorter.take(n + 1) =~= s.take(n + 1));
        } else {
            assert(s.take(n + 1) =~= s);
        }
    } else {
        assert(s.take(s.len() as int) =~= s);
    }
}

} // verus!
