//! Strategies whose walks visit every slot always find room in a grown table.
use vstd::prelude::*;

use crate::offsets::{
    home_slot, is_capacity, lemma_capacity_double, lemma_covering_no_early_return,
    lemma_covering_reaches, probe_slot, OffsetSequence,
};
use crate::open_addressing::continuity::{
    contents, lemma_contents_insert, lemma_empty_slots, lemma_find_empty, lemma_occupied_bound,
    lemma_occupied_pattern, lemma_occupied_update, lemma_probe_decides, lemma_vacant_bound,
    occupied, slot_inv, table_inv, vacant,
};
use crate::open_addressing::fcfs::{full_walk, probe, walk};
use crate::open_addressing::growth::{
    grow, insert_slots, lemma_occupied_prefix_all, lemma_occupied_prefix_fresh,
    lemma_occupied_prefix_skip, lemma_occupied_prefix_unique, occupied_prefix, rehash,
};
use crate::open_addressing::{
    empty_slots, lemma_occupied_empty, lemma_vacant_empty, Bucket, EntryBucket,
};
use crate::{offsets_of, Entry, LoadFactor};

verus! {

/// The slot at step `m` of the walk for `hash` is not empty.
pub open spec fn filled_at<K, V>(
    slots: Seq<EntryBucket<K, V>>,
    offset: OffsetSequence,
    hash: u64,
    m: nat,
) -> bool {
    !(slots[probe_slot(offset, hash, m, slots.len()) as int] is Empty)
}

/// The strategy probes for every key along a sequence that visits every slot.
pub open spec fn covering<K: PartialEq, V, E: Entry<K, V>>(entry: E) -> bool {
    forall|key: K| #[trigger] entry.offsets(key).covering()
}

/// A walk that ends in `Full` has met no empty slot, and has ended where the sequence
/// came back to the home slot.
pub proof fn lemma_walk_full<K, V>(
    slots: Seq<EntryBucket<K, V>>,
    key: K,
    hash: u64,
    offset: OffsetSequence,
    skip_tombstones: bool,
    k: nat,
    first_tombstone: Option<nat>,
)
    requires
        slots.len() > 0,
        k <= slots.len(),
        forall|m: nat| m < k ==> #[trigger] filled_at(slots, offset, hash, m),
    ensures
        ({
            let w = walk(slots, key, hash, offset, skip_tombstones, k, first_tombstone);
            w.result is Full ==> {
                &&& forall|m: nat| m < w.psl ==> #[trigger] filled_at(slots, offset, hash, m)
                &&& w.psl >= slots.len() || (w.psl > 0 && probe_slot(
                    offset,
                    hash,
                    w.psl,
                    slots.len(),
                ) == home_slot(hash, slots.len()))
            }
        }),
    decreases slots.len() - k,
{
    let cap = slots.len();
    let i = probe_slot(offset, hash, k, cap);
    if k >= cap || (k > 0 && i == home_slot(hash, cap)) {
    } else {
        let next_tombstone = if first_tombstone is None {
            Some(k)
        } else {
            first_tombstone
        };
        let continues = match slots[i as int] {
            EntryBucket::Empty => false,
            EntryBucket::Tombstone => true,
            EntryBucket::Occupied(b) => !(b.hash == hash && b.key == key),
        };
        if continues {
            let tomb = if slots[i as int] is Tombstone {
                next_tombstone
            } else {
                first_tombstone
            };
            assert(filled_at(slots, offset, hash, k));
            assert forall|m: nat| m < k + 1 implies #[trigger] filled_at(slots, offset, hash, m) by {
                if m < k {
                }
            }
            lemma_walk_full(slots, key, hash, offset, skip_tombstones, k + 1, tomb);
        }
    }
}

/// A covering walk over a table with an empty slot does not end in `Full`.
pub proof fn lemma_covering_not_full<K, V>(
    slots: Seq<EntryBucket<K, V>>,
    key: K,
    hash: u64,
    offset: OffsetSequence,
    skip_tombstones: bool,
    empty: int,
)
    requires
        is_capacity(slots.len()),
        offset.covering(),
        0 <= empty < slots.len(),
        slots[empty] is Empty,
    ensures
        !(probe(slots, key, hash, offset, skip_tombstones) is Full),
{
    let cap = slots.len();
    let w = full_walk(slots, key, hash, offset, skip_tombstones);
    if w.result is Full {
        let step = offset->step;
        lemma_walk_full(slots, key, hash, offset, skip_tombstones, 0, None);
        if w.psl < cap {
            lemma_covering_no_early_return(step, hash, w.psl, cap);
        }
        let j = lemma_covering_reaches(step, hash, empty as nat, cap);
        assert(filled_at(slots, offset, hash, j));
    }
}

/// A covering strategy moves the entries of a table into any larger table.
pub proof fn lemma_covering_rehash<K: PartialEq, V, E: Entry<K, V>>(
    entry: E,
    source: Seq<EntryBucket<K, V>>,
    hashes: spec_fn(K) -> u64,
    n: nat,
    cap: nat,
)
    requires
        table_inv(source, offsets_of(entry), hashes),
        covering::<K, V, E>(entry),
        n <= source.len(),
        source.len() < cap <= usize::MAX,
        is_capacity(cap),
    ensures
        rehash(entry, source, n, cap) is Some,
        ({
            let target = rehash(entry, source, n, cap)->0;
            &&& target.len() == cap
            &&& table_inv(target, offsets_of(entry), hashes)
            &&& contents(target) == contents(occupied_prefix(source, n))
            &&& occupied(target) == occupied(occupied_prefix(source, n))
            &&& vacant(target) + occupied(target) == cap
        }),
    decreases n,
{
    if n == 0 {
        lemma_empty_slots::<K, V>(cap, offsets_of(entry), hashes);
        lemma_occupied_empty::<K, V>(cap);
        lemma_vacant_empty::<K, V>(cap);
        assert(contents(occupied_prefix(source, 0)) =~= Map::<K, V>::empty());
        lemma_occupied_pattern(occupied_prefix(source, 0), empty_slots::<K, V>(source.len()));
        lemma_occupied_empty::<K, V>(source.len());
    } else {
        let m = (n - 1) as nat;
        lemma_covering_rehash(entry, source, hashes, m, cap);
        let target = rehash(entry, source, m, cap)->0;
        let prefix = occupied_prefix(source, m);
        if let EntryBucket::Occupied(bucket) = source[m as int] {
            lemma_occupied_bound(prefix);
            let empty = lemma_find_empty(target);
            assert(entry.offsets(bucket.key).covering());
            lemma_covering_not_full(
                target,
                bucket.key,
                bucket.hash,
                entry.offsets(bucket.key),
                true,
                empty,
            );
            assert(slot_inv(source, offsets_of(entry), hashes, m as int));
            lemma_probe_decides(target, offsets_of(entry), hashes, bucket.key, true);
            lemma_occupied_prefix_unique(source, m);
            lemma_occupied_prefix_fresh(source, m);
            entry.lemma_placed(target, hashes, bucket);
            lemma_vacant_bound(entry.placed(target, bucket));
            lemma_contents_insert(prefix, m as int, bucket);
            lemma_occupied_update(prefix, m as int, EntryBucket::Occupied(bucket));
        } else {
            lemma_occupied_prefix_skip(source, m);
        }
    }
}

/// A table with a covering strategy can always take one more key, as long as twice its
/// number of slots fits a `usize`.
pub proof fn lemma_covering_insert_slots<K: PartialEq, V, E: Entry<K, V>>(
    entry: E,
    load_factor: LoadFactor,
    slots: Seq<EntryBucket<K, V>>,
    hashes: spec_fn(K) -> u64,
    bucket: Bucket<K, V>,
)
    requires
        table_inv(slots, offsets_of(entry), hashes),
        covering::<K, V, E>(entry),
        bucket.hash == hashes(bucket.key),
        is_capacity(slots.len()),
        2 * slots.len() <= usize::MAX,
    ensures
        insert_slots(entry, load_factor, slots, bucket) is Some,
        insert_slots(entry, load_factor, slots, bucket)->0.len() == slots.len() || insert_slots(
            entry,
            load_factor,
            slots,
            bucket,
        )->0.len() == 2 * slots.len(),
{
    let cap = slots.len();
    let offset = entry.offsets(bucket.key);
    assert(offset.covering());
    lemma_capacity_double(cap);
    lemma_covering_rehash(entry, slots, hashes, cap, 2 * cap);
    lemma_occupied_prefix_all(slots);
    lemma_occupied_bound(slots);
    let grown = grow(entry, slots)->0;
    let empty = lemma_find_empty(grown);
    lemma_covering_not_full(grown, bucket.key, bucket.hash, offset, true, empty);
    lemma_probe_decides(slots, offsets_of(entry), hashes, bucket.key, true);
    lemma_probe_decides(grown, offsets_of(entry), hashes, bucket.key, true);
    if probe(slots, bucket.key, bucket.hash, offset, true) is Vacancy {
        entry.lemma_placed(slots, hashes, bucket);
    }
    if probe(grown, bucket.key, bucket.hash, offset, true) is Vacancy {
        entry.lemma_placed(grown, hashes, bucket);
    }
}

/// A table with a covering strategy grows at most once for an insertion: the probe in
/// a table that has just grown does not end in `Full`.
pub proof fn lemma_covering_grows_once<K: PartialEq, V, E: Entry<K, V>>(
    entry: E,
    load_factor: LoadFactor,
    slots: Seq<EntryBucket<K, V>>,
    hashes: spec_fn(K) -> u64,
    bucket: Bucket<K, V>,
)
    requires
        table_inv(slots, offsets_of(entry), hashes),
        covering::<K, V, E>(entry),
        is_capacity(slots.len()),
        2 * slots.len() <= usize::MAX,
    ensures
        occupied(slots) >= load_factor.spec_threshold(slots.len()) ==> !(probe(
            grow(entry, slots)->0,
            bucket.key,
            bucket.hash,
            entry.offsets(bucket.key),
            true,
        ) is Full),
{
    let cap = slots.len();
    let offset = entry.offsets(bucket.key);
    assert(offset.covering());
    lemma_capacity_double(cap);
    lemma_covering_rehash(entry, slots, hashes, cap, 2 * cap);
    lemma_occupied_prefix_all(slots);
    lemma_occupied_bound(slots);
    let grown = grow(entry, slots)->0;
    let empty = lemma_find_empty(grown);
    lemma_covering_not_full(grown, bucket.key, bucket.hash, offset, true, empty);
}

} // verus!
