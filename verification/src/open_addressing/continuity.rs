//! The invariant of a slot array and what the probe walks make of it.
use vstd::prelude::*;

use crate::offsets::{home_slot, lemma_probe_in_range, probe_slot, OffsetSequence};
use crate::open_addressing::fcfs::{full_walk, lemma_walk_sound, probe, walk};
use crate::open_addressing::{empty_slots, Bucket, EntryBucket};
use crate::EntryResult;

verus! {

/// Step `m` of the walk for `hash` does not end the walk: its slot is not empty and the
/// next step is not back at the home slot.
pub open spec fn passes<K, V>(
    slots: Seq<EntryBucket<K, V>>,
    offset: OffsetSequence,
    hash: u64,
    m: nat,
) -> bool {
    &&& !(slots[probe_slot(offset, hash, m, slots.len()) as int] is Empty)
    &&& probe_slot(offset, hash, m + 1, slots.len()) != home_slot(hash, slots.len())
}

/// Slot `i` is step `j` of the walk for `hash`, and the walk gets that far.
pub open spec fn on_walk<K, V>(
    slots: Seq<EntryBucket<K, V>>,
    offset: OffsetSequence,
    hash: u64,
    i: int,
    j: nat,
) -> bool {
    &&& j < slots.len()
    &&& probe_slot(offset, hash, j, slots.len()) == i
    &&& forall|m: nat| m < j ==> #[trigger] passes(slots, offset, hash, m)
}

/// Probe continuity: the walk for `hash` reaches slot `i` before it meets an empty slot
/// or comes back to the home slot. Tombstones do not stop it.
pub open spec fn reachable<K, V>(
    slots: Seq<EntryBucket<K, V>>,
    offset: OffsetSequence,
    hash: u64,
    i: int,
) -> bool {
    exists|j: nat| on_walk(slots, offset, hash, i, j)
}

/// Slot `i` holds an entry for `key`.
pub open spec fn holds<K, V>(slots: Seq<EntryBucket<K, V>>, i: int, key: K) -> bool {
    &&& 0 <= i < slots.len()
    &&& slots[i] matches EntryBucket::Occupied(b) && b.key == key
}

/// Some slot that holds an entry for `key`.
pub open spec fn slot_of<K, V>(slots: Seq<EntryBucket<K, V>>, key: K) -> int {
    choose|i: int| holds(slots, i, key)
}

/// The map that a slot array stands for: the keys of its occupied slots, each with the
/// value stored beside it.
pub open spec fn contents<K, V>(slots: Seq<EntryBucket<K, V>>) -> Map<K, V> {
    Map::new(
        |key: K| exists|i: int| holds(slots, i, key),
        |key: K| *slots[slot_of(slots, key)]->Occupied_0.value,
    )
}

/// What holds of one slot: an occupied slot stores the hash of its key, and the walk
/// for that key reaches it.
pub open spec fn slot_inv<K, V>(
    slots: Seq<EntryBucket<K, V>>,
    offsets: spec_fn(K) -> OffsetSequence,
    hashes: spec_fn(K) -> u64,
    i: int,
) -> bool {
    slots[i] matches EntryBucket::Occupied(b) ==> b.hash == hashes(b.key) && reachable(
        slots,
        offsets(b.key),
        b.hash,
        i,
    )
}

/// The invariant of a slot array under the strategy that probes for a key along
/// `offsets(key)` and the hasher that gives it the hash `hashes(key)`: every occupied
/// slot stores its key's hash and is reached by its key's walk, and no key is stored
/// twice.
pub open spec fn table_inv<K, V>(
    slots: Seq<EntryBucket<K, V>>,
    offsets: spec_fn(K) -> OffsetSequence,
    hashes: spec_fn(K) -> u64,
) -> bool {
    &&& 0 < slots.len() <= usize::MAX
    &&& forall|i: int| 0 <= i < slots.len() ==> #[trigger] slot_inv(slots, offsets, hashes, i)
    &&& unique_keys(slots)
}

/// No key is stored in two slots.
pub open spec fn unique_keys<K, V>(slots: Seq<EntryBucket<K, V>>) -> bool {
    forall|i: int, j: int|
        #![trigger slots[i], slots[j]]
        0 <= i < slots.len() && 0 <= j < slots.len() && slots[i] is Occupied && holds(
            slots,
            j,
            slots[i]->Occupied_0.key,
        ) ==> i == j
}

/// The slot array `after` has become non-empty in slot `v`; apart from that, the slots
/// that are empty are those that were empty in `before`, and no tombstone has appeared.
pub open spec fn fills_only<K, V>(
    before: Seq<EntryBucket<K, V>>,
    after: Seq<EntryBucket<K, V>>,
    v: int,
) -> bool {
    &&& after.len() == before.len()
    &&& forall|i: int|
        0 <= i < before.len() ==> (#[trigger] after[i] is Empty <==> before[i] is Empty && i != v)
    &&& forall|i: int|
        0 <= i < before.len() && #[trigger] after[i] is Tombstone ==> before[i] is Tombstone
}

/// The number of occupied slots.
pub open spec fn occupied<K, V>(slots: Seq<EntryBucket<K, V>>) -> nat
    decreases slots.len(),
{
    if slots.len() == 0 {
        0
    } else {
        occupied(slots.drop_last()) + if slots.last() is Occupied {
            1nat
        } else {
            0nat
        }
    }
}

/// The number of empty slots.
pub open spec fn vacant<K, V>(slots: Seq<EntryBucket<K, V>>) -> nat
    decreases slots.len(),
{
    if slots.len() == 0 {
        0
    } else {
        vacant(slots.drop_last()) + if slots.last() is Empty {
            1nat
        } else {
            0nat
        }
    }
}

/// A walk that does not end in `Full` has passed every step before its last.
pub proof fn lemma_walk_passes<K, V>(
    slots: Seq<EntryBucket<K, V>>,
    key: K,
    hash: u64,
    offset: OffsetSequence,
    skip_tombstones: bool,
    k: nat,
    first_tombstone: Option<nat>,
)
    requires
        slots.len() > 0,
        k <= slots.len(),
        forall|m: nat| m < k ==> #[trigger] passes(slots, offset, hash, m),
    ensures
        ({
            let w = walk(slots, key, hash, offset, skip_tombstones, k, first_tombstone);
            !(w.result is Full) ==> forall|m: nat|
                m < w.psl ==> #[trigger] passes(slots, offset, hash, m)
        }),
    decreases slots.len() - k,
{
    let cap = slots.len();
    let i = probe_slot(offset, hash, k, cap);
    if k >= cap || (k > 0 && i == home_slot(hash, cap)) {
    } else {
        let next_tombstone = if first_tombstone is None {
            Some(k)
        } else {
            first_tombstone
        };
        let continues = match slots[i as int] {
            EntryBucket::Empty => false,
            EntryBucket::Tombstone => true,
            EntryBucket::Occupied(b) => !(b.hash == hash && b.key == key),
        };
        if continues {
            let tomb = if slots[i as int] is Tombstone {
                next_tombstone
            } else {
                first_tombstone
            };
            let w = walk(slots, key, hash, offset, skip_tombstones, k + 1, tomb);
            if !(w.result is Full) {
                // the walk went on past step k + 1, so that step is not back home
                if k + 1 >= cap || probe_slot(offset, hash, k + 1, cap) == home_slot(hash, cap) {
                    assert(w.result is Full);
                }
                assert(passes(slots, offset, hash, k));
                assert forall|m: nat| m < k + 1 implies #[trigger] passes(
                    slots,
                    offset,
                    hash,
                    m,
                ) by {
                    if m < k {
                    }
                }
                lemma_walk_passes(slots, key, hash, offset, skip_tombstones, k + 1, tomb);
            }
        }
    }
}

/// A walk finds the key that its own path leads to.
pub proof fn lemma_walk_finds<K, V>(
    slots: Seq<EntryBucket<K, V>>,
    key: K,
    hash: u64,
    offset: OffsetSequence,
    skip_tombstones: bool,
    k: nat,
    first_tombstone: Option<nat>,
    i: int,
    j: nat,
)
    requires
        on_walk(slots, offset, hash, i, j),
        k <= j,
        holds(slots, i, key),
        slots[i]->Occupied_0.hash == hash,
        forall|other: int| holds(slots, other, key) ==> other == i,
    ensures
        walk(slots, key, hash, offset, skip_tombstones, k, first_tombstone).result
            == EntryResult::Hit(i as usize),
    decreases j - k,
{
    let cap = slots.len();
    let at = probe_slot(offset, hash, k, cap);
    lemma_probe_in_range(offset, hash, k, cap);
    if k > 0 {
        assert(passes(slots, offset, hash, (k - 1) as nat));
    }
    if k < j {
        assert(passes(slots, offset, hash, k));
        match slots[at as int] {
            EntryBucket::Empty => {},
            EntryBucket::Tombstone => {
                let next = if first_tombstone is None {
                    Some(k)
                } else {
                    first_tombstone
                };
                lemma_walk_finds(slots, key, hash, offset, skip_tombstones, k + 1, next, i, j);
            },
            EntryBucket::Occupied(b) => {
                if b.hash == hash && b.key == key {
                    assert(holds(slots, at as int, key));
                } else {
                    lemma_walk_finds(
                        slots,
                        key,
                        hash,
                        offset,
                        skip_tombstones,
                        k + 1,
                        first_tombstone,
                        i,
                        j,
                    );
                }
            },
        }
    }
}

/// Under the invariant a probe hits exactly the keys of the map, each in the slot that
/// stores its value; for every other key it reports a vacancy or `Full`.
pub proof fn lemma_probe_decides<K, V>(
    slots: Seq<EntryBucket<K, V>>,
    offsets: spec_fn(K) -> OffsetSequence,
    hashes: spec_fn(K) -> u64,
    key: K,
    skip_tombstones: bool,
)
    requires
        table_inv(slots, offsets, hashes),
    ensures
        match probe(slots, key, hashes(key), offsets(key), skip_tombstones) {
            EntryResult::Hit(i) => i < slots.len() && holds(slots, i as int, key)
                && contents(slots).contains_key(key) && contents(slots)[key]
                == *slots[i as int]->Occupied_0.value,
            _ => !contents(slots).contains_key(key),
        },
{
    let hash = hashes(key);
    let offset = offsets(key);
    lemma_walk_sound(slots, key, hash, offset, skip_tombstones, 0, None);
    if contents(slots).contains_key(key) {
        let i = slot_of(slots, key);
        assert(holds(slots, i, key));
        assert(slot_inv(slots, offsets, hashes, i));
        let j = choose|j: nat| on_walk(slots, offset, hash, i, j);
        assert forall|other: int| holds(slots, other, key) implies other == i by {
            assert(slots[i] is Occupied && holds(slots, other, slots[i]->Occupied_0.key));
        }
        lemma_walk_finds(slots, key, hash, offset, skip_tombstones, 0, None, i, j);
    } else {
        match probe(slots, key, hash, offset, skip_tombstones) {
            EntryResult::Hit(i) => {
                assert(holds(slots, i as int, key));
            },
            _ => {},
        }
    }
}

/// A freshly allocated slot array meets the invariant and stands for the empty map.
pub proof fn lemma_empty_slots<K, V>(
    cap: nat,
    offsets: spec_fn(K) -> OffsetSequence,
    hashes: spec_fn(K) -> u64,
)
    requires
        0 < cap <= usize::MAX,
    ensures
        table_inv(empty_slots::<K, V>(cap), offsets, hashes),
        contents(empty_slots::<K, V>(cap)) == Map::<K, V>::empty(),
{
    let slots = empty_slots::<K, V>(cap);
    assert forall|i: int| 0 <= i < slots.len() implies #[trigger] slot_inv(
        slots,
        offsets,
        hashes,
        i,
    ) by {}
    assert(contents(slots) =~= Map::<K, V>::empty());
}

/// How writing one slot changes the number of occupied slots.
pub proof fn lemma_occupied_update<K, V>(
    slots: Seq<EntryBucket<K, V>>,
    i: int,
    entry: EntryBucket<K, V>,
)
    requires
        0 <= i < slots.len(),
    ensures
        occupied(slots.update(i, entry)) + (if slots[i] is Occupied {
            1nat
        } else {
            0nat
        }) == occupied(slots) + (if entry is Occupied {
            1nat
        } else {
            0nat
        }),
        occupied(slots) <= slots.len(),
    decreases slots.len(),
{
    let last = slots.len() - 1;
    if i == last {
        assert(slots.update(i, entry).drop_last() =~= slots.drop_last());
        lemma_occupied_bound(slots.drop_last());
    } else {
        assert(slots.update(i, entry).drop_last() =~= slots.drop_last().update(i, entry));
        lemma_occupied_update(slots.drop_last(), i, entry);
    }
}

/// How writing one slot changes the number of empty slots.
pub proof fn lemma_vacant_update<K, V>(
    slots: Seq<EntryBucket<K, V>>,
    i: int,
    entry: EntryBucket<K, V>,
)
    requires
        0 <= i < slots.len(),
    ensures
        vacant(slots.update(i, entry)) + (if slots[i] is Empty {
            1nat
        } else {
            0nat
        }) == vacant(slots) + (if entry is Empty {
            1nat
        } else {
            0nat
        }),
    decreases slots.len(),
{
    let last = slots.len() - 1;
    if i == last {
        assert(slots.update(i, entry).drop_last() =~= slots.drop_last());
    } else {
        assert(slots.update(i, entry).drop_last() =~= slots.drop_last().update(i, entry));
        lemma_vacant_update(slots.drop_last(), i, entry);
    }
}

/// The empty and the occupied slots together are no more than the slots.
pub proof fn lemma_vacant_bound<K, V>(slots: Seq<EntryBucket<K, V>>)
    ensures
        vacant(slots) + occupied(slots) <= slots.len(),
    decreases slots.len(),
{
    if slots.len() > 0 {
        lemma_vacant_bound(slots.drop_last());
    }
}

/// A slot array with a positive number of empty slots has an empty slot.
pub proof fn lemma_find_empty<K, V>(slots: Seq<EntryBucket<K, V>>) -> (empty: int)
    requires
        vacant(slots) > 0,
    ensures
        0 <= empty < slots.len(),
        slots[empty] is Empty,
    decreases slots.len(),
{
    let last = slots.len() - 1;
    if slots[last] is Empty {
        last
    } else {
        lemma_find_empty(slots.drop_last())
    }
}

/// There are no more occupied slots than slots.
pub proof fn lemma_occupied_bound<K, V>(slots: Seq<EntryBucket<K, V>>)
    ensures
        occupied(slots) <= slots.len(),
    decreases slots.len(),
{
    if slots.len() > 0 {
        lemma_occupied_bound(slots.drop_last());
    }
}

/// With unique keys, the map gives a stored key the value stored beside it.
pub proof fn lemma_contents_at<K, V>(slots: Seq<EntryBucket<K, V>>, i: int)
    requires
        unique_keys(slots),
        0 <= i < slots.len(),
        slots[i] is Occupied,
    ensures
        contents(slots).contains_key(slots[i]->Occupied_0.key),
        contents(slots)[slots[i]->Occupied_0.key] == *slots[i]->Occupied_0.value,
        slot_of(slots, slots[i]->Occupied_0.key) == i,
{
    let key = slots[i]->Occupied_0.key;
    assert(holds(slots, i, key));
    let other = slot_of(slots, key);
    assert(holds(slots, other, key));
}

/// A walk that got to a slot still gets there after slots have changed, as long as no
/// slot has become empty.
pub proof fn lemma_on_walk_monotone<K, V>(
    before: Seq<EntryBucket<K, V>>,
    after: Seq<EntryBucket<K, V>>,
    offset: OffsetSequence,
    hash: u64,
    i: int,
    j: nat,
)
    requires
        before.len() == after.len(),
        forall|p: int| 0 <= p < before.len() && !(before[p] is Empty) ==> !(#[trigger] after[p] is Empty),
        on_walk(before, offset, hash, i, j),
    ensures
        on_walk(after, offset, hash, i, j),
{
    assert forall|m: nat| m < j implies #[trigger] passes(after, offset, hash, m) by {
        assert(passes(before, offset, hash, m));
        lemma_probe_in_range(offset, hash, m, before.len());
    }
}

/// The invariant survives any change of the slots that keeps the occupied slots as
/// they are and empties none.
pub proof fn lemma_inv_monotone<K, V>(
    before: Seq<EntryBucket<K, V>>,
    after: Seq<EntryBucket<K, V>>,
    offsets: spec_fn(K) -> OffsetSequence,
    hashes: spec_fn(K) -> u64,
    i: int,
)
    requires
        before.len() == after.len(),
        forall|p: int| 0 <= p < before.len() && !(before[p] is Empty) ==> !(#[trigger] after[p] is Empty),
        0 <= i < before.len(),
        slot_inv(before, offsets, hashes, i),
        after[i] == before[i],
    ensures
        slot_inv(after, offsets, hashes, i),
{
    if let EntryBucket::Occupied(b) = before[i] {
        let offset = offsets(b.key);
        let hash = b.hash;
        let j = choose|j: nat| on_walk(before, offset, hash, i, j);
        lemma_on_walk_monotone(before, after, offset, hash, i, j);
    }
}

/// Writing a key that is not stored yet into a slot that is not occupied adds the key
/// to the map and keeps the keys unique.
pub proof fn lemma_contents_insert<K, V>(
    slots: Seq<EntryBucket<K, V>>,
    v: int,
    bucket: Bucket<K, V>,
)
    requires
        unique_keys(slots),
        0 <= v < slots.len(),
        !(slots[v] is Occupied),
        !contents(slots).contains_key(bucket.key),
    ensures
        unique_keys(slots.update(v, EntryBucket::Occupied(bucket))),
        contents(slots.update(v, EntryBucket::Occupied(bucket))) == contents(slots).insert(
            bucket.key,
            *bucket.value,
        ),
{
    let key = bucket.key;
    let placed = slots.update(v, EntryBucket::Occupied(bucket));
    assert forall|i: int| !holds(slots, i, key) by {}
    assert forall|i: int, j: int|
        0 <= i < placed.len() && 0 <= j < placed.len() && placed[i] is Occupied && holds(
            placed,
            j,
            placed[i]->Occupied_0.key,
        ) implies i == j by {
        if i != v && j != v {
            assert(slots[i] is Occupied && holds(slots, j, slots[i]->Occupied_0.key));
        } else if i != v {
            assert(holds(slots, i, key));
        } else if j != v {
            assert(holds(slots, j, key));
        }
    }
    assert(unique_keys(placed));
    assert forall|k: K| #[trigger]
        contents(placed).contains_key(k) <==> contents(slots).insert(key, *bucket.value).contains_key(
            k,
        ) by {
        if contents(placed).contains_key(k) {
            let i = choose|i: int| holds(placed, i, k);
            if i != v {
                assert(holds(slots, i, k));
            }
        }
        if contents(slots).contains_key(k) {
            let i = choose|i: int| holds(slots, i, k);
            assert(holds(placed, i, k));
        }
        if k == key {
            assert(holds(placed, v, k));
        }
    }
    assert forall|k: K| #[trigger] contents(placed).contains_key(k) implies contents(placed)[k]
        == contents(slots).insert(key, *bucket.value)[k] by {
        let i = slot_of(placed, k);
        assert(holds(placed, i, k));
        lemma_contents_at(placed, i);
        if i != v {
            assert(holds(slots, i, k));
            lemma_contents_at(slots, i);
        }
    }
    assert(contents(placed) =~= contents(slots).insert(key, *bucket.value));
}

/// The number of occupied slots depends only on which slots are occupied.
pub proof fn lemma_occupied_pattern<K, V>(a: Seq<EntryBucket<K, V>>, b: Seq<EntryBucket<K, V>>)
    requires
        a.len() == b.len(),
        forall|i: int| 0 <= i < a.len() ==> (#[trigger] a[i] is Occupied <==> b[i] is Occupied),
    ensures
        occupied(a) == occupied(b),
    decreases a.len(),
{
    if a.len() > 0 {
        assert(a.last() is Occupied <==> b.last() is Occupied);
        assert forall|i: int| 0 <= i < a.drop_last().len() implies (#[trigger] a.drop_last()[i] is Occupied
            <==> b.drop_last()[i] is Occupied) by {
            assert(a[i] is Occupied <==> b[i] is Occupied);
        }
        lemma_occupied_pattern(a.drop_last(), b.drop_last());
    }
}

/// The map depends only on the occupied slots.
pub proof fn lemma_contents_pattern<K, V>(a: Seq<EntryBucket<K, V>>, b: Seq<EntryBucket<K, V>>)
    requires
        a.len() == b.len(),
        unique_keys(a),
        forall|i: int|
            0 <= i < a.len() ==> (#[trigger] a[i] is Occupied <==> b[i] is Occupied) && (a[i] is Occupied
                ==> a[i] == b[i]),
    ensures
        contents(a) == contents(b),
        unique_keys(b),
{
    assert forall|i: int, j: int|
        0 <= i < b.len() && 0 <= j < b.len() && b[i] is Occupied && holds(
            b,
            j,
            b[i]->Occupied_0.key,
        ) implies i == j by {
        assert(a[i] is Occupied <==> b[i] is Occupied);
        assert(a[j] is Occupied <==> b[j] is Occupied);
        assert(a[i] is Occupied && holds(a, j, a[i]->Occupied_0.key));
    }
    assert forall|k: K| #[trigger] contents(a).contains_key(k) <==> contents(b).contains_key(k) by {
        if contents(a).contains_key(k) {
            let i = choose|i: int| holds(a, i, k);
            assert(a[i] is Occupied <==> b[i] is Occupied);
            assert(holds(b, i, k));
        }
        if contents(b).contains_key(k) {
            let i = choose|i: int| holds(b, i, k);
            assert(a[i] is Occupied <==> b[i] is Occupied);
            assert(holds(a, i, k));
        }
    }
    assert forall|k: K| #[trigger] contents(a).contains_key(k) implies contents(a)[k] == contents(
        b,
    )[k] by {
        let i = slot_of(a, k);
        assert(holds(a, i, k));
        lemma_contents_at(a, i);
        assert(a[i] is Occupied <==> b[i] is Occupied);
        lemma_contents_at(b, i);
    }
    assert(contents(a) =~= contents(b));
}

/// Writing a new key into the vacancy that its probe found keeps the invariant and adds
/// the key to the map.
pub proof fn lemma_fcfs_place<K, V>(
    slots: Seq<EntryBucket<K, V>>,
    offsets: spec_fn(K) -> OffsetSequence,
    hashes: spec_fn(K) -> u64,
    bucket: Bucket<K, V>,
)
    requires
        table_inv(slots, offsets, hashes),
        bucket.hash == hashes(bucket.key),
        probe(slots, bucket.key, bucket.hash, offsets(bucket.key), true) is Vacancy,
    ensures
        ({
            let v = probe(slots, bucket.key, bucket.hash, offsets(bucket.key), true)->Vacancy_0;
            let placed = slots.update(v as int, EntryBucket::Occupied(bucket));
            &&& v < slots.len()
            &&& !(slots[v as int] is Occupied)
            &&& table_inv(placed, offsets, hashes)
            &&& contents(placed) == contents(slots).insert(bucket.key, *bucket.value)
            &&& !contents(slots).contains_key(bucket.key)
            &&& occupied(placed) == occupied(slots) + 1
            &&& vacant(placed) + (if slots[v as int] is Empty {
                1nat
            } else {
                0nat
            }) == vacant(slots)
            &&& fills_only(slots, placed, v as int)
        }),
{
    let key = bucket.key;
    let hash = bucket.hash;
    let offset = offsets(key);
    let w = full_walk(slots, key, hash, offset, true);
    let v = w.result->Vacancy_0;
    let placed = slots.update(v as int, EntryBucket::Occupied(bucket));
    lemma_walk_sound(slots, key, hash, offset, true, 0, None);
    lemma_vacant_update(slots, v as int, EntryBucket::Occupied(bucket));
    lemma_walk_passes(slots, key, hash, offset, true, 0, None);
    lemma_probe_decides(slots, offsets, hashes, key, true);
    lemma_occupied_update(slots, v as int, EntryBucket::Occupied(bucket));
    lemma_contents_insert(slots, v as int, bucket);
    assert(on_walk(slots, offset, hash, v as int, w.step));
    assert forall|i: int| 0 <= i < placed.len() implies #[trigger] slot_inv(
        placed,
        offsets,
        hashes,
        i,
    ) by {
        if i == v {
            lemma_on_walk_monotone(slots, placed, offset, hash, v as int, w.step);
        } else {
            assert(slot_inv(slots, offsets, hashes, i));
            lemma_inv_monotone(slots, placed, offsets, hashes, i);
        }
    }
}

/// Putting a tombstone in an occupied slot keeps the invariant and takes the slot's key
/// out of the map.
pub proof fn lemma_tombstone<K, V>(
    slots: Seq<EntryBucket<K, V>>,
    offsets: spec_fn(K) -> OffsetSequence,
    hashes: spec_fn(K) -> u64,
    i: int,
)
    requires
        table_inv(slots, offsets, hashes),
        0 <= i < slots.len(),
        slots[i] is Occupied,
    ensures
        ({
            let after = slots.update(i, EntryBucket::Tombstone);
            &&& table_inv(after, offsets, hashes)
            &&& contents(after) == contents(slots).remove(slots[i]->Occupied_0.key)
            &&& occupied(after) + 1 == occupied(slots)
            &&& vacant(after) == vacant(slots)
        }),
{
    let key = slots[i]->Occupied_0.key;
    let after = slots.update(i, EntryBucket::Tombstone);
    lemma_vacant_update(slots, i, EntryBucket::Tombstone);
    lemma_occupied_update(slots, i, EntryBucket::Tombstone);
    assert forall|p: int| 0 <= p < after.len() implies #[trigger] slot_inv(
        after,
        offsets,
        hashes,
        p,
    ) by {
        if p != i {
            assert(slot_inv(slots, offsets, hashes, p));
            lemma_inv_monotone(slots, after, offsets, hashes, p);
        }
    }
    assert forall|p: int, q: int|
        0 <= p < after.len() && 0 <= q < after.len() && after[p] is Occupied && holds(
            after,
            q,
            after[p]->Occupied_0.key,
        ) implies p == q by {
        assert(slots[p] is Occupied && holds(slots, q, slots[p]->Occupied_0.key));
    }
    assert(unique_keys(after));
    assert forall|k: K| #[trigger]
        contents(after).contains_key(k) <==> contents(slots).remove(key).contains_key(k) by {
        if contents(after).contains_key(k) {
            let p = choose|p: int| holds(after, p, k);
            assert(holds(slots, p, k));
            if k == key {
                assert(slots[i] is Occupied && holds(slots, p, slots[i]->Occupied_0.key));
            }
        }
        if contents(slots).contains_key(k) && k != key {
            let p = choose|p: int| holds(slots, p, k);
            assert(holds(after, p, k));
        }
    }
    assert forall|k: K| #[trigger] contents(after).contains_key(k) implies contents(after)[k]
        == contents(slots).remove(key)[k] by {
        let p = slot_of(after, k);
        assert(holds(after, p, k));
        lemma_contents_at(after, p);
        assert(holds(slots, p, k));
        lemma_contents_at(slots, p);
    }
    assert(contents(after) =~= contents(slots).remove(key));
}

} // verus!
