//! Why the last-come-first-served shift keeps the invariant of a slot array.
use vstd::prelude::*;

use crate::offsets::{
    home_slot, lemma_linear_repeat, lemma_linear_advance, lemma_probe_in_range,
    lemma_probe_returns_home, probe_slot, OffsetSequence,
};
use crate::open_addressing::continuity::{
    contents, fills_only, holds, lemma_contents_at, lemma_inv_monotone, lemma_occupied_update,
    lemma_on_walk_monotone, lemma_probe_decides, lemma_vacant_update, lemma_walk_passes,
    occupied, on_walk, passes, slot_inv, slot_of, table_inv, unique_keys, vacant,
};
use crate::open_addressing::fcfs::{full_walk, lemma_walk_sound, probe, walk};
use crate::open_addressing::lcfs::{lcfs_place, path_to, shift};
use crate::open_addressing::{Bucket, EntryBucket};

verus! {

/// The slot at step `m` of the walk for `hash` is occupied.
pub open spec fn occupied_at<K, V>(
    slots: Seq<EntryBucket<K, V>>,
    offset: OffsetSequence,
    hash: u64,
    m: nat,
) -> bool {
    slots[probe_slot(offset, hash, m, slots.len()) as int] is Occupied
}

/// The first `n + 1` slots of a path are different slots.
pub open spec fn distinct_upto(path: Seq<usize>, n: nat) -> bool {
    forall|a: int, b: int| 0 <= a < b <= n ==> #[trigger] path[a] != #[trigger] path[b]
}

/// Slot `q` is none of the first `n + 1` slots of a path.
pub open spec fn off_path(path: Seq<usize>, n: nat, q: int) -> bool {
    forall|j: int| 0 <= j <= n ==> #[trigger] path[j] != q
}

/// A walk that skips tombstones and ends in a vacancy has passed only occupied slots
/// before the vacancy.
pub proof fn lemma_walk_occupied_prefix<K, V>(
    slots: Seq<EntryBucket<K, V>>,
    key: K,
    hash: u64,
    offset: OffsetSequence,
    k: nat,
    first_tombstone: Option<nat>,
)
    requires
        slots.len() > 0,
        k <= slots.len(),
        first_tombstone is None ==> forall|m: nat| m < k ==> #[trigger] occupied_at(slots, offset, hash, m),
        first_tombstone matches Some(t) ==> t < k && forall|m: nat|
            m < t ==> #[trigger] occupied_at(slots, offset, hash, m),
    ensures
        ({
            let w = walk(slots, key, hash, offset, true, k, first_tombstone);
            w.result is Vacancy ==> forall|m: nat|
                m < w.step ==> #[trigger] occupied_at(slots, offset, hash, m)
        }),
    decreases slots.len() - k,
{
    let cap = slots.len();
    let i = probe_slot(offset, hash, k, cap);
    if k >= cap || (k > 0 && i == home_slot(hash, cap)) {
    } else {
        match slots[i as int] {
            EntryBucket::Empty => {},
            EntryBucket::Tombstone => {
                let next = if first_tombstone is None {
                    Some(k)
                } else {
                    first_tombstone
                };
                lemma_walk_occupied_prefix(slots, key, hash, offset, k + 1, next);
            },
            EntryBucket::Occupied(b) => {
                if !(b.hash == hash && b.key == key) {
                    assert(occupied_at(slots, offset, hash, k));
                    assert(first_tombstone is None ==> forall|m: nat|
                        m < k + 1 ==> #[trigger] occupied_at(slots, offset, hash, m)) by {
                        if first_tombstone is None {
                            assert forall|m: nat| m < k + 1 implies #[trigger] occupied_at(
                                slots,
                                offset,
                                hash,
                                m,
                            ) by {
                                if m < k {
                                }
                            }
                        }
                    }
                    lemma_walk_occupied_prefix(slots, key, hash, offset, k + 1, first_tombstone);
                }
            },
        }
    }
}

/// What a shift along a path of different slots leaves in each slot: the slots of the
/// path hold what the slot before them held, the first slot of the path is empty, and
/// every other slot is as it was.
pub proof fn lemma_shift_closed<K, V>(slots: Seq<EntryBucket<K, V>>, path: Seq<usize>, n: nat)
    requires
        n < path.len(),
        forall|j: int| 0 <= j <= n ==> #[trigger] path[j] < slots.len(),
        distinct_upto(path, n),
    ensures
        shift(slots, path, n).len() == slots.len(),
        forall|j: int|
            #![trigger path[j]]
            1 <= j <= n ==> shift(slots, path, n)[path[j] as int] == slots[path[j - 1] as int],
        n >= 1 ==> shift(slots, path, n)[path[0] as int] is Empty,
        n == 0 ==> shift(slots, path, n) == slots,
        forall|q: int|
            0 <= q < slots.len() && off_path(path, n, q) ==> #[trigger] shift(slots, path, n)[q]
                == slots[q],
    decreases n,
{
    if n > 0 {
        let moved = slots.update(path[n - 1] as int, EntryBucket::Empty).update(
            path[n as int] as int,
            slots[path[n - 1] as int],
        );
        let m = (n - 1) as nat;
        assert(path[n - 1] != path[n as int]);
        assert(distinct_upto(path, m));
        lemma_shift_closed(moved, path, m);
        let result = shift(slots, path, n);
        assert(result == shift(moved, path, m));
        assert forall|j: int| #![trigger path[j]] 1 <= j <= n implies result[path[j] as int]
            == slots[path[j - 1] as int] by {
            if j < n {
                assert(path[j - 1] != path[n - 1]);
                assert(path[j - 1] != path[n as int]);
            } else {
                // the last slot of the path is off the shorter path
                assert(off_path(path, m, path[n as int] as int)) by {
                    assert forall|i: int| 0 <= i <= m implies #[trigger] path[i] != path[n as int] by {
                        assert(path[i] != path[n as int]);
                    }
                }
            }
        }
        if m == 0 {
            assert(path[0] != path[n as int]);
        }
        assert forall|q: int| 0 <= q < slots.len() && off_path(path, n, q) implies #[trigger] result[q]
            == slots[q] by {
            assert(path[n - 1] != q);
            assert(path[n as int] != q);
            assert(off_path(path, m, q)) by {
                assert forall|i: int| 0 <= i <= m implies #[trigger] path[i] != q by {
                    assert(path[i] != q);
                }
            }
        }
    }
}

/// A shift into a slot that is not occupied, along a path of occupied slots, keeps the
/// number of occupied slots.
pub proof fn lemma_shift_count<K, V>(slots: Seq<EntryBucket<K, V>>, path: Seq<usize>, n: nat)
    requires
        n < path.len(),
        forall|j: int| 0 <= j <= n ==> #[trigger] path[j] < slots.len(),
        distinct_upto(path, n),
        !(slots[path[n as int] as int] is Occupied),
        forall|j: int| 0 <= j < n ==> slots[#[trigger] path[j] as int] is Occupied,
    ensures
        occupied(shift(slots, path, n)) == occupied(slots),
    decreases n,
{
    if n > 0 {
        let emptied = slots.update(path[n - 1] as int, EntryBucket::Empty);
        let moved = emptied.update(path[n as int] as int, slots[path[n - 1] as int]);
        let m = (n - 1) as nat;
        assert(path[n - 1] != path[n as int]);
        assert(slots[path[n - 1] as int] is Occupied);
        lemma_occupied_update(slots, path[n - 1] as int, EntryBucket::Empty);
        lemma_occupied_update(emptied, path[n as int] as int, slots[path[n - 1] as int]);
        assert(distinct_upto(path, m));
        assert forall|j: int| 0 <= j < m implies moved[#[trigger] path[j] as int] is Occupied by {
            assert(path[j] != path[n - 1]);
            assert(path[j] != path[n as int]);
            assert(slots[path[j] as int] is Occupied);
        }
        lemma_shift_count(moved, path, m);
    }
}

/// A shift into a slot that is not occupied, along a path of occupied slots, empties
/// the first slot of the path and fills the last.
pub proof fn lemma_shift_vacant<K, V>(slots: Seq<EntryBucket<K, V>>, path: Seq<usize>, n: nat)
    requires
        n < path.len(),
        forall|j: int| 0 <= j <= n ==> #[trigger] path[j] < slots.len(),
        distinct_upto(path, n),
        !(slots[path[n as int] as int] is Occupied),
        forall|j: int| 0 <= j < n ==> slots[#[trigger] path[j] as int] is Occupied,
    ensures
        vacant(shift(slots, path, n)) + (if n >= 1 && slots[path[n as int] as int] is Empty {
            1nat
        } else {
            0nat
        }) == vacant(slots) + (if n >= 1 {
            1nat
        } else {
            0nat
        }),
    decreases n,
{
    if n > 0 {
        let emptied = slots.update(path[n - 1] as int, EntryBucket::Empty);
        let moved = emptied.update(path[n as int] as int, slots[path[n - 1] as int]);
        let m = (n - 1) as nat;
        assert(path[n - 1] != path[n as int]);
        assert(slots[path[n - 1] as int] is Occupied);
        lemma_vacant_update(slots, path[n - 1] as int, EntryBucket::Empty);
        lemma_vacant_update(emptied, path[n as int] as int, slots[path[n - 1] as int]);
        assert(distinct_upto(path, m));
        assert forall|j: int| 0 <= j < m implies moved[#[trigger] path[j] as int] is Occupied by {
            assert(path[j] != path[n - 1]);
            assert(path[j] != path[n as int]);
            assert(slots[path[j] as int] is Occupied);
        }
        lemma_shift_vacant(moved, path, m);
    }
}

/// The place of slot `q` on a path, and 0 if it is not on the path.
pub open spec fn path_index(path: Seq<usize>, n: nat, q: int) -> int {
    if off_path(path, n, q) {
        0
    } else {
        choose|j: int| 0 <= j <= n && path[j] == q
    }
}

/// The slot whose content a shifted insertion moves to slot `q`.
pub open spec fn source(path: Seq<usize>, n: nat, q: int) -> int {
    if path_index(path, n, q) == 0 {
        q
    } else {
        path[path_index(path, n, q) - 1] as int
    }
}

/// How a slot array looks after a shifted insertion along `path[0..=n]`, slot by slot.
pub open spec fn shifted_layout<K, V>(
    before: Seq<EntryBucket<K, V>>,
    after: Seq<EntryBucket<K, V>>,
    path: Seq<usize>,
    n: nat,
    bucket: Bucket<K, V>,
    q: int,
) -> bool {
    let j = path_index(path, n, q);
    &&& 0 <= j <= n
    &&& j > 0 ==> path[j] == q
    &&& if q == path[0] {
        after[q] == EntryBucket::Occupied(bucket)
    } else {
        &&& after[q] == before[source(path, n, q)]
        &&& 0 <= source(path, n, q) < before.len()
        &&& j > 0 ==> before[source(path, n, q)] is Occupied
    }
}

/// The layout of a slot array after a shifted insertion.
pub proof fn lemma_shifted_layout<K, V>(
    slots: Seq<EntryBucket<K, V>>,
    path: Seq<usize>,
    n: nat,
    bucket: Bucket<K, V>,
)
    requires
        n < path.len(),
        forall|j: int| 0 <= j <= n ==> #[trigger] path[j] < slots.len(),
        distinct_upto(path, n),
        forall|j: int| 0 <= j < n ==> slots[#[trigger] path[j] as int] is Occupied,
    ensures
        ({
            let after = shift(slots, path, n).update(path[0] as int, EntryBucket::Occupied(bucket));
            &&& after.len() == slots.len()
            &&& forall|q: int|
                0 <= q < slots.len() ==> #[trigger] shifted_layout(slots, after, path, n, bucket, q)
        }),
{
    lemma_shift_closed(slots, path, n);
    let after = shift(slots, path, n).update(path[0] as int, EntryBucket::Occupied(bucket));
    assert forall|q: int| 0 <= q < slots.len() implies #[trigger] shifted_layout(
        slots,
        after,
        path,
        n,
        bucket,
        q,
    ) by {
        let j = path_index(path, n, q);
        if off_path(path, n, q) {
            assert(path[0] != q);
        } else {
            assert(0 <= j <= n && path[j] == q);
            if j == 0 {
            } else {
                assert(path[0] != path[j]);
                assert(slots[path[j - 1] as int] is Occupied);
            }
        }
    }
}

/// `after` is `before` with `bucket` inserted at `path[0]` and the occupants of
/// `path[0..n]` moved one place along the path into `path[n]`, which was not occupied.
pub open spec fn shifted<K, V>(
    before: Seq<EntryBucket<K, V>>,
    after: Seq<EntryBucket<K, V>>,
    path: Seq<usize>,
    n: nat,
    bucket: Bucket<K, V>,
) -> bool {
    &&& n < path.len()
    &&& after.len() == before.len()
    &&& forall|j: int| 0 <= j <= n ==> #[trigger] path[j] < before.len()
    &&& distinct_upto(path, n)
    &&& forall|j: int| 0 <= j < n ==> before[#[trigger] path[j] as int] is Occupied
    &&& !(before[path[n as int] as int] is Occupied)
    &&& forall|q: int|
        0 <= q < before.len() ==> #[trigger] shifted_layout(before, after, path, n, bucket, q)
}

/// A shifted insertion moves the entries of different slots from different slots.
pub proof fn lemma_source_injective<K, V>(
    before: Seq<EntryBucket<K, V>>,
    after: Seq<EntryBucket<K, V>>,
    path: Seq<usize>,
    n: nat,
    bucket: Bucket<K, V>,
    a: int,
    b: int,
)
    requires
        shifted(before, after, path, n, bucket),
        0 <= a < before.len(),
        0 <= b < before.len(),
        a != b,
        a != path[0],
        b != path[0],
    ensures
        source(path, n, a) != source(path, n, b),
{
    assert(shifted_layout(before, after, path, n, bucket, a));
    assert(shifted_layout(before, after, path, n, bucket, b));
    let ja = path_index(path, n, a);
    let jb = path_index(path, n, b);
    if ja > 0 && jb > 0 {
        assert(ja != jb);
        if ja < jb {
            assert(path[ja - 1] != path[jb - 1]);
        } else {
            assert(path[jb - 1] != path[ja - 1]);
        }
    } else if ja > 0 {
        assert(path[ja - 1] != b);
    } else if jb > 0 {
        assert(path[jb - 1] != a);
    }
}

/// A shifted insertion of a new key keeps the keys unique.
pub proof fn lemma_shifted_unique<K, V>(
    before: Seq<EntryBucket<K, V>>,
    after: Seq<EntryBucket<K, V>>,
    path: Seq<usize>,
    n: nat,
    bucket: Bucket<K, V>,
)
    requires
        shifted(before, after, path, n, bucket),
        unique_keys(before),
        !contents(before).contains_key(bucket.key),
    ensures
        unique_keys(after),
{
    let key = bucket.key;
    assert forall|i: int| !holds(before, i, key) by {}
    assert forall|i: int, j: int|
        0 <= i < after.len() && 0 <= j < after.len() && after[i] is Occupied && holds(
            after,
            j,
            after[i]->Occupied_0.key,
        ) implies i == j by {
        assert(shifted_layout(before, after, path, n, bucket, i));
        assert(shifted_layout(before, after, path, n, bucket, j));
        if i != j {
            if i == path[0] {
                assert(holds(before, source(path, n, j), key));
            } else if j == path[0] {
                assert(holds(before, source(path, n, i), key));
            } else {
                lemma_source_injective(before, after, path, n, bucket, i, j);
                let si = source(path, n, i);
                let sj = source(path, n, j);
                assert(before[si] is Occupied && holds(before, sj, before[si]->Occupied_0.key));
            }
        }
    }
}

/// A shifted insertion of a new key adds the key to the map and keeps the others.
pub proof fn lemma_shifted_contents<K, V>(
    before: Seq<EntryBucket<K, V>>,
    after: Seq<EntryBucket<K, V>>,
    path: Seq<usize>,
    n: nat,
    bucket: Bucket<K, V>,
)
    requires
        shifted(before, after, path, n, bucket),
        unique_keys(before),
        unique_keys(after),
        !contents(before).contains_key(bucket.key),
    ensures
        contents(after) == contents(before).insert(bucket.key, *bucket.value),
{
    let key = bucket.key;
    assert forall|i: int| !holds(before, i, key) by {}
    assert(shifted_layout(before, after, path, n, bucket, path[0] as int));
    assert forall|k: K| #[trigger]
        contents(after).contains_key(k) <==> contents(before).insert(key, *bucket.value).contains_key(
            k,
        ) by {
        if contents(after).contains_key(k) {
            let q = choose|q: int| holds(after, q, k);
            assert(shifted_layout(before, after, path, n, bucket, q));
            if q != path[0] {
                assert(holds(before, source(path, n, q), k));
            }
        }
        if contents(before).contains_key(k) {
            let q = choose|q: int| holds(before, q, k);
            if off_path(path, n, q) {
                assert(shifted_layout(before, after, path, n, bucket, q));
                assert(path[0] != q);
                assert(holds(after, q, k));
            } else {
                let j = choose|j: int| 0 <= j <= n && path[j] == q;
                assert(j < n);
                let to = path[j + 1] as int;
                assert(path[0] != path[j + 1]);
                assert(shifted_layout(before, after, path, n, bucket, to));
                let back = path_index(path, n, to);
                if back != j + 1 {
                    if back < j + 1 {
                        assert(path[back] != path[j + 1]);
                    } else {
                        assert(path[j + 1] != path[back]);
                    }
                }
                assert(holds(after, to, k));
            }
        }
        if k == key {
            assert(holds(after, path[0] as int, k));
        }
    }
    assert forall|k: K| #[trigger] contents(after).contains_key(k) implies contents(after)[k]
        == contents(before).insert(key, *bucket.value)[k] by {
        let q = slot_of(after, k);
        assert(holds(after, q, k));
        lemma_contents_at(after, q);
        assert(shifted_layout(before, after, path, n, bucket, q));
        if q != path[0] {
            assert(holds(before, source(path, n, q), k));
            lemma_contents_at(before, source(path, n, q));
        }
    }
    assert(contents(after) =~= contents(before).insert(key, *bucket.value));
}

/// After a shifted insertion along the walk of the new key, every entry is reached by
/// the walk of its key, where every key is probed for along the same linear sequence.
pub proof fn lemma_shifted_reachable<K, V>(
    before: Seq<EntryBucket<K, V>>,
    after: Seq<EntryBucket<K, V>>,
    offsets: spec_fn(K) -> OffsetSequence,
    hashes: spec_fn(K) -> u64,
    step: u64,
    n: nat,
    bucket: Bucket<K, V>,
    q: int,
)
    requires
        table_inv(before, offsets, hashes),
        forall|key: K| #[trigger] offsets(key) == (OffsetSequence::Linear { step }),
        bucket.hash == hashes(bucket.key),
        shifted(
            before,
            after,
            path_to(OffsetSequence::Linear { step }, bucket.hash, n, before.len()),
            n,
            bucket,
        ),
        0 <= q < before.len(),
    ensures
        slot_inv(after, offsets, hashes, q),
{
    let seq = OffsetSequence::Linear { step };
    let hash = bucket.hash;
    let cap = before.len();
    let path = path_to(seq, hash, n, cap);
    lemma_probe_returns_home(seq, hash, cap);
    assert(offsets(bucket.key) == seq);
    assert forall|p: int| 0 <= p < cap && !(before[p] is Empty) implies !(#[trigger] after[p] is Empty) by {
        assert(shifted_layout(before, after, path, n, bucket, p));
    }
    assert(shifted_layout(before, after, path, n, bucket, q));
    let j = path_index(path, n, q);
    if q == path[0] {
        assert(on_walk(after, seq, hash, q, 0));
    } else if j == 0 {
        assert(slot_inv(before, offsets, hashes, q));
        lemma_inv_monotone(before, after, offsets, hashes, q);
    } else {
        let from = path[j - 1] as int;
        let moved = before[from]->Occupied_0;
        assert(slot_inv(before, offsets, hashes, from));
        assert(offsets(moved.key) == seq);
        let moved_hash = moved.hash;
        let d = choose|d: nat| on_walk(before, seq, moved_hash, from, d);
        lemma_on_walk_monotone(before, after, seq, moved_hash, from, d);
        lemma_linear_advance(step, moved_hash, d, hash, (j - 1) as nat, cap);
        lemma_probe_returns_home(seq, moved_hash, cap);
        assert(shifted_layout(before, after, path, n, bucket, from));
        if probe_slot(seq, moved_hash, d + 1, cap) == home_slot(moved_hash, cap) {
            assert(on_walk(after, seq, moved_hash, q, 0));
        } else {
            assert(passes(after, seq, moved_hash, d));
            assert forall|m: nat| m < d + 1 implies #[trigger] passes(after, seq, moved_hash, m) by {
                if m < d {
                }
            }
            assert(on_walk(after, seq, moved_hash, q, d + 1));
        }
    }
}

/// Inserting a new key at its home slot and shifting the occupants of its walk one step
/// on keeps the invariant, where every key is probed for along the same linear sequence,
/// and adds the key to the map.
pub proof fn lemma_lcfs_place<K, V>(
    slots: Seq<EntryBucket<K, V>>,
    offsets: spec_fn(K) -> OffsetSequence,
    hashes: spec_fn(K) -> u64,
    step: u64,
    bucket: Bucket<K, V>,
)
    requires
        table_inv(slots, offsets, hashes),
        forall|key: K| #[trigger] offsets(key) == (OffsetSequence::Linear { step }),
        bucket.hash == hashes(bucket.key),
        probe(slots, bucket.key, bucket.hash, OffsetSequence::Linear { step }, true) is Vacancy,
    ensures
        ({
            let placed = lcfs_place(slots, bucket, OffsetSequence::Linear { step }, true);
            &&& placed.len() == slots.len()
            &&& table_inv(placed, offsets, hashes)
            &&& contents(placed) == contents(slots).insert(bucket.key, *bucket.value)
            &&& !contents(slots).contains_key(bucket.key)
            &&& occupied(placed) == occupied(slots) + 1
            &&& vacant(placed) + (if slots[probe(
                slots,
                bucket.key,
                bucket.hash,
                OffsetSequence::Linear { step },
                true,
            )->Vacancy_0 as int] is Empty {
                1nat
            } else {
                0nat
            }) == vacant(slots)
            &&& fills_only(
                slots,
                placed,
                probe(
                    slots,
                    bucket.key,
                    bucket.hash,
                    OffsetSequence::Linear { step },
                    true,
                )->Vacancy_0 as int,
            )
        }),
{
    let seq = OffsetSequence::Linear { step };
    let key = bucket.key;
    let hash = bucket.hash;
    let cap = slots.len();
    let w = full_walk(slots, key, hash, seq, true);
    let t = w.step;
    let path = path_to(seq, hash, t, cap);
    let placed = lcfs_place(slots, bucket, seq, true);
    assert(offsets(key) == seq);
    lemma_walk_sound(slots, key, hash, seq, true, 0, None);
    lemma_walk_passes(slots, key, hash, seq, true, 0, None);
    lemma_walk_occupied_prefix(slots, key, hash, seq, 0, None);
    lemma_probe_decides(slots, offsets, hashes, key, true);
    assert forall|j: int| 0 <= j <= t implies #[trigger] path[j] < cap by {
        lemma_probe_in_range(seq, hash, j as nat, cap);
    }
    assert(distinct_upto(path, t)) by {
        assert forall|a: int, b: int| 0 <= a < b <= t implies #[trigger] path[a] != #[trigger] path[b] by {
            lemma_probe_in_range(seq, hash, a as nat, cap);
            lemma_probe_in_range(seq, hash, b as nat, cap);
            if path[a] == path[b] {
                lemma_linear_repeat(step, hash, a as nat, b as nat, cap);
                assert(passes(slots, seq, hash, (b - a - 1) as nat));
            }
        }
    }
    assert forall|j: int| 0 <= j < t implies slots[#[trigger] path[j] as int] is Occupied by {
        assert(occupied_at(slots, seq, hash, j as nat));
        lemma_probe_in_range(seq, hash, j as nat, cap);
    }
    lemma_shift_closed(slots, path, t);
    lemma_shift_count(slots, path, t);
    lemma_shift_vacant(slots, path, t);
    lemma_shifted_layout(slots, path, t, bucket);
    let shifted_slots = shift(slots, path, t);
    lemma_occupied_update(shifted_slots, path[0] as int, EntryBucket::Occupied(bucket));
    lemma_vacant_update(shifted_slots, path[0] as int, EntryBucket::Occupied(bucket));
    assert(placed == shifted_slots.update(path[0] as int, EntryBucket::Occupied(bucket)));
    assert(shifted(slots, placed, path, t, bucket));
    lemma_shifted_unique(slots, placed, path, t, bucket);
    lemma_shifted_contents(slots, placed, path, t, bucket);
    assert forall|q: int| 0 <= q < cap implies #[trigger] slot_inv(placed, offsets, hashes, q) by {
        lemma_shifted_reachable(slots, placed, offsets, hashes, step, t, bucket, q);
    }
    assert forall|q: int| 0 <= q < cap implies (#[trigger] placed[q] is Empty <==> slots[q] is Empty
        && q != path[t as int]) by {
        assert(shifted_layout(slots, placed, path, t, bucket, q));
    }
    assert forall|q: int| 0 <= q < cap && #[trigger] placed[q] is Tombstone implies slots[q] is Tombstone by {
        assert(shifted_layout(slots, placed, path, t, bucket, q));
    }
}

} // verus!
