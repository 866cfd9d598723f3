//! What growing a table does to its slot array.
use vstd::prelude::*;

use crate::open_addressing::continuity::{
    contents, holds, lemma_contents_pattern, lemma_occupied_pattern, occupied, unique_keys,
};
use crate::open_addressing::fcfs::{full_walk, probe};
use crate::open_addressing::{empty_slots, Bucket, EntryBucket};
use crate::{psl_sample, Entry, EntryResult, LoadFactor};

verus! {

/// The array of `cap` slots that holds the entries of `source[0..n]`, inserted one after
/// the other in the order of their slots; `None` if the strategy finds no free slot for
/// one of them.
pub open spec fn rehash<K: PartialEq, V, E: Entry<K, V>>(
    entry: E,
    source: Seq<EntryBucket<K, V>>,
    n: nat,
    cap: nat,
) -> Option<Seq<EntryBucket<K, V>>>
    decreases n,
{
    if n == 0 {
        Some(empty_slots(cap))
    } else {
        match rehash(entry, source, (n - 1) as nat, cap) {
            None => None,
            Some(target) => match source[n - 1] {
                EntryBucket::Occupied(b) => if probe(
                    target,
                    b.key,
                    b.hash,
                    entry.offsets(b.key),
                    true,
                ) is Vacancy {
                    Some(entry.placed(target, b))
                } else {
                    None
                },
                _ => Some(target),
            },
        }
    }
}

/// The slot array of twice the size that holds the entries of `slots`; `None` if that
/// size does not fit a `usize` or the strategy finds no free slot for an entry.
pub open spec fn grow<K: PartialEq, V, E: Entry<K, V>>(
    entry: E,
    slots: Seq<EntryBucket<K, V>>,
) -> Option<Seq<EntryBucket<K, V>>> {
    if 2 * slots.len() <= usize::MAX {
        rehash(entry, slots, slots.len(), 2 * slots.len())
    } else {
        None
    }
}

/// The slot array after `bucket` has been inserted: in place where the probe for its key
/// finds a vacancy; unchanged where the key is stored already; after growing once where
/// the probe ends in `Full`. `None` if the table cannot grow or the probe ends in `Full`
/// again.
pub open spec fn place<K: PartialEq, V, E: Entry<K, V>>(
    entry: E,
    slots: Seq<EntryBucket<K, V>>,
    bucket: Bucket<K, V>,
) -> Option<Seq<EntryBucket<K, V>>> {
    match probe(slots, bucket.key, bucket.hash, entry.offsets(bucket.key), true) {
        EntryResult::Hit(_) => Some(slots),
        EntryResult::Vacancy(_) => Some(entry.placed(slots, bucket)),
        EntryResult::Full => match grow(entry, slots) {
            None => None,
            Some(grown) => if probe(
                grown,
                bucket.key,
                bucket.hash,
                entry.offsets(bucket.key),
                true,
            ) is Vacancy {
                Some(entry.placed(grown, bucket))
            } else {
                None
            },
        },
    }
}

/// The slot array as it is when the insertion looks for a place: grown once if the
/// number of entries has reached the threshold of the load factor.
pub open spec fn settle<K: PartialEq, V, E: Entry<K, V>>(
    entry: E,
    load_factor: LoadFactor,
    slots: Seq<EntryBucket<K, V>>,
) -> Option<Seq<EntryBucket<K, V>>> {
    if occupied(slots) >= load_factor.spec_threshold(slots.len()) {
        grow(entry, slots)
    } else {
        Some(slots)
    }
}

/// The slot array after an insertion of `bucket` into a table with this strategy and
/// load factor; `None` where the table would have to grow and cannot.
pub open spec fn insert_slots<K: PartialEq, V, E: Entry<K, V>>(
    entry: E,
    load_factor: LoadFactor,
    slots: Seq<EntryBucket<K, V>>,
    bucket: Bucket<K, V>,
) -> Option<Seq<EntryBucket<K, V>>> {
    match settle(entry, load_factor, slots) {
        None => None,
        Some(settled) => place(entry, settled, bucket),
    }
}

/// The slot array after an attempt to insert `bucket`: after the insertion where the
/// table can take the bucket, and else as far as the table has grown before it turned
/// out that it cannot.
pub open spec fn attempt_slots<K: PartialEq, V, E: Entry<K, V>>(
    entry: E,
    load_factor: LoadFactor,
    slots: Seq<EntryBucket<K, V>>,
    bucket: Bucket<K, V>,
) -> Seq<EntryBucket<K, V>> {
    match settle(entry, load_factor, slots) {
        None => slots,
        Some(settled) => match probe(
            settled,
            bucket.key,
            bucket.hash,
            entry.offsets(bucket.key),
            true,
        ) {
            EntryResult::Hit(_) => settled,
            EntryResult::Vacancy(_) => entry.placed(settled, bucket),
            EntryResult::Full => match grow(entry, settled) {
                None => settled,
                Some(grown) => if probe(
                    grown,
                    bucket.key,
                    bucket.hash,
                    entry.offsets(bucket.key),
                    true,
                ) is Vacancy {
                    entry.placed(grown, bucket)
                } else {
                    grown
                },
            },
        },
    }
}

/// The sample that the insertion of `bucket` into `slots` records: the length of the
/// probe for its key.
pub open spec fn insert_sample<K: PartialEq, V, E: Entry<K, V>>(
    entry: E,
    slots: Seq<EntryBucket<K, V>>,
    bucket: Bucket<K, V>,
) -> u8 {
    psl_sample(full_walk(slots, bucket.key, bucket.hash, entry.offsets(bucket.key), true).psl)
}

/// The samples that the insertions of `rehash` record, in their order.
pub open spec fn rehash_samples<K: PartialEq, V, E: Entry<K, V>>(
    entry: E,
    source: Seq<EntryBucket<K, V>>,
    n: nat,
    cap: nat,
) -> Seq<u8>
    decreases n,
{
    if n == 0 {
        Seq::empty()
    } else {
        let before = rehash_samples(entry, source, (n - 1) as nat, cap);
        match (rehash(entry, source, (n - 1) as nat, cap), source[n - 1]) {
            (Some(target), EntryBucket::Occupied(b)) => before.push(
                insert_sample(entry, target, b),
            ),
            _ => before,
        }
    }
}

/// The samples that the insertions of `grow` record.
pub open spec fn grow_samples<K: PartialEq, V, E: Entry<K, V>>(
    entry: E,
    slots: Seq<EntryBucket<K, V>>,
) -> Seq<u8> {
    rehash_samples(entry, slots, slots.len(), 2 * slots.len())
}

/// The samples that the insertions of `place` record: the probe for the new key, and if
/// it ends in `Full`, every entry's move into the grown array and the probe for the new
/// key there.
pub open spec fn place_samples<K: PartialEq, V, E: Entry<K, V>>(
    entry: E,
    slots: Seq<EntryBucket<K, V>>,
    bucket: Bucket<K, V>,
) -> Seq<u8> {
    let first = seq![insert_sample(entry, slots, bucket)];
    match (probe(slots, bucket.key, bucket.hash, entry.offsets(bucket.key), true), grow(entry, slots)) {
        (EntryResult::Full, Some(grown)) => (first + grow_samples(entry, slots)).push(
            insert_sample(entry, grown, bucket),
        ),
        _ => first,
    }
}

/// The samples that an insertion of `bucket` into a table records, growth included.
pub open spec fn insert_samples<K: PartialEq, V, E: Entry<K, V>>(
    entry: E,
    load_factor: LoadFactor,
    slots: Seq<EntryBucket<K, V>>,
    bucket: Bucket<K, V>,
) -> Seq<u8> {
    if occupied(slots) >= load_factor.spec_threshold(slots.len()) {
        match grow(entry, slots) {
            Some(grown) => grow_samples(entry, slots) + place_samples(entry, grown, bucket),
            None => Seq::empty(),
        }
    } else {
        place_samples(entry, slots, bucket)
    }
}

/// The occupied slots among the first `n`, the other slots empty.
pub open spec fn occupied_prefix<K, V>(slots: Seq<EntryBucket<K, V>>, n: nat) -> Seq<
    EntryBucket<K, V>,
> {
    Seq::new(
        slots.len(),
        |i: int|
            if i < n && slots[i] is Occupied {
                slots[i]
            } else {
                EntryBucket::Empty
            },
    )
}

/// A rehash that has failed does not recover.
pub proof fn lemma_rehash_fails_on<K: PartialEq, V, E: Entry<K, V>>(
    entry: E,
    source: Seq<EntryBucket<K, V>>,
    n: nat,
    m: nat,
    cap: nat,
)
    requires
        n <= m,
        rehash(entry, source, n, cap) is None,
    ensures
        rehash(entry, source, m, cap) is None,
    decreases m,
{
    if n < m {
        lemma_rehash_fails_on(entry, source, n, (m - 1) as nat, cap);
    }
}

/// Two strategies that probe and place alike rehash alike.
pub proof fn lemma_rehash_same<K: PartialEq, V, E: Entry<K, V>>(
    a: E,
    b: E,
    source: Seq<EntryBucket<K, V>>,
    n: nat,
    cap: nat,
)
    requires
        forall|key: K| #[trigger] a.offsets(key) == b.offsets(key),
        forall|slots: Seq<EntryBucket<K, V>>, bucket: Bucket<K, V>| #[trigger]
            a.placed(slots, bucket) == b.placed(slots, bucket),
    ensures
        rehash(a, source, n, cap) == rehash(b, source, n, cap),
        rehash_samples(a, source, n, cap) == rehash_samples(b, source, n, cap),
    decreases n,
{
    if n > 0 {
        lemma_rehash_same(a, b, source, (n - 1) as nat, cap);
        if let EntryBucket::Occupied(bucket) = source[n - 1] {
            assert(a.offsets(bucket.key) == b.offsets(bucket.key));
        }
    }
}

/// Two strategies that probe and place alike grow a table and place a bucket alike.
pub proof fn lemma_place_same<K: PartialEq, V, E: Entry<K, V>>(
    a: E,
    b: E,
    slots: Seq<EntryBucket<K, V>>,
    bucket: Bucket<K, V>,
)
    requires
        forall|key: K| #[trigger] a.offsets(key) == b.offsets(key),
        forall|slots: Seq<EntryBucket<K, V>>, bucket: Bucket<K, V>| #[trigger]
            a.placed(slots, bucket) == b.placed(slots, bucket),
    ensures
        grow(a, slots) == grow(b, slots),
        grow_samples(a, slots) == grow_samples(b, slots),
        place(a, slots, bucket) == place(b, slots, bucket),
        place_samples(a, slots, bucket) == place_samples(b, slots, bucket),
{
    lemma_rehash_same(a, b, slots, slots.len(), 2 * slots.len());
    assert(a.offsets(bucket.key) == b.offsets(bucket.key));
    assert(a.placed(slots, bucket) == b.placed(slots, bucket));
    if grow(a, slots) is Some {
        assert(a.placed(grow(a, slots)->0, bucket) == b.placed(grow(a, slots)->0, bucket));
    }
}

/// The whole of a slot array has the map and the number of entries of the array.
pub proof fn lemma_occupied_prefix_all<K, V>(slots: Seq<EntryBucket<K, V>>)
    requires
        unique_keys(slots),
    ensures
        contents(occupied_prefix(slots, slots.len())) == contents(slots),
        occupied(occupied_prefix(slots, slots.len())) == occupied(slots),
{
    lemma_contents_pattern(slots, occupied_prefix(slots, slots.len()));
    lemma_occupied_pattern(slots, occupied_prefix(slots, slots.len()));
}

/// A prefix of a slot array with unique keys has unique keys.
pub proof fn lemma_occupied_prefix_unique<K, V>(slots: Seq<EntryBucket<K, V>>, n: nat)
    requires
        unique_keys(slots),
    ensures
        unique_keys(occupied_prefix(slots, n)),
{
    let prefix = occupied_prefix(slots, n);
    assert forall|i: int, j: int|
        0 <= i < prefix.len() && 0 <= j < prefix.len() && prefix[i] is Occupied && holds(
            prefix,
            j,
            prefix[i]->Occupied_0.key,
        ) implies i == j by {
        assert(slots[i] is Occupied && holds(slots, j, slots[i]->Occupied_0.key));
    }
}

/// A key stored at slot `n` is not stored among the first `n` slots.
pub proof fn lemma_occupied_prefix_fresh<K, V>(slots: Seq<EntryBucket<K, V>>, n: nat)
    requires
        unique_keys(slots),
        n < slots.len(),
        slots[n as int] is Occupied,
    ensures
        !contents(occupied_prefix(slots, n)).contains_key(slots[n as int]->Occupied_0.key),
        occupied_prefix(slots, n + 1) == occupied_prefix(slots, n).update(
            n as int,
            slots[n as int],
        ),
        !(occupied_prefix(slots, n)[n as int] is Occupied),
{
    let prefix = occupied_prefix(slots, n);
    let key = slots[n as int]->Occupied_0.key;
    if contents(prefix).contains_key(key) {
        let i = choose|i: int| holds(prefix, i, key);
        assert(slots[n as int] is Occupied && holds(slots, i, slots[n as int]->Occupied_0.key));
    }
    assert(occupied_prefix(slots, n + 1) =~= prefix.update(n as int, slots[n as int]));
}

/// A slot that is not occupied adds nothing to the prefix.
pub proof fn lemma_occupied_prefix_skip<K, V>(slots: Seq<EntryBucket<K, V>>, n: nat)
    requires
        n < slots.len(),
        !(slots[n as int] is Occupied),
    ensures
        occupied_prefix(slots, n + 1) == occupied_prefix(slots, n),
{
    assert(occupied_prefix(slots, n + 1) =~= occupied_prefix(slots, n));
}

/// The keys of the occupied slots among the first `n` are as many as those slots.
pub proof fn lemma_prefix_size<K, V>(slots: Seq<EntryBucket<K, V>>, n: nat)
    requires
        unique_keys(slots),
        n <= slots.len(),
    ensures
        contents(occupied_prefix(slots, n)).dom().finite(),
        contents(occupied_prefix(slots, n)).dom().len() == occupied(occupied_prefix(slots, n)),
    decreases n,
{
    if n == 0 {
        assert(contents(occupied_prefix(slots, 0)) =~= Map::<K, V>::empty());
        lemma_occupied_pattern(occupied_prefix(slots, 0), empty_slots::<K, V>(slots.len()));
        crate::open_addressing::lemma_occupied_empty::<K, V>(slots.len());
    } else {
        let m = (n - 1) as nat;
        lemma_prefix_size(slots, m);
        let prefix = occupied_prefix(slots, m);
        if let EntryBucket::Occupied(bucket) = slots[m as int] {
            lemma_occupied_prefix_unique(slots, m);
            lemma_occupied_prefix_fresh(slots, m);
            crate::open_addressing::continuity::lemma_contents_insert(prefix, m as int, bucket);
            crate::open_addressing::continuity::lemma_occupied_update(
                prefix,
                m as int,
                EntryBucket::Occupied(bucket),
            );
            assert(contents(prefix).insert(bucket.key, *bucket.value).dom() =~= contents(
                prefix,
            ).dom().insert(bucket.key));
        } else {
            lemma_occupied_prefix_skip(slots, m);
        }
    }
}

/// With unique keys, the map has as many keys as the slot array has occupied slots.
pub proof fn lemma_contents_size<K, V>(slots: Seq<EntryBucket<K, V>>)
    requires
        unique_keys(slots),
    ensures
        contents(slots).dom().finite(),
        contents(slots).dom().len() == occupied(slots),
{
    lemma_prefix_size(slots, slots.len());
    lemma_occupied_prefix_all(slots);
}

} // verus!
