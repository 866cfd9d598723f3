//! The last-come-first-served shift walk.
use vstd::prelude::*;
use vstd::laws_eq::obeys_concrete_eq;

use crate::offsets::{
    home_index, home_slot, lemma_probe_index, lemma_probe_returns_home, probe_index, probe_slot,
    OffsetSequence, Offsets,
};
use crate::open_addressing::fcfs::{
    full_walk, lemma_walk_sound, next_offset_of, probe, walk, FCFS,
};
use crate::open_addressing::{Bucket, EntryBucket};
use crate::{EntryResult, InsertResult, RawHashTable};

verus! {

/// The slots inspected at the steps `0..=last` of the probe for `hash`.
pub open spec fn path_to(offset: OffsetSequence, hash: u64, last: nat, cap: nat) -> Seq<usize> {
    Seq::new(last + 1, |j: int| probe_slot(offset, hash, j as nat, cap) as usize)
}

/// The slots after the contents of `path[0..n]` have each moved one place along the
/// path, last first; `path[0]` is left empty.
pub open spec fn shift<K, V>(slots: Seq<EntryBucket<K, V>>, path: Seq<usize>, n: nat) -> Seq<
    EntryBucket<K, V>,
>
    decreases n,
{
    if n == 0 {
        slots
    } else {
        shift(
            slots.update(path[n - 1] as int, EntryBucket::Empty).update(
                path[n as int] as int,
                slots[path[n - 1] as int],
            ),
            path,
            (n - 1) as nat,
        )
    }
}

/// The slots after `bucket` has been inserted last-come-first-served: the occupants of
/// its walk up to the vacancy move one step on, and `bucket` takes the home slot.
pub open spec fn lcfs_place<K, V>(
    slots: Seq<EntryBucket<K, V>>,
    bucket: Bucket<K, V>,
    offset: OffsetSequence,
    skip_tombstones: bool,
) -> Seq<EntryBucket<K, V>> {
    let w = full_walk(slots, bucket.key, bucket.hash, offset, skip_tombstones);
    let path = path_to(offset, bucket.hash, w.step, slots.len());
    shift(slots, path, w.step).update(path[0] as int, EntryBucket::Occupied(bucket))
}

/// Last-come-first-served probing: a new key takes its home slot and pushes the
/// occupants of its walk one step on.
pub struct LCFS;

impl LCFS {
    /// Walks the probe sequence of `hash` and records the slots it passes, up to the
    /// slot that the walk decides on. `Err` is a walk that came back to the home slot.
    /// The walk takes its offsets from `offset`, which must be fresh, and leaves in it the
    /// number of offsets it took.
    pub fn lookup_stack<K: PartialEq, V>(
        table: &RawHashTable<K, V>,
        key: &K,
        hash: u64,
        offset: &mut Offsets,
        tombstone: bool,
    ) -> (r: Result<Vec<usize>, ()>)
        requires
            table.wf(),
            obeys_concrete_eq::<K>(),
            old(offset).spec_taken() == 0,
        ensures
            ({
                let w = full_walk(table@, *key, hash, old(offset).sequence(), tombstone);
                &&& match r {
                    Ok(path) => !(w.result is Full) && path@ == path_to(
                        old(offset).sequence(),
                        hash,
                        w.step,
                        table@.len(),
                    ),
                    Err(_) => w.result is Full,
                }
                &&& final(offset).spec_taken() == w.psl
            }),
            final(offset).sequence() == old(offset).sequence(),
    {
        let hash_index = home_index(hash, table.mask);
        let mut index = hash_index;
        let mut buckets: Vec<usize> = Vec::new();
        let mut tombstone_len: Option<usize> = None;
        let ghost sequence = offset.sequence();
        let ghost mut tombstone_step: Option<nat> = None;
        let ghost cap = table@.len();
        proof {
            lemma_probe_returns_home(sequence, hash, cap);
        }
        loop
            invariant
                table.wf(),
                obeys_concrete_eq::<K>(),
                cap == table@.len(),
                offset.sequence() == sequence,
                sequence == old(offset).sequence(),
                offset.spec_taken() < cap,
                hash_index == home_slot(hash, cap),
                index == probe_slot(sequence, hash, offset.spec_taken(), cap),
                offset.spec_taken() > 0 ==> index != hash_index,
                buckets@.len() == offset.spec_taken(),
                forall|j: int|
                    0 <= j < offset.spec_taken() ==> #[trigger] buckets@[j] == probe_slot(
                        sequence,
                        hash,
                        j as nat,
                        cap,
                    ) as usize,
                tombstone_len is Some <==> tombstone_step is Some,
                tombstone_len matches Some(n) ==> n == tombstone_step->0 + 1 && n
                    <= offset.spec_taken(),
                walk(table@, *key, hash, sequence, tombstone, offset.spec_taken(), tombstone_step)
                    == full_walk(table@, *key, hash, sequence, tombstone),
            decreases cap - offset.spec_taken(),
        {
            buckets.push(index);
            match &table.buckets[index] {
                EntryBucket::Empty => {
                    match tombstone_len {
                        Some(n) if tombstone => {
                            buckets.truncate(n);
                        },
                        _ => {},
                    }
                    assert(buckets@ =~= path_to(
                        sequence,
                        hash,
                        full_walk(table@, *key, hash, sequence, tombstone).step,
                        cap,
                    ));
                    return Ok(buckets);
                },
                EntryBucket::Tombstone => {
                    if tombstone_len.is_none() {
                        tombstone_len = Some(buckets.len());
                        proof {
                            tombstone_step = Some(offset.spec_taken());
                        }
                    }
                },
                EntryBucket::Occupied(entry_bucket) => {
                    proof {
                        reveal(obeys_concrete_eq);
                    }
                    if entry_bucket.hash == hash && entry_bucket.key == *key {
                        assert(buckets@ =~= path_to(sequence, hash, offset.spec_taken(), cap));
                        return Ok(buckets);
                    }
                },
            }
            let next_index = probe_index(hash_index, offset.next(), table.mask);
            proof {
                lemma_probe_index(
                    sequence,
                    hash,
                    offset.spec_taken(),
                    next_offset_of(sequence, offset.spec_taken()),
                    cap,
                );
                lemma_probe_returns_home(sequence, hash, cap);
            }
            if next_index == hash_index {
                return Err(());
            }
            index = next_index;
        }
    }

    /// Inserts `bucket` at its home slot, moving the occupants of its walk one step on
    /// into the first free slot. Nothing changes when the key is already stored or the
    /// walk finds no free slot; the bucket then comes back.
    pub fn insert<K: PartialEq, V>(
        table: &mut RawHashTable<K, V>,
        offset: &mut Offsets,
        bucket: Bucket<K, V>,
        tombstone: bool,
    ) -> (r: InsertResult<Bucket<K, V>>)
        requires
            old(table).wf(),
            obeys_concrete_eq::<K>(),
            old(offset).spec_taken() == 0,
        ensures
            final(table).mask == old(table).mask,
            final(table)@.len() == old(table)@.len(),
            final(offset).sequence() == old(offset).sequence(),
            final(offset).spec_taken() == full_walk(
                old(table)@,
                bucket.key,
                bucket.hash,
                old(offset).sequence(),
                tombstone,
            ).psl,
            match probe(old(table)@, bucket.key, bucket.hash, old(offset).sequence(), tombstone) {
                EntryResult::Vacancy(_) => r is Success && final(table)@ == lcfs_place(
                    old(table)@,
                    bucket,
                    old(offset).sequence(),
                    tombstone,
                ),
                EntryResult::Hit(_) => r == InsertResult::AlreadyExist(bucket) && final(table)@
                    == old(table)@,
                EntryResult::Full => r == InsertResult::Full(bucket) && final(table)@ == old(
                    table,
                )@,
            },
    {
        let ghost slots = table@;
        let ghost sequence = offset.sequence();
        let ghost w = full_walk(slots, bucket.key, bucket.hash, sequence, tombstone);
        proof {
            lemma_walk_sound(slots, bucket.key, bucket.hash, sequence, tombstone, 0, None);
        }
        let mut buckets = match Self::lookup_stack(
            table,
            &bucket.key,
            bucket.hash,
            offset,
            tombstone,
        ) {
            Ok(buckets) => buckets,
            Err(_) => {
                return InsertResult::Full(bucket);
            },
        };
        let ghost path = buckets@;
        let mut last_bucket = match buckets.pop() {
            Some(last) => last,
            None => {
                return InsertResult::Full(bucket);
            },
        };
        if let EntryBucket::Occupied(_) = &table.buckets[last_bucket] {
            return InsertResult::AlreadyExist(bucket);
        }
        while buckets.len() > 0
            invariant
                table.wf(),
                table.mask == old(table).mask,
                table@.len() == slots.len(),
                path == path_to(sequence, bucket.hash, w.step, slots.len()),
                forall|j: int| 0 <= j < path.len() ==> #[trigger] path[j] < slots.len(),
                buckets@.len() < path.len(),
                buckets@ == path.subrange(0, buckets@.len() as int),
                last_bucket == path[buckets@.len() as int],
                shift(table@, path, buckets@.len() as nat) == shift(slots, path, w.step),
            decreases buckets@.len(),
        {
            let b = match buckets.pop() {
                Some(b) => b,
                None => last_bucket,
            };
            let mut moved = EntryBucket::Empty;
            core::mem::swap(&mut table.buckets[b], &mut moved);
            table.buckets[last_bucket] = moved;
            last_bucket = b;
            assert(buckets@ =~= path.subrange(0, buckets@.len() as int));
        }
        table.buckets[last_bucket] = EntryBucket::Occupied(bucket);
        InsertResult::Success
    }

    /// The slot in which `key` is stored, if it is. The walk takes its offsets from
    /// `offset`, which must be fresh, and leaves in it the number of offsets it took.
    pub fn lookup<K: PartialEq, V>(
        table: &RawHashTable<K, V>,
        key: &K,
        hash: u64,
        offset: &mut Offsets,
    ) -> (r: Option<usize>)
        requires
            table.wf(),
            obeys_concrete_eq::<K>(),
            old(offset).spec_taken() == 0,
        ensures
            r == match probe(table@, *key, hash, old(offset).sequence(), false) {
                EntryResult::Hit(i) => Some(i),
                _ => None,
            },
            final(offset).sequence() == old(offset).sequence(),
            final(offset).spec_taken() == full_walk(
                table@,
                *key,
                hash,
                old(offset).sequence(),
                false,
            ).psl,
    {
        match FCFS::lookup(table, key, hash, offset, false) {
            EntryResult::Hit(i) => Some(i),
            _ => None,
        }
    }

    /// Takes the entry of `key` out of the table and leaves a tombstone in its slot.
    /// The walk takes its offsets from `offset`, as in `lookup`.
    ///
    /// Removal by tombstone is the only kind there is, so `tombstone` must be set.
    pub fn remove<K: PartialEq, V>(
        table: &mut RawHashTable<K, V>,
        key: &K,
        hash: u64,
        offset: &mut Offsets,
        tombstone: bool,
    ) -> (r: Result<EntryBucket<K, V>, ()>)
        requires
            old(table).wf(),
            obeys_concrete_eq::<K>(),
            old(offset).spec_taken() == 0,
            tombstone,
        ensures
            final(table).mask == old(table).mask,
            match probe(old(table)@, *key, hash, old(offset).sequence(), false) {
                EntryResult::Hit(i) => r == Ok::<EntryBucket<K, V>, ()>(old(table)@[i as int])
                    && final(table)@ == old(table)@.update(i as int, EntryBucket::Tombstone),
                _ => r is Err && final(table)@ == old(table)@,
            },
            final(offset).sequence() == old(offset).sequence(),
            final(offset).spec_taken() == full_walk(
                old(table)@,
                *key,
                hash,
                old(offset).sequence(),
                false,
            ).psl,
    {
        proof {
            lemma_walk_sound(table@, *key, hash, offset.sequence(), false, 0, None);
        }
        match Self::lookup(table, key, hash, offset) {
            Some(i) => {
                let mut entry_bucket = EntryBucket::Tombstone;
                core::mem::swap(&mut table.buckets[i], &mut entry_bucket);
                Ok(entry_bucket)
            },
            None => Err(()),
        }
    }
}

} // verus!
