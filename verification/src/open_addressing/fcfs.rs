//! The first-come-first-served probe walk.
use vstd::prelude::*;
use vstd::laws_eq::obeys_concrete_eq;

use crate::offsets::{
    home_index, home_slot, lemma_probe_in_range, lemma_probe_index, lemma_probe_returns_home,
    probe_index, probe_slot, OffsetSequence, Offsets,
};
use crate::open_addressing::{Bucket, EntryBucket};
use crate::{EntryResult, RawHashTable};

verus! {

/// How a probe walk ended.
pub struct Walk {
    /// The decision about the key.
    pub result: EntryResult,
    /// The step at which the walk inspected the slot that `result` names; for `Full`,
    /// the step at which it came back to the home slot.
    pub step: nat,
    /// The probe-sequence length: the number of offsets taken before the walk ended.
    pub psl: nat,
}

/// The walk over `slots` for `key` from step `k` on, where `first_tombstone` is the
/// step of the first tombstone passed so far.
///
/// An empty slot ends the walk with a vacancy: the first tombstone if there is one and
/// `skip_tombstones` is set, else the empty slot itself. A slot that holds `key` with
/// `hash` ends it with a hit. Coming back to the home slot ends it with `Full`.
pub open spec fn walk<K, V>(
    slots: Seq<EntryBucket<K, V>>,
    key: K,
    hash: u64,
    offset: OffsetSequence,
    skip_tombstones: bool,
    k: nat,
    first_tombstone: Option<nat>,
) -> Walk
    decreases slots.len() - k,
{
    let cap = slots.len();
    let i = probe_slot(offset, hash, k, cap);
    if k >= cap || (k > 0 && i == home_slot(hash, cap)) {
        Walk { result: EntryResult::Full, step: k, psl: k }
    } else {
        match slots[i as int] {
            EntryBucket::Empty => match first_tombstone {
                Some(t) if skip_tombstones => Walk {
                    result: EntryResult::Vacancy(probe_slot(offset, hash, t, cap) as usize),
                    step: t,
                    psl: k,
                },
                _ => Walk { result: EntryResult::Vacancy(i as usize), step: k, psl: k },
            },
            EntryBucket::Tombstone => walk(
                slots,
                key,
                hash,
                offset,
                skip_tombstones,
                k + 1,
                if first_tombstone is None {
                    Some(k)
                } else {
                    first_tombstone
                },
            ),
            EntryBucket::Occupied(b) => if b.hash == hash && b.key == key {
                Walk { result: EntryResult::Hit(i as usize), step: k, psl: k }
            } else {
                walk(slots, key, hash, offset, skip_tombstones, k + 1, first_tombstone)
            },
        }
    }
}

/// The whole walk for `key`, started at its home slot.
pub open spec fn full_walk<K, V>(
    slots: Seq<EntryBucket<K, V>>,
    key: K,
    hash: u64,
    offset: OffsetSequence,
    skip_tombstones: bool,
) -> Walk {
    walk(slots, key, hash, offset, skip_tombstones, 0, None)
}

/// The decision of the whole walk for `key`.
pub open spec fn probe<K, V>(
    slots: Seq<EntryBucket<K, V>>,
    key: K,
    hash: u64,
    offset: OffsetSequence,
    skip_tombstones: bool,
) -> EntryResult {
    full_walk(slots, key, hash, offset, skip_tombstones).result
}

/// The slots after `bucket` has been inserted first-come-first-served: it is written to
/// the vacancy that the probe for its key finds.
pub open spec fn fcfs_place<K, V>(
    slots: Seq<EntryBucket<K, V>>,
    bucket: Bucket<K, V>,
    offset: OffsetSequence,
) -> Seq<EntryBucket<K, V>> {
    match probe(slots, bucket.key, bucket.hash, offset, true) {
        EntryResult::Vacancy(v) => slots.update(v as int, EntryBucket::Occupied(bucket)),
        _ => slots,
    }
}

/// What the slot named by a walk's decision holds, and where on the walk it lies.
pub proof fn lemma_walk_sound<K, V>(
    slots: Seq<EntryBucket<K, V>>,
    key: K,
    hash: u64,
    offset: OffsetSequence,
    skip_tombstones: bool,
    k: nat,
    first_tombstone: Option<nat>,
)
    requires
        slots.len() > 0,
        slots.len() <= usize::MAX,
        k <= slots.len(),
        first_tombstone matches Some(t) ==> t < k && slots[probe_slot(
            offset,
            hash,
            t,
            slots.len(),
        ) as int] is Tombstone,
    ensures
        ({
            let w = walk(slots, key, hash, offset, skip_tombstones, k, first_tombstone);
            let at = probe_slot(offset, hash, w.step, slots.len());
            &&& w.psl >= k
            &&& w.psl <= slots.len()
            &&& w.step <= w.psl
            &&& at < slots.len()
            &&& match w.result {
                EntryResult::Hit(i) => i == at && w.step == w.psl && w.psl < slots.len() && (
                slots[i as int] matches EntryBucket::Occupied(b) && b.key == key && b.hash
                    == hash),
                EntryResult::Vacancy(i) => i == at && w.psl < slots.len() && (if w.step == w.psl {
                    slots[i as int] is Empty
                } else {
                    skip_tombstones && slots[i as int] is Tombstone
                }),
                EntryResult::Full => w.step == w.psl,
            }
        }),
    decreases slots.len() - k,
{
    let cap = slots.len();
    let i = probe_slot(offset, hash, k, cap);
    lemma_probe_in_range(offset, hash, k, cap);
    if k >= cap || (k > 0 && i == home_slot(hash, cap)) {
        lemma_probe_in_range(offset, hash, k, cap);
    } else {
        match slots[i as int] {
            EntryBucket::Empty => {
                if first_tombstone is Some {
                    lemma_probe_in_range(offset, hash, first_tombstone->0, cap);
                }
            },
            EntryBucket::Tombstone => {
                let next = if first_tombstone is None {
                    Some(k)
                } else {
                    first_tombstone
                };
                lemma_walk_sound(slots, key, hash, offset, skip_tombstones, k + 1, next);
            },
            EntryBucket::Occupied(b) => {
                if !(b.hash == hash && b.key == key) {
                    lemma_walk_sound(
                        slots,
                        key,
                        hash,
                        offset,
                        skip_tombstones,
                        k + 1,
                        first_tombstone,
                    );
                }
            },
        }
    }
}

/// First-come-first-served probing: a key is written to the first free slot of its walk.
pub struct FCFS;

impl FCFS {
    /// Walks the probe sequence of `hash` and reports where `key` is, or where it may go.
    /// The walk takes its offsets from `offset`, which must be fresh, and leaves in it the
    /// number of offsets it took: the probe-sequence length.
    ///
    /// With `tombstone` set, a vacancy is the first tombstone passed, if any; without it,
    /// the empty slot that ended the walk.
    pub fn lookup<K: PartialEq, V>(
        table: &RawHashTable<K, V>,
        key: &K,
        hash: u64,
        offset: &mut Offsets,
        tombstone: bool,
    ) -> (r: EntryResult)
        requires
            table.wf(),
            obeys_concrete_eq::<K>(),
            old(offset).spec_taken() == 0,
        ensures
            r == probe(table@, *key, hash, old(offset).sequence(), tombstone),
            final(offset).sequence() == old(offset).sequence(),
            final(offset).spec_taken() == full_walk(
                table@,
                *key,
                hash,
                old(offset).sequence(),
                tombstone,
            ).psl,
    {
        let hash_index = home_index(hash, table.mask);
        let mut index = hash_index;
        let mut first_tombstone: Option<usize> = None;
        let ghost sequence = offset.sequence();
        let ghost mut tombstone_step: Option<nat> = None;
        proof {
            lemma_probe_returns_home(sequence, hash, table@.len());
        }
        loop
            invariant
                table.wf(),
                obeys_concrete_eq::<K>(),
                offset.sequence() == sequence,
                sequence == old(offset).sequence(),
                offset.spec_taken() < table@.len(),
                hash_index == home_slot(hash, table@.len()),
                index == probe_slot(sequence, hash, offset.spec_taken(), table@.len()),
                offset.spec_taken() > 0 ==> index != hash_index,
                first_tombstone is Some <==> tombstone_step is Some,
                first_tombstone matches Some(t) ==> t == probe_slot(
                    sequence,
                    hash,
                    tombstone_step->0,
                    table@.len(),
                ),
                walk(table@, *key, hash, sequence, tombstone, offset.spec_taken(), tombstone_step)
                    == full_walk(table@, *key, hash, sequence, tombstone),
            decreases table@.len() - offset.spec_taken(),
        {
            match &table.buckets[index] {
                EntryBucket::Empty => {
                    return match first_tombstone {
                        Some(t) if tombstone => EntryResult::Vacancy(t),
                        _ => EntryResult::Vacancy(index),
                    };
                },
                EntryBucket::Tombstone => {
                    if first_tombstone.is_none() {
                        first_tombstone = Some(index);
                        proof {
                            tombstone_step = Some(offset.spec_taken());
                        }
                    }
                },
                EntryBucket::Occupied(entry_bucket) => {
                    proof {
                        reveal(obeys_concrete_eq);
                    }
                    if entry_bucket.hash == hash && entry_bucket.key == *key {
                        return EntryResult::Hit(index);
                    }
                },
            }
            let next_index = probe_index(hash_index, offset.next(), table.mask);
            proof {
                lemma_probe_index(
                    sequence,
                    hash,
                    offset.spec_taken(),
                    next_offset_of(sequence, offset.spec_taken()),
                    table@.len(),
                );
                lemma_probe_returns_home(sequence, hash, table@.len());
            }
            if next_index == hash_index {
                return EntryResult::Full;
            }
            index = next_index;
        }
    }

    /// Takes the entry of `key` out of the table and leaves a tombstone in its slot.
    /// The walk takes its offsets from `offset`, as in `lookup`.
    ///
    /// Removal by tombstone is the only kind there is, so `tombstone` must be set.
    pub fn remove<K: PartialEq, V>(
        table: &mut RawHashTable<K, V>,
        key: &K,
        hash: u64,
        offset: &mut Offsets,
        tombstone: bool,
    ) -> (r: Result<EntryBucket<K, V>, ()>)
        requires
            old(table).wf(),
            obeys_concrete_eq::<K>(),
            old(offset).spec_taken() == 0,
            tombstone,
        ensures
            final(table).mask == old(table).mask,
            match probe(old(table)@, *key, hash, old(offset).sequence(), false) {
                EntryResult::Hit(i) => r == Ok::<EntryBucket<K, V>, ()>(old(table)@[i as int])
                    && final(table)@ == old(table)@.update(i as int, EntryBucket::Tombstone),
                _ => r is Err && final(table)@ == old(table)@,
            },
            final(offset).sequence() == old(offset).sequence(),
            final(offset).spec_taken() == full_walk(
                old(table)@,
                *key,
                hash,
                old(offset).sequence(),
                false,
            ).psl,
    {
        proof {
            lemma_walk_sound(table@, *key, hash, offset.sequence(), false, 0, None);
        }
        match Self::lookup(table, key, hash, offset, false) {
            EntryResult::Hit(i) => {
                let mut entry_bucket = EntryBucket::Tombstone;
                core::mem::swap(&mut table.buckets[i], &mut entry_bucket);
                Ok(entry_bucket)
            },
            _ => Err(()),
        }
    }
}

/// The offset of step `k` as a producer hands it out: reduced modulo 2^64.
pub open spec fn next_offset_of(sequence: OffsetSequence, k: nat) -> u64 {
    (sequence.spec_offset(k) % 0x1_0000_0000_0000_0000) as u64
}

} // verus!
