//! Finding out whether a table can grow, before any entry is moved.
use vstd::prelude::*;

use crate::offsets::{
    home_index, home_slot, is_capacity, lemma_probe_in_range, lemma_probe_index,
    lemma_probe_returns_home, probe_index, probe_slot, OffsetSequence, Offsets,
};
use crate::open_addressing::continuity::holds;
use crate::open_addressing::fcfs::{next_offset_of, walk};
use crate::open_addressing::EntryBucket;
use crate::EntryResult;

verus! {

/// Which slots of a slot array are not empty.
pub open spec fn pattern<K, V>(slots: Seq<EntryBucket<K, V>>) -> Seq<bool> {
    Seq::new(slots.len(), |i: int| !(slots[i] is Empty))
}

/// The first slot from step `k` on of the walk for `hash` that is not taken; `None` if
/// the walk is back home before it meets one.
pub open spec fn free_walk(taken: Seq<bool>, hash: u64, offset: OffsetSequence, k: nat) -> Option<
    usize,
>
    decreases taken.len() - k,
{
    let cap = taken.len();
    let i = probe_slot(offset, hash, k, cap);
    if k >= cap || (k > 0 && i == home_slot(hash, cap)) {
        None
    } else if !taken[i as int] {
        Some(i as usize)
    } else {
        free_walk(taken, hash, offset, k + 1)
    }
}

/// In a slot array without tombstones, the walk for a key that is not stored ends at
/// the first slot that is not taken, or is back home.
pub proof fn lemma_walk_is_free_walk<K, V>(
    slots: Seq<EntryBucket<K, V>>,
    key: K,
    hash: u64,
    offset: OffsetSequence,
    k: nat,
)
    requires
        slots.len() > 0,
        forall|i: int| 0 <= i < slots.len() ==> !(#[trigger] slots[i] is Tombstone),
        forall|i: int| !holds(slots, i, key),
    ensures
        walk(slots, key, hash, offset, true, k, None).result == match free_walk(
            pattern(slots),
            hash,
            offset,
            k,
        ) {
            Some(v) => EntryResult::Vacancy(v),
            None => EntryResult::Full,
        },
    decreases slots.len() - k,
{
    let cap = slots.len();
    let i = probe_slot(offset, hash, k, cap);
    lemma_probe_in_range(offset, hash, k, cap);
    if k >= cap || (k > 0 && i == home_slot(hash, cap)) {
    } else {
        match slots[i as int] {
            EntryBucket::Empty => {},
            EntryBucket::Tombstone => {},
            EntryBucket::Occupied(b) => {
                assert(!holds(slots, i as int, key));
                lemma_walk_is_free_walk(slots, key, hash, offset, k + 1);
            },
        }
    }
}

/// Walks the probe sequence of `hash` over the slots marked as taken and returns the
/// first that is not, if the walk meets one before it is back home. The walk takes its
/// offsets from `offset`, which must be fresh.
pub fn first_free(taken: &Vec<bool>, hash: u64, offset: &mut Offsets, mask: usize) -> (r: Option<
    usize,
>)
    requires
        taken.len() == mask + 1,
        is_capacity(taken@.len()),
        old(offset).spec_taken() == 0,
    ensures
        r == free_walk(taken@, hash, old(offset).sequence(), 0),
        r matches Some(v) ==> v < taken.len() && !taken@[v as int],
        final(offset).sequence() == old(offset).sequence(),
{
    let hash_index = home_index(hash, mask);
    let mut index = hash_index;
    let ghost sequence = offset.sequence();
    let ghost cap = taken@.len();
    proof {
        lemma_probe_returns_home(sequence, hash, cap);
    }
    loop
        invariant
            taken.len() == mask + 1,
            is_capacity(taken@.len()),
            cap == taken@.len(),
            offset.sequence() == sequence,
            sequence == old(offset).sequence(),
            offset.spec_taken() < cap,
            hash_index == home_slot(hash, cap),
            index == probe_slot(sequence, hash, offset.spec_taken(), cap),
            offset.spec_taken() > 0 ==> index != hash_index,
            free_walk(taken@, hash, sequence, offset.spec_taken()) == free_walk(
                taken@,
                hash,
                sequence,
                0,
            ),
        decreases cap - offset.spec_taken(),
    {
        if !taken[index] {
            return Some(index);
        }
        let next_index = probe_index(hash_index, offset.next(), mask);
        proof {
            lemma_probe_index(
                sequence,
                hash,
                offset.spec_taken(),
                next_offset_of(sequence, offset.spec_taken()),
                cap,
            );
            lemma_probe_returns_home(sequence, hash, cap);
        }
        if next_index == hash_index {
            return None;
        }
        index = next_index;
    }
}

} // verus!
