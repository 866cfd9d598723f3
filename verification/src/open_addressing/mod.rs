//! The open-addressing table, its slots and the probing strategies.
use vstd::prelude::*;
use vstd::laws_eq::obeys_concrete_eq;
use vstd::pervasive::cloned;

use std::collections::hash_map::DefaultHasher;
use std::hash::BuildHasherDefault;

use crate::hashing::KeyHasher;
use crate::offsets::Offsets;
use crate::offsets::{
    is_capacity, lemma_capacity_double, lemma_capacity_exponent, lemma_capacity_small,
};
use crate::open_addressing::continuity::{
    contents, holds, lemma_contents_insert, lemma_empty_slots, lemma_find_empty,
    lemma_occupied_bound, lemma_occupied_pattern, lemma_occupied_update, lemma_probe_decides,
    lemma_tombstone, lemma_vacant_bound, occupied, reachable, slot_inv, table_inv, vacant,
};
use crate::open_addressing::coverage::{
    covering, lemma_covering_grows_once, lemma_covering_insert_slots, lemma_covering_not_full,
};
use crate::open_addressing::fcfs::{full_walk, probe};
use crate::open_addressing::growth::{
    attempt_slots, grow, grow_samples, insert_sample, insert_samples, insert_slots, lemma_contents_size,
    lemma_occupied_prefix_all, lemma_occupied_prefix_fresh, lemma_occupied_prefix_skip,
    lemma_occupied_prefix_unique, lemma_place_same, lemma_rehash_fails_on, lemma_rehash_same,
    occupied_prefix, place, place_samples, rehash, rehash_samples, settle,
};
use crate::open_addressing::rehearsal::{first_free, lemma_walk_is_free_walk, pattern};
use crate::{
    default_load_factor, hashes_of, lemma_same_probing, offsets_of, psl_sample, recorded_more,
    same_probing, Entry, EntryResult, HashMap, InsertResult, LoadFactor, RawHashTable,
    INITIAL_SIZE,
};

pub mod continuity;
pub mod coverage;
pub mod double_hashing;
pub mod fcfs;
pub mod growth;
pub mod lcfs;
pub mod linear_probing;
pub mod quadratic_probing;
pub mod rehearsal;
pub mod shifting;

pub use double_hashing::FcfsDoubleHashing;
pub use fcfs::FCFS;
pub use lcfs::LCFS;
pub use linear_probing::{FcfsLinearProbing, LcfsLinearProbing};
pub use quadratic_probing::FcfsQuadraticProbing;

verus! {

/// The payload of an occupied slot: the key, its hash and the value behind an owned
/// indirection, which keeps the slot small whatever the value's size.
pub struct Bucket<K, V> {
    pub key: K,
    pub hash: u64,
    pub value: Box<V>,
}

/// One slot of the backing array.
pub enum EntryBucket<K, V> {
    /// Never used since the array was allocated.
    Empty,
    /// Holds a live entry.
    Occupied(Bucket<K, V>),
    /// Held an entry that was removed; probes pass over it.
    Tombstone,
}

impl<K, V> EntryBucket<K, V> {
    /// An array of `size` slots, all of them empty.
    pub fn allocate(size: usize) -> (buckets: Vec<Self>)
        ensures
            buckets@.len() == size,
            forall|i: int| 0 <= i < size ==> #[trigger] buckets@[i] is Empty,
            buckets@ == empty_slots::<K, V>(size as nat),
    {
        let mut buckets: Vec<Self> = Vec::with_capacity(size);
        let mut i: usize = 0;
        while i < size
            invariant
                i <= size,
                buckets@.len() == i,
                forall|j: int| 0 <= j < i ==> #[trigger] buckets@[j] is Empty,
            decreases size - i,
        {
            buckets.push(EntryBucket::Empty);
            i = i + 1;
        }
        assert(buckets@ =~= empty_slots::<K, V>(size as nat));
        buckets
    }
}

/// The slot array right after allocation.
pub open spec fn empty_slots<K, V>(cap: nat) -> Seq<EntryBucket<K, V>> {
    Seq::new(cap, |i: int| EntryBucket::Empty)
}

/// What the table needs of its key type: `==` tells whether two keys are the same, and
/// a clone of a key is that key.
pub open spec fn key_laws<K: PartialEq + Clone>() -> bool {
    &&& obeys_concrete_eq::<K>()
    &&& forall|a: K, b: K| #[trigger] cloned::<K>(a, b) ==> a == b
}

/// `u64` keys meet the requirements of the table.
pub proof fn lemma_u64_key_laws()
    ensures
        key_laws::<u64>(),
{
    reveal(obeys_concrete_eq);
}

/// A map from keys to values, kept in an open-addressing table: one array of slots, in
/// which the strategy `E` finds a place for each key, starting from the hash that the
/// hasher `S` gives it.
pub struct OpenAddressingHashTable<K, V, E, S = BuildHasherDefault<DefaultHasher>> where
    K: PartialEq + Clone,
    E: Entry<K, V>,
    S: KeyHasher<K>,
 {
    hasher: S,
    inner: RawHashTable<K, V>,
    count: usize,
    load_factor: LoadFactor,
    entry: E,
}

impl<K, V, E, S> View for OpenAddressingHashTable<K, V, E, S> where
    K: PartialEq + Clone,
    E: Entry<K, V>,
    S: KeyHasher<K>,
 {
    type V = Map<K, V>;

    /// The map that the table stands for.
    open spec fn view(&self) -> Map<K, V> {
        contents(self.slots())
    }
}

impl<K, V, E, S> OpenAddressingHashTable<K, V, E, S> where
    K: PartialEq + Clone,
    E: Entry<K, V>,
    S: KeyHasher<K>,
 {
    /// The slot array.
    pub closed spec fn slots(&self) -> Seq<EntryBucket<K, V>> {
        self.inner@
    }

    /// The strategy.
    pub closed spec fn strategy(&self) -> E {
        self.entry
    }

    /// The hasher.
    pub closed spec fn hasher(&self) -> S {
        self.hasher
    }

    /// The load factor.
    pub closed spec fn load_factor(&self) -> LoadFactor {
        self.load_factor
    }

    /// The number of entries.
    pub closed spec fn spec_count(&self) -> nat {
        self.count as nat
    }

    /// The number of slots.
    pub open spec fn spec_capacity(&self) -> nat {
        self.slots().len()
    }

    /// The number of empty slots: slots that no key was written to since the slot array
    /// was allocated.
    pub open spec fn spec_vacant(&self) -> nat {
        vacant(self.slots())
    }

    /// The index mask is the number of slots less one.
    pub closed spec fn coherent(&self) -> bool {
        self.inner.wf()
    }

    /// The invariant of the table: the number of slots is a power of two, the load
    /// factor lies in (0, 1], the count is the number of occupied slots, every occupied
    /// slot stores the hash of its key and is reached by the walk of its key, no key is
    /// stored twice, and the key type meets the table's requirements.
    pub open spec fn wf(&self) -> bool {
        &&& self.coherent()
        &&& is_capacity(self.spec_capacity())
        &&& self.load_factor().wf()
        &&& self.spec_count() == occupied(self.slots())
        &&& table_inv(self.slots(), offsets_of(self.strategy()), hashes_of(self.hasher()))
        &&& key_laws::<K>()
    }

    /// The count does not exceed the growth threshold, and the threshold is not zero.
    pub open spec fn within_load(&self) -> bool {
        let threshold = self.load_factor().spec_threshold(self.spec_capacity());
        1 <= threshold && self.spec_count() <= threshold
    }

    /// A table of `initial_size` slots, which must be a power of two, that grows when
    /// `load_factor` of its slots are taken.
    pub fn new_with_properties(
        hasher: S,
        entry: E,
        initial_size: usize,
        load_factor: LoadFactor,
    ) -> (table: Self)
        requires
            is_capacity(initial_size as nat),
            load_factor.wf(),
            key_laws::<K>(),
        ensures
            table.wf(),
            table@ == Map::<K, V>::empty(),
            table.spec_capacity() == initial_size,
            table.spec_count() == 0,
            table.spec_vacant() == initial_size,
            table.hasher() == hasher,
            table.strategy() == entry,
            table.load_factor() == load_factor,
    {
        proof {
            lemma_capacity_exponent(initial_size as nat);
            lemma_vacant_empty::<K, V>(initial_size as nat);
            lemma_empty_slots::<K, V>(initial_size as nat, offsets_of(entry), hashes_of(hasher));
            assert(occupied(empty_slots::<K, V>(initial_size as nat)) == 0) by {
                lemma_occupied_empty::<K, V>(initial_size as nat);
            }
        }
        Self {
            hasher,
            inner: RawHashTable {
                buckets: EntryBucket::<K, V>::allocate(initial_size),
                mask: initial_size - 1,
            },
            count: 0,
            load_factor,
            entry,
        }
    }

    /// The number of slots.
    pub fn capacity(&self) -> (c: usize)
        ensures
            c == self.spec_capacity(),
    {
        self.inner.buckets.len()
    }

    /// The number of entries.
    pub fn count(&self) -> (c: usize)
        ensures
            c == self.spec_count(),
    {
        self.count
    }

    /// The slot with the given index.
    pub fn slot(&self, index: usize) -> (slot: &EntryBucket<K, V>)
        requires
            index < self.spec_capacity(),
        ensures
            *slot == self.slots()[index as int],
    {
        self.inner.slot(index)
    }

    /// The strategy of the table.
    pub fn entry(&self) -> (e: &E)
        ensures
            *e == self.strategy(),
    {
        &self.entry
    }

    /// The strategy probes for every key along a sequence that visits every slot.
    pub open spec fn covering(&self) -> bool {
        covering::<K, V, E>(self.strategy())
    }

    /// The number of entries has reached the threshold of the load factor, so that the
    /// next insertion grows the table first.
    pub open spec fn needs_growth(&self) -> bool {
        self.spec_count() >= self.load_factor().spec_threshold(self.spec_capacity())
    }

    /// The probe for `key` ends in `Full`, in the table as it is when an insertion
    /// looks for a place, so that the insertion grows the table.
    pub open spec fn finds_full(&self, key: K) -> bool {
        match settle(self.strategy(), self.load_factor(), self.slots()) {
            Some(settled) => probe(
                settled,
                key,
                self.hasher().spec_hash_one(key),
                self.strategy().offsets(key),
                true,
            ) is Full,
            None => false,
        }
    }

    /// The number of slots after an insertion of `key`: twice as many if the count has
    /// reached the threshold, and twice as many again if the probe ends in `Full`.
    pub open spec fn insert_capacity(&self, key: K) -> nat {
        let settled = if self.needs_growth() {
            2 * self.spec_capacity()
        } else {
            self.spec_capacity()
        };
        if self.finds_full(key) {
            2 * settled
        } else {
            settled
        }
    }

    /// A table whose strategy visits every slot can take any key, as long as twice its
    /// number of slots fits a `usize`.
    pub proof fn lemma_insertable(&self, key: K, value: V)
        requires
            self.wf(),
            self.covering(),
            2 * self.spec_capacity() <= usize::MAX,
        ensures
            self.insert_slots(key, value) is Some,
            self.insert_capacity(key) <= 2 * self.spec_capacity(),
    {
        let bucket = self.bucket_of(key, value);
        lemma_covering_insert_slots(
            self.strategy(),
            self.load_factor(),
            self.slots(),
            hashes_of(self.hasher()),
            bucket,
        );
        lemma_covering_grows_once(
            self.strategy(),
            self.load_factor(),
            self.slots(),
            hashes_of(self.hasher()),
            bucket,
        );
    }

    /// In a table whose strategy visits every slot, the probe of an insertion does not
    /// end in `Full` if the table grows first or has an empty slot.
    pub proof fn lemma_finds_room(&self, key: K)
        requires
            self.wf(),
            self.covering(),
            2 * self.spec_capacity() <= usize::MAX,
            self.needs_growth() || self.spec_vacant() > 0,
        ensures
            !self.finds_full(key),
    {
        if self.needs_growth() {
            lemma_covering_grows_once(
                self.strategy(),
                self.load_factor(),
                self.slots(),
                hashes_of(self.hasher()),
                self.bucket_of(key, arbitrary()),
            );
        } else {
            let empty = lemma_find_empty(self.slots());
            assert(self.strategy().offsets(key).covering());
            lemma_covering_not_full(
                self.slots(),
                key,
                self.hasher().spec_hash_one(key),
                self.strategy().offsets(key),
                true,
                empty,
            );
        }
    }

    /// Uniqueness: no key is stored in two slots, the keys of the map are the keys of
    /// the occupied slots, and the count is their number.
    pub proof fn lemma_unique_keys(&self)
        requires
            self.wf(),
        ensures
            forall|i: int, j: int|
                0 <= i < self.slots().len() && 0 <= j < self.slots().len() && (
                #[trigger] self.slots()[i]) is Occupied && (#[trigger] self.slots()[j]) is Occupied
                    && self.slots()[i]->Occupied_0.key == self.slots()[j]->Occupied_0.key ==> i
                    == j,
            forall|key: K| #[trigger]
                self@.contains_key(key) <==> exists|i: int| holds(self.slots(), i, key),
            self@.dom().finite(),
            self@.dom().len() == self.spec_count(),
    {
        let slots = self.slots();
        assert forall|i: int, j: int|
            0 <= i < slots.len() && 0 <= j < slots.len() && (#[trigger] slots[i]) is Occupied && (
            #[trigger] slots[j]) is Occupied && slots[i]->Occupied_0.key
                == slots[j]->Occupied_0.key implies i == j by {
            assert(holds(slots, j, slots[i]->Occupied_0.key));
        }
        lemma_contents_size(slots);
    }

    /// Probe continuity: every occupied slot stores the hash of its key, and the walk
    /// of the strategy for that key reaches the slot before it meets an empty slot or
    /// comes back to the home slot.
    pub proof fn lemma_probe_continuity(&self, i: int)
        requires
            self.wf(),
            0 <= i < self.spec_capacity(),
            self.slots()[i] is Occupied,
        ensures
            self.slots()[i]->Occupied_0.hash == self.hasher().spec_hash_one(
                self.slots()[i]->Occupied_0.key,
            ),
            reachable(
                self.slots(),
                self.strategy().offsets(self.slots()[i]->Occupied_0.key),
                self.slots()[i]->Occupied_0.hash,
                i,
            ),
    {
        assert(slot_inv(
            self.slots(),
            offsets_of(self.strategy()),
            hashes_of(self.hasher()),
            i,
        ));
    }

    /// Size bound: a table within its load has at most the fraction of its slots taken
    /// that the load factor names.
    pub proof fn lemma_size_bound(&self)
        requires
            self.wf(),
            self.within_load(),
        ensures
            self.spec_count() * self.load_factor().denominator <= self.spec_capacity()
                * self.load_factor().numerator,
    {
        self.load_factor().lemma_threshold_bound(self.spec_count(), self.spec_capacity());
    }

    /// The bucket under which the table stores `key` with `value`.
    pub open spec fn bucket_of(&self, key: K, value: V) -> Bucket<K, V> {
        Bucket { key, hash: self.hasher().spec_hash_one(key), value: Box::new(value) }
    }

    /// The slot array after `key` has been inserted with `value`; `None` where the table
    /// would have to grow and cannot: twice the number of slots does not fit a `usize`,
    /// or the strategy finds no free slot for an entry, or for the new key, in the grown
    /// array.
    pub open spec fn insert_slots(&self, key: K, value: V) -> Option<Seq<EntryBucket<K, V>>> {
        insert_slots(self.strategy(), self.load_factor(), self.slots(), self.bucket_of(key, value))
    }

    /// The table has room for `key`, or can make room by growing: its strategy visits
    /// every slot and twice the number of slots fits a `usize`; or, whatever the
    /// strategy, the slot array after the insertion exists.
    pub open spec fn can_insert(&self, key: K, value: V) -> bool {
        ||| self.covering() && 2 * self.spec_capacity() <= usize::MAX
        ||| self.insert_slots(key, value) is Some
    }

    /// The samples that a recording strategy records during an insertion of `key` with
    /// `value`: the length of the probe for the key and, where the table grows, the
    /// lengths of the probes that move the entries into the grown array.
    pub open spec fn insert_samples(&self, key: K, value: V) -> Seq<u8> {
        insert_samples(
            self.strategy(),
            self.load_factor(),
            self.slots(),
            self.bucket_of(key, value),
        )
    }

    /// The sample that a recording strategy records during a removal of `key`: the
    /// length of the probe for the key.
    pub open spec fn remove_sample(&self, key: K) -> u8 {
        psl_sample(
            full_walk(
                self.slots(),
                key,
                self.hasher().spec_hash_one(key),
                self.strategy().offsets(key),
                false,
            ).psl,
        )
    }

    /// Moves every entry into a new slot array of `new_size` slots, twice as many as
    /// before. Tombstones are left behind.
    fn resize(&mut self, new_size: usize)
        requires
            old(self).wf(),
            new_size == 2 * old(self).spec_capacity(),
            grow(old(self).strategy(), old(self).slots()) is Some,
        ensures
            final(self).wf(),
            Some(final(self).slots()) == grow(old(self).strategy(), old(self).slots()),
            final(self).spec_capacity() == new_size,
            final(self)@ == old(self)@,
            final(self).spec_count() == old(self).spec_count(),
            final(self).spec_vacant() + final(self).spec_count() == new_size,
            final(self).hasher() == old(self).hasher(),
            final(self).load_factor() == old(self).load_factor(),
            same_probing(final(self).strategy(), old(self).strategy()),
            recorded_more(
                old(self).strategy(),
                final(self).strategy(),
                grow_samples(old(self).strategy(), old(self).slots()),
                Seq::empty(),
            ),
    {
        let ghost old_slots = self.inner@;
        let ghost entry0 = self.entry;
        let ghost hasher0 = self.hasher;
        let ghost load_factor0 = self.load_factor;
        let ghost hashes = hashes_of(self.hasher);
        let ghost offsets = offsets_of(self.entry);
        proof {
            lemma_capacity_double(old_slots.len());
            lemma_empty_slots::<K, V>(new_size as nat, offsets, hashes);
            lemma_occupied_empty::<K, V>(new_size as nat);
            lemma_vacant_empty::<K, V>(new_size as nat);
            assert(contents(occupied_prefix(old_slots, 0)) =~= Map::<K, V>::empty());
            lemma_occupied_pattern(occupied_prefix(old_slots, 0), empty_slots::<K, V>(old_slots.len()));
            lemma_occupied_empty::<K, V>(old_slots.len());
        }
        let mut old_inner = RawHashTable {
            buckets: EntryBucket::<K, V>::allocate(new_size),
            mask: new_size - 1,
        };
        core::mem::swap(&mut self.inner, &mut old_inner);
        self.count = 0;
        let old_len = old_inner.buckets.len();
        proof {
            assert(entry0.recorded().0 + Seq::<u8>::empty() =~= entry0.recorded().0);
            assert(entry0.recorded().1 + Seq::<u8>::empty() =~= entry0.recorded().1);
        }
        let mut index: usize = 0;
        while index < old_len
            invariant
                index <= old_len,
                old_len == old_slots.len(),
                old_inner.buckets@.len() == old_len,
                forall|j: int| index <= j < old_len ==> #[trigger] old_inner.buckets@[j] == old_slots[j],
                self.inner.wf(),
                self.inner@.len() == new_size,
                Some(self.inner@) == rehash(entry0, old_slots, index as nat, new_size as nat),
                rehash(entry0, old_slots, old_len as nat, new_size as nat) is Some,
                table_inv(old_slots, offsets, hashes),
                table_inv(self.inner@, offsets, hashes),
                contents(self.inner@) == contents(occupied_prefix(old_slots, index as nat)),
                self.count == occupied(self.inner@),
                self.count == occupied(occupied_prefix(old_slots, index as nat)),
                vacant(self.inner@) + occupied(self.inner@) == new_size,
                same_probing(self.entry, entry0),
                recorded_more(
                    entry0,
                    self.entry,
                    rehash_samples(entry0, old_slots, index as nat, new_size as nat),
                    Seq::empty(),
                ),
                offsets == offsets_of(entry0),
                hashes == hashes_of(hasher0),
                self.hasher == hasher0,
                self.load_factor == load_factor0,
                key_laws::<K>(),
            decreases old_len - index,
        {
            let mut entry_bucket = EntryBucket::Empty;
            core::mem::swap(&mut old_inner.buckets[index], &mut entry_bucket);
            if let EntryBucket::Occupied(bucket) = entry_bucket {
                let ghost target = self.inner@;
                let ghost current = self.entry;
                proof {
                    assert(old_slots[index as int] == EntryBucket::Occupied(bucket));
                    if rehash(entry0, old_slots, (index + 1) as nat, new_size as nat) is None {
                        lemma_rehash_fails_on(
                            entry0,
                            old_slots,
                            (index + 1) as nat,
                            old_len as nat,
                            new_size as nat,
                        );
                    }
                    assert(current.offsets(bucket.key) == entry0.offsets(bucket.key));
                    assert(current.placed(target, bucket) == entry0.placed(target, bucket));
                    lemma_same_probing::<K, V, E>(current, entry0);
                    assert(slot_inv(old_slots, offsets, hashes, index as int));
                    current.lemma_placed(target, hashes, bucket);
                    lemma_occupied_prefix_unique(old_slots, index as nat);
                    lemma_occupied_prefix_fresh(old_slots, index as nat);
                    lemma_contents_insert(
                        occupied_prefix(old_slots, index as nat),
                        index as int,
                        bucket,
                    );
                    lemma_occupied_update(
                        occupied_prefix(old_slots, index as nat),
                        index as int,
                        EntryBucket::Occupied(bucket),
                    );
                    lemma_occupied_bound(entry0.placed(target, bucket));
                    lemma_vacant_bound(entry0.placed(target, bucket));
                }
                match self.entry.insert(&mut self.inner, bucket) {
                    InsertResult::Success => {
                        self.count = self.count + 1;
                    },
                    _ => {
                        vstd::pervasive::unreached::<()>();
                    },
                }
                proof {
                    let before = rehash_samples(entry0, old_slots, index as nat, new_size as nat);
                    let sample = insert_sample(entry0, target, bucket);
                    assert(rehash_samples(entry0, old_slots, (index + 1) as nat, new_size as nat)
                        == before.push(sample));
                    assert((entry0.recorded().0 + before).push(sample) =~= entry0.recorded().0
                        + before.push(sample));
                }
            } else {
                proof {
                    lemma_occupied_prefix_skip(old_slots, index as nat);
                }
            }
            index = index + 1;
        }
        proof {
            lemma_occupied_prefix_all(old_slots);
            lemma_same_probing::<K, V, E>(self.entry, entry0);
        }
    }

    /// Whether the table can grow: twice the number of slots fits a `usize`, and the
    /// strategy finds a free slot for every entry in an array of that size. No entry is
    /// moved to find out.
    pub fn can_grow(&self) -> (b: bool)
        requires
            self.wf(),
        ensures
            b == (grow(self.strategy(), self.slots()) is Some),
    {
        let old_len = self.inner.buckets.len();
        if old_len > usize::MAX / 2 {
            return false;
        }
        let new_size = old_len * 2;
        let mask = new_size - 1;
        let mut taken: Vec<bool> = Vec::with_capacity(new_size);
        let mut filled: usize = 0;
        while filled < new_size
            invariant
                filled <= new_size,
                taken@.len() == filled,
                forall|i: int| 0 <= i < filled ==> !(#[trigger] taken@[i]),
            decreases new_size - filled,
        {
            taken.push(false);
            filled = filled + 1;
        }
        let ghost slots = self.inner@;
        let ghost entry = self.entry;
        let ghost hashes = hashes_of(self.hasher);
        let ghost offsets = offsets_of(self.entry);
        let ghost mut target = empty_slots::<K, V>(new_size as nat);
        proof {
            lemma_capacity_double(slots.len());
            lemma_empty_slots::<K, V>(new_size as nat, offsets, hashes);
            assert(contents(occupied_prefix(slots, 0)) =~= Map::<K, V>::empty());
            assert(taken@ =~= pattern(target));
        }
        let mut index: usize = 0;
        while index < old_len
            invariant
                index <= old_len,
                old_len == slots.len(),
                slots == self.inner@,
                entry == self.entry,
                self.wf(),
                new_size == 2 * old_len,
                mask == new_size - 1,
                is_capacity(new_size as nat),
                taken@.len() == new_size,
                taken@ == pattern(target),
                Some(target) == rehash(entry, slots, index as nat, new_size as nat),
                table_inv(slots, offsets, hashes),
                table_inv(target, offsets, hashes),
                contents(target) == contents(occupied_prefix(slots, index as nat)),
                forall|i: int| 0 <= i < target.len() ==> !(#[trigger] target[i] is Tombstone),
                offsets == offsets_of(entry),
            decreases old_len - index,
        {
            match &self.inner.buckets[index] {
                EntryBucket::Occupied(bucket) => {
                    let sequence = self.entry.probe_sequence(&bucket.key);
                    let mut offset = Offsets::new(sequence);
                    proof {
                        assert(slot_inv(slots, offsets, hashes, index as int));
                        lemma_occupied_prefix_unique(slots, index as nat);
                        lemma_occupied_prefix_fresh(slots, index as nat);
                        assert forall|i: int| !holds(target, i, bucket.key) by {}
                        lemma_walk_is_free_walk(target, bucket.key, bucket.hash, sequence, 0);
                    }
                    match first_free(&taken, bucket.hash, &mut offset, mask) {
                        Some(v) => {
                            taken[v] = true;
                            proof {
                                entry.lemma_placed(target, hashes, *bucket);
                                lemma_contents_insert(
                                    occupied_prefix(slots, index as nat),
                                    index as int,
                                    *bucket,
                                );
                                let placed = entry.placed(target, *bucket);
                                assert(taken@ =~= pattern(placed));
                                target = placed;
                            }
                        },
                        None => {
                            proof {
                                lemma_rehash_fails_on(
                                    entry,
                                    slots,
                                    (index + 1) as nat,
                                    old_len as nat,
                                    new_size as nat,
                                );
                            }
                            return false;
                        },
                    }
                },
                _ => {
                    proof {
                        lemma_occupied_prefix_skip(slots, index as nat);
                    }
                },
            }
            index = index + 1;
        }
        true
    }

    /// The slot array after an attempt to insert `key` with `value`: after the insertion
    /// where the table can take the key, and else as far as the table has grown before it
    /// turned out that it cannot.
    pub open spec fn attempt_slots(&self, key: K, value: V) -> Seq<EntryBucket<K, V>> {
        attempt_slots(
            self.strategy(),
            self.load_factor(),
            self.slots(),
            self.bucket_of(key, value),
        )
    }

    /// Stores `value` under `key` if the table has room for it or can make room by
    /// growing, as `insert` does; if it cannot, the value comes back in `Full` and the map
    /// stays as it is. When the key is stored already, the value comes back in
    /// `AlreadyExist`.
    pub fn try_insert(&mut self, key: &K, value: V) -> (r: InsertResult<V>)
        requires
            old(self).wf(),
        ensures
            final(self).wf(),
            final(self).slots() == old(self).attempt_slots(*key, value),
            ({
                let possible = old(self).insert_slots(*key, value);
                let present = old(self)@.contains_key(*key);
                let count = old(self).spec_count();
                &&& possible is Some ==> final(self).slots() == possible->0
                &&& match r {
                    InsertResult::Success => {
                        &&& possible is Some
                        &&& !present
                        &&& final(self)@ == old(self)@.insert(*key, value)
                        &&& final(self).spec_count() == count + 1
                    },
                    InsertResult::AlreadyExist(v) => {
                        &&& possible is Some
                        &&& present
                        &&& v == value
                        &&& final(self)@ == old(self)@
                        &&& final(self).spec_count() == count
                    },
                    InsertResult::Full(v) => {
                        &&& possible is None
                        &&& v == value
                        &&& final(self)@ == old(self)@
                        &&& final(self).spec_count() == count
                    },
                }
            }),
            final(self).spec_capacity() >= old(self).spec_capacity(),
            old(self).within_load() && !(r is Full) ==> final(self).within_load(),
            final(self).hasher() == old(self).hasher(),
            final(self).load_factor() == old(self).load_factor(),
            same_probing(final(self).strategy(), old(self).strategy()),
            recorded_more(
                old(self).strategy(),
                final(self).strategy(),
                old(self).insert_samples(*key, value),
                Seq::empty(),
            ),
    {
        let ghost entry0 = self.entry;
        let ghost slots = self.inner@;
        let ghost hashes = hashes_of(self.hasher);
        let ghost capacity0 = self.inner@.len();
        let ghost load_factor = self.load_factor;
        let hash = self.hasher.hash_one(key);
        let stored_key = key.clone();
        assert(cloned::<K>(*key, stored_key));
        let bucket = Bucket { key: stored_key, hash, value: Box::new(value) };
        assert(bucket == self.bucket_of(*key, value));
        proof {
            assert(entry0.recorded().0 + Seq::<u8>::empty() =~= entry0.recorded().0);
            assert(entry0.recorded().1 + Seq::<u8>::empty() =~= entry0.recorded().1);
        }
        if self.count >= self.load_factor.threshold(self.inner.buckets.len()) {
            if !self.can_grow() {
                return InsertResult::Full(*bucket.value);
            }
            let new_size = self.inner.buckets.len() * 2;
            self.resize(new_size);
        }
        let ghost capacity1 = self.inner@.len();
        let ghost entry1 = self.entry;
        let ghost settled = self.inner@;
        let ghost moved = if capacity1 == capacity0 {
            Seq::<u8>::empty()
        } else {
            grow_samples(entry0, slots)
        };
        let ghost first = insert_sample(entry0, settled, bucket);
        proof {
            lemma_place_same(entry1, entry0, settled, bucket);
            lemma_same_probing::<K, V, E>(entry1, entry0);
            assert(entry1.offsets(*key) == entry0.offsets(*key));
            assert(entry1.placed(settled, bucket) == entry0.placed(settled, bucket));
            assert(Seq::<u8>::empty() + seq![first] =~= seq![first]);
            assert((entry0.recorded().0 + moved).push(first) =~= entry0.recorded().0 + (moved
                + seq![first]));
            lemma_probe_decides(settled, offsets_of(entry1), hashes, bucket.key, true);
            if probe(settled, bucket.key, bucket.hash, entry1.offsets(bucket.key), true)
                is Vacancy {
                entry1.lemma_placed(settled, hashes, bucket);
                lemma_occupied_bound(entry1.placed(settled, bucket));
            }
            load_factor.lemma_threshold_monotone(capacity0, capacity1);
            load_factor.lemma_threshold_double(capacity0);
        }
        match self.entry.insert(&mut self.inner, bucket) {
            InsertResult::Success => {
                proof {
                    lemma_same_probing::<K, V, E>(self.entry, entry0);
                }
                self.count = self.count + 1;
                InsertResult::Success
            },
            InsertResult::AlreadyExist(bucket) => {
                proof {
                    lemma_same_probing::<K, V, E>(self.entry, entry0);
                }
                InsertResult::AlreadyExist(*bucket.value)
            },
            InsertResult::Full(bucket) => {
                let ghost tried = self.entry;
                proof {
                    lemma_same_probing::<K, V, E>(tried, entry0);
                    lemma_place_same(tried, entry0, settled, bucket);
                }
                if !self.can_grow() {
                    return InsertResult::Full(*bucket.value);
                }
                let new_size = self.inner.buckets.len() * 2;
                self.resize(new_size);
                let ghost entry2 = self.entry;
                let ghost grown = self.inner@;
                proof {
                    let regrown = grow_samples(entry0, settled);
                    let last = insert_sample(entry0, grown, bucket);
                    assert(tried.recorded().1 + Seq::<u8>::empty() =~= tried.recorded().1);
                    assert(((entry0.recorded().0 + moved).push(first) + regrown).push(last)
                        =~= entry0.recorded().0 + (moved + (seq![first] + regrown).push(last)));
                    assert(Seq::<u8>::empty() + (seq![first] + regrown).push(last) =~= (seq![first]
                        + regrown).push(last));
                    assert(entry2.offsets(bucket.key) == entry0.offsets(bucket.key));
                    assert(entry2.placed(grown, bucket) == entry0.placed(grown, bucket));
                    lemma_same_probing::<K, V, E>(entry2, entry0);
                    lemma_probe_decides(grown, offsets_of(entry2), hashes, bucket.key, true);
                    if probe(grown, bucket.key, bucket.hash, entry2.offsets(bucket.key), true)
                        is Vacancy {
                        entry2.lemma_placed(grown, hashes, bucket);
                        lemma_occupied_bound(entry2.placed(grown, bucket));
                    }
                    load_factor.lemma_threshold_monotone(capacity1, 2 * capacity1);
                }
                match self.entry.insert(&mut self.inner, bucket) {
                    InsertResult::Success => {
                        proof {
                            lemma_same_probing::<K, V, E>(self.entry, entry0);
                        }
                        self.count = self.count + 1;
                        InsertResult::Success
                    },
                    InsertResult::AlreadyExist(_) => vstd::pervasive::unreached(),
                    InsertResult::Full(bucket) => {
                        proof {
                            lemma_same_probing::<K, V, E>(self.entry, entry0);
                        }
                        InsertResult::Full(*bucket.value)
                    },
                }
            },
        }
    }

    /// Inserts `bucket`, growing the table once if the strategy finds no free slot.
    fn insert_bucket(&mut self, bucket: Bucket<K, V>) -> (r: Result<(), V>)
        requires
            old(self).wf(),
            bucket.hash == old(self).hasher().spec_hash_one(bucket.key),
            place(old(self).strategy(), old(self).slots(), bucket) is Some,
        ensures
            final(self).wf(),
            Some(final(self).slots()) == place(old(self).strategy(), old(self).slots(), bucket),
            final(self).spec_capacity() == if probe(
                old(self).slots(),
                bucket.key,
                bucket.hash,
                old(self).strategy().offsets(bucket.key),
                true,
            ) is Full {
                2 * old(self).spec_capacity()
            } else {
                old(self).spec_capacity()
            },
            final(self).spec_capacity() == old(self).spec_capacity() ==> final(self).spec_vacant()
                <= old(self).spec_vacant() <= final(self).spec_vacant() + 1,
            final(self).spec_capacity() != old(self).spec_capacity() ==> final(self).spec_vacant()
                + final(self).spec_count() == final(self).spec_capacity(),
            final(self).spec_capacity() == old(self).spec_capacity() && r is Err
                ==> final(self).spec_vacant() == old(self).spec_vacant(),
            match r {
                Ok(_) => !old(self)@.contains_key(bucket.key) && final(self)@ == old(self)@.insert(
                    bucket.key,
                    *bucket.value,
                ) && final(self).spec_count() == old(self).spec_count() + 1,
                Err(value) => value == *bucket.value && old(self)@.contains_key(bucket.key)
                    && final(self)@ == old(self)@ && final(self).spec_count() == old(
                    self,
                ).spec_count(),
            },
            final(self).hasher() == old(self).hasher(),
            final(self).load_factor() == old(self).load_factor(),
            same_probing(final(self).strategy(), old(self).strategy()),
            recorded_more(
                old(self).strategy(),
                final(self).strategy(),
                place_samples(old(self).strategy(), old(self).slots(), bucket),
                Seq::empty(),
            ),
    {
        let ghost entry0 = self.entry;
        let ghost slots = self.inner@;
        let ghost hashes = hashes_of(self.hasher);
        let ghost first = insert_sample(entry0, slots, bucket);
        proof {
            assert(entry0.recorded().0 + seq![first] =~= entry0.recorded().0.push(first));
            assert(entry0.recorded().1 + Seq::<u8>::empty() =~= entry0.recorded().1);
            lemma_probe_decides(slots, offsets_of(entry0), hashes, bucket.key, true);
            if probe(slots, bucket.key, bucket.hash, entry0.offsets(bucket.key), true) is Vacancy {
                entry0.lemma_placed(slots, hashes, bucket);
                lemma_occupied_bound(entry0.placed(slots, bucket));
            }
        }
        match self.entry.insert(&mut self.inner, bucket) {
            InsertResult::Success => {
                proof {
                    lemma_same_probing::<K, V, E>(self.entry, entry0);
                }
                self.count = self.count + 1;
                Ok(())
            },
            InsertResult::AlreadyExist(bucket) => {
                proof {
                    lemma_same_probing::<K, V, E>(self.entry, entry0);
                }
                Err(*bucket.value)
            },
            InsertResult::Full(bucket) => {
                let ghost tried = self.entry;
                proof {
                    lemma_same_probing::<K, V, E>(self.entry, entry0);
                    lemma_rehash_same(self.entry, entry0, slots, slots.len(), 2 * slots.len());
                }
                let new_size = self.inner.buckets.len() * 2;
                self.resize(new_size);
                let ghost entry1 = self.entry;
                let ghost grown = self.inner@;
                proof {
                    let moved = grow_samples(entry0, slots);
                    let last = insert_sample(entry0, grown, bucket);
                    assert(tried.recorded().1 + Seq::<u8>::empty() =~= tried.recorded().1);
                    assert((entry0.recorded().0.push(first) + moved).push(last)
                        =~= entry0.recorded().0 + (seq![first] + moved).push(last));
                    assert(entry1.offsets(bucket.key) == entry0.offsets(bucket.key));
                    assert(entry1.placed(grown, bucket) == entry0.placed(grown, bucket));
                    lemma_probe_decides(grown, offsets_of(entry1), hashes, bucket.key, true);
                    entry1.lemma_placed(grown, hashes, bucket);
                    lemma_occupied_bound(entry1.placed(grown, bucket));
                    lemma_vacant_bound(entry1.placed(grown, bucket));
                }
                match self.entry.insert(&mut self.inner, bucket) {
                    InsertResult::Success => {
                        proof {
                            lemma_same_probing::<K, V, E>(self.entry, entry1);
                        }
                        self.count = self.count + 1;
                        Ok(())
                    },
                    _ => vstd::pervasive::unreached(),
                }
            },
        }
    }

    /// Stores `value` under `key`, unless the key is stored already: then the map stays
    /// as it is and the value comes back. The table grows first when the number of
    /// entries has reached the threshold of the load factor, and again when the
    /// strategy finds no free slot.
    pub fn insert(&mut self, key: &K, value: V) -> (r: Result<(), V>)
        requires
            old(self).wf(),
            old(self).can_insert(*key, value),
        ensures
            final(self).wf(),
            Some(final(self).slots()) == old(self).insert_slots(*key, value),
            final(self).spec_capacity() == old(self).insert_capacity(*key),
            old(self).covering() && (old(self).needs_growth() || old(self).spec_vacant() > 0)
                ==> !old(self).finds_full(*key),
            final(self).spec_capacity() >= old(self).spec_capacity(),
            final(self).spec_capacity() == old(self).spec_capacity() ==> final(self).spec_vacant()
                <= old(self).spec_vacant() <= final(self).spec_vacant() + 1,
            final(self).spec_capacity() != old(self).spec_capacity() ==> final(self).spec_vacant()
                + final(self).spec_count() == final(self).spec_capacity(),
            final(self).spec_capacity() == old(self).spec_capacity() && r is Err
                ==> final(self).spec_vacant() == old(self).spec_vacant(),
            old(self).within_load() ==> final(self).within_load(),
            match r {
                Ok(_) => !old(self)@.contains_key(*key) && final(self)@ == old(self)@.insert(
                    *key,
                    value,
                ) && final(self).spec_count() == old(self).spec_count() + 1,
                Err(v) => v == value && old(self)@.contains_key(*key) && final(self)@ == old(
                    self,
                )@ && final(self).spec_count() == old(self).spec_count(),
            },
            final(self).hasher() == old(self).hasher(),
            final(self).load_factor() == old(self).load_factor(),
            same_probing(final(self).strategy(), old(self).strategy()),
            recorded_more(
                old(self).strategy(),
                final(self).strategy(),
                old(self).insert_samples(*key, value),
                Seq::empty(),
            ),
    {
        proof {
            if self.covering() && 2 * self.spec_capacity() <= usize::MAX {
                self.lemma_insertable(*key, value);
            }
            if self.covering() && (self.needs_growth() || self.spec_vacant() > 0) {
                if 2 * self.spec_capacity() <= usize::MAX {
                    self.lemma_finds_room(*key);
                } else {
                    // the table cannot grow, so it does not have to
                    let empty = lemma_find_empty(self.slots());
                    assert(self.strategy().offsets(*key).covering());
                    lemma_covering_not_full(
                        self.slots(),
                        *key,
                        self.hasher().spec_hash_one(*key),
                        self.strategy().offsets(*key),
                        true,
                        empty,
                    );
                }
            }
        }
        let ghost entry0 = self.entry;
        let ghost slots = self.inner@;
        let hash = self.hasher.hash_one(key);
        let stored_key = key.clone();
        assert(cloned::<K>(*key, stored_key));
        let bucket = Bucket { key: stored_key, hash, value: Box::new(value) };
        assert(bucket == self.bucket_of(*key, value));
        let ghost capacity0 = self.inner@.len();
        let ghost count0 = self.count as nat;
        let ghost load_factor = self.load_factor;
        if self.count >= self.load_factor.threshold(self.inner.buckets.len()) {
            let new_size = self.inner.buckets.len() * 2;
            self.resize(new_size);
        }
        let ghost capacity1 = self.inner@.len();
        let ghost entry1 = self.entry;
        let ghost settled = self.inner@;
        proof {
            lemma_place_same(self.entry, entry0, self.inner@, bucket);
            assert(self.entry.offsets(*key) == entry0.offsets(*key));
            assert(entry0.recorded().0 + Seq::<u8>::empty() =~= entry0.recorded().0);
            assert(entry0.recorded().1 + Seq::<u8>::empty() =~= entry0.recorded().1);
        }
        let r = self.insert_bucket(bucket);
        proof {
            let moved = if capacity1 == capacity0 {
                Seq::<u8>::empty()
            } else {
                grow_samples(entry0, slots)
            };
            let placed = place_samples(entry0, settled, bucket);
            assert((entry0.recorded().0 + moved) + placed =~= entry0.recorded().0 + (moved
                + placed));
            assert(Seq::<u8>::empty() + placed =~= placed);
            assert(entry1.recorded().1 + Seq::<u8>::empty() =~= entry1.recorded().1);
            let capacity2 = self.inner@.len();
            lemma_vacant_bound(self.inner@);
            load_factor.lemma_threshold_monotone(capacity0, capacity1);
            load_factor.lemma_threshold_monotone(capacity1, capacity2);
            load_factor.lemma_threshold_double(capacity0);
            lemma_same_probing::<K, V, E>(self.entry, entry0);
            if let Ok(unit) = r {
                assert(unit == ());
            }
        }
        r
    }

    /// The value stored for `key`, if there is one.
    pub fn lookup(&self, key: &K) -> (r: Option<&V>)
        requires
            self.wf(),
        ensures
            r == if self@.contains_key(*key) {
                Some(&self@[*key])
            } else {
                None
            },
    {
        let hash = self.hasher.hash_one(key);
        proof {
            lemma_probe_decides(
                self.inner@,
                offsets_of(self.entry),
                hashes_of(self.hasher),
                *key,
                false,
            );
        }
        match self.entry.lookup(&self.inner, key, hash) {
            Some(bucket) => Some(&*bucket.value),
            None => None,
        }
    }

    /// Takes `key` and its value out of the table and hands the value over. The slot
    /// keeps a tombstone, and the table does not shrink.
    pub fn remove(&mut self, key: &K) -> (r: Result<V, ()>)
        requires
            old(self).wf(),
        ensures
            final(self).wf(),
            match r {
                Ok(value) => old(self)@.contains_key(*key) && value == old(self)@[*key]
                    && final(self)@ == old(self)@.remove(*key) && final(self).spec_count() + 1
                    == old(self).spec_count(),
                Err(_) => !old(self)@.contains_key(*key) && final(self)@ == old(self)@
                    && final(self).spec_count() == old(self).spec_count(),
            },
            final(self).spec_capacity() == old(self).spec_capacity(),
            final(self).spec_vacant() == old(self).spec_vacant(),
            old(self).within_load() ==> final(self).within_load(),
            final(self).hasher() == old(self).hasher(),
            final(self).load_factor() == old(self).load_factor(),
            same_probing(final(self).strategy(), old(self).strategy()),
            recorded_more(
                old(self).strategy(),
                final(self).strategy(),
                Seq::empty(),
                seq![old(self).remove_sample(*key)],
            ),
    {
        let hash = self.hasher.hash_one(key);
        let ghost slots = self.inner@;
        let ghost offsets = offsets_of(self.entry);
        let ghost entry0 = self.entry;
        let ghost sample = self.remove_sample(*key);
        proof {
            lemma_probe_decides(slots, offsets, hashes_of(self.hasher), *key, false);
            if let EntryResult::Hit(i) = probe(slots, *key, hash, self.entry.offsets(*key), false) {
                lemma_tombstone(slots, offsets, hashes_of(self.hasher), i as int);
            }
        }
        let result = self.entry.remove(&mut self.inner, key, hash);
        proof {
            lemma_same_probing::<K, V, E>(self.entry, entry0);
            assert(entry0.recorded().0 + Seq::<u8>::empty() =~= entry0.recorded().0);
            assert(entry0.recorded().1 + seq![sample] =~= entry0.recorded().1.push(sample));
        }
        match result {
            Ok(bucket) => {
                self.count = self.count - 1;
                Ok(*bucket.value)
            },
            Err(_) => Err(()),
        }
    }
}

impl<K, V, E, S> HashMap<K, V, S> for OpenAddressingHashTable<K, V, E, S> where
    K: PartialEq + Clone,
    E: Entry<K, V> + Default,
    S: KeyHasher<K> + Default,
 {
    open spec fn requirements() -> bool {
        key_laws::<K>()
    }

    open spec fn well_formed(&self) -> bool {
        self.wf()
    }

    open spec fn to_map(&self) -> Map<K, V> {
        self@
    }

    open spec fn insertable(&self, key: K, value: V) -> bool {
        self.can_insert(key, value)
    }

    fn new() -> (table: Self)
        ensures
            table.spec_capacity() == INITIAL_SIZE,
            table.spec_count() == 0,
            table.spec_vacant() == INITIAL_SIZE,
            table.load_factor() == default_load_factor(),
            table.within_load(),
            call_ensures(S::default, (), table.hasher()),
            call_ensures(E::default, (), table.strategy()),
    {
        proof {
            lemma_capacity_small();
        }
        Self::new_with_properties(S::default(), E::default(), INITIAL_SIZE, LoadFactor::default())
    }

    fn with_hasher(hasher: S) -> (table: Self)
        ensures
            table.spec_capacity() == INITIAL_SIZE,
            table.spec_count() == 0,
            table.spec_vacant() == INITIAL_SIZE,
            table.hasher() == hasher,
            table.load_factor() == default_load_factor(),
            table.within_load(),
            call_ensures(E::default, (), table.strategy()),
    {
        proof {
            lemma_capacity_small();
        }
        Self::new_with_properties(hasher, E::default(), INITIAL_SIZE, LoadFactor::default())
    }

    fn insert(&mut self, key: &K, value: V) -> (r: Result<(), V>) {
        let r = OpenAddressingHashTable::insert(self, key, value);
        proof {
            if let Ok(unit) = r {
                assert(unit == ());
            }
        }
        r
    }

    fn lookup(&self, key: &K) -> (r: Option<&V>) {
        OpenAddressingHashTable::lookup(self, key)
    }

    fn remove(&mut self, key: &K) -> (r: Result<V, ()>) {
        let r = OpenAddressingHashTable::remove(self, key);
        proof {
            if let Err(unit) = r {
                assert(unit == ());
            }
        }
        r
    }
}

/// A freshly allocated slot array has only empty slots.
pub proof fn lemma_vacant_empty<K, V>(cap: nat)
    ensures
        vacant(empty_slots::<K, V>(cap)) == cap,
    decreases cap,
{
    if cap > 0 {
        assert(empty_slots::<K, V>(cap).drop_last() =~= empty_slots::<K, V>((cap - 1) as nat));
        lemma_vacant_empty::<K, V>((cap - 1) as nat);
    }
}

/// A freshly allocated slot array has no occupied slot.
pub proof fn lemma_occupied_empty<K, V>(cap: nat)
    ensures
        occupied(empty_slots::<K, V>(cap)) == 0,
    decreases cap,
{
    if cap > 0 {
        assert(empty_slots::<K, V>(cap).drop_last() =~= empty_slots::<K, V>((cap - 1) as nat));
        lemma_occupied_empty::<K, V>((cap - 1) as nat);
    }
}

} // verus!
