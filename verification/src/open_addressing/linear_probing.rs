//! Linear probing: step `k` of a walk lies `k * step` slots after the home slot.
use vstd::prelude::*;

use crate::offsets::{OffsetSequence, Offsets};
use crate::open_addressing::continuity::lemma_fcfs_place;
use crate::open_addressing::fcfs::{fcfs_place, lemma_walk_sound, FCFS};
use crate::open_addressing::lcfs::{lcfs_place, LCFS};
use crate::open_addressing::shifting::lemma_lcfs_place;
use crate::open_addressing::{Bucket, EntryBucket};
use crate::{Entry, EntryResult, InsertResult, LookupSink, RawHashTable, Stat};

verus! {

/// Linear probing that writes a new key to the first free slot of its walk.
pub struct FcfsLinearProbing {
    step: u64,
    recording: bool,
    stat: Stat,
    lookups: LookupSink,
}

impl FcfsLinearProbing {
    /// The distance between two consecutive slots of a walk.
    pub closed spec fn step(&self) -> u64 {
        self.step
    }

    /// The offset sequence of every key.
    pub open spec fn sequence(&self) -> OffsetSequence {
        OffsetSequence::Linear { step: self.step() }
    }

    /// Whether the probe-sequence lengths of the operations are recorded.
    pub closed spec fn records(&self) -> bool {
        self.recording
    }

    /// The samples of insertions and the samples of removals recorded so far.
    pub closed spec fn samples(&self) -> (Seq<u8>, Seq<u8>) {
        (self.stat@.0, self.stat@.2)
    }

    /// A copy of the samples recorded so far, those of lookups included.
    pub fn stat(&self) -> (s: Stat)
        ensures
            s.insert_psl@ == self.samples().0,
            s.remove_psl@ == self.samples().1,
    {
        let mut stat = self.stat.duplicate();
        stat.lookup_psl = self.lookups.samples();
        stat
    }

    /// Turns the recording of probe-sequence lengths on or off. It is off at first.
    pub fn set_recording(&mut self, on: bool)
        ensures
            final(self).records() == on,
            final(self).samples() == old(self).samples(),
            final(self).step() == old(self).step(),
    {
        self.recording = on;
    }
}

impl Default for FcfsLinearProbing {
    fn default() -> (s: Self)
        ensures
            s.step() == 1,
            !s.records(),
            s.samples() == (Seq::<u8>::empty(), Seq::<u8>::empty()),
    {
        Self { step: 1, recording: false, stat: Stat::new(), lookups: LookupSink::new() }
    }
}

impl<K: PartialEq, V> Entry<K, V> for FcfsLinearProbing {
    open spec fn offsets(&self, key: K) -> OffsetSequence {
        self.sequence()
    }

    open spec fn placed(&self, slots: Seq<EntryBucket<K, V>>, bucket: Bucket<K, V>) -> Seq<
        EntryBucket<K, V>,
    > {
        fcfs_place(slots, bucket, self.sequence())
    }

    open spec fn recording(&self) -> bool {
        self.records()
    }

    open spec fn recorded(&self) -> (Seq<u8>, Seq<u8>) {
        self.samples()
    }

    fn probe_sequence(&self, key: &K) -> (sequence: OffsetSequence) {
        OffsetSequence::Linear { step: self.step }
    }

    proof fn lemma_placed(
        &self,
        slots: Seq<EntryBucket<K, V>>,
        hashes: spec_fn(K) -> u64,
        bucket: Bucket<K, V>,
    ) {
        lemma_fcfs_place(slots, |key: K| Entry::<K, V>::offsets(self, key), hashes, bucket);
    }

    fn insert(&mut self, table: &mut RawHashTable<K, V>, bucket: Bucket<K, V>) -> (r:
        InsertResult<Bucket<K, V>>) {
        let mut offset = Offsets::new(Entry::<K, V>::probe_sequence(self, &bucket.key));
        proof {
            lemma_walk_sound(table@, bucket.key, bucket.hash, offset.sequence(), true, 0, None);
        }
        let result = FCFS::lookup(table, &bucket.key, bucket.hash, &mut offset, true);
        if self.recording {
            self.stat.record_insert(offset.taken());
        }
        match result {
            EntryResult::Vacancy(i) => {
                table.buckets[i] = EntryBucket::Occupied(bucket);
                InsertResult::Success
            },
            EntryResult::Hit(_) => InsertResult::AlreadyExist(bucket),
            EntryResult::Full => InsertResult::Full(bucket),
        }
    }

    fn lookup<'a>(&self, table: &'a RawHashTable<K, V>, key: &K, hash: u64) -> (r: Option<
        &'a Bucket<K, V>,
    >) {
        let mut offset = Offsets::new(Entry::<K, V>::probe_sequence(self, key));
        proof {
            lemma_walk_sound(table@, *key, hash, offset.sequence(), false, 0, None);
        }
        let result = FCFS::lookup(table, key, hash, &mut offset, false);
        if self.recording {
            self.lookups.record(offset.taken());
        }
        match result {
            EntryResult::Hit(i) => match &table.buckets[i] {
                EntryBucket::Occupied(bucket) => Some(bucket),
                _ => None,
            },
            _ => None,
        }
    }

    fn remove(&mut self, table: &mut RawHashTable<K, V>, key: &K, hash: u64) -> (r: Result<
        Bucket<K, V>,
        (),
    >) {
        let mut offset = Offsets::new(Entry::<K, V>::probe_sequence(self, key));
        proof {
            lemma_walk_sound(table@, *key, hash, offset.sequence(), false, 0, None);
        }
        let result = FCFS::remove(table, key, hash, &mut offset, true);
        if self.recording {
            self.stat.record_remove(offset.taken());
        }
        match result {
            Ok(EntryBucket::Occupied(bucket)) => Ok(bucket),
            _ => Err(()),
        }
    }

    fn stat(&self) -> (s: Stat) {
        self.stat()
    }
}

/// Linear probing that gives a new key its home slot and moves the occupants of its
/// walk one step on, into the first free slot.
///
/// The shift is sound because every key is probed for along the same offsets: an
/// occupant that moves one slot on moves to the next slot of its own walk.
pub struct LcfsLinearProbing {
    step: u64,
    recording: bool,
    stat: Stat,
    lookups: LookupSink,
}

impl LcfsLinearProbing {
    /// The distance between two consecutive slots of a walk.
    pub closed spec fn step(&self) -> u64 {
        self.step
    }

    /// The offset sequence of every key.
    pub open spec fn sequence(&self) -> OffsetSequence {
        OffsetSequence::Linear { step: self.step() }
    }

    /// Whether the probe-sequence lengths of the operations are recorded.
    pub closed spec fn records(&self) -> bool {
        self.recording
    }

    /// The samples of insertions and the samples of removals recorded so far.
    pub closed spec fn samples(&self) -> (Seq<u8>, Seq<u8>) {
        (self.stat@.0, self.stat@.2)
    }

    /// A copy of the samples recorded so far, those of lookups included.
    pub fn stat(&self) -> (s: Stat)
        ensures
            s.insert_psl@ == self.samples().0,
            s.remove_psl@ == self.samples().1,
    {
        let mut stat = self.stat.duplicate();
        stat.lookup_psl = self.lookups.samples();
        stat
    }

    /// Turns the recording of probe-sequence lengths on or off. It is off at first.
    pub fn set_recording(&mut self, on: bool)
        ensures
            final(self).records() == on,
            final(self).samples() == old(self).samples(),
            final(self).step() == old(self).step(),
    {
        self.recording = on;
    }
}

impl Default for LcfsLinearProbing {
    fn default() -> (s: Self)
        ensures
            s.step() == 1,
            !s.records(),
            s.samples() == (Seq::<u8>::empty(), Seq::<u8>::empty()),
    {
        Self { step: 1, recording: false, stat: Stat::new(), lookups: LookupSink::new() }
    }
}

impl<K: PartialEq, V> Entry<K, V> for LcfsLinearProbing {
    open spec fn offsets(&self, key: K) -> OffsetSequence {
        self.sequence()
    }

    open spec fn placed(&self, slots: Seq<EntryBucket<K, V>>, bucket: Bucket<K, V>) -> Seq<
        EntryBucket<K, V>,
    > {
        lcfs_place(slots, bucket, self.sequence(), true)
    }

    open spec fn recording(&self) -> bool {
        self.records()
    }

    open spec fn recorded(&self) -> (Seq<u8>, Seq<u8>) {
        self.samples()
    }

    fn probe_sequence(&self, key: &K) -> (sequence: OffsetSequence) {
        OffsetSequence::Linear { step: self.step }
    }

    proof fn lemma_placed(
        &self,
        slots: Seq<EntryBucket<K, V>>,
        hashes: spec_fn(K) -> u64,
        bucket: Bucket<K, V>,
    ) {
        lemma_lcfs_place(
            slots,
            |key: K| Entry::<K, V>::offsets(self, key),
            hashes,
            self.step(),
            bucket,
        );
    }

    fn insert(&mut self, table: &mut RawHashTable<K, V>, bucket: Bucket<K, V>) -> (r:
        InsertResult<Bucket<K, V>>) {
        let mut offset = Offsets::new(Entry::<K, V>::probe_sequence(self, &bucket.key));
        let result = LCFS::insert(table, &mut offset, bucket, true);
        if self.recording {
            self.stat.record_insert(offset.taken());
        }
        result
    }

    fn lookup<'a>(&self, table: &'a RawHashTable<K, V>, key: &K, hash: u64) -> (r: Option<
        &'a Bucket<K, V>,
    >) {
        let mut offset = Offsets::new(Entry::<K, V>::probe_sequence(self, key));
        proof {
            lemma_walk_sound(table@, *key, hash, offset.sequence(), false, 0, None);
        }
        let result = LCFS::lookup(table, key, hash, &mut offset);
        if self.recording {
            self.lookups.record(offset.taken());
        }
        match result {
            Some(i) => match &table.buckets[i] {
                EntryBucket::Occupied(bucket) => Some(bucket),
                _ => None,
            },
            None => None,
        }
    }

    fn remove(&mut self, table: &mut RawHashTable<K, V>, key: &K, hash: u64) -> (r: Result<
        Bucket<K, V>,
        (),
    >) {
        let mut offset = Offsets::new(Entry::<K, V>::probe_sequence(self, key));
        proof {
            lemma_walk_sound(table@, *key, hash, offset.sequence(), false, 0, None);
        }
        let result = LCFS::remove(table, key, hash, &mut offset, true);
        if self.recording {
            self.stat.record_remove(offset.taken());
        }
        match result {
            Ok(EntryBucket::Occupied(bucket)) => Ok(bucket),
            _ => Err(()),
        }
    }

    fn stat(&self) -> (s: Stat) {
        self.stat()
    }
}

} // verus!
