//! Double hashing: step `k` of a walk lies `k * h2(key)` slots after the home slot, where
//! `h2` is a second hash of the key, made odd.
use vstd::prelude::*;

use crate::hashing::{KeyHasher, SeededState};
use crate::offsets::{OffsetSequence, Offsets};
use crate::open_addressing::continuity::lemma_fcfs_place;
use crate::open_addressing::coverage::covering;
use crate::open_addressing::fcfs::{fcfs_place, lemma_walk_sound, FCFS};
use crate::open_addressing::{Bucket, EntryBucket};
use crate::{Entry, EntryResult, InsertResult, LookupSink, RawHashTable, Stat};

verus! {

/// Double hashing that writes a new key to the first free slot of its walk.
///
/// The distance between two slots of a key's walk is the key's hash under a second
/// hasher with its lowest bit set. An odd distance makes the walk visit every slot of a
/// power-of-two table.
pub struct FcfsDoubleHashing<H = SeededState> {
    hasher: H,
    recording: bool,
    stat: Stat,
    lookups: LookupSink,
}

impl<H> FcfsDoubleHashing<H> {
    /// The second hasher.
    pub closed spec fn hasher(&self) -> H {
        self.hasher
    }

    /// The distance between two consecutive slots of the walk for `key`.
    pub open spec fn second_step<K>(&self, key: K) -> u64 where H: KeyHasher<K> {
        self.hasher().spec_hash_one(key) | 1
    }

    /// Whether the probe-sequence lengths of the operations are recorded.
    pub closed spec fn records(&self) -> bool {
        self.recording
    }

    /// The samples of insertions and the samples of removals recorded so far.
    pub closed spec fn samples(&self) -> (Seq<u8>, Seq<u8>) {
        (self.stat@.0, self.stat@.2)
    }

    /// A copy of the samples recorded so far, those of lookups included.
    pub fn stat(&self) -> (s: Stat)
        ensures
            s.insert_psl@ == self.samples().0,
            s.remove_psl@ == self.samples().1,
    {
        let mut stat = self.stat.duplicate();
        stat.lookup_psl = self.lookups.samples();
        stat
    }

    /// Turns the recording of probe-sequence lengths on or off. It is off at first.
    pub fn set_recording(&mut self, on: bool)
        ensures
            final(self).records() == on,
            final(self).samples() == old(self).samples(),
            final(self).hasher() == old(self).hasher(),
    {
        self.recording = on;
    }

    /// Every walk of the strategy visits every slot of a power-of-two table, since the
    /// distance between its slots is odd.
    pub proof fn lemma_covering<K: PartialEq, V>(&self) where H: KeyHasher<K>
        ensures
            covering::<K, V, Self>(*self),
    {
        assert forall|key: K| #[trigger]
            Entry::<K, V>::offsets(self, key).covering() by {
            let second = self.hasher().spec_hash_one(key);
            assert((second | 1) % 2 == 1) by (bit_vector);
        }
    }

    /// A strategy that takes its second hash from `hasher`.
    pub fn with_hasher(hasher: H) -> (s: Self)
        ensures
            s.hasher() == hasher,
            !s.records(),
            s.samples() == (Seq::<u8>::empty(), Seq::<u8>::empty()),
    {
        Self { hasher, recording: false, stat: Stat::new(), lookups: LookupSink::new() }
    }

    /// The second hash of `key`, before its lowest bit is set.
    pub fn hash_one<K>(&self, key: &K) -> (h: u64) where H: KeyHasher<K>
        ensures
            h == self.hasher().spec_hash_one(*key),
    {
        self.hasher.hash_one(key)
    }
}

impl Default for FcfsDoubleHashing<SeededState> {
    /// A strategy whose second hasher has a seed drawn at random.
    fn default() -> (s: Self)
        ensures
            !s.records(),
            s.samples() == (Seq::<u8>::empty(), Seq::<u8>::empty()),
    {
        Self { hasher: SeededState::random(), recording: false, stat: Stat::new(), lookups: LookupSink::new() }
    }
}

impl<K: PartialEq, V, H: KeyHasher<K>> Entry<K, V> for FcfsDoubleHashing<H> {
    open spec fn offsets(&self, key: K) -> OffsetSequence {
        OffsetSequence::Linear { step: self.second_step(key) }
    }

    open spec fn placed(&self, slots: Seq<EntryBucket<K, V>>, bucket: Bucket<K, V>) -> Seq<
        EntryBucket<K, V>,
    > {
        fcfs_place(slots, bucket, OffsetSequence::Linear { step: self.second_step(bucket.key) })
    }

    open spec fn recording(&self) -> bool {
        self.records()
    }

    open spec fn recorded(&self) -> (Seq<u8>, Seq<u8>) {
        self.samples()
    }

    fn probe_sequence(&self, key: &K) -> (sequence: OffsetSequence) {
        OffsetSequence::Linear { step: self.hash_one(key) | 1 }
    }

    proof fn lemma_placed(
        &self,
        slots: Seq<EntryBucket<K, V>>,
        hashes: spec_fn(K) -> u64,
        bucket: Bucket<K, V>,
    ) {
        lemma_fcfs_place(slots, |key: K| Entry::<K, V>::offsets(self, key), hashes, bucket);
    }

    fn insert(&mut self, table: &mut RawHashTable<K, V>, bucket: Bucket<K, V>) -> (r:
        InsertResult<Bucket<K, V>>) {
        let mut offset = Offsets::new(Entry::<K, V>::probe_sequence(self, &bucket.key));
        proof {
            lemma_walk_sound(table@, bucket.key, bucket.hash, offset.sequence(), true, 0, None);
        }
        let result = FCFS::lookup(table, &bucket.key, bucket.hash, &mut offset, true);
        if self.recording {
            self.stat.record_insert(offset.taken());
        }
        match result {
            EntryResult::Vacancy(i) => {
                table.buckets[i] = EntryBucket::Occupied(bucket);
                InsertResult::Success
            },
            EntryResult::Hit(_) => InsertResult::AlreadyExist(bucket),
            EntryResult::Full => InsertResult::Full(bucket),
        }
    }

    fn lookup<'a>(&self, table: &'a RawHashTable<K, V>, key: &K, hash: u64) -> (r: Option<
        &'a Bucket<K, V>,
    >) {
        let mut offset = Offsets::new(Entry::<K, V>::probe_sequence(self, key));
        proof {
            lemma_walk_sound(table@, *key, hash, offset.sequence(), false, 0, None);
        }
        let result = FCFS::lookup(table, key, hash, &mut offset, false);
        if self.recording {
            self.lookups.record(offset.taken());
        }
        match result {
            EntryResult::Hit(i) => match &table.buckets[i] {
                EntryBucket::Occupied(bucket) => Some(bucket),
                _ => None,
            },
            _ => None,
        }
    }

    fn remove(&mut self, table: &mut RawHashTable<K, V>, key: &K, hash: u64) -> (r: Result<
        Bucket<K, V>,
        (),
    >) {
        let mut offset = Offsets::new(Entry::<K, V>::probe_sequence(self, key));
        proof {
            lemma_walk_sound(table@, *key, hash, offset.sequence(), false, 0, None);
        }
        let result = FCFS::remove(table, key, hash, &mut offset, true);
        if self.recording {
            self.stat.record_remove(offset.taken());
        }
        match result {
            Ok(EntryBucket::Occupied(bucket)) => Ok(bucket),
            _ => Err(()),
        }
    }

    fn stat(&self) -> (s: Stat) {
        self.stat()
    }
}

} // verus!
