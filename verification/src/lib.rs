//! Open-addressing hash tables with a choice of collision-resolution strategy.
//!
//! The crate offers one key/value map, [`open_addressing::OpenAddressingHashTable`],
//! whose probing behaviour is chosen through a strategy object: linear probing,
//! quadratic probing or double hashing, inserting first-come-first-served or, for
//! linear probing, last-come-first-served.
//!
//! A table stands for a `Map` from keys to values, and the contracts of its operations
//! say what they do to that map, to the number of slots and to the number of entries.
//! The modules are these:
//!
//! - [`offsets`]: the offset sequences of the strategies and the arithmetic of slots in
//!   a table whose size is a power of two;
//! - [`hashing`]: the hashers that give a key its hash;
//! - [`open_addressing`]: the slots, the two probe walks, the strategies, the table, and
//!   the proofs that the walks keep the invariant of the slot array;
//! - [`laws`]: laws that the map operations obey.
use vstd::prelude::*;

pub mod hashing;
pub mod laws;
pub mod offsets;
pub mod open_addressing;

use vstd::laws_eq::obeys_concrete_eq;

use std::cell::RefCell;
use std::collections::hash_map::DefaultHasher;
use std::hash::BuildHasherDefault;

use crate::hashing::KeyHasher;
use crate::offsets::{is_capacity, OffsetSequence};
use crate::open_addressing::continuity::{contents, fills_only, occupied, table_inv, vacant};
use crate::open_addressing::fcfs::{full_walk, probe};
use crate::open_addressing::{Bucket, EntryBucket};

verus! {

/// Number of slots of a table created with the default settings.
pub const INITIAL_SIZE: usize = 8;

/// The fraction of its slots that a table lets fill up before it grows.
#[derive(Clone, Copy)]
pub struct LoadFactor {
    pub numerator: usize,
    pub denominator: usize,
}

/// Numerator of the load factor of a table created with the default settings.
pub const LOAD_FACTOR_NUMERATOR: usize = 7;

/// Denominator of the load factor of a table created with the default settings.
pub const LOAD_FACTOR_DENOMINATOR: usize = 10;

/// The load factor of a table created with the default settings, 7/10.
pub open spec fn default_load_factor() -> LoadFactor {
    LoadFactor { numerator: LOAD_FACTOR_NUMERATOR, denominator: LOAD_FACTOR_DENOMINATOR }
}

impl Default for LoadFactor {
    /// The load factor of a table created with the default settings, 7/10.
    fn default() -> (r: Self)
        ensures
            r == default_load_factor(),
    {
        LoadFactor { numerator: LOAD_FACTOR_NUMERATOR, denominator: LOAD_FACTOR_DENOMINATOR }
    }
}

impl LoadFactor {
    /// The fraction lies in (0, 1].
    pub open spec fn wf(&self) -> bool {
        0 < self.numerator <= self.denominator
    }

    /// The number of entries at which a table of `capacity` slots grows before the next
    /// insertion: `capacity` times the fraction, rounded down.
    pub open spec fn spec_threshold(&self, capacity: nat) -> nat {
        (capacity * self.numerator / self.denominator as int) as nat
    }

    /// The fraction `numerator / denominator`, if it lies in (0, 1].
    pub fn new(numerator: usize, denominator: usize) -> (r: Option<Self>)
        ensures
            r == if 0 < numerator <= denominator {
                Some(LoadFactor { numerator, denominator })
            } else {
                None
            },
    {
        if 0 < numerator && numerator <= denominator {
            Some(LoadFactor { numerator, denominator })
        } else {
            None
        }
    }

    /// A table with more slots has no lower threshold.
    pub proof fn lemma_threshold_monotone(&self, smaller: nat, larger: nat)
        requires
            self.wf(),
            smaller <= larger,
        ensures
            self.spec_threshold(smaller) <= self.spec_threshold(larger),
    {
        let n = self.numerator as int;
        let d = self.denominator as int;
        assert(smaller * n <= larger * n) by (nonlinear_arith)
            requires
                smaller <= larger,
                0 < n,
        ;
        assert(0 <= smaller * n) by (nonlinear_arith)
            requires
                0 < n,
        ;
        vstd::arithmetic::div_mod::lemma_div_is_ordered(smaller * n, larger * n, d);
        vstd::arithmetic::div_mod::lemma_div_pos_is_pos(smaller * n, d);
    }

    /// A table with twice the slots has at least twice the threshold.
    pub proof fn lemma_threshold_double(&self, capacity: nat)
        requires
            self.wf(),
        ensures
            self.spec_threshold(2 * capacity) >= 2 * self.spec_threshold(capacity),
    {
        let n = self.numerator as int;
        let d = self.denominator as int;
        let x = capacity * n;
        assert(0 <= x) by (nonlinear_arith)
            requires
                x == capacity * n,
                0 < n,
        ;
        assert((2 * capacity) * n == 2 * x) by (nonlinear_arith)
            requires
                x == capacity * n,
        ;
        vstd::arithmetic::div_mod::lemma_fundamental_div_mod(x, d);
        vstd::arithmetic::div_mod::lemma_mod_bound(x, d);
        vstd::arithmetic::div_mod::lemma_div_pos_is_pos(x, d);
        let q = x / d;
        assert(2 * x == d * (2 * q) + 2 * (x % d)) by (nonlinear_arith)
            requires
                x == d * q + x % d,
        ;
        assert(d * (2 * q) <= 2 * x);
        vstd::arithmetic::div_mod::lemma_div_is_ordered(d * (2 * q), 2 * x, d);
        vstd::arithmetic::div_mod::lemma_div_multiples_vanish(2 * q, d);
    }

    /// A count that does not exceed the threshold does not exceed the fraction of the
    /// slots that the load factor names.
    pub proof fn lemma_threshold_bound(&self, count: nat, capacity: nat)
        requires
            self.wf(),
            count <= self.spec_threshold(capacity),
        ensures
            count * self.denominator <= capacity * self.numerator,
    {
        let n = self.numerator as int;
        let d = self.denominator as int;
        let x = capacity * n;
        assert(0 <= x) by (nonlinear_arith)
            requires
                x == capacity * n,
                0 < n,
        ;
        vstd::arithmetic::div_mod::lemma_fundamental_div_mod(x, d);
        vstd::arithmetic::div_mod::lemma_mod_bound(x, d);
        vstd::arithmetic::div_mod::lemma_div_pos_is_pos(x, d);
        assert(count * d <= (x / d) * d) by (nonlinear_arith)
            requires
                count <= x / d,
                0 < d,
        ;
        assert((x / d) * d == d * (x / d)) by (nonlinear_arith);
    }

    /// The number of entries at which a table of `capacity` slots grows.
    pub fn threshold(&self, capacity: usize) -> (t: usize)
        requires
            self.wf(),
        ensures
            t == self.spec_threshold(capacity as nat),
            t <= capacity,
    {
        assert(capacity as int * self.numerator as int <= 0xffff_ffff_ffff_ffff
            * 0xffff_ffff_ffff_ffff) by (nonlinear_arith)
            requires
                0 <= capacity as int <= 0xffff_ffff_ffff_ffff,
                0 <= self.numerator as int <= 0xffff_ffff_ffff_ffff,
        ;
        let product: u128 = (capacity as u128) * (self.numerator as u128);
        let t: u128 = product / (self.denominator as u128);
        proof {
            let c = capacity as int;
            let n = self.numerator as int;
            let d = self.denominator as int;
            assert(c * n <= c * d) by (nonlinear_arith)
                requires
                    0 <= c,
                    0 < n <= d,
            ;
            vstd::arithmetic::div_mod::lemma_div_is_ordered(c * n, c * d, d);
            vstd::arithmetic::div_mod::lemma_div_multiples_vanish(c, d);
            vstd::arithmetic::mul::lemma_mul_is_commutative(c, d);
            assert(c * n >= 0) by (nonlinear_arith)
                requires
                    0 <= c,
                    0 < n,
            ;
            vstd::arithmetic::div_mod::lemma_div_pos_is_pos(c * n, d);
        }
        t as usize
    }
}

/// The slot array of a table together with its index mask.
pub struct RawHashTable<K, V> {
    pub buckets: Vec<EntryBucket<K, V>>,
    pub mask: usize,
}

impl<K, V> View for RawHashTable<K, V> {
    type V = Seq<EntryBucket<K, V>>;

    open spec fn view(&self) -> Seq<EntryBucket<K, V>> {
        self.buckets@
    }
}

impl<K, V> RawHashTable<K, V> {
    /// The array has `mask + 1` slots and that count is a power of two.
    pub open spec fn wf(&self) -> bool {
        &&& self.buckets.len() == self.mask + 1
        &&& is_capacity(self.buckets@.len())
    }

    /// The number of slots.
    pub open spec fn capacity(&self) -> nat {
        self.buckets@.len()
    }

    /// The slot with the given index.
    pub fn slot(&self, index: usize) -> (slot: &EntryBucket<K, V>)
        requires
            index < self.capacity(),
        ensures
            *slot == self@[index as int],
    {
        &self.buckets[index]
    }
}

/// What a probe walk decided about a key.
#[derive(PartialEq, Eq, Structural, Clone, Copy, Debug)]
pub enum EntryResult {
    /// The key is absent and may be written to the slot with this index.
    Vacancy(usize),
    /// The key is stored in the slot with this index.
    Hit(usize),
    /// The walk came back to the home slot without finding the key or a free slot.
    Full,
}

/// The outcome of an insertion; a failed insertion hands its argument back.
pub enum InsertResult<T> {
    Success,
    AlreadyExist(T),
    Full(T),
}

/// Probe-sequence lengths collected by a strategy, one list per kind of operation.
pub struct Stat {
    pub insert_psl: Vec<u8>,
    pub lookup_psl: Vec<u8>,
    pub remove_psl: Vec<u8>,
}

impl View for Stat {
    type V = (Seq<u8>, Seq<u8>, Seq<u8>);

    open spec fn view(&self) -> (Seq<u8>, Seq<u8>, Seq<u8>) {
        (self.insert_psl@, self.lookup_psl@, self.remove_psl@)
    }
}

/// The sample that a probe-sequence length is recorded as. A sample is one byte, so
/// lengths above 255 are recorded as 255.
pub open spec fn psl_sample(psl: nat) -> u8 {
    if psl > 255 {
        255u8
    } else {
        psl as u8
    }
}

/// The insertion and removal samples after the length `psl` of an insertion has been
/// recorded.
pub open spec fn with_insert_sample(samples: (Seq<u8>, Seq<u8>), psl: nat) -> (Seq<u8>, Seq<u8>) {
    (samples.0.push(psl_sample(psl)), samples.1)
}

/// The insertion and removal samples after the length `psl` of a removal has been
/// recorded.
pub open spec fn with_remove_sample(samples: (Seq<u8>, Seq<u8>), psl: nat) -> (Seq<u8>, Seq<u8>) {
    (samples.0, samples.1.push(psl_sample(psl)))
}

/// The byte that a probe-sequence length is recorded as.
pub fn sample(psl: u64) -> (s: u8)
    ensures
        s == psl_sample(psl as nat),
{
    if psl > 255 {
        255
    } else {
        psl as u8
    }
}

impl Stat {
    /// Appends the length of an insertion.
    pub fn record_insert(&mut self, psl: u64)
        ensures
            final(self)@ == (
                old(self)@.0.push(psl_sample(psl as nat)),
                old(self)@.1,
                old(self)@.2,
            ),
    {
        self.insert_psl.push(sample(psl));
    }

    /// Appends the length of a removal.
    pub fn record_remove(&mut self, psl: u64)
        ensures
            final(self)@ == (
                old(self)@.0,
                old(self)@.1,
                old(self)@.2.push(psl_sample(psl as nat)),
            ),
    {
        self.remove_psl.push(sample(psl));
    }

    /// A record with no samples.
    pub fn new() -> (s: Self)
        ensures
            s@ == (Seq::<u8>::empty(), Seq::<u8>::empty(), Seq::<u8>::empty()),
    {
        Stat { insert_psl: Vec::new(), lookup_psl: Vec::new(), remove_psl: Vec::new() }
    }

    /// A copy of the record.
    pub fn duplicate(&self) -> (s: Self)
        ensures
            s@ == self@,
    {
        let s = Stat {
            insert_psl: self.insert_psl.clone(),
            lookup_psl: self.lookup_psl.clone(),
            remove_psl: self.remove_psl.clone(),
        };
        assert(s.insert_psl@ =~= self.insert_psl@);
        assert(s.lookup_psl@ =~= self.lookup_psl@);
        assert(s.remove_psl@ =~= self.remove_psl@);
        s
    }
}

impl Default for Stat {
    fn default() -> (s: Self)
        ensures
            s@ == (Seq::<u8>::empty(), Seq::<u8>::empty(), Seq::<u8>::empty()),
    {
        Stat::new()
    }
}

impl Clone for Stat {
    fn clone(&self) -> (s: Self)
        ensures
            s@ == self@,
    {
        self.duplicate()
    }
}

/// `std::cell::RefCell`, a cell whose content can be replaced through a shared
/// reference.
#[verifier::external_type_specification]
#[verifier::external_body]
#[verifier::reject_recursive_types(T)]
pub struct ExRefCell<T: ?Sized>(RefCell<T>);

/// Calls `RefCell::new`, which makes a cell that holds `samples`. Nothing is claimed of
/// the cell.
#[verifier::external_body]
fn cell_new(samples: Vec<u8>) -> RefCell<Vec<u8>> {
    RefCell::new(samples)
}

/// Calls `RefCell::replace`, which puts `samples` into the cell and hands out what the
/// cell held. Nothing is claimed of what comes out. `replace` panics while the content is
/// borrowed; the cells of this crate are private and never lend their content.
#[verifier::external_body]
fn cell_replace(cell: &RefCell<Vec<u8>>, samples: Vec<u8>) -> Vec<u8> {
    cell.replace(samples)
}

/// The samples of lookups. A lookup has its strategy by shared reference only, so its
/// samples are gathered in a cell and lie outside of what the contracts speak of.
pub struct LookupSink {
    cell: RefCell<Vec<u8>>,
}

impl LookupSink {
    /// A sink with no samples.
    pub fn new() -> Self {
        LookupSink { cell: cell_new(Vec::new()) }
    }

    /// Appends the length of a lookup.
    pub fn record(&self, psl: u64) {
        let mut samples = cell_replace(&self.cell, Vec::new());
        samples.push(sample(psl));
        let _ = cell_replace(&self.cell, samples);
    }

    /// A copy of the samples gathered so far.
    pub fn samples(&self) -> Vec<u8> {
        let samples = cell_replace(&self.cell, Vec::new());
        let copy = samples.clone();
        let _ = cell_replace(&self.cell, samples);
        copy
    }
}

/// The offset sequence that a strategy uses for each key, as a function.
pub open spec fn offsets_of<K: PartialEq, V, E: Entry<K, V>>(entry: E) -> spec_fn(
    K,
) -> OffsetSequence {
    |key: K| entry.offsets(key)
}

/// Two strategies probe for every key along the same offsets and place every bucket
/// alike. A strategy may change in other respects when it inserts or removes.
pub open spec fn same_probing<K: PartialEq, V, E: Entry<K, V>>(a: E, b: E) -> bool {
    &&& forall|key: K| #[trigger] a.offsets(key) == b.offsets(key)
    &&& forall|slots: Seq<EntryBucket<K, V>>, bucket: Bucket<K, V>| #[trigger]
        a.placed(slots, bucket) == b.placed(slots, bucket)
}

/// The strategy `after` differs from `before` in what it has recorded at most: it
/// records if `before` does, and if so it has recorded the insertion samples `more` and
/// the removal samples `removed` on top of the samples of `before`.
pub open spec fn recorded_more<K: PartialEq, V, E: Entry<K, V>>(
    before: E,
    after: E,
    more: Seq<u8>,
    removed: Seq<u8>,
) -> bool {
    &&& after.recording() == before.recording()
    &&& after.recorded() == if before.recording() {
        (before.recorded().0 + more, before.recorded().1 + removed)
    } else {
        before.recorded()
    }
}

/// Strategies that probe alike have the same offset function.
pub proof fn lemma_same_probing<K: PartialEq, V, E: Entry<K, V>>(a: E, b: E)
    requires
        same_probing::<K, V, E>(a, b),
    ensures
        offsets_of::<K, V, E>(a) == offsets_of::<K, V, E>(b),
{
    assert(offsets_of::<K, V, E>(a) =~= offsets_of::<K, V, E>(b)) by {
        assert forall|key: K| #[trigger] offsets_of::<K, V, E>(a)(key) == offsets_of::<K, V, E>(b)(key) by {
            assert(a.offsets(key) == b.offsets(key));
        }
    }
}

/// The hash that a hasher gives each key, as a function.
pub open spec fn hashes_of<K, S: KeyHasher<K>>(hasher: S) -> spec_fn(K) -> u64 {
    |key: K| hasher.spec_hash_one(key)
}

/// A collision-resolution strategy: where it probes for a key, and how it inserts,
/// finds and removes entries in a slot array.
pub trait Entry<K: PartialEq, V>: Sized {
    /// The offset sequence along which the strategy probes for `key`.
    spec fn offsets(&self, key: K) -> OffsetSequence;

    /// The slot array after `bucket` has been inserted into `slots`, where the probe for
    /// its key found a vacancy.
    spec fn placed(&self, slots: Seq<EntryBucket<K, V>>, bucket: Bucket<K, V>) -> Seq<
        EntryBucket<K, V>,
    >;

    /// Whether the strategy records the probe-sequence lengths of its operations.
    spec fn recording(&self) -> bool;

    /// The samples of insertions and the samples of removals recorded so far.
    spec fn recorded(&self) -> (Seq<u8>, Seq<u8>);

    /// The offset sequence along which the strategy probes for `key`.
    fn probe_sequence(&self, key: &K) -> (sequence: OffsetSequence)
        ensures
            sequence == self.offsets(*key),
    ;

    /// Inserting a new key keeps the invariant of the slot array, adds the key to the map
    /// that the array stands for, and takes up one empty slot or one tombstone.
    proof fn lemma_placed(
        &self,
        slots: Seq<EntryBucket<K, V>>,
        hashes: spec_fn(K) -> u64,
        bucket: Bucket<K, V>,
    )
        requires
            table_inv(slots, |key: K| self.offsets(key), hashes),
            bucket.hash == hashes(bucket.key),
            probe(slots, bucket.key, bucket.hash, self.offsets(bucket.key), true) is Vacancy,
        ensures
            self.placed(slots, bucket).len() == slots.len(),
            table_inv(self.placed(slots, bucket), |key: K| self.offsets(key), hashes),
            contents(self.placed(slots, bucket)) == contents(slots).insert(
                bucket.key,
                *bucket.value,
            ),
            !contents(slots).contains_key(bucket.key),
            occupied(self.placed(slots, bucket)) == occupied(slots) + 1,
            vacant(self.placed(slots, bucket)) + (if slots[probe(
                slots,
                bucket.key,
                bucket.hash,
                self.offsets(bucket.key),
                true,
            )->Vacancy_0 as int] is Empty {
                1nat
            } else {
                0nat
            }) == vacant(slots),
            fills_only(
                slots,
                self.placed(slots, bucket),
                probe(slots, bucket.key, bucket.hash, self.offsets(bucket.key), true)->Vacancy_0 as int,
            ),
    ;

    /// Inserts `bucket` where the probe for its key finds a vacancy. When the key is
    /// already stored, or the probe ends in `Full`, the array stays as it is and the
    /// bucket comes back. A recording strategy appends the length of the probe to its
    /// insertion samples.
    fn insert(&mut self, table: &mut RawHashTable<K, V>, bucket: Bucket<K, V>) -> (r:
        InsertResult<Bucket<K, V>>)
        requires
            old(table).wf(),
            obeys_concrete_eq::<K>(),
        ensures
            final(table).mask == old(table).mask,
            final(table)@.len() == old(table)@.len(),
            final(self).recording() == old(self).recording(),
            final(self).recorded() == if old(self).recording() {
                with_insert_sample(
                    old(self).recorded(),
                    full_walk(
                        old(table)@,
                        bucket.key,
                        bucket.hash,
                        old(self).offsets(bucket.key),
                        true,
                    ).psl,
                )
            } else {
                old(self).recorded()
            },
            forall|key: K| #[trigger] final(self).offsets(key) == old(self).offsets(key),
            forall|slots: Seq<EntryBucket<K, V>>, b: Bucket<K, V>| #[trigger]
                final(self).placed(slots, b) == old(self).placed(slots, b),
            match probe(
                old(table)@,
                bucket.key,
                bucket.hash,
                old(self).offsets(bucket.key),
                true,
            ) {
                EntryResult::Vacancy(_) => r is Success && final(table)@ == old(self).placed(
                    old(table)@,
                    bucket,
                ),
                EntryResult::Hit(_) => r == InsertResult::AlreadyExist(bucket) && final(table)@
                    == old(table)@,
                EntryResult::Full => r == InsertResult::Full(bucket) && final(table)@ == old(
                    table,
                )@,
            },
    ;

    /// The bucket that stores `key`, if the probe for it ends in a hit. A recording
    /// strategy appends the length of the probe to its lookup samples.
    fn lookup<'a>(&self, table: &'a RawHashTable<K, V>, key: &K, hash: u64) -> (r: Option<
        &'a Bucket<K, V>,
    >)
        requires
            table.wf(),
            obeys_concrete_eq::<K>(),
        ensures
            match probe(table@, *key, hash, self.offsets(*key), false) {
                EntryResult::Hit(i) => r == Some(&table@[i as int]->Occupied_0),
                _ => r is None,
            },
    ;

    /// Takes the bucket that stores `key` out of the array, if the probe for it ends in
    /// a hit, and leaves a tombstone in its slot. A recording strategy appends the length
    /// of the probe to its removal samples.
    fn remove(&mut self, table: &mut RawHashTable<K, V>, key: &K, hash: u64) -> (r: Result<
        Bucket<K, V>,
        (),
    >)
        requires
            old(table).wf(),
            obeys_concrete_eq::<K>(),
        ensures
            final(table).mask == old(table).mask,
            final(self).recording() == old(self).recording(),
            final(self).recorded() == if old(self).recording() {
                with_remove_sample(
                    old(self).recorded(),
                    full_walk(old(table)@, *key, hash, old(self).offsets(*key), false).psl,
                )
            } else {
                old(self).recorded()
            },
            forall|k: K| #[trigger] final(self).offsets(k) == old(self).offsets(k),
            forall|slots: Seq<EntryBucket<K, V>>, b: Bucket<K, V>| #[trigger]
                final(self).placed(slots, b) == old(self).placed(slots, b),
            match probe(old(table)@, *key, hash, old(self).offsets(*key), false) {
                EntryResult::Hit(i) => r == Ok::<Bucket<K, V>, ()>(
                    old(table)@[i as int]->Occupied_0,
                ) && final(table)@ == old(table)@.update(i as int, EntryBucket::Tombstone),
                _ => r is Err && final(table)@ == old(table)@,
            },
    ;

    /// A copy of the samples recorded so far. The samples of lookups are gathered behind
    /// a shared reference; they are in the copy, and no contract speaks of them.
    fn stat(&self) -> (s: Stat)
        ensures
            s.insert_psl@ == self.recorded().0,
            s.remove_psl@ == self.recorded().1,
    ;
}

/// What an insertion of `key` with `value` into a map returns: the value comes back
/// when the key is taken.
pub open spec fn insert_outcome<K, V>(map: Map<K, V>, key: K, value: V) -> Result<(), V> {
    if map.contains_key(key) {
        Err(value)
    } else {
        Ok(())
    }
}

/// The map after an insertion of `key` with `value`: a key that is taken keeps its value.
pub open spec fn insert_map<K, V>(map: Map<K, V>, key: K, value: V) -> Map<K, V> {
    if map.contains_key(key) {
        map
    } else {
        map.insert(key, value)
    }
}

/// What a lookup of `key` in a map returns.
pub open spec fn lookup_outcome<K, V>(map: Map<K, V>, key: K) -> Option<V> {
    if map.contains_key(key) {
        Some(map[key])
    } else {
        None
    }
}

/// What a removal of `key` from a map returns.
pub open spec fn remove_outcome<K, V>(map: Map<K, V>, key: K) -> Result<V, ()> {
    if map.contains_key(key) {
        Ok(map[key])
    } else {
        Err(())
    }
}

/// The map after a removal of `key`.
pub open spec fn remove_map<K, V>(map: Map<K, V>, key: K) -> Map<K, V> {
    map.remove(key)
}

/// A map from keys to values that is kept in a hash table.
pub trait HashMap<K, V, S = BuildHasherDefault<DefaultHasher>>: Sized {
    /// What the table requires of its type parameters.
    spec fn requirements() -> bool;

    /// The invariant of the table.
    spec fn well_formed(&self) -> bool;

    /// The map that the table stands for.
    spec fn to_map(&self) -> Map<K, V>;

    /// Whether the table has room for `key` with `value`, or can make room by growing.
    spec fn insertable(&self, key: K, value: V) -> bool;

    /// An empty table with the default hasher, 8 slots and the load factor 7/10.
    fn new() -> (table: Self)
        requires
            Self::requirements(),
        ensures
            table.well_formed(),
            table.to_map() == Map::<K, V>::empty(),
    ;

    /// An empty table with the given hasher, 8 slots and the load factor 7/10.
    fn with_hasher(hasher: S) -> (table: Self)
        requires
            Self::requirements(),
        ensures
            table.well_formed(),
            table.to_map() == Map::<K, V>::empty(),
    ;

    /// Stores `value` under `key`, unless the key is stored already: then the map stays
    /// as it is and the value comes back.
    fn insert(&mut self, key: &K, value: V) -> (r: Result<(), V>)
        requires
            old(self).well_formed(),
            old(self).insertable(*key, value),
        ensures
            final(self).well_formed(),
            r == insert_outcome(old(self).to_map(), *key, value),
            final(self).to_map() == insert_map(old(self).to_map(), *key, value),
    ;

    /// The value stored for `key`, if there is one.
    fn lookup(&self, key: &K) -> (r: Option<&V>)
        requires
            self.well_formed(),
        ensures
            lookup_outcome(self.to_map(), *key) == match r {
                Some(value) => Some(*value),
                None => None,
            },
    ;

    /// Takes `key` and its value out of the map and hands the value over.
    fn remove(&mut self, key: &K) -> (r: Result<V, ()>)
        requires
            old(self).well_formed(),
        ensures
            final(self).well_formed(),
            r == remove_outcome(old(self).to_map(), *key),
            final(self).to_map() == remove_map(old(self).to_map(), *key),
    ;
}

} // verus!
