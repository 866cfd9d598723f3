use all_of_hashtable::hashing::{KeyHasher, SeededState};
use all_of_hashtable::open_addressing::{
    Bucket, EntryBucket, FcfsDoubleHashing, FcfsLinearProbing, FcfsQuadraticProbing,
    LcfsLinearProbing, OpenAddressingHashTable,
};
use all_of_hashtable::{
    sample, Entry, HashMap, InsertResult, LoadFactor, LookupSink, RawHashTable, Stat,
    INITIAL_SIZE, LOAD_FACTOR_DENOMINATOR, LOAD_FACTOR_NUMERATOR,
};
use std::collections::hash_map::DefaultHasher;
use std::hash::{BuildHasher, BuildHasherDefault};

struct Identity;

impl KeyHasher<u64> for Identity {
    fn spec_hash_one(&self, key: u64) -> u64 {
        key
    }

    fn hash_one(&self, key: &u64) -> u64 {
        *key
    }
}

fn bucket(key: u64, hash: u64, value: u32) -> Bucket<u64, u32> {
    Bucket { key, hash, value: Box::new(value) }
}

fn empty_table(size: usize) -> RawHashTable<u64, u32> {
    RawHashTable { buckets: EntryBucket::allocate(size), mask: size - 1 }
}

fn layout(table: &RawHashTable<u64, u32>) -> Vec<i64> {
    table
        .buckets
        .iter()
        .map(|slot| match slot {
            EntryBucket::Empty => -1,
            EntryBucket::Tombstone => -2,
            EntryBucket::Occupied(b) => b.key as i64,
        })
        .collect()
}

fn fill<E: Entry<u64, u32>>(entry: &mut E, table: &mut RawHashTable<u64, u32>, keys: &[(u64, u64)]) {
    for (key, hash) in keys {
        assert!(matches!(
            entry.insert(table, bucket(*key, *hash, *key as u32)),
            InsertResult::Success
        ));
    }
}

#[test]
fn fcfs_linear_probing_fills_the_first_free_slot() {
    let mut entry = FcfsLinearProbing::default();
    let mut table = empty_table(8);
    fill(&mut entry, &mut table, &[(6, 6), (14, 6), (7, 7), (22, 6)]);
    assert_eq!(layout(&table), vec![7, 22, -1, -1, -1, -1, 6, 14]);
    match entry.insert(&mut table, bucket(14, 6, 0)) {
        InsertResult::AlreadyExist(b) => assert_eq!((b.key, *b.value), (14, 0)),
        _ => panic!("the key is stored"),
    }
    assert_eq!(entry.lookup(&table, &22, 6).map(|b| *b.value), Some(22));
    assert_eq!(entry.lookup(&table, &30, 6).map(|b| *b.value), None);
    assert_eq!(entry.remove(&mut table, &14, 6).map(|b| *b.value), Ok(14));
    assert_eq!(layout(&table), vec![7, 22, -1, -1, -1, -1, 6, -2]);
    assert_eq!(entry.lookup(&table, &22, 6).map(|b| b.key), Some(22));
    assert!(entry.remove(&mut table, &14, 6).is_err());
    // the tombstone is the first free slot of the next walk from slot 6
    fill(&mut entry, &mut table, &[(30, 6)]);
    assert_eq!(layout(&table), vec![7, 22, -1, -1, -1, -1, 6, 30]);
}

#[test]
fn fcfs_linear_probing_reports_a_full_table() {
    let mut entry = FcfsLinearProbing::default();
    let mut table = empty_table(4);
    fill(&mut entry, &mut table, &[(0, 0), (1, 1), (2, 2), (3, 3)]);
    match entry.insert(&mut table, bucket(4, 0, 0)) {
        InsertResult::Full(b) => assert_eq!(b.key, 4),
        _ => panic!("the table is full"),
    }
    assert_eq!(layout(&table), vec![0, 1, 2, 3]);
    assert!(entry.lookup(&table, &4, 0).is_none());
}

#[test]
fn lcfs_linear_probing_gives_the_home_slot_to_the_newcomer() {
    let mut entry = LcfsLinearProbing::default();
    let mut table = empty_table(8);
    fill(&mut entry, &mut table, &[(6, 6), (14, 6), (7, 7), (22, 6)]);
    assert_eq!(layout(&table), vec![7, 6, -1, -1, -1, -1, 22, 14]);
    for (key, hash) in [(6u64, 6u64), (14, 6), (7, 7), (22, 6)] {
        assert_eq!(entry.lookup(&table, &key, hash).map(|b| *b.value), Some(key as u32));
    }
    assert_eq!(entry.remove(&mut table, &6, 6).map(|b| *b.value), Ok(6));
    assert_eq!(layout(&table), vec![7, -2, -1, -1, -1, -1, 22, 14]);
    fill(&mut entry, &mut table, &[(30, 6)]);
    assert_eq!(layout(&table), vec![14, 7, -1, -1, -1, -1, 30, 22]);
    for (key, hash) in [(30u64, 6u64), (14, 6), (7, 7), (22, 6)] {
        assert_eq!(entry.lookup(&table, &key, hash).map(|b| *b.value), Some(key as u32));
    }
    match entry.insert(&mut table, bucket(7, 7, 0)) {
        InsertResult::AlreadyExist(b) => assert_eq!(b.key, 7),
        _ => panic!("the key is stored"),
    }
}

#[test]
fn quadratic_probing_steps_by_squares() {
    let mut entry = FcfsQuadraticProbing::default();
    let mut table = empty_table(16);
    fill(&mut entry, &mut table, &[(3, 3), (19, 3), (35, 3), (51, 3)]);
    // slots 3, 3 + 1, 3 + 4, 3 + 9
    assert_eq!(
        layout(&table),
        vec![-1, -1, -1, 3, 19, -1, -1, 35, -1, -1, -1, -1, 51, -1, -1, -1]
    );
    // step 4 is back home, so a fifth key of this home slot finds the table full
    match entry.insert(&mut table, bucket(67, 3, 0)) {
        InsertResult::Full(b) => assert_eq!(b.key, 67),
        _ => panic!("the walk is exhausted"),
    }
    assert_eq!(entry.lookup(&table, &51, 3).map(|b| b.key), Some(51));
    assert_eq!(entry.remove(&mut table, &35, 3).map(|b| b.key), Ok(35));
    assert_eq!(entry.lookup(&table, &51, 3).map(|b| b.key), Some(51));
    // the walk meets no empty slot, so the tombstone does not make room
    match entry.insert(&mut table, bucket(67, 3, 0)) {
        InsertResult::Full(b) => assert_eq!(b.key, 67),
        _ => panic!("the walk is exhausted"),
    }
    // a walk that ends at an empty slot takes the tombstone it passed
    fill(&mut entry, &mut table, &[(6, 6)]);
    assert_eq!(
        layout(&table),
        vec![-1, -1, -1, 3, 19, -1, 6, -2, -1, -1, -1, -1, 51, -1, -1, -1]
    );
    fill(&mut entry, &mut table, &[(22, 6)]);
    assert_eq!(
        layout(&table),
        vec![-1, -1, -1, 3, 19, -1, 6, 22, -1, -1, -1, -1, 51, -1, -1, -1]
    );
}

#[test]
fn double_hashing_steps_by_the_second_hash_made_odd() {
    let mut entry = FcfsDoubleHashing::with_hasher(Identity);
    assert_eq!(entry.hash_one(&40u64), 40);
    let mut table = empty_table(8);
    // home slot 1 for all; the steps are 3, 11 | 1 = 11 = 3 mod 8, and 4 | 1 = 5
    fill(&mut entry, &mut table, &[(3, 1), (11, 1), (4, 1), (12, 1)]);
    // key 3 at 1; key 11 at 1 + 3; key 4 at 1 + 5; key 12 (step 13 = 5 mod 8) at 1 + 10
    assert_eq!(layout(&table), vec![-1, 3, -1, 12, 11, -1, 4, -1]);
    for key in [3u64, 11, 4, 12] {
        assert_eq!(
            Entry::<u64, u32>::lookup(&entry, &table, &key, 1).map(|b| b.key),
            Some(key)
        );
    }
    assert_eq!(Entry::<u64, u32>::remove(&mut entry, &mut table, &4, 1).map(|b| b.key), Ok(4));
    assert_eq!(
        Entry::<u64, u32>::lookup(&entry, &table, &12, 1).map(|b| b.key),
        Some(12)
    );
    assert!(Entry::<u64, u32>::lookup(&entry, &table, &4, 1).is_none());
}

#[test]
fn double_hashing_with_an_even_second_hash_still_covers_the_table() {
    let mut entry = FcfsDoubleHashing::with_hasher(Identity);
    let mut table = empty_table(8);
    // the second hash of key 0 is 0; made odd it is 1
    let keys: Vec<(u64, u64)> = (0..8).map(|i| (i * 8, 0)).collect();
    fill(&mut entry, &mut table, &keys);
    assert!(table.buckets.iter().all(|s| matches!(s, EntryBucket::Occupied(_))));
    match entry.insert(&mut table, bucket(64, 0, 0)) {
        InsertResult::Full(b) => assert_eq!(b.key, 64),
        _ => panic!("the table is full"),
    }
}

#[test]
fn strategies_record_nothing_unless_told_to() {
    let mut entry = FcfsLinearProbing::default();
    let mut table = empty_table(8);
    fill(&mut entry, &mut table, &[(6, 6), (14, 6)]);
    assert!(Entry::<u64, u32>::lookup(&entry, &table, &14, 6).is_some());
    assert!(Entry::<u64, u32>::remove(&mut entry, &mut table, &6, 6).is_ok());
    let stat = Entry::<u64, u32>::stat(&entry);
    assert!(stat.insert_psl.is_empty());
    assert!(stat.lookup_psl.is_empty());
    assert!(stat.remove_psl.is_empty());
}

#[test]
fn fcfs_records_the_lengths_of_its_probes() {
    let mut entry = FcfsLinearProbing::default();
    entry.set_recording(true);
    let mut table = empty_table(8);
    fill(&mut entry, &mut table, &[(6, 6), (14, 6), (7, 7), (22, 6)]);
    assert!(matches!(
        entry.insert(&mut table, bucket(14, 6, 0)),
        InsertResult::AlreadyExist(_)
    ));
    assert!(Entry::<u64, u32>::lookup(&entry, &table, &22, 6).is_some());
    assert!(Entry::<u64, u32>::lookup(&entry, &table, &6, 6).is_some());
    assert!(Entry::<u64, u32>::lookup(&entry, &table, &30, 6).is_none());
    assert!(Entry::<u64, u32>::remove(&mut entry, &mut table, &22, 6).is_ok());
    assert!(Entry::<u64, u32>::remove(&mut entry, &mut table, &5, 5).is_err());
    let stat = Entry::<u64, u32>::stat(&entry);
    assert_eq!(stat.insert_psl, vec![0, 1, 1, 3, 1]);
    assert_eq!(stat.lookup_psl, vec![3, 0, 4]);
    assert_eq!(stat.remove_psl, vec![3, 0]);
    entry.set_recording(false);
    fill(&mut entry, &mut table, &[(1, 1)]);
    assert!(Entry::<u64, u32>::lookup(&entry, &table, &1, 1).is_some());
    let stat = entry.stat();
    assert_eq!(stat.insert_psl, vec![0, 1, 1, 3, 1]);
    assert_eq!(stat.lookup_psl, vec![3, 0, 4]);
}

#[test]
fn lcfs_quadratic_and_double_hashing_record_too() {
    let mut entry = LcfsLinearProbing::default();
    entry.set_recording(true);
    let mut table = empty_table(8);
    fill(&mut entry, &mut table, &[(6, 6), (14, 6), (22, 6)]);
    assert!(Entry::<u64, u32>::lookup(&entry, &table, &14, 6).is_some());
    assert!(Entry::<u64, u32>::remove(&mut entry, &mut table, &6, 6).is_ok());
    let stat = Entry::<u64, u32>::stat(&entry);
    assert_eq!(stat.insert_psl, vec![0, 1, 2]);
    assert_eq!(stat.lookup_psl, vec![1]);
    assert_eq!(stat.remove_psl, vec![2]);

    let mut entry = FcfsQuadraticProbing::default();
    entry.set_recording(true);
    let mut table = empty_table(8);
    fill(&mut entry, &mut table, &[(0, 0), (8, 0), (16, 0)]);
    assert!(matches!(entry.insert(&mut table, bucket(24, 0, 0)), InsertResult::Full(_)));
    assert!(Entry::<u64, u32>::lookup(&entry, &table, &24, 0).is_none());
    assert!(Entry::<u64, u32>::remove(&mut entry, &mut table, &16, 0).is_ok());
    let stat = Entry::<u64, u32>::stat(&entry);
    assert_eq!(stat.insert_psl, vec![0, 1, 2, 4]);
    assert_eq!(stat.lookup_psl, vec![4]);
    assert_eq!(stat.remove_psl, vec![2]);

    let mut entry = FcfsDoubleHashing::with_hasher(Identity);
    entry.set_recording(true);
    let mut table = empty_table(8);
    fill(&mut entry, &mut table, &[(3, 1), (11, 1), (4, 1), (12, 1)]);
    assert!(Entry::<u64, u32>::lookup(&entry, &table, &11, 1).is_some());
    assert!(Entry::<u64, u32>::remove(&mut entry, &mut table, &12, 1).is_ok());
    let stat = Entry::<u64, u32>::stat(&entry);
    assert_eq!(stat.insert_psl, vec![0, 1, 1, 2]);
    assert_eq!(stat.lookup_psl, vec![1]);
    assert_eq!(stat.remove_psl, vec![2]);
}

#[test]
fn a_table_records_the_moves_of_a_resize_as_insertions() {
    let mut entry = FcfsLinearProbing::default();
    entry.set_recording(true);
    let mut table = OpenAddressingHashTable::<u64, u32, _, _>::new_with_properties(
        Identity,
        entry,
        2,
        LoadFactor::new(1, 1).unwrap(),
    );
    assert_eq!(table.insert(&0, 0), Ok(()));
    assert_eq!(table.insert(&2, 2), Ok(()));
    assert_eq!(table.entry().stat().insert_psl, vec![0, 1]);
    // the table is at its threshold: both entries move, then the new key is placed
    assert_eq!(table.insert(&4, 4), Ok(()));
    assert_eq!(table.capacity(), 4);
    assert_eq!(table.entry().stat().insert_psl, vec![0, 1, 0, 0, 1]);
    assert_eq!(table.remove(&4), Ok(4));
    assert_eq!(table.remove(&9), Err(()));
    assert_eq!(table.lookup(&2), Some(&2));
    assert_eq!(table.lookup(&9), None);
    let stat = table.entry().stat();
    assert_eq!(stat.remove_psl, vec![1, 2]);
    assert_eq!(stat.lookup_psl, vec![0, 2]);
    assert_eq!(stat.insert_psl, vec![0, 1, 0, 0, 1]);
}

#[test]
fn samples_are_bytes() {
    assert_eq!(sample(0), 0);
    assert_eq!(sample(255), 255);
    assert_eq!(sample(256), 255);
    assert_eq!(sample(u64::MAX), 255);
    let mut stat = Stat::new();
    stat.record_insert(3);
    stat.lookup_psl.push(9);
    stat.record_remove(700);
    stat.record_insert(4);
    assert_eq!(stat.insert_psl, vec![3, 4]);
    assert_eq!(stat.lookup_psl, vec![9]);
    assert_eq!(stat.remove_psl, vec![255]);
    let copy = stat.clone();
    assert_eq!(copy.insert_psl, vec![3, 4]);
    assert_eq!(copy.lookup_psl, vec![9]);
    assert_eq!(copy.remove_psl, vec![255]);
    let copy = stat.duplicate();
    assert_eq!(copy.insert_psl, vec![3, 4]);
    assert_eq!(copy.lookup_psl, vec![9]);
    assert_eq!(copy.remove_psl, vec![255]);
    let fresh = Stat::default();
    assert!(fresh.insert_psl.is_empty() && fresh.lookup_psl.is_empty());
    assert!(fresh.remove_psl.is_empty());
}

#[test]
fn a_lookup_sink_gathers_samples_behind_a_shared_reference() {
    let sink = LookupSink::new();
    assert!(sink.samples().is_empty());
    sink.record(2);
    sink.record(1000);
    sink.record(0);
    assert_eq!(sink.samples(), vec![2, 255, 0]);
    assert_eq!(sink.samples(), vec![2, 255, 0]);
}

#[test]
fn load_factors_lie_between_zero_and_one() {
    assert!(LoadFactor::new(0, 10).is_none());
    assert!(LoadFactor::new(11, 10).is_none());
    assert!(LoadFactor::new(1, 0).is_none());
    assert!(LoadFactor::new(0, 0).is_none());
    let full = LoadFactor::new(10, 10).unwrap();
    assert_eq!((full.numerator, full.denominator), (10, 10));
    let default = LoadFactor::default();
    assert_eq!((default.numerator, default.denominator), (7, 10));
    assert_eq!((LOAD_FACTOR_NUMERATOR, LOAD_FACTOR_DENOMINATOR), (7, 10));
    assert_eq!(INITIAL_SIZE, 8);
}

#[test]
fn thresholds_round_down() {
    let default = LoadFactor::default();
    assert_eq!(default.threshold(8), 5);
    assert_eq!(default.threshold(16), 11);
    assert_eq!(default.threshold(1024), 716);
    assert_eq!(default.threshold(2048), 1433);
    assert_eq!(default.threshold(1), 0);
    assert_eq!(default.threshold(0), 0);
    assert_eq!(LoadFactor::new(1, 1).unwrap().threshold(usize::MAX), usize::MAX);
    assert_eq!(LoadFactor::new(1, 3).unwrap().threshold(10), 3);
    assert_eq!(
        LoadFactor::new(usize::MAX - 1, usize::MAX).unwrap().threshold(usize::MAX),
        usize::MAX - 1
    );
}

#[test]
fn the_default_hasher_hashes_as_the_standard_library_does() {
    let hasher = BuildHasherDefault::<DefaultHasher>::default();
    for key in [0u64, 1, 2, 0xFFFF, 0x0123_4567_89AB_CDEF, u64::MAX] {
        let hash = KeyHasher::hash_one(&hasher, &key);
        assert_eq!(hash, BuildHasher::hash_one(&hasher, key));
        assert_eq!(hash, KeyHasher::hash_one(&hasher, &key));
    }
    assert_ne!(KeyHasher::hash_one(&hasher, &1u64), 1);
    assert_ne!(KeyHasher::hash_one(&hasher, &1u64), KeyHasher::hash_one(&hasher, &2u64));
}

#[test]
fn seeded_hashers_depend_on_the_seed_alone() {
    let a = SeededState::new(1);
    let b = SeededState::new(1);
    let c = SeededState::new(2);
    for key in [0u64, 7, u64::MAX] {
        assert_eq!(a.hash_one(&key), b.hash_one(&key));
        assert_ne!(a.hash_one(&key), c.hash_one(&key));
        assert_ne!(a.hash_one(&key), key);
    }
    assert_eq!(a.seed, 1);
    let default_hasher = BuildHasherDefault::<DefaultHasher>::default();
    assert_ne!(a.hash_one(&5), KeyHasher::hash_one(&default_hasher, &5u64));
}

#[test]
fn random_seeds_differ() {
    let seeds: Vec<u64> = (0..8).map(|_| SeededState::random().seed).collect();
    assert!(seeds.iter().any(|seed| *seed != seeds[0]));
    let hasher = SeededState::default();
    assert_eq!(hasher.hash_one(&3), hasher.hash_one(&3));
}

#[test]
fn double_hashing_with_a_random_second_hasher_keeps_every_key() {
    let mut table = OpenAddressingHashTable::<u64, u64, FcfsDoubleHashing>::new();
    for i in 0..200u64 {
        assert_eq!(table.insert(&i, i * i), Ok(()));
    }
    for i in 0..200u64 {
        assert_eq!(table.lookup(&i), Some(&(i * i)));
    }
    assert_eq!(table.capacity(), 512);
    let with_hasher = OpenAddressingHashTable::<u64, u64, FcfsLinearProbing>::with_hasher(
        BuildHasherDefault::<DefaultHasher>::default(),
    );
    assert_eq!(with_hasher.capacity(), 8);
    assert_eq!(with_hasher.count(), 0);
    assert_eq!(with_hasher.lookup(&1), None);
}
