use all_of_hashtable::offsets::{
    home_index, is_power_of_two, probe_index, OffsetSequence, Offsets,
};
use all_of_hashtable::open_addressing::{Bucket, EntryBucket, FCFS, LCFS};
use all_of_hashtable::{EntryResult, InsertResult, RawHashTable};

fn bucket(key: u64, hash: u64, value: u32) -> Bucket<u64, u32> {
    Bucket { key, hash, value: Box::new(value) }
}

fn occupied(key: u64, hash: u64, value: u32) -> EntryBucket<u64, u32> {
    EntryBucket::Occupied(bucket(key, hash, value))
}

fn table_of(buckets: Vec<EntryBucket<u64, u32>>) -> RawHashTable<u64, u32> {
    let mask = buckets.len() - 1;
    RawHashTable { buckets, mask }
}

fn linear() -> Offsets {
    Offsets::new(OffsetSequence::Linear { step: 1 })
}

fn quadratic() -> Offsets {
    Offsets::new(OffsetSequence::Quadratic)
}

/// What a slot holds: its key, or -1 for an empty slot and -2 for a tombstone.
fn layout(table: &RawHashTable<u64, u32>) -> Vec<i64> {
    table
        .buckets
        .iter()
        .map(|slot| match slot {
            EntryBucket::Empty => -1,
            EntryBucket::Tombstone => -2,
            EntryBucket::Occupied(b) => b.key as i64,
        })
        .collect()
}

#[test]
fn allocate_gives_empty_slots() {
    let buckets = EntryBucket::<u64, u32>::allocate(16);
    assert_eq!(buckets.len(), 16);
    assert!(buckets.iter().all(|slot| matches!(slot, EntryBucket::Empty)));
    assert_eq!(EntryBucket::<u64, u32>::allocate(0).len(), 0);
}

#[test]
fn powers_of_two_are_valid_slot_counts() {
    for n in [1usize, 2, 4, 8, 1024, 1 << 20, (usize::MAX >> 1) + 1] {
        assert!(is_power_of_two(n));
    }
    for n in [0usize, 3, 6, 12, 1000, (1 << 20) + 1, usize::MAX] {
        assert!(!is_power_of_two(n));
    }
}

#[test]
fn offsets_of_the_sequences() {
    assert_eq!(OffsetSequence::Linear { step: 1 }.offset(1), 1);
    assert_eq!(OffsetSequence::Linear { step: 3 }.offset(5), 15);
    assert_eq!(OffsetSequence::Quadratic.offset(1), 1);
    assert_eq!(OffsetSequence::Quadratic.offset(7), 49);
    assert_eq!(OffsetSequence::Linear { step: u64::MAX }.offset(2), u64::MAX - 1);
    assert_eq!(OffsetSequence::Quadratic.offset(1 << 32), 0);
}

#[test]
fn a_producer_hands_out_the_offsets_in_turn_and_counts_them() {
    let mut offsets = quadratic();
    assert_eq!(offsets.taken(), 0);
    assert_eq!(offsets.next(), 1);
    assert_eq!(offsets.next(), 4);
    assert_eq!(offsets.next(), 9);
    assert_eq!(offsets.taken(), 3);
    let mut offsets = Offsets::new(OffsetSequence::Linear { step: 5 });
    assert_eq!(offsets.next(), 5);
    assert_eq!(offsets.next(), 10);
    assert_eq!(offsets.taken(), 2);
}

#[test]
fn slots_are_taken_modulo_the_table_size() {
    assert_eq!(home_index(0x1234, 7), 4);
    assert_eq!(home_index(u64::MAX, 15), 15);
    assert_eq!(home_index(99, 0), 0);
    assert_eq!(probe_index(6, 1, 7), 7);
    assert_eq!(probe_index(6, 5, 7), 3);
    assert_eq!(probe_index(3, u64::MAX, 7), 2);
    assert_eq!(probe_index(0, 16, 7), 0);
}

#[test]
fn lookup_finds_the_home_slot_empty() {
    let table = table_of(EntryBucket::allocate(8));
    let mut offset = linear();
    assert_eq!(FCFS::lookup(&table, &5, 5, &mut offset, true), EntryResult::Vacancy(5));
    assert_eq!(offset.taken(), 0);
}

#[test]
fn lookup_walks_past_other_keys_to_a_hit() {
    let mut buckets = EntryBucket::allocate(8);
    buckets[6] = occupied(6, 6, 0);
    buckets[7] = occupied(14, 6, 1);
    buckets[0] = occupied(22, 6, 2);
    let table = table_of(buckets);
    let mut offset = linear();
    assert_eq!(FCFS::lookup(&table, &22, 6, &mut offset, false), EntryResult::Hit(0));
    assert_eq!(offset.taken(), 2);
    let mut offset = linear();
    assert_eq!(FCFS::lookup(&table, &30, 6, &mut offset, false), EntryResult::Vacancy(1));
    assert_eq!(offset.taken(), 3);
}

#[test]
fn lookup_tells_keys_with_equal_hashes_apart_and_equal_keys_by_hash() {
    let mut buckets = EntryBucket::allocate(8);
    buckets[2] = occupied(7, 2, 0);
    let table = table_of(buckets);
    // the same key under another hash with the same home slot is not a hit
    let mut offset = linear();
    assert_eq!(FCFS::lookup(&table, &7, 10, &mut offset, false), EntryResult::Vacancy(3));
    let mut offset = linear();
    assert_eq!(FCFS::lookup(&table, &7, 2, &mut offset, false), EntryResult::Hit(2));
}

#[test]
fn lookup_returns_the_first_tombstone_only_when_asked() {
    let mut buckets = EntryBucket::allocate(8);
    buckets[3] = occupied(3, 3, 0);
    buckets[4] = EntryBucket::Tombstone;
    buckets[5] = EntryBucket::Tombstone;
    buckets[6] = occupied(11, 3, 1);
    let table = table_of(buckets);
    let mut offset = linear();
    assert_eq!(FCFS::lookup(&table, &19, 3, &mut offset, true), EntryResult::Vacancy(4));
    assert_eq!(offset.taken(), 4);
    let mut offset = linear();
    assert_eq!(FCFS::lookup(&table, &19, 3, &mut offset, false), EntryResult::Vacancy(7));
    assert_eq!(offset.taken(), 4);
    // a key behind the tombstones is still found
    let mut offset = linear();
    assert_eq!(FCFS::lookup(&table, &11, 3, &mut offset, true), EntryResult::Hit(6));
    assert_eq!(offset.taken(), 3);
}

#[test]
fn lookup_is_full_when_the_walk_comes_home() {
    let buckets = (0..4).map(|i| occupied(i, i, 0)).collect();
    let table = table_of(buckets);
    let mut offset = linear();
    assert_eq!(FCFS::lookup(&table, &9, 1, &mut offset, true), EntryResult::Full);
    assert_eq!(offset.taken(), 4);
    // tombstones do not make room once the walk is back home
    let buckets = (0..4).map(|_| EntryBucket::Tombstone).collect();
    let table = table_of(buckets);
    let mut offset = linear();
    assert_eq!(FCFS::lookup(&table, &9, 1, &mut offset, true), EntryResult::Full);
}

#[test]
fn a_quadratic_walk_is_full_while_slots_are_empty() {
    let mut buckets = EntryBucket::allocate(8);
    buckets[0] = occupied(0, 0, 0);
    buckets[1] = occupied(8, 0, 0);
    buckets[4] = occupied(16, 0, 0);
    let table = table_of(buckets);
    // steps 1, 2, 3 lie in the slots 1, 4, 1; step 4 is back in slot 0
    let mut offset = quadratic();
    assert_eq!(FCFS::lookup(&table, &24, 0, &mut offset, true), EntryResult::Full);
    assert_eq!(offset.taken(), 4);
    let mut offset = quadratic();
    assert_eq!(FCFS::lookup(&table, &16, 0, &mut offset, true), EntryResult::Hit(4));
    assert_eq!(offset.taken(), 2);
    // from slot 3 the walk visits 3, 4, 7
    let mut offset = quadratic();
    assert_eq!(FCFS::lookup(&table, &3, 3, &mut offset, true), EntryResult::Vacancy(3));
    let mut offset = quadratic();
    assert_eq!(FCFS::lookup(&table, &12, 4, &mut offset, true), EntryResult::Vacancy(5));
    assert_eq!(offset.taken(), 1);
}

#[test]
fn a_table_of_one_slot() {
    let table = table_of(EntryBucket::allocate(1));
    let mut offset = linear();
    assert_eq!(FCFS::lookup(&table, &9, 9, &mut offset, true), EntryResult::Vacancy(0));
    let table = table_of(vec![occupied(1, 1, 0)]);
    let mut offset = linear();
    assert_eq!(FCFS::lookup(&table, &9, 9, &mut offset, true), EntryResult::Full);
    assert_eq!(offset.taken(), 1);
    let mut offset = linear();
    assert_eq!(FCFS::lookup(&table, &1, 1, &mut offset, true), EntryResult::Hit(0));
}

#[test]
fn fcfs_remove_leaves_a_tombstone() {
    let mut buckets = EntryBucket::allocate(8);
    buckets[2] = occupied(2, 2, 20);
    buckets[3] = occupied(10, 2, 100);
    let mut table = table_of(buckets);
    let mut offset = linear();
    match FCFS::remove(&mut table, &10, 2, &mut offset, true) {
        Ok(EntryBucket::Occupied(b)) => {
            assert_eq!((b.key, b.hash, *b.value), (10, 2, 100));
        }
        _ => panic!("the key is stored"),
    }
    assert_eq!(offset.taken(), 1);
    assert_eq!(layout(&table), vec![-1, -1, 2, -2, -1, -1, -1, -1]);
    let mut offset = linear();
    assert!(FCFS::remove(&mut table, &10, 2, &mut offset, true).is_err());
    assert_eq!(offset.taken(), 2);
    let mut offset = linear();
    assert!(FCFS::remove(&mut table, &5, 5, &mut offset, true).is_err());
    assert_eq!(layout(&table), vec![-1, -1, 2, -2, -1, -1, -1, -1]);
    assert_eq!(table.mask, 7);
}

#[test]
fn lookup_stack_records_the_walk_up_to_its_end() {
    let mut buckets = EntryBucket::allocate(8);
    buckets[6] = occupied(6, 6, 0);
    buckets[7] = occupied(14, 6, 1);
    let table = table_of(buckets);
    let mut offset = linear();
    assert_eq!(LCFS::lookup_stack(&table, &22, 6, &mut offset, true), Ok(vec![6, 7, 0]));
    assert_eq!(offset.taken(), 2);
    let mut offset = linear();
    assert_eq!(LCFS::lookup_stack(&table, &14, 6, &mut offset, true), Ok(vec![6, 7]));
    let mut offset = linear();
    assert_eq!(LCFS::lookup_stack(&table, &1, 1, &mut offset, true), Ok(vec![1]));
}

#[test]
fn lookup_stack_ends_at_the_first_tombstone() {
    let mut buckets = EntryBucket::allocate(8);
    buckets[1] = occupied(1, 1, 0);
    buckets[2] = EntryBucket::Tombstone;
    buckets[3] = occupied(9, 1, 1);
    buckets[4] = EntryBucket::Tombstone;
    let table = table_of(buckets);
    let mut offset = linear();
    assert_eq!(LCFS::lookup_stack(&table, &17, 1, &mut offset, true), Ok(vec![1, 2]));
    assert_eq!(offset.taken(), 4);
    let mut offset = linear();
    assert_eq!(
        LCFS::lookup_stack(&table, &17, 1, &mut offset, false),
        Ok(vec![1, 2, 3, 4, 5])
    );
    // the key behind the tombstone is found, with the whole walk as its path
    let mut offset = linear();
    assert_eq!(LCFS::lookup_stack(&table, &9, 1, &mut offset, true), Ok(vec![1, 2, 3]));
}

#[test]
fn lookup_stack_fails_when_the_walk_comes_home() {
    let buckets = (0..4).map(|i| occupied(i, i, 0)).collect();
    let table = table_of(buckets);
    let mut offset = linear();
    assert_eq!(LCFS::lookup_stack(&table, &9, 1, &mut offset, true), Err(()));
    assert_eq!(offset.taken(), 4);
}

#[test]
fn lcfs_insert_takes_the_home_slot_and_shifts_the_rest() {
    let mut buckets = EntryBucket::allocate(8);
    buckets[6] = occupied(6, 6, 0);
    buckets[7] = occupied(14, 6, 1);
    buckets[0] = occupied(7, 7, 2);
    let mut table = table_of(buckets);
    let mut offset = linear();
    assert!(matches!(
        LCFS::insert(&mut table, &mut offset, bucket(22, 6, 3), true),
        InsertResult::Success
    ));
    assert_eq!(offset.taken(), 3);
    assert_eq!(layout(&table), vec![14, 7, -1, -1, -1, -1, 22, 6]);
    // every key is found along its own walk
    for (key, hash, slot) in [(22u64, 6u64, 6usize), (6, 6, 7), (14, 6, 0), (7, 7, 1)] {
        let mut offset = linear();
        assert_eq!(LCFS::lookup(&table, &key, hash, &mut offset), Some(slot));
    }
    match &table.buckets[6] {
        EntryBucket::Occupied(b) => assert_eq!((b.key, b.hash, *b.value), (22, 6, 3)),
        _ => panic!("the home slot holds the new key"),
    }
}

#[test]
fn lcfs_insert_shifts_into_the_first_tombstone() {
    let mut buckets = EntryBucket::allocate(8);
    buckets[1] = occupied(1, 1, 0);
    buckets[2] = EntryBucket::Tombstone;
    buckets[3] = occupied(9, 1, 1);
    let mut table = table_of(buckets);
    let mut offset = linear();
    assert!(matches!(
        LCFS::insert(&mut table, &mut offset, bucket(17, 1, 2), true),
        InsertResult::Success
    ));
    assert_eq!(layout(&table), vec![-1, 17, 1, 9, -1, -1, -1, -1]);
}

#[test]
fn lcfs_insert_hands_the_bucket_back_when_it_fails() {
    let mut buckets = EntryBucket::allocate(4);
    buckets[1] = occupied(1, 1, 0);
    buckets[2] = occupied(5, 1, 1);
    let mut table = table_of(buckets);
    let mut offset = linear();
    match LCFS::insert(&mut table, &mut offset, bucket(5, 1, 9), true) {
        InsertResult::AlreadyExist(b) => assert_eq!((b.key, b.hash, *b.value), (5, 1, 9)),
        _ => panic!("the key is stored"),
    }
    assert_eq!(layout(&table), vec![-1, 1, 5, -1]);
    let buckets = (0..4).map(|i| occupied(i, i, 0)).collect();
    let mut table = table_of(buckets);
    let mut offset = linear();
    match LCFS::insert(&mut table, &mut offset, bucket(9, 1, 9), true) {
        InsertResult::Full(b) => assert_eq!((b.key, b.hash, *b.value), (9, 1, 9)),
        _ => panic!("the table is full"),
    }
    assert_eq!(layout(&table), vec![0, 1, 2, 3]);
}

#[test]
fn lcfs_lookup_and_remove() {
    let mut buckets = EntryBucket::allocate(8);
    buckets[5] = occupied(5, 5, 50);
    buckets[6] = EntryBucket::Tombstone;
    buckets[7] = occupied(13, 5, 130);
    let mut table = table_of(buckets);
    let mut offset = linear();
    assert_eq!(LCFS::lookup(&table, &13, 5, &mut offset), Some(7));
    assert_eq!(offset.taken(), 2);
    let mut offset = linear();
    assert_eq!(LCFS::lookup(&table, &21, 5, &mut offset), None);
    assert_eq!(offset.taken(), 3);
    let mut offset = linear();
    match LCFS::remove(&mut table, &5, 5, &mut offset, true) {
        Ok(EntryBucket::Occupied(b)) => assert_eq!((b.key, *b.value), (5, 50)),
        _ => panic!("the key is stored"),
    }
    assert_eq!(layout(&table), vec![-1, -1, -1, -1, -1, -2, -2, 13]);
    let mut offset = linear();
    assert!(LCFS::remove(&mut table, &5, 5, &mut offset, true).is_err());
    let mut offset = linear();
    assert_eq!(LCFS::lookup(&table, &13, 5, &mut offset), Some(7));
}
