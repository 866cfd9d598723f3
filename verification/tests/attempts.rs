use all_of_hashtable::hashing::KeyHasher;
use all_of_hashtable::offsets::{OffsetSequence, Offsets};
use all_of_hashtable::open_addressing::rehearsal::first_free;
use all_of_hashtable::open_addressing::{
    FcfsLinearProbing, FcfsQuadraticProbing, LcfsLinearProbing, OpenAddressingHashTable,
};
use all_of_hashtable::{InsertResult, LoadFactor, INITIAL_SIZE};

struct Identity;

impl KeyHasher<u64> for Identity {
    fn spec_hash_one(&self, key: u64) -> u64 {
        key
    }

    fn hash_one(&self, key: &u64) -> u64 {
        *key
    }
}

#[test]
fn first_free_finds_the_first_slot_that_is_not_taken() {
    let taken = vec![true, true, false, false, true, true, true, false];
    let mut offset = Offsets::new(OffsetSequence::Linear { step: 1 });
    assert_eq!(first_free(&taken, 4, &mut offset, 7), Some(7));
    assert_eq!(offset.taken(), 3);
    let mut offset = Offsets::new(OffsetSequence::Linear { step: 1 });
    assert_eq!(first_free(&taken, 5, &mut offset, 7), Some(7));
    let mut offset = Offsets::new(OffsetSequence::Linear { step: 1 });
    assert_eq!(first_free(&taken, 0, &mut offset, 7), Some(2));
    let mut offset = Offsets::new(OffsetSequence::Linear { step: 1 });
    assert_eq!(first_free(&taken, 10, &mut offset, 7), Some(2));
    assert_eq!(offset.taken(), 0);
    // from slot 4 the quadratic walk visits 4, 5, 0 and 5 and is back home
    let mut offset = Offsets::new(OffsetSequence::Quadratic);
    assert_eq!(first_free(&taken, 4, &mut offset, 7), None);
    assert_eq!(offset.taken(), 4);
    // from slot 6 it visits 6 and 7
    let mut offset = Offsets::new(OffsetSequence::Quadratic);
    assert_eq!(first_free(&taken, 6, &mut offset, 7), Some(7));
}

#[test]
fn first_free_finds_nothing_in_a_full_table() {
    let taken = vec![true; 4];
    let mut offset = Offsets::new(OffsetSequence::Linear { step: 3 });
    assert_eq!(first_free(&taken, 1, &mut offset, 3), None);
    assert_eq!(offset.taken(), 4);
    let mut offset = Offsets::new(OffsetSequence::Linear { step: 2 });
    assert_eq!(first_free(&taken, 1, &mut offset, 3), None);
    assert_eq!(offset.taken(), 2);
    let taken = vec![false];
    let mut offset = Offsets::new(OffsetSequence::Quadratic);
    assert_eq!(first_free(&taken, 9, &mut offset, 0), Some(0));
}

#[test]
fn try_insert_stores_rejects_and_grows_like_insert() {
    let mut table = OpenAddressingHashTable::<u64, u64, _, _>::new_with_properties(
        Identity,
        FcfsLinearProbing::default(),
        INITIAL_SIZE,
        LoadFactor::default(),
    );
    assert!(table.can_grow());
    for i in 0..5u64 {
        assert!(matches!(table.try_insert(&i, i * 10), InsertResult::Success));
        assert_eq!(table.capacity(), 8);
    }
    assert!(matches!(table.try_insert(&3, 33), InsertResult::AlreadyExist(33)));
    assert_eq!(table.capacity(), 16);
    assert_eq!(table.count(), 5);
    for i in 5..11u64 {
        assert!(matches!(table.try_insert(&i, i * 10), InsertResult::Success));
        assert_eq!(table.capacity(), 16);
    }
    assert!(table.can_grow());
    assert!(matches!(table.try_insert(&11, 110), InsertResult::Success));
    assert_eq!(table.capacity(), 32);
    for i in 0..12u64 {
        assert_eq!(table.lookup(&i), Some(&(i * 10)));
    }
    assert_eq!(table.count(), 12);
}

#[test]
fn try_insert_grows_a_quadratic_table_whose_walk_is_full() {
    let mut table = OpenAddressingHashTable::<u64, u64, _, _>::new_with_properties(
        Identity,
        FcfsQuadraticProbing::default(),
        INITIAL_SIZE,
        LoadFactor::default(),
    );
    for key in [0u64, 32, 64] {
        assert!(matches!(table.try_insert(&key, key), InsertResult::Success));
        assert_eq!(table.capacity(), 8);
    }
    assert!(table.can_grow());
    assert!(matches!(table.try_insert(&96, 96), InsertResult::Success));
    assert_eq!(table.capacity(), 16);
    assert!(matches!(table.try_insert(&128, 128), InsertResult::Success));
    assert_eq!(table.capacity(), 32);
    assert!(matches!(table.try_insert(&64, 0), InsertResult::AlreadyExist(0)));
    for key in [0u64, 32, 64, 96, 128] {
        assert_eq!(table.lookup(&key), Some(&key));
    }
    assert_eq!(table.count(), 5);
}

#[test]
fn try_insert_and_insert_build_the_same_table() {
    let mut tried = OpenAddressingHashTable::<u64, u64, _, _>::new_with_properties(
        Identity,
        LcfsLinearProbing::default(),
        INITIAL_SIZE,
        LoadFactor::default(),
    );
    let mut inserted = OpenAddressingHashTable::<u64, u64, _, _>::new_with_properties(
        Identity,
        LcfsLinearProbing::default(),
        INITIAL_SIZE,
        LoadFactor::default(),
    );
    for i in 0..300u64 {
        let key = (i * 37) % 211;
        let outcome = inserted.insert(&key, i);
        match tried.try_insert(&key, i) {
            InsertResult::Success => assert_eq!(outcome, Ok(())),
            InsertResult::AlreadyExist(v) => assert_eq!(outcome, Err(v)),
            InsertResult::Full(_) => panic!("the table can grow"),
        }
        if i % 5 == 0 {
            assert_eq!(tried.remove(&(key / 2)), inserted.remove(&(key / 2)));
        }
        assert_eq!(tried.capacity(), inserted.capacity());
        assert_eq!(tried.count(), inserted.count());
    }
    for key in 0..211u64 {
        assert_eq!(tried.lookup(&key), inserted.lookup(&key));
    }
    for i in 0..tried.capacity() {
        let same = match (tried.slot(i), inserted.slot(i)) {
            (
                all_of_hashtable::open_addressing::EntryBucket::Occupied(a),
                all_of_hashtable::open_addressing::EntryBucket::Occupied(b),
            ) => a.key == b.key && a.hash == b.hash && a.value == b.value,
            (
                all_of_hashtable::open_addressing::EntryBucket::Empty,
                all_of_hashtable::open_addressing::EntryBucket::Empty,
            ) => true,
            (
                all_of_hashtable::open_addressing::EntryBucket::Tombstone,
                all_of_hashtable::open_addressing::EntryBucket::Tombstone,
            ) => true,
            _ => false,
        };
        assert!(same);
    }
}
