use all_of_hashtable::hashing::KeyHasher;
use all_of_hashtable::open_addressing::{
    FcfsLinearProbing, FcfsQuadraticProbing, LcfsLinearProbing, OpenAddressingHashTable,
};
use all_of_hashtable::{HashMap, LoadFactor, INITIAL_SIZE};

/// A hasher that gives every key itself as its hash, so that the home slot of a key
/// is known.
#[derive(Default)]
struct Identity;

impl KeyHasher<u64> for Identity {
    fn spec_hash_one(&self, key: u64) -> u64 {
        key
    }

    fn hash_one(&self, key: &u64) -> u64 {
        *key
    }
}

type Linear = OpenAddressingHashTable<u64, u64, FcfsLinearProbing>;

#[test]
fn three_keys_in_a_default_table() {
    let mut table = Linear::new();
    assert_eq!(table.insert(&1, 10), Ok(()));
    assert_eq!(table.insert(&2, 20), Ok(()));
    assert_eq!(table.insert(&3, 30), Ok(()));
    assert_eq!(table.lookup(&1), Some(&10));
    assert_eq!(table.lookup(&2), Some(&20));
    assert_eq!(table.lookup(&4), None);
    assert_eq!(table.count(), 3);
    assert_eq!(table.capacity(), 8);
}

#[test]
fn a_thousand_keys_need_2048_slots() {
    let mut table = Linear::new();
    for i in 0..1000u64 {
        assert_eq!(table.insert(&i, i), Ok(()));
    }
    for i in 0..1000u64 {
        assert_eq!(table.lookup(&i), Some(&i));
    }
    assert_eq!(table.count(), 1000);
    assert_eq!(table.capacity(), 2048);
}

#[test]
fn a_second_insert_of_a_key_is_rejected() {
    let mut table = Linear::new();
    assert_eq!(table.insert(&5, 50), Ok(()));
    assert_eq!(table.insert(&5, 500), Err(500));
    assert_eq!(table.lookup(&5), Some(&50));
    assert_eq!(table.count(), 1);
}

#[test]
fn a_second_removal_of_a_key_fails() {
    let mut table = Linear::new();
    assert_eq!(table.insert(&7, 70), Ok(()));
    assert_eq!(table.remove(&7), Ok(70));
    assert_eq!(table.remove(&7), Err(()));
    assert_eq!(table.lookup(&7), None);
    assert_eq!(table.count(), 0);
    assert_eq!(table.capacity(), 8);
}

#[test]
fn survivors_are_found_after_removals_and_more_insertions() {
    let mut table = Linear::new();
    for i in 0..1000u64 {
        assert_eq!(table.insert(&i, i), Ok(()));
    }
    for i in 0..500u64 {
        assert_eq!(table.remove(&i), Ok(i));
    }
    for i in 1000..1500u64 {
        assert_eq!(table.insert(&i, i), Ok(()));
    }
    for i in 500..1500u64 {
        assert_eq!(table.lookup(&i), Some(&i));
    }
    for i in 0..500u64 {
        assert_eq!(table.lookup(&i), None);
    }
    assert_eq!(table.count(), 1000);
}

#[test]
fn an_empty_table_round_trips_one_key() {
    let mut table = Linear::new();
    assert_eq!(table.lookup(&42), None);
    assert_eq!(table.insert(&42, 4242), Ok(()));
    assert_eq!(table.lookup(&42), Some(&4242));
    assert_eq!(table.remove(&42), Ok(4242));
    assert_eq!(table.lookup(&42), None);
}

#[test]
fn the_table_grows_when_the_count_reaches_the_threshold() {
    let mut table = OpenAddressingHashTable::<u64, u64, _, _>::new_with_properties(
        Identity,
        FcfsLinearProbing::default(),
        INITIAL_SIZE,
        LoadFactor::default(),
    );
    // 8 slots at 7/10 give a threshold of 5
    for i in 0..5u64 {
        assert_eq!(table.insert(&i, i), Ok(()));
        assert_eq!(table.capacity(), 8);
    }
    assert_eq!(table.insert(&5, 5), Ok(()));
    assert_eq!(table.capacity(), 16);
    // 16 slots give a threshold of 11
    for i in 6..11u64 {
        assert_eq!(table.insert(&i, i), Ok(()));
        assert_eq!(table.capacity(), 16);
    }
    assert_eq!(table.insert(&11, 11), Ok(()));
    assert_eq!(table.capacity(), 32);
    for i in 0..12u64 {
        assert_eq!(table.lookup(&i), Some(&i));
    }
    assert_eq!(table.count(), 12);
}

#[test]
fn a_rejected_insert_at_the_threshold_still_grows_the_table() {
    let mut table = OpenAddressingHashTable::<u64, u64, _, _>::new_with_properties(
        Identity,
        FcfsLinearProbing::default(),
        INITIAL_SIZE,
        LoadFactor::default(),
    );
    for i in 0..5u64 {
        assert_eq!(table.insert(&i, i), Ok(()));
    }
    assert_eq!(table.insert(&3, 33), Err(33));
    assert_eq!(table.capacity(), 16);
    assert_eq!(table.count(), 5);
    assert_eq!(table.lookup(&3), Some(&3));
}

#[test]
fn a_full_quadratic_walk_grows_the_table_below_the_threshold() {
    let mut table = OpenAddressingHashTable::<u64, u64, _, _>::new_with_properties(
        Identity,
        FcfsQuadraticProbing::default(),
        INITIAL_SIZE,
        LoadFactor::default(),
    );
    // the walk from slot 0 of 8 visits the slots 0, 1, 4 and 1 and is back home
    for key in [0u64, 8, 16] {
        assert_eq!(table.insert(&key, key), Ok(()));
        assert_eq!(table.capacity(), 8);
    }
    assert_eq!(table.insert(&24, 24), Ok(()));
    assert_eq!(table.capacity(), 16);
    assert_eq!(table.count(), 4);
    for key in [0u64, 8, 16, 24] {
        assert_eq!(table.lookup(&key), Some(&key));
    }
}

#[test]
fn tombstones_in_every_slot_grow_the_table_and_are_dropped() {
    let mut table = OpenAddressingHashTable::<u64, u64, _, _>::new_with_properties(
        Identity,
        FcfsLinearProbing::default(),
        INITIAL_SIZE,
        LoadFactor::default(),
    );
    for key in 0..8u64 {
        assert_eq!(table.insert(&key, key), Ok(()));
        assert_eq!(table.remove(&key), Ok(key));
    }
    assert_eq!(table.capacity(), 8);
    assert_eq!(table.count(), 0);
    // every slot holds a tombstone: the walk for a new key comes back home
    assert_eq!(table.insert(&8, 80), Ok(()));
    assert_eq!(table.capacity(), 16);
    assert_eq!(table.count(), 1);
    assert_eq!(table.lookup(&8), Some(&80));
    for key in 0..8u64 {
        assert_eq!(table.lookup(&key), None);
    }
}

#[test]
fn a_tombstone_is_reused_by_the_next_insertion() {
    let mut table = OpenAddressingHashTable::<u64, u64, _, _>::new_with_properties(
        Identity,
        FcfsLinearProbing::default(),
        INITIAL_SIZE,
        LoadFactor::default(),
    );
    assert_eq!(table.insert(&0, 1), Ok(()));
    assert_eq!(table.insert(&8, 2), Ok(()));
    assert_eq!(table.remove(&0), Ok(1));
    // key 8 lies behind the tombstone of key 0 and is still found
    assert_eq!(table.lookup(&8), Some(&2));
    assert_eq!(table.insert(&16, 3), Ok(()));
    assert_eq!(table.lookup(&16), Some(&3));
    assert_eq!(table.lookup(&8), Some(&2));
    assert_eq!(table.count(), 2);
    assert_eq!(table.capacity(), 8);
}

#[test]
fn the_count_stays_within_the_load_factor() {
    let mut table = Linear::new();
    let mut capacity = table.capacity();
    for i in 0..3000u64 {
        assert_eq!(table.insert(&i, i), Ok(()));
        assert!(table.count() * 10 <= table.capacity() * 7);
        assert!(table.capacity() >= capacity);
        capacity = table.capacity();
        if i % 3 == 0 {
            assert_eq!(table.remove(&(i / 2)).is_ok(), table.lookup(&(i / 2)).is_none());
            assert_eq!(table.capacity(), capacity);
        }
    }
}

#[test]
fn last_come_first_served_keeps_every_key() {
    let mut table = OpenAddressingHashTable::<u64, u64, _, _>::new_with_properties(
        Identity,
        LcfsLinearProbing::default(),
        INITIAL_SIZE,
        LoadFactor::default(),
    );
    // all of these keys have the home slot 0 while the table has 8 or 16 slots
    for key in [0u64, 16, 32, 48, 64] {
        assert_eq!(table.insert(&key, key + 1), Ok(()));
    }
    assert_eq!(table.insert(&32, 0), Err(0));
    for key in [0u64, 16, 32, 48, 64] {
        assert_eq!(table.lookup(&key), Some(&(key + 1)));
    }
    assert_eq!(table.remove(&16), Ok(17));
    assert_eq!(table.lookup(&16), None);
    assert_eq!(table.insert(&80, 81), Ok(()));
    for key in [0u64, 32, 48, 64, 80] {
        assert_eq!(table.lookup(&key), Some(&(key + 1)));
    }
    assert_eq!(table.count(), 5);
}
