use all_of_hashtable::open_addressing::{FcfsDoubleHashing, OpenAddressingHashTable};
use all_of_hashtable::{HashMap, LoadFactor, INITIAL_SIZE};
use std::{collections::hash_map::DefaultHasher, hash::BuildHasherDefault};

#[test]
fn double_hashing_test_crd_fcfs() {
    let mut table = OpenAddressingHashTable::<u64, u64, _>::new_with_properties(
        BuildHasherDefault::<DefaultHasher>::default(),
        FcfsDoubleHashing::default(),
        INITIAL_SIZE,
        LoadFactor::default(),
    );

    for i in 0..1000 {
        assert_eq!(table.insert(&i, i), Ok(()));
    }

    for i in 0..1000 {
        assert_eq!(table.lookup(&i), Some(&i));
    }

    for i in 0..1000 {
        assert_eq!(table.remove(&i), Ok(i));
    }

    for i in 0..1000 {
        assert_eq!(table.lookup(&i), None);
    }
}
