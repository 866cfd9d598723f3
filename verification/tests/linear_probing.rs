use all_of_hashtable::open_addressing::{
    FcfsLinearProbing, LcfsLinearProbing, OpenAddressingHashTable,
};
use all_of_hashtable::{HashMap, LoadFactor, INITIAL_SIZE};
use std::{collections::hash_map::DefaultHasher, hash::BuildHasherDefault};

#[test]
fn linear_probing_test_crd_fcfs() {
    let mut table = OpenAddressingHashTable::<u64, u64, _>::new_with_properties(
        BuildHasherDefault::<DefaultHasher>::default(),
        FcfsLinearProbing::default(),
        INITIAL_SIZE,
        LoadFactor::default(),
    );

    for i in 0..1000 {
        assert_eq!(table.insert(&i, i), Ok(()));
    }

    for i in 0..1000 {
        assert_eq!(table.lookup(&i), Some(&i));
    }

    for i in 0..1000 {
        assert_eq!(table.remove(&i), Ok(i));
    }

    for i in 0..1000 {
        assert_eq!(table.lookup(&i), None);
    }
}

#[test]
fn test_crd_lcfs() {
    let mut table = OpenAddressingHashTable::<u64, u64, _>::new_with_properties(
        BuildHasherDefault::<DefaultHasher>::default(),
        LcfsLinearProbing::default(),
        INITIAL_SIZE,
        LoadFactor::default(),
    );

    for i in 0..1000 {
        assert_eq!(table.insert(&i, i), Ok(()));
    }

    for i in 0..1000 {
        assert_eq!(table.lookup(&i), Some(&i));
    }

    for i in 0..1000 {
        assert_eq!(table.remove(&i), Ok(i));
    }

    for i in 0..1000 {
        assert_eq!(table.lookup(&i), None);
    }
}
