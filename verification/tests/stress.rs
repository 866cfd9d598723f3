use all_of_hashtable::open_addressing::{
    FcfsDoubleHashing, FcfsLinearProbing, FcfsQuadraticProbing, LcfsLinearProbing,
    OpenAddressingHashTable,
};
use all_of_hashtable::{HashMap, LoadFactor, INITIAL_SIZE};
use std::{collections::hash_map::DefaultHasher, hash::BuildHasherDefault};

/// A small reproducible generator (xorshift64*).
struct Generator(u64);

impl Generator {
    fn next(&mut self) -> u64 {
        self.0 ^= self.0 >> 12;
        self.0 ^= self.0 << 25;
        self.0 ^= self.0 >> 27;
        self.0.wrapping_mul(0x2545_F491_4F6C_DD1D)
    }

    fn below(&mut self, bound: usize) -> usize {
        (self.next() % bound as u64) as usize
    }
}

/// Runs `iter` random operations on `map` and on a reference map, half of them on keys
/// that are present and half on keys that are absent, and compares every outcome.
fn stress_hashmap<T>(map: &mut T, iter: u64, seed: u64)
where
    T: HashMap<u64, u64, BuildHasherDefault<DefaultHasher>>,
{
    let mut rng = Generator(seed);
    let mut ref_map = std::collections::HashMap::<u64, u64>::new();
    let mut live: Vec<u64> = Vec::new();

    for _ in 1..=iter {
        let on_existing = rng.below(2) == 0;
        let op = rng.below(3);

        if live.is_empty() || !on_existing {
            let mut key = rng.next();
            let mut tries = 0;
            while ref_map.contains_key(&key) && tries < 10 {
                key = rng.next();
                tries += 1;
            }
            if ref_map.contains_key(&key) {
                continue;
            }

            match op {
                0 => {
                    let value = rng.next();
                    assert_eq!(ref_map.insert(key, value), None);
                    live.push(key);
                    assert_eq!(map.insert(&key, value), Ok(()));
                }
                1 => {
                    assert_eq!(ref_map.get(&key), None);
                    assert_eq!(map.lookup(&key), None);
                }
                _ => {
                    assert_eq!(ref_map.remove(&key), None);
                    assert_eq!(map.remove(&key), Err(()));
                }
            }
        } else {
            let position = rng.below(live.len());
            let key = live[position];

            match op {
                0 => {
                    let value = rng.next();
                    assert_eq!(map.insert(&key, value), Err(value));
                }
                1 => {
                    let value = ref_map.get(&key);
                    assert_eq!(map.lookup(&key), value);
                }
                _ => {
                    let value = ref_map.remove(&key);
                    live.swap_remove(position);
                    assert_eq!(map.remove(&key).ok(), value);
                }
            }
        }
    }

    for key in live.iter() {
        assert_eq!(map.lookup(key), ref_map.get(key));
    }
}

#[test]
fn linear_probing_test_stress_fcfs() {
    let mut table = OpenAddressingHashTable::<u64, u64, _>::new_with_properties(
        BuildHasherDefault::<DefaultHasher>::default(),
        FcfsLinearProbing::default(),
        INITIAL_SIZE,
        LoadFactor::default(),
    );

    stress_hashmap(&mut table, 100_000, 0x9E37_79B9_7F4A_7C15);
}

#[test]
fn test_stress_lcfs() {
    let mut table = OpenAddressingHashTable::<u64, u64, _>::new_with_properties(
        BuildHasherDefault::<DefaultHasher>::default(),
        LcfsLinearProbing::default(),
        INITIAL_SIZE,
        LoadFactor::default(),
    );

    stress_hashmap(&mut table, 100_000, 0x0123_4567_89AB_CDEF);
}

#[test]
fn quadratic_probing_test_stress_fcfs() {
    let mut table = OpenAddressingHashTable::<u64, u64, _>::new_with_properties(
        BuildHasherDefault::<DefaultHasher>::default(),
        FcfsQuadraticProbing::default(),
        INITIAL_SIZE,
        LoadFactor::default(),
    );

    stress_hashmap(&mut table, 100_000, 0xDEAD_BEEF_CAFE_F00D);
}

#[test]
fn double_hashing_test_stress_fcfs() {
    let mut table = OpenAddressingHashTable::<u64, u64, _>::new_with_properties(
        BuildHasherDefault::<DefaultHasher>::default(),
        FcfsDoubleHashing::default(),
        INITIAL_SIZE,
        LoadFactor::default(),
    );

    stress_hashmap(&mut table, 100_000, 0x1357_9BDF_0246_8ACE);
}
