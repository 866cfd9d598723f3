//! Hashers that map a key to the 64-bit hash under which a table stores it.
use vstd::prelude::*;
use vstd::bytes::{spec_u64_to_le_bytes, u64_to_le_bytes};
use vstd::std_specs::hash::DefaultHasherAdditionalSpecFns;

use std::collections::hash_map::{DefaultHasher, RandomState};
use std::hash::{BuildHasher, BuildHasherDefault, Hasher};

verus! {

/// A hasher of keys of type `K`. One hasher value always gives the same key the same
/// hash, which `spec_hash_one` names.
pub trait KeyHasher<K> {
    /// The hash of `key` under this hasher.
    spec fn spec_hash_one(&self, key: K) -> u64;

    /// Computes the hash of `key`.
    fn hash_one(&self, key: &K) -> (h: u64)
        ensures
            h == self.spec_hash_one(*key),
    ;
}

/// `std::hash::BuildHasherDefault`, the builder that makes a hasher by `Default`.
#[verifier::external_type_specification]
#[verifier::external_body]
#[verifier::reject_recursive_types(H)]
pub struct ExBuildHasherDefault<H>(BuildHasherDefault<H>);

impl KeyHasher<u64> for BuildHasherDefault<DefaultHasher> {
    /// The digest of a fresh default hasher after the eight bytes of the key, lowest
    /// first, have been written to it.
    open spec fn spec_hash_one(&self, key: u64) -> u64 {
        DefaultHasher::spec_finish(seq![spec_u64_to_le_bytes(key)])
    }

    fn hash_one(&self, key: &u64) -> (h: u64) {
        let mut state = DefaultHasher::new();
        let bytes = u64_to_le_bytes(*key);
        state.write(bytes.as_slice());
        assert(state@ =~= seq![spec_u64_to_le_bytes(*key)]);
        state.finish()
    }
}

/// A hasher of `u64` keys that mixes a seed into every hash, so that two hashers with
/// different seeds hash the same key differently.
pub struct SeededState {
    pub seed: u64,
}

impl KeyHasher<u64> for SeededState {
    /// The digest of a fresh default hasher after the seed and then the key have been
    /// written to it, each as eight bytes, lowest first.
    open spec fn spec_hash_one(&self, key: u64) -> u64 {
        DefaultHasher::spec_finish(
            seq![spec_u64_to_le_bytes(self.seed), spec_u64_to_le_bytes(key)],
        )
    }

    fn hash_one(&self, key: &u64) -> (h: u64) {
        let mut state = DefaultHasher::new();
        let seed_bytes = u64_to_le_bytes(self.seed);
        state.write(seed_bytes.as_slice());
        let bytes = u64_to_le_bytes(*key);
        state.write(bytes.as_slice());
        assert(state@ =~= seq![spec_u64_to_le_bytes(self.seed), spec_u64_to_le_bytes(*key)]);
        state.finish()
    }
}

/// Calls `RandomState::new`, which draws the keys of the state at random. Nothing is
/// claimed of the state.
#[verifier::external_body]
fn random_state() -> RandomState {
    RandomState::new()
}

/// Calls `BuildHasher::hash_one` on a random state, with the key 0. The digest depends on
/// the state's random keys, so nothing is claimed of it.
#[verifier::external_body]
fn state_digest(state: &RandomState) -> u64 {
    state.hash_one(0u64)
}

impl Default for SeededState {
    /// A hasher with a seed drawn at random.
    fn default() -> Self {
        SeededState::random()
    }
}

impl SeededState {
    /// A hasher with the given seed.
    pub fn new(seed: u64) -> (s: Self)
        ensures
            s.seed == seed,
    {
        SeededState { seed }
    }

    /// A hasher with a seed drawn at random: whatever the draw gives goes to `new`.
    pub fn random() -> Self {
        let state = random_state();
        SeededState::new(state_digest(&state))
    }
}

} // verus!
