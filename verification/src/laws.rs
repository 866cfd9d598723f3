//! Laws of the map operations, stated over the maps that the tables stand for.
use vstd::prelude::*;

use crate::{insert_map, insert_outcome, lookup_outcome, remove_map, remove_outcome};

verus! {

/// One mutating operation on a map.
pub enum Operation<K, V> {
    Insert(K, V),
    Remove(K),
}

/// The map after the operations `ops` have been applied to `map`, first to last.
pub open spec fn replay<K, V>(map: Map<K, V>, ops: Seq<Operation<K, V>>) -> Map<K, V>
    decreases ops.len(),
{
    if ops.len() == 0 {
        map
    } else {
        match ops.last() {
            Operation::Insert(key, value) => insert_map(replay(map, ops.drop_last()), key, value),
            Operation::Remove(key) => remove_map(replay(map, ops.drop_last()), key),
        }
    }
}

/// The value that `key` should have after the operations `ops` on an empty map: the
/// value of the earliest insertion of the key that no removal of the key follows, since
/// an insertion of a key that is present is rejected.
pub open spec fn live_value<K, V>(ops: Seq<Operation<K, V>>, key: K) -> Option<V>
    decreases ops.len(),
{
    if ops.len() == 0 {
        None
    } else {
        match ops.last() {
            Operation::Insert(k, value) => if k == key {
                match live_value(ops.drop_last(), key) {
                    Some(kept) => Some(kept),
                    None => Some(value),
                }
            } else {
                live_value(ops.drop_last(), key)
            },
            Operation::Remove(k) => if k == key {
                None
            } else {
                live_value(ops.drop_last(), key)
            },
        }
    }
}

/// Map semantics: after any sequence of insertions and removals on an empty map, a
/// lookup returns the value inserted for the key if the key was inserted and not removed
/// since, and nothing for every other key.
pub proof fn law_map_semantics<K, V>(ops: Seq<Operation<K, V>>, key: K)
    ensures
        lookup_outcome(replay(Map::<K, V>::empty(), ops), key) == live_value(ops, key),
    decreases ops.len(),
{
    if ops.len() > 0 {
        law_map_semantics(ops.drop_last(), key);
    }
}

/// An insertion into a map changes the lookup of its key only if the key was absent,
/// and the lookup of no other key.
pub proof fn law_insert_then_lookup<K, V>(map: Map<K, V>, key: K, value: V, other: K)
    ensures
        lookup_outcome(insert_map(map, key, value), key) == Some(
            if map.contains_key(key) {
                map[key]
            } else {
                value
            },
        ),
        other != key ==> lookup_outcome(insert_map(map, key, value), other) == lookup_outcome(
            map,
            other,
        ),
{
}

/// A removal from a map changes the lookup of no other key.
pub proof fn law_remove_then_lookup<K, V>(map: Map<K, V>, key: K, other: K)
    ensures
        lookup_outcome(remove_map(map, key), key) is None,
        other != key ==> lookup_outcome(remove_map(map, key), other) == lookup_outcome(map, other),
{
}

/// Idempotent removal: once a key has been removed, a second removal fails and a
/// lookup finds nothing.
pub proof fn law_remove_twice<K, V>(map: Map<K, V>, key: K)
    ensures
        remove_outcome(remove_map(map, key), key) is Err,
        lookup_outcome(remove_map(map, key), key) is None,
        remove_map(remove_map(map, key), key) == remove_map(map, key),
{
    assert(remove_map(remove_map(map, key), key) =~= remove_map(map, key));
}

/// A rejected insertion changes nothing: the map, and with it the value stored for the
/// key, stays as it was, and the rejected value comes back.
pub proof fn law_rejected_insert<K, V>(map: Map<K, V>, key: K, value: V)
    requires
        insert_outcome(map, key, value) is Err,
    ensures
        insert_outcome(map, key, value) == Err::<(), V>(value),
        insert_map(map, key, value) == map,
        lookup_outcome(insert_map(map, key, value), key) == lookup_outcome(map, key),
        lookup_outcome(map, key) is Some,
{
}

/// On an empty map, a key that has been inserted is found with its value.
pub proof fn law_insert_lookup_round_trip<K, V>(key: K, value: V)
    ensures
        insert_outcome(Map::<K, V>::empty(), key, value) is Ok,
        lookup_outcome(insert_map(Map::<K, V>::empty(), key, value), key) == Some(value),
{
}

/// On an empty map, a key that has been inserted is removed with its value, and is
/// not found after that.
pub proof fn law_insert_remove_round_trip<K, V>(key: K, value: V)
    ensures
        remove_outcome(insert_map(Map::<K, V>::empty(), key, value), key) == Ok::<V, ()>(value),
        lookup_outcome(remove_map(insert_map(Map::<K, V>::empty(), key, value), key), key) is None,
        remove_map(insert_map(Map::<K, V>::empty(), key, value), key) == Map::<K, V>::empty(),
{
    assert(remove_map(insert_map(Map::<K, V>::empty(), key, value), key) =~= Map::<K, V>::empty());
}

} // verus!
