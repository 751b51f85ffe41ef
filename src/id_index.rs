//! The index from order id to arena key, a hash map with a fast hasher.
use vstd::prelude::*;
use rustc_hash::{FxBuildHasher, FxHashMap};

verus! {

#[verifier::external_type_specification]
#[verifier::external_body]
pub struct ExFxBuildHasher(FxBuildHasher);

/// Relies on `HashMap::with_capacity_and_hasher`: an empty map.
#[verifier::external_body]
pub(crate) fn index_with_capacity(capacity: usize) -> (r: FxHashMap<u64, usize>)
    ensures
        r@.dom().is_empty(),
{
    FxHashMap::with_capacity_and_hasher(capacity, FxBuildHasher)
}

/// Relies on `HashMap::insert`: the key is mapped to the value. With `u64`
/// keys, whose `Hash` and `Eq` agree, this holds whatever the hasher.
#[verifier::external_body]
pub(crate) fn index_insert(m: &mut FxHashMap<u64, usize>, key: u64, value: usize)
    ensures
        final(m)@ == old(m)@.insert(key, value),
{
    m.insert(key, value);
}

/// Relies on `HashMap::remove`: the key is unmapped.
#[verifier::external_body]
pub(crate) fn index_remove(m: &mut FxHashMap<u64, usize>, key: u64)
    ensures
        final(m)@ == old(m)@.remove(key),
{
    m.remove(&key);
}

/// Relies on `HashMap::get`: the value that the key maps to, if any.
#[verifier::external_body]
pub(crate) fn index_get(m: &FxHashMap<u64, usize>, key: u64) -> (r: Option<usize>)
    ensures
        r == (if m@.contains_key(key) {
            Some(m@[key])
        } else {
            None::<usize>
        }),
{
    m.get(&key).copied()
}

} // verus!
