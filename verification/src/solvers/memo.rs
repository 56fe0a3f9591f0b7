use rustc_hash::{FxBuildHasher, FxHashMap};
use vstd::prelude::*;

verus! {

/// rustc-hash's hasher builder, carried opaque.
#[verifier::external_type_specification]
#[verifier::external_body]
pub struct ExFxBuildHasher(FxBuildHasher);

/// `HashMap::get` on an `FxHashMap` (a `HashMap` hashed by rustc-hash's deterministic
/// `FxHasher`) with `u64` keys: the value stored under `key`, `None` when there is none.
#[verifier::external_body]
pub(crate) fn fx_get<V>(m: &FxHashMap<u64, V>, key: u64) -> (r: Option<&V>)
    ensures
        match r {
            Some(v) => m@.contains_key(key) && m@[key] == *v,
            None => !m@.contains_key(key),
        },
{
    m.get(&key)
}

/// `HashMap::insert` on an `FxHashMap` with `u64` keys: afterwards `key` maps to `value`
/// and every other key to what it mapped to before.
#[verifier::external_body]
pub(crate) fn fx_insert<V>(m: &mut FxHashMap<u64, V>, key: u64, value: V)
    ensures
        final(m)@ == old(m)@.insert(key, value),
{
    m.insert(key, value);
}

} // verus!
