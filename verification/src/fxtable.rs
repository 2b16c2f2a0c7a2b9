//! The hash tables of the search and of the board encoder: `FxHashMap` of the `rustc-hash`
//! crate, a `HashMap` of the standard library with another hasher.

use rustc_hash::{FxBuildHasher, FxHashMap};
use std::hash::Hash;
use vstd::prelude::*;
use vstd::std_specs::hash::obeys_key_model;

verus! {

/// `rustc_hash::FxBuildHasher`, the hasher of an `FxHashMap`.
#[verifier::external_type_specification]
#[verifier::external_body]
pub struct ExFxBuildHasher(FxBuildHasher);

/// `FxHashMap::get`: the value stored under `key`, where there is one.
#[verifier::external_body]
pub(crate) fn fx_get<K: Hash + Eq, V: Copy>(table: &FxHashMap<K, V>, key: &K) -> (r: Option<V>)
    requires
        obeys_key_model::<K>(),
    ensures
        r == (if table@.contains_key(*key) {
            Some(table@[*key])
        } else {
            None
        }),
{
    table.get(key).copied()
}

/// `FxHashMap::insert`: stores `value` under `key`, in place of what was there.
#[verifier::external_body]
pub(crate) fn fx_insert<K: Hash + Eq, V>(table: &mut FxHashMap<K, V>, key: K, value: V)
    requires
        obeys_key_model::<K>(),
    ensures
        final(table)@ == old(table)@.insert(key, value),
{
    table.insert(key, value);
}

/// `FxHashMap::contains_key`: whether a value is stored under `key`.
#[verifier::external_body]
pub(crate) fn fx_contains<K: Hash + Eq, V>(table: &FxHashMap<K, V>, key: &K) -> (r: bool)
    requires
        obeys_key_model::<K>(),
    ensures
        r == table@.contains_key(*key),
{
    table.contains_key(key)
}

} // verus!
