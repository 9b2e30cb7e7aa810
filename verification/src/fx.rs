//! Hash maps and sets with the Fx hasher.
//!
//! [`rustc_hash`] names `std`'s hash tables instantiated with its own hasher.
//! The functions here state what the table operations do for every key type
//! whose hashing and equality are well behaved; a table's contents are its
//! view, a [`Map`] or a [`Set`].

use std::hash::Hash;

use rustc_hash::{FxHashMap, FxHashSet};
use vstd::prelude::*;
use vstd::std_specs::hash::obeys_key_model;

use crate::strings::strings_of;

verus! {

/// The hasher of `rustc_hash`'s tables.
#[verifier::external_type_specification]
#[verifier::external_body]
pub struct ExFxBuildHasher(rustc_hash::FxBuildHasher);

/// `HashMap::get` on an [`FxHashMap`]: the value stored under `key`, if there
/// is one.
#[verifier::external_body]
pub(crate) fn map_get<'a, K: Eq + Hash, V>(map: &'a FxHashMap<K, V>, key: &K) -> (value: Option<&'a V>)
    requires
        obeys_key_model::<K>(),
    ensures
        value is Some <==> map@.contains_key(*key),
        value matches Some(v) ==> *v == map@[*key],
{
    map.get(key)
}

/// `HashMap::insert` on an [`FxHashMap`]: `key` now leads to `value` and every
/// other entry is as before. The value that was stored before is handed back.
#[verifier::external_body]
pub(crate) fn map_insert<K: Eq + Hash, V>(map: &mut FxHashMap<K, V>, key: K, value: V) -> (before: Option<V>)
    requires
        obeys_key_model::<K>(),
    ensures
        final(map)@ == old(map)@.insert(key, value),
        before is Some <==> old(map)@.contains_key(key),
        before matches Some(v) ==> v == old(map)@[key],
{
    map.insert(key, value)
}

/// `HashMap::remove` on an [`FxHashMap`]: the entry of `key` leaves the map,
/// and its value is handed back if there was one.
#[verifier::external_body]
pub(crate) fn map_remove<K: Eq + Hash, V>(map: &mut FxHashMap<K, V>, key: &K) -> (before: Option<V>)
    requires
        obeys_key_model::<K>(),
    ensures
        final(map)@ == old(map)@.remove(*key),
        before is Some <==> old(map)@.contains_key(*key),
        before matches Some(v) ==> v == old(map)@[*key],
{
    map.remove(key)
}

/// `HashMap::keys` on an [`FxHashMap`]: every key once, in no stated order.
#[verifier::external_body]
pub(crate) fn map_keys<K: Eq + Hash + Copy, V>(map: &FxHashMap<K, V>) -> (keys: Vec<K>)
    requires
        obeys_key_model::<K>(),
    ensures
        keys@.no_duplicates(),
        keys@.to_set() == map@.dom(),
{
    map.keys().copied().collect()
}

/// `HashSet::insert` on an [`FxHashSet`]: `item` is now a member; the result
/// says whether it was not one before.
#[verifier::external_body]
pub(crate) fn set_insert<K: Eq + Hash>(set: &mut FxHashSet<K>, item: K) -> (fresh: bool)
    requires
        obeys_key_model::<K>(),
    ensures
        final(set)@ == old(set)@.insert(item),
        fresh == !old(set)@.contains(item),
{
    set.insert(item)
}

/// `HashSet::contains` on an [`FxHashSet`]: whether `item` is a member.
#[verifier::external_body]
pub(crate) fn set_contains<K: Eq + Hash>(set: &FxHashSet<K>, item: &K) -> (found: bool)
    requires
        obeys_key_model::<K>(),
    ensures
        found == set@.contains(*item),
{
    set.contains(item)
}

/// `HashSet::iter` on an [`FxHashSet`]: every member once, in no stated order.
#[verifier::external_body]
pub(crate) fn set_items<K: Eq + Hash + Copy>(set: &FxHashSet<K>) -> (items: Vec<K>)
    requires
        obeys_key_model::<K>(),
    ensures
        items@.no_duplicates(),
        items@.to_set() == set@,
{
    set.iter().copied().collect()
}

/// A table from paths, by their components, to numbers.
pub type PathTable = FxHashMap<Vec<Vec<u8>>, u32>;

/// The entries of a path table.
pub uninterp spec fn table_entries(table: PathTable) -> Map<Seq<Seq<u8>>, u32>;

/// `FxHashMap::default` for paths: a table without entries.
#[verifier::external_body]
pub(crate) fn new_table() -> (table: PathTable)
    ensures
        forall|parts: Seq<Seq<u8>>| !#[trigger] table_entries(table).contains_key(parts),
{
    FxHashMap::default()
}

/// `HashMap::insert` for paths: `parts` now lead to `number` and every other
/// entry is as before.
#[verifier::external_body]
pub(crate) fn table_insert(table: &mut PathTable, parts: Vec<Vec<u8>>, number: u32)
    ensures
        table_entries(*final(table)) == table_entries(*old(table)).insert(strings_of(parts@), number),
{
    table.insert(parts, number);
}

/// `HashMap::get` for paths: the number that `parts` lead to, if there is one.
#[verifier::external_body]
pub(crate) fn table_get(table: &PathTable, parts: &Vec<Vec<u8>>) -> (number: Option<u32>)
    ensures
        number is Some <==> table_entries(*table).contains_key(strings_of(parts@)),
        number matches Some(n) ==> n == table_entries(*table)[strings_of(parts@)],
{
    table.get(parts).copied()
}

} // verus!
