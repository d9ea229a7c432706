//! Hash tables of the `ahash` crate, over plain values.
use ahash::{AHashMap, AHashSet};
use vstd::prelude::*;

verus! {

/// What the hash sets hold.
pub type Item = (u8, u128, u128);

/// What the hash maps are keyed by.
pub type ItemKey = (u128, u128);

/// `ahash::AHashSet`, a hash set.
#[verifier::external_type_specification]
#[verifier::external_body]
#[verifier::reject_recursive_types(T)]
#[verifier::reject_recursive_types(S)]
pub struct ExAHashSet<T, S>(AHashSet<T, S>);

/// `ahash::AHashMap`, a hash map.
#[verifier::external_type_specification]
#[verifier::external_body]
#[verifier::reject_recursive_types(K)]
#[verifier::reject_recursive_types(V)]
#[verifier::reject_recursive_types(S)]
pub struct ExAHashMap<K, V, S>(AHashMap<K, V, S>);

/// `ahash::RandomState`, the hasher of both.
#[verifier::external_type_specification]
#[verifier::external_body]
pub struct ExAHashRandomState(ahash::RandomState);

/// What a hash set holds.
pub uninterp spec fn items_of(s: AHashSet<Item, ahash::RandomState>) -> Set<Item>;

/// What a hash map maps its keys to.
pub uninterp spec fn entries_of(m: AHashMap<ItemKey, usize, ahash::RandomState>) -> Map<
    ItemKey,
    usize,
>;

/// A map without keys.
pub open spec fn no_entries() -> Map<ItemKey, usize> {
    Map::empty()
}

/// An empty set. Calls `AHashSet::new`.
#[verifier::external_body]
pub(crate) fn new_item_set() -> (r: AHashSet<Item>)
    ensures
        items_of(r) == Set::<Item>::empty(),
{
    AHashSet::new()
}

/// Adds an item, and tells whether it was new. Calls `insert`, which `AHashSet`
/// has from `std::collections::HashSet`.
#[verifier::external_body]
pub(crate) fn insert_item(s: &mut AHashSet<Item>, item: Item) -> (r: bool)
    ensures
        items_of(*final(s)) == items_of(*old(s)).insert(item),
        r == !items_of(*old(s)).contains(item),
{
    s.insert(item)
}

/// Removes an item, and tells whether it was there. Calls `remove`, which
/// `AHashSet` has from `std::collections::HashSet`.
#[verifier::external_body]
pub(crate) fn remove_item(s: &mut AHashSet<Item>, item: &Item) -> (r: bool)
    ensures
        items_of(*final(s)) == items_of(*old(s)).remove(*item),
        r == items_of(*old(s)).contains(*item),
{
    s.remove(item)
}

/// Is there no item? Calls `is_empty`, which `AHashSet` has from
/// `std::collections::HashSet`.
#[verifier::external_body]
pub(crate) fn has_no_items(s: &AHashSet<Item>) -> (r: bool)
    ensures
        r == (items_of(*s) == Set::<Item>::empty()),
{
    s.is_empty()
}

/// The items, each once. Calls `iter` of `AHashSet`, and `copied` and `collect`
/// on what it gives; the order is left open.
#[verifier::external_body]
pub(crate) fn list_items(s: &AHashSet<Item>) -> (r: Vec<Item>)
    ensures
        r@.no_duplicates(),
        r@.to_set() == items_of(*s),
{
    s.iter().copied().collect()
}

/// An empty map. Calls `AHashMap::new`.
#[verifier::external_body]
pub(crate) fn new_entry_map() -> (r: AHashMap<ItemKey, usize>)
    ensures
        entries_of(r) == no_entries(),
{
    AHashMap::new()
}

/// Maps a key to a value, and gives back what it was mapped to before. Calls
/// `AHashMap::insert`.
#[verifier::external_body]
pub(crate) fn insert_entry(m: &mut AHashMap<ItemKey, usize>, key: ItemKey, value: usize) -> (r:
    Option<usize>)
    ensures
        entries_of(*final(m)) == entries_of(*old(m)).insert(key, value),
        match r {
            Some(v) => entries_of(*old(m)).dom().contains(key) && v == entries_of(*old(m))[key],
            None => !entries_of(*old(m)).dom().contains(key),
        },
{
    m.insert(key, value)
}

/// What a key is mapped to. Calls `AHashMap::get`.
#[verifier::external_body]
pub(crate) fn find_entry(m: &AHashMap<ItemKey, usize>, key: &ItemKey) -> (r: Option<usize>)
    ensures
        match r {
            Some(v) => entries_of(*m).dom().contains(*key) && v == entries_of(*m)[*key],
            None => !entries_of(*m).dom().contains(*key),
        },
{
    m.get(key).copied()
}

} // verus!
