use ic_stable_structures::memory_manager::VirtualMemory;
use ic_stable_structures::{DefaultMemoryImpl, StableBTreeMap};
use vstd::prelude::*;

use crate::fixed_key::key_less;

verus! {

/// The order map as it lies in durable memory: fixed keys to encoded records.
///
/// The stable map is held in an opaque field, since its bounds name the
/// crate's `Storable` and `Memory` traits. `map_contents` and the functions
/// below are the whole interface.
///
/// The program builds the map once, from its one `MemoryManager`, over a region
/// that belongs to this map alone: a second map over the same memory would
/// change this one's contents behind its back.
#[verifier::external_body]
pub struct OrderMap(pub StableBTreeMap<[u8; 32], Vec<u8>, VirtualMemory<DefaultMemoryImpl>>);

/// What the map holds: each key's bytes to the bytes of its value.
pub uninterp spec fn map_contents(m: OrderMap) -> Map<Seq<u8>, Seq<u8>>;

/// `e` lists every entry of `c` once, in ascending key order.
pub open spec fn entries_listed(c: Map<Seq<u8>, Seq<u8>>, e: Seq<([u8; 32], Vec<u8>)>) -> bool {
    &&& c.dom().finite()
    &&& e.len() == c.len()
    &&& forall|i: int|
        0 <= i < e.len() ==> #[trigger] c.contains_key(e[i].0@) && c[e[i].0@] == e[i].1@
    &&& forall|i: int, j: int| 0 <= i < j < e.len() ==> key_less(#[trigger] e[i].0@, #[trigger] e[j].0@)
}

/// Relies on `BTreeMap::contains_key`: whether the key has a value.
#[verifier::external_body]
pub(crate) fn map_contains_key(m: &OrderMap, key: &[u8; 32]) -> (r: bool)
    ensures
        r == map_contents(*m).contains_key(key@),
{
    m.0.contains_key(key)
}

/// Relies on `BTreeMap::get`: the value stored under the key, if any.
#[verifier::external_body]
pub(crate) fn map_get(m: &OrderMap, key: &[u8; 32]) -> (r: Option<Vec<u8>>)
    ensures
        r is None <==> !map_contents(*m).contains_key(key@),
        r matches Some(v) ==> v@ == map_contents(*m)[key@],
{
    m.0.get(key)
}

/// Relies on `BTreeMap::insert`: the key now maps to the value, and the previous
/// value, if any, is handed back.
#[verifier::external_body]
pub(crate) fn map_insert(m: &mut OrderMap, key: [u8; 32], value: Vec<u8>) -> (r: Option<Vec<u8>>)
    ensures
        map_contents(*final(m)) == map_contents(*old(m)).insert(key@, value@),
        r is None <==> !map_contents(*old(m)).contains_key(key@),
        r matches Some(v) ==> v@ == map_contents(*old(m))[key@],
{
    m.0.insert(key, value)
}

/// Relies on `BTreeMap::remove`: the key no longer has a value, and the value
/// it had, if any, is handed back.
#[verifier::external_body]
pub(crate) fn map_remove(m: &mut OrderMap, key: &[u8; 32]) -> (r: Option<Vec<u8>>)
    ensures
        map_contents(*final(m)) == map_contents(*old(m)).remove(key@),
        r is None <==> !map_contents(*old(m)).contains_key(key@),
        r matches Some(v) ==> v@ == map_contents(*old(m))[key@],
{
    m.0.remove(key)
}

/// Relies on `BTreeMap::len`: the number of entries.
#[verifier::external_body]
pub(crate) fn map_len(m: &OrderMap) -> (r: u64)
    ensures
        r as nat == map_contents(*m).len(),
{
    m.0.len()
}

/// Relies on `BTreeMap::iter`: every entry once, sorted by key; `[u8; 32]`
/// orders its bytes lexicographically.
#[verifier::external_body]
pub(crate) fn map_entries(m: &OrderMap) -> (r: Vec<([u8; 32], Vec<u8>)>)
    ensures
        entries_listed(map_contents(*m), r@),
{
    m.0.iter().collect()
}

} // verus!
