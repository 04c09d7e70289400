//! The durable backing store: key-ordered byte tables and the counter cell
//! of `ic_stable_structures`, reached through trusted wrappers. Each table
//! maps 64-bit identifiers to encoded records; `map_contents` and
//! `cell_value` name what a table and the counter hold.
use vstd::prelude::*;

verus! {

use ic_stable_structures::btreemap::BTreeMap;
use ic_stable_structures::cell::Cell;
use ic_stable_structures::memory_manager::{MemoryId, MemoryManager, VirtualMemory};
use ic_stable_structures::DefaultMemoryImpl;

/// One region of the backing memory, carved out by the memory manager.
#[verifier::external_body]
pub struct Region {
    inner: VirtualMemory<DefaultMemoryImpl>,
}

impl Region {
    /// Relies on `MemoryManager::init` and `MemoryManager::get`: carves four
    /// independent regions out of one backing memory (the counter region and
    /// one region per entity table).
    #[verifier::external_body]
    pub fn standard_regions() -> (Region, Region, Region, Region) {
        let mm = MemoryManager::init(DefaultMemoryImpl::default());
        (
            Region { inner: mm.get(MemoryId::new(0)) },
            Region { inner: mm.get(MemoryId::new(1)) },
            Region { inner: mm.get(MemoryId::new(2)) },
            Region { inner: mm.get(MemoryId::new(3)) },
        )
    }

    /// Relies on `VirtualMemory::clone`: another handle onto the same
    /// region, for reopening the region after its owner is gone.
    #[verifier::external_body]
    pub fn reopen(&self) -> Region {
        Region { inner: self.inner.clone() }
    }
}

/// One entity table: encoded records keyed by identifier.
#[verifier::external_body]
pub struct BytesTable {
    inner: BTreeMap<u64, Vec<u8>, VirtualMemory<DefaultMemoryImpl>>,
}

/// The durable identifier counter.
#[verifier::external_body]
pub struct Counter {
    inner: Cell<u64, VirtualMemory<DefaultMemoryImpl>>,
}

/// The mapping a table holds, as identifier-to-bytes.
pub uninterp spec fn map_contents(m: BytesTable) -> Map<u64, Seq<u8>>;

/// The value the counter cell holds.
pub uninterp spec fn cell_value(c: Counter) -> u64;

/// The empty table contents.
pub open spec fn empty_contents() -> Map<u64, Seq<u8>> {
    Map::empty()
}

/// Relies on `BTreeMap::new`: creates an empty map in the given region,
/// overwriting whatever the region held.
#[verifier::external_body]
pub fn new_map(region: Region) -> (r: BytesTable)
    ensures
        map_contents(r) == empty_contents(),
{
    BytesTable { inner: BTreeMap::new(region.inner) }
}

/// Relies on `BTreeMap::get`: returns the value stored under the key, if any.
#[verifier::external_body]
pub fn map_get(m: &BytesTable, key: u64) -> (r: Option<Vec<u8>>)
    ensures
        match r {
            Option::Some(v) => map_contents(*m).dom().contains(key) && v@ == map_contents(
                *m,
            )[key],
            Option::None => !map_contents(*m).dom().contains(key),
        },
{
    m.inner.get(&key)
}

/// Relies on `BTreeMap::insert`: maps the key to the value, replacing any
/// previous value under it.
#[verifier::external_body]
pub fn map_insert(m: &mut BytesTable, key: u64, value: Vec<u8>)
    ensures
        map_contents(*final(m)) == map_contents(*old(m)).insert(key, value@),
{
    m.inner.insert(key, value);
}

/// Relies on `BTreeMap::remove`: removes the key and returns what it mapped
/// to, if anything.
#[verifier::external_body]
pub fn map_remove(m: &mut BytesTable, key: u64) -> (r: Option<Vec<u8>>)
    ensures
        map_contents(*final(m)) == map_contents(*old(m)).remove(key),
        match r {
            Option::Some(v) => map_contents(*old(m)).dom().contains(key) && v@ == map_contents(
                *old(m),
            )[key],
            Option::None => !map_contents(*old(m)).dom().contains(key),
        },
{
    m.inner.remove(&key)
}

/// Relies on `BTreeMap::iter`: yields every entry exactly once, in ascending
/// key order.
#[verifier::external_body]
pub fn map_entries(m: &BytesTable) -> (r: Vec<(u64, Vec<u8>)>)
    ensures
        forall|i: int|
            0 <= i < r@.len() ==> #[trigger] map_contents(*m).contains_pair(r@[i].0, r@[i].1@),
        forall|k: u64|
            #[trigger] map_contents(*m).dom().contains(k) ==> exists|i: int|
                0 <= i < r@.len() && r@[i].0 == k,
        forall|i: int, j: int| 0 <= i < j < r@.len() ==> r@[i].0 < r@[j].0,
{
    m.inner.iter().map(|e| e.into_pair()).collect()
}

/// Relies on `BTreeMap::init`: loads the map persisted in the region, or
/// creates an empty one if the region is fresh.
#[verifier::external_body]
pub fn init_map(region: Region) -> BytesTable {
    BytesTable { inner: BTreeMap::init(region.inner) }
}

/// Relies on `Cell::init`: loads the value persisted in the region, or
/// stores and returns the default if the region is fresh.
#[verifier::external_body]
pub fn init_cell(region: Region, default_value: u64) -> Counter {
    Counter { inner: Cell::init(region.inner, default_value) }
}

/// Relies on `Cell::new`: stores the value durably in the given region,
/// overwriting whatever the region held, and returns the cell.
#[verifier::external_body]
pub fn new_cell(region: Region, value: u64) -> (r: Counter)
    ensures
        cell_value(r) == value,
{
    Counter { inner: Cell::new(region.inner, value) }
}

/// Relies on `Cell::get`: returns the current value.
#[verifier::external_body]
pub fn cell_get(c: &Counter) -> (r: u64)
    ensures
        r == cell_value(*c),
{
    *c.inner.get()
}

/// Relies on `Cell::set`: durably replaces the value.
#[verifier::external_body]
pub fn cell_set(c: &mut Counter, value: u64)
    ensures
        cell_value(*final(c)) == value,
{
    c.inner.set(value);
}

} // verus!
