//! The durable key-value tables that the stores are built on.
//!
//! This file is the boundary to the storage engine. What it says of a table
//! is taken on trust: each function marked `external_body` makes one call
//! into the engine and states what that call does to the table's entries.
use vstd::prelude::*;
use ic_stable_structures::memory_manager::MemoryId;
use ic_stable_structures::memory_manager::MemoryManager;
use ic_stable_structures::memory_manager::VirtualMemory;
use ic_stable_structures::DefaultMemoryImpl;
use ic_stable_structures::StableBTreeMap;

verus! {

/// The largest key or value, in bytes, that a table can hold: the engine
/// records both sizes in 32 bits.
pub const TABLE_LIMIT: u64 = 0xffff_ffff;

/// Whether a byte string is small enough to be a key or a value of a table.
pub open spec fn short(bytes: Seq<u8>) -> bool {
    bytes.len() <= TABLE_LIMIT
}

/// An ordered map from byte strings to byte strings, held in stable memory by
/// `ic_stable_structures::StableBTreeMap`. Opaque to the verifier: all that is
/// known of a table is what the functions of this file state of
/// [`table_entries`].
#[verifier::external_body]
pub struct ByteTable {
    inner: StableBTreeMap<Vec<u8>, Vec<u8>, VirtualMemory<DefaultMemoryImpl>>,
}

/// The entries that a table holds.
pub uninterp spec fn table_entries(t: ByteTable) -> Map<Seq<u8>, Seq<u8>>;

/// The order of `Vec<u8>`: the first place where two byte strings differ
/// decides, and a proper prefix comes before what extends it.
pub open spec fn bytes_before(a: Seq<u8>, b: Seq<u8>) -> bool {
    exists|i: int|
        0 <= i <= a.len() && i <= b.len() && #[trigger] a.take(i) == b.take(i) && (if i
            == a.len() {
            i < b.len()
        } else {
            i < b.len() && a[i] < b[i]
        })
}

/// The entries of a table that holds nothing.
pub open spec fn no_entries() -> Map<Seq<u8>, Seq<u8>> {
    Map::empty()
}

/// The tables of one store, each over a region of memory of its own.
pub struct TableSet {
    pub first: ByteTable,
    pub second: ByteTable,
    pub third: ByteTable,
}

/// Three empty tables over three separate regions of one freshly initialised
/// memory manager: `MemoryManager::init`, `MemoryManager::get` and
/// `StableBTreeMap::new`, which writes the header of an empty map into the
/// region it is given. Each call makes a manager of its own over the default
/// memory; where that is the one stable memory of a canister, the canister
/// opens its tables once.
#[verifier::external_body]
pub(crate) fn tables_open() -> (r: TableSet)
    ensures
        table_entries(r.first) == no_entries(),
        table_entries(r.second) == no_entries(),
        table_entries(r.third) == no_entries(),
{
    let manager = MemoryManager::init(DefaultMemoryImpl::default());
    TableSet {
        first: ByteTable { inner: StableBTreeMap::new(manager.get(MemoryId::new(0))) },
        second: ByteTable { inner: StableBTreeMap::new(manager.get(MemoryId::new(1))) },
        third: ByteTable { inner: StableBTreeMap::new(manager.get(MemoryId::new(2))) },
    }
}

/// `StableBTreeMap::get`: the value stored under `key`, if there is one.
#[verifier::external_body]
pub(crate) fn table_get(t: &ByteTable, key: &Vec<u8>) -> (r: Option<Vec<u8>>)
    ensures
        r is Some <==> table_entries(*t).dom().contains(key@),
        r is Some ==> r->0@ == table_entries(*t)[key@],
{
    t.inner.get(key)
}

/// `StableBTreeMap::contains_key`: whether anything is stored under `key`.
#[verifier::external_body]
pub(crate) fn table_has(t: &ByteTable, key: &Vec<u8>) -> (r: bool)
    ensures
        r == table_entries(*t).dom().contains(key@),
{
    t.inner.contains_key(key)
}

/// `StableBTreeMap::insert`: stores `value` under `key`, replacing what was
/// there, and leaves every other entry alone. The engine writes both sizes as
/// 32-bit numbers, so neither may exceed [`TABLE_LIMIT`].
#[verifier::external_body]
pub(crate) fn table_insert(t: &mut ByteTable, key: Vec<u8>, value: Vec<u8>)
    requires
        short(key@),
        short(value@),
    ensures
        table_entries(*final(t)) == table_entries(*old(t)).insert(key@, value@),
{
    t.inner.insert(key, value);
}

/// `StableBTreeMap::remove`: drops the entry under `key`, if there is one, and
/// leaves every other entry alone.
#[verifier::external_body]
pub(crate) fn table_remove(t: &mut ByteTable, key: &Vec<u8>)
    ensures
        table_entries(*final(t)) == table_entries(*old(t)).remove(key@),
{
    t.inner.remove(key);
}

/// `StableBTreeMap::iter`, collected: every entry once, in ascending order of
/// the keys.
#[verifier::external_body]
pub(crate) fn table_scan(t: &ByteTable) -> (r: Vec<(Vec<u8>, Vec<u8>)>)
    ensures
        forall|i: int|
            0 <= i < r@.len() ==> table_entries(*t).dom().contains(#[trigger] r@[i].0@)
                && table_entries(*t)[r@[i].0@] == r@[i].1@,
        forall|i: int, j: int|
            0 <= i < j < r@.len() ==> bytes_before(#[trigger] r@[i].0@, #[trigger] r@[j].0@),
        forall|i: int, j: int|
            0 <= i < j < r@.len() ==> #[trigger] r@[i].0@ != #[trigger] r@[j].0@,
        forall|k: Seq<u8>|
            table_entries(*t).dom().contains(k) ==> exists|i: int|
                0 <= i < r@.len() && #[trigger] r@[i].0@ == k,
{
    t.inner.iter().collect()
}

/// Whether a byte string is small enough to be a key or a value of a table.
pub fn fits(bytes: &Vec<u8>) -> (r: bool)
    ensures
        r == short(bytes@),
{
    bytes.len() <= 0xffff_ffff
}

} // verus!
