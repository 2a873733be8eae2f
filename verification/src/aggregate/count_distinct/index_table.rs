//! A hash table that finds the place of a value.

use crate::aggregate::count_distinct::distinct_value::DistinctValue;
use hashbrown::HashTable;
use vstd::layout::size_of;
use vstd::multiset::Multiset;
use vstd::prelude::*;

verus! {

/// Hashes of values, each with the index of the place where the value itself is.
#[verifier::external_body]
pub struct IndexTable {
    table: HashTable<(u64, usize)>,
}

/// The entries of the table.
pub uninterp spec fn table_entries(table: IndexTable) -> Multiset<(u64, usize)>;

/// Whether an entry is the one for the value that is looked for.
fn entry_matches<V: DistinctValue>(
    entry: &(u64, usize),
    hash: u64,
    values: &[V],
    probe: &V::Probe,
) -> (matches: bool)
    requires
        entry.1 < values@.len(),
    ensures
        matches == (entry.0 == hash && values@[entry.1 as int].model() == V::probe_model(probe)),
{
    entry.0 == hash && values[entry.1].is_same(probe)
}

/// Whether the value at an index is still in use.
fn entry_is_used(entry: &(u64, usize), counts: &[usize]) -> (used: bool)
    requires
        entry.1 < counts@.len(),
    ensures
        used == (counts@[entry.1 as int] > 0),
{
    counts[entry.1] > 0
}

/// `HashTable::with_capacity`: a table without entries, whatever the capacity. It panics where the
/// capacity is more than can be allocated, so only moderate ones are admitted.
#[verifier::external_body]
pub(crate) fn new_table(capacity: usize) -> (table: IndexTable)
    requires
        capacity <= 0x1_0000,
    ensures
        table_entries(table) == Multiset::<(u64, usize)>::empty(),
{
    IndexTable { table: HashTable::with_capacity(capacity) }
}

/// `HashTable::find`: the index of an entry with the given hash whose value is the one that is
/// looked for, `None` if there is no such entry.
///
/// Every entry is in the table under the hash that it holds, so all entries with that hash are
/// looked at.
#[verifier::external_body]
pub(crate) fn find_index<V: DistinctValue>(
    table: &IndexTable,
    hash: u64,
    values: &[V],
    probe: &V::Probe,
) -> (index: Option<usize>)
    requires
        forall|entry: (u64, usize)|
            #[trigger] table_entries(*table).contains(entry) ==> entry.1 < values@.len(),
    ensures
        match index {
            Some(index) => {
                &&& table_entries(*table).contains((hash, index))
                &&& values@[index as int].model() == V::probe_model(probe)
            },
            None => forall|i: usize|
                #[trigger] table_entries(*table).contains((hash, i)) ==> values@[i as int].model()
                    != V::probe_model(probe),
        },
{
    let entry = table.table.find(hash, |entry| entry_matches(entry, hash, values, probe));
    entry.map(|entry| entry.1)
}

/// `HashTable::insert_unique`: one more entry, under the hash that it holds.
#[verifier::external_body]
pub(crate) fn insert_index(table: &mut IndexTable, hash: u64, index: usize)
    ensures
        table_entries(*final(table)) == table_entries(*old(table)).insert((hash, index)),
{
    table.table.insert_unique(hash, (hash, index), |entry| entry.0);
}

/// `HashTable::retain`: only the entries whose value is still in use.
#[verifier::external_body]
pub(crate) fn retain_used(table: &mut IndexTable, counts: &[usize])
    requires
        forall|entry: (u64, usize)|
            #[trigger] table_entries(*old(table)).contains(entry) ==> entry.1 < counts@.len(),
    ensures
        forall|entry: (u64, usize)|
            (#[trigger] table_entries(*final(table)).count(entry)) == if table_entries(
                *old(table),
            ).contains(entry) && counts@[entry.1 as int] > 0 {
                table_entries(*old(table)).count(entry)
            } else {
                0
            },
{
    table.table.retain(|entry| entry_is_used(entry, counts));
}

/// `HashTable::capacity`: how many entries the table has room for.
///
/// How far it goes beyond the number of entries is up to the allocation; claimed is only that it
/// covers them, and that no more than `isize::MAX` bytes are allocated.
#[verifier::external_body]
pub(crate) fn table_capacity(table: &IndexTable) -> (capacity: usize)
    ensures
        capacity >= table_entries(*table).len(),
        capacity * size_of::<(u64, usize)>() <= isize::MAX,
{
    table.table.capacity()
}

} // verus!
