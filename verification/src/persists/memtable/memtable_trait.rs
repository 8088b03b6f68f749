//! What a memory table is, and what it takes and gives.
use crate::persists::bytes::lex_lt;
use crate::persists::sst::sst_table_block::HEADER_SIZE;
use vstd::prelude::*;

verus! {

/// What a lookup in a memory table finds.
#[derive(Debug)]
pub enum LookupResult<'a> {
    /// The table has nothing under the key.
    NotFound,
    /// The key was deleted by the write with this sequence number.
    Deleted(u64),
    /// The value under the key, and the sequence number of the write that put
    /// it there.
    Found((&'a [u8], u64)),
}

/// What a memory table holds under a key: a value, or no value for a deleted
/// key, and the sequence number of the write.
pub type MemTableValue = (Option<Vec<u8>>, u64);

/// One entry of a memory table: the key, and what is held under it.
pub type MemTableEntry = (Vec<u8>, MemTableValue);

/// What is held under a key, as a plain value.
pub type ValueModel = (Option<Seq<u8>>, u64);

/// One entry of a memory table, as a plain value.
pub type EntryPair = (Seq<u8>, ValueModel);

/// What a memory table holds: for each key that it has, the value or the
/// deletion mark, and the sequence number.
pub type TableModel = Map<Seq<u8>, ValueModel>;

/// The plain value of what is held under a key.
pub open spec fn value_model(value: MemTableValue) -> ValueModel {
    (
        match value.0 {
            Some(bytes) => Some(bytes@),
            None => None,
        },
        value.1,
    )
}

/// The plain value of an entry.
pub open spec fn entry_model(entry: MemTableEntry) -> EntryPair {
    (entry.0@, value_model(entry.1))
}

/// The plain values of entries.
pub open spec fn entries_model(entries: Seq<MemTableEntry>) -> Seq<EntryPair> {
    entries.map_values(|entry: MemTableEntry| entry_model(entry))
}

/// The plain value of what a lookup found: nothing, or what is held under
/// the key.
pub open spec fn lookup_model(result: LookupResult) -> Option<ValueModel> {
    match result {
        LookupResult::NotFound => None,
        LookupResult::Deleted(seq) => Some((None, seq)),
        LookupResult::Found((value, seq)) => Some((Some(value@), seq)),
    }
}

/// What a table holds under `key`, if it has the key.
pub open spec fn table_get(table: TableModel, key: Seq<u8>) -> Option<ValueModel> {
    if table.contains_key(key) {
        Some(table[key])
    } else {
        None
    }
}

/// The bytes that a table counts for an entry with this key and value: two
/// length fields, the key and the value.
pub open spec fn encoded_len(key: Seq<u8>, value: Seq<u8>) -> int {
    2 * HEADER_SIZE + key.len() + value.len()
}

/// The bytes that a table counts for what it holds under `key`. A deletion
/// mark counts as an empty value.
pub open spec fn held_len(key: Seq<u8>, value: ValueModel) -> int {
    match value.0 {
        Some(bytes) => encoded_len(key, bytes),
        None => encoded_len(key, Seq::empty()),
    }
}

/// The bytes that a table counts for all of `entries`.
pub open spec fn total_len(entries: Seq<EntryPair>) -> int
    decreases entries.len(),
{
    if entries.len() == 0 {
        0
    } else {
        total_len(entries.drop_last()) + held_len(entries.last().0, entries.last().1)
    }
}

/// The entries are in the order of their keys, and no key occurs twice.
pub open spec fn keys_sorted(entries: Seq<EntryPair>) -> bool {
    forall|i: int, j: int|
        0 <= i < j < entries.len() ==> lex_lt((#[trigger] entries[i]).0, (#[trigger] entries[j]).0)
}

/// Some entry of `entries` has the key `key`.
pub open spec fn has_key(entries: Seq<EntryPair>, key: Seq<u8>) -> bool {
    exists|i: int| 0 <= i < entries.len() && (#[trigger] entries[i]).0 == key
}

/// The place of an entry with the key `key`, where there is one.
pub open spec fn index_of(entries: Seq<EntryPair>, key: Seq<u8>) -> int {
    choose|i: int| 0 <= i < entries.len() && (#[trigger] entries[i]).0 == key
}

/// The table that the entries make up: each key with what its entry holds.
pub open spec fn as_table(entries: Seq<EntryPair>) -> TableModel {
    Map::new(|key: Seq<u8>| has_key(entries, key), |key: Seq<u8>| entries[index_of(entries, key)].1)
}

/// The place of the first entry of `entries` whose key is not smaller than
/// `key`, and the number of entries where there is none.
pub open spec fn lower_bound(entries: Seq<EntryPair>, key: Seq<u8>) -> int
    decreases entries.len(),
{
    if entries.len() == 0 {
        0
    } else if lex_lt(entries[0].0, key) {
        1 + lower_bound(entries.drop_first(), key)
    } else {
        0
    }
}

/// Sorted entries after `held` was put under `key`: in place of the entry
/// with that key where there is one, and else at the place that the order of
/// the keys gives it.
pub open spec fn put_entry(entries: Seq<EntryPair>, key: Seq<u8>, held: ValueModel) -> Seq<
    EntryPair,
> {
    let at = lower_bound(entries, key);
    if at < entries.len() && entries[at].0 == key {
        entries.update(at, (key, held))
    } else {
        entries.insert(at, (key, held))
    }
}

/// The entries with a value, each as its key and its value, in the order of
/// `entries`. The entries of deleted keys are left out.
pub open spec fn live_pairs(entries: Seq<EntryPair>) -> Seq<(Seq<u8>, Seq<u8>)>
    decreases entries.len(),
{
    if entries.len() == 0 {
        Seq::empty()
    } else {
        match entries.last().1.0 {
            Some(value) => live_pairs(entries.drop_last()).push((entries.last().0, value)),
            None => live_pairs(entries.drop_last()),
        }
    }
}

/// Whether a table that has counted `used` bytes, and may count `max` at
/// most, has room for `additional` bytes more.
pub open spec fn has_room(used: int, additional: int, max: int) -> bool {
    used + additional <= max
}

/// A table with a budget of bytes that maps keys to values or deletion marks,
/// each with the sequence number of its write.
pub trait MemTable {
    /// What the table holds.
    spec fn table(&self) -> TableModel;

    /// The entries of the table in the order of their keys.
    spec fn sorted_entries(&self) -> Seq<EntryPair>;

    /// The bytes that the table has counted for what it holds.
    spec fn used(&self) -> int;

    /// The most bytes that the table is meant to count.
    spec fn max_bytes(&self) -> int;

    /// Puts `value` under `key`, in place of what was there.
    fn insert(&mut self, key: &[u8], value: &[u8], seq_number: u64)
        requires
            old(self).used() + encoded_len(key@, value@) <= usize::MAX,
        ensures
            final(self).sorted_entries() == put_entry(
                old(self).sorted_entries(),
                key@,
                (Some(value@), seq_number),
            ),
            final(self).table() == old(self).table().insert(key@, (Some(value@), seq_number)),
            final(self).used() == old(self).used() - (match table_get(old(self).table(), key@) {
                Some(held) => held_len(key@, held),
                None => 0,
            }) + encoded_len(key@, value@),
    ;

    /// What the table holds under `key`.
    fn get(&self, key: &[u8]) -> (result: LookupResult<'_>)
        ensures
            lookup_model(result) == table_get(self.table(), key@),
    ;

    /// Marks `key` as deleted, in place of what was there, and gives what was
    /// there.
    fn delete(&mut self, key: &[u8], seq_number: u64) -> (previous: Option<MemTableValue>)
        requires
            old(self).used() + encoded_len(key@, Seq::empty()) <= usize::MAX,
        ensures
            final(self).sorted_entries() == put_entry(
                old(self).sorted_entries(),
                key@,
                (None, seq_number),
            ),
            final(self).table() == old(self).table().insert(key@, (None, seq_number)),
            final(self).used() == old(self).used() - (match table_get(old(self).table(), key@) {
                Some(held) => held_len(key@, held),
                None => 0,
            }) + encoded_len(key@, Seq::empty()),
            match previous {
                Some(held) => Some(value_model(held)),
                None => None,
            } == table_get(old(self).table(), key@),
    ;

    /// A copy of all entries, in the order of their keys. The table keeps
    /// them.
    fn flush(&self) -> (entries: Vec<MemTableEntry>)
        ensures
            entries_model(entries@) == self.sorted_entries(),
            keys_sorted(self.sorted_entries()),
            as_table(self.sorted_entries()) == self.table(),
            self.used() == total_len(self.sorted_entries()),
    ;

    /// The bytes that the table has counted for what it holds.
    fn bytes_used(&self) -> (n: usize)
        ensures
            n == self.used(),
            n == total_len(self.sorted_entries()),
            keys_sorted(self.sorted_entries()),
            as_table(self.sorted_entries()) == self.table(),
    ;

    /// Whether the table has room for `value_length` bytes more.
    fn has_capacity(&self, value_length: usize) -> (r: bool)
        ensures
            r == has_room(self.used(), value_length as int, self.max_bytes()),
            self.used() == total_len(self.sorted_entries()),
    ;
}

} // verus!
