//! Flushing: a memory table that takes no more writes becomes a table of the
//! first level.
use crate::persists::bytes::lex_lt;
use crate::persists::memtable::btree_map::{lemma_sorted_keys_unique, BTreeMemTable};
use crate::persists::memtable::memtable_trait::{
    as_table, has_key, index_of, keys_sorted, table_get, EntryPair, MemTable,
};
use crate::persists::sst::round_trip::{
    keys_not_empty, lemma_image_lookup, lemma_image_reads_back, lemma_image_valid,
};
use crate::persists::sst::sorted_string_table::{
    find_key, lemma_find_key, sst_entries, sst_lookup, sst_valid, strictly_sorted,
    SortedStringTable,
};
use crate::persists::sst::sst_table_block::SstError;
use crate::persists::sst::sst_writer::{flushed_entries, flushed_entry, sst_image, SSTableWriter};
use crate::persists::sst::table_file::{fresh_level0_file_name, is_level0_name};
use vstd::prelude::*;

verus! {

/// What the engine asks of the flush worker.
#[derive(Debug, Clone, Copy, PartialEq, Eq)]
pub enum FlushCommand {
    /// Flush every memory table that takes no more writes.
    FlushAll,
}

/// A table that was flushed: the identifier of the memory table it was made
/// from, a name for its file, and the table as it reads from the bytes of
/// that file.
pub struct FlushedTable {
    pub id: u64,
    pub file_name: String,
    pub table: SortedStringTable,
}

/// How the flush of one memory table ended.
pub type FlushResult = Result<FlushedTable, SstError>;

/// `r` is the flush of the memory table with the identifier `id` and the
/// entries `entries`: the file of a table written from these entries in one
/// go, under a name of the first level, or the reason why it cannot be
/// written.
pub open spec fn is_flush_of(r: FlushResult, id: u64, entries: Seq<EntryPair>) -> bool {
    match sst_image(flushed_entries(entries)) {
        Ok(image) => r matches Ok(flushed) && flushed.id == id && flushed.table.bytes() == image
            && is_level0_name(flushed.file_name@),
        Err(e) => r matches Err(err) && err == e,
    }
}

/// Every key of `entries` has at least one byte.
pub open spec fn keys_have_bytes(entries: Seq<EntryPair>) -> bool {
    forall|i: int| 0 <= i < entries.len() ==> (#[trigger] entries[i]).0.len() >= 1
}

/// The table with the bytes `bytes` holds what the memory table with the
/// entries `entries` holds: the same entries in the same order, and under
/// every key what the memory table holds under it.
pub open spec fn holds_entries(bytes: Seq<u8>, entries: Seq<EntryPair>) -> bool {
    &&& sst_valid(bytes)
    &&& sst_entries(bytes) == flushed_entries(entries)
    &&& forall|key: Seq<u8>| #[trigger]
        sst_lookup(bytes, key) == match table_get(as_table(entries), key) {
            Some(held) => Some(flushed_entry((key, held))),
            None => None,
        }
}

/// Writes the entries of `table` as a table of the first level. Where no key
/// of the memory table is empty, the table that is written holds what the
/// memory table holds.
pub fn flush_table<const MAX_SIZE: usize>(id: u64, table: &BTreeMemTable<MAX_SIZE>) -> (r:
    FlushResult)
    ensures
        is_flush_of(r, id, table.entries()),
        r matches Ok(flushed) ==> (keys_have_bytes(table.entries()) ==> holds_entries(
            flushed.table.bytes(),
            table.entries(),
        )),
{
    let buffer = table.flush();
    let used: usize = table.bytes_used();
    let size: u32 = if used > u32::MAX as usize {
        u32::MAX
    } else {
        used as u32
    };
    proof {
        let entries = table.entries();
        if sst_image(flushed_entries(entries)) is Ok && keys_have_bytes(entries) {
            assert forall|key: Seq<u8>| #[trigger]
                sst_lookup(sst_image(flushed_entries(entries))->Ok_0, key) == match table_get(
                    as_table(entries),
                    key,
                ) {
                    Some(held) => Some(flushed_entry((key, held))),
                    None => None,
                } by {
                lemma_flush_reads_back(entries, key);
            }
            lemma_flush_reads_back(entries, Seq::empty());
        }
        if sst_image(flushed_entries(entries)) is Ok {
            lemma_image_valid(flushed_entries(entries));
        }
    }
    let bytes = match SSTableWriter::write_to_file(&buffer, size) {
        Ok(bytes) => bytes,
        Err(e) => {
            return Err(e);
        },
    };
    // what the writer wrote is a table
    match SortedStringTable::new(bytes) {
        Ok(table) => Ok(FlushedTable { id, file_name: fresh_level0_file_name(), table }),
        Err(e) => Err(e),
    }
}

/// Flushes every one of `tables`, each with its identifier, and gives the
/// results in the order of the tables. A table that cannot be written does
/// not keep the others from being flushed.
pub fn flush_all<const MAX_SIZE: usize>(tables: &Vec<(u64, BTreeMemTable<MAX_SIZE>)>) -> (results:
    Vec<FlushResult>)
    ensures
        results@.len() == tables@.len(),
        forall|i: int|
            0 <= i < tables@.len() ==> is_flush_of(
                #[trigger] results@[i],
                tables@[i].0,
                tables@[i].1.entries(),
            ),
        forall|i: int|
            0 <= i < tables@.len() ==> ((#[trigger] results@[i]) matches Ok(flushed) ==> (
            keys_have_bytes(tables@[i].1.entries()) ==> holds_entries(
                flushed.table.bytes(),
                tables@[i].1.entries(),
            ))),
{
    let mut results: Vec<FlushResult> = Vec::new();
    let mut i: usize = 0;
    while i < tables.len()
        invariant
            i <= tables@.len(),
            results@.len() == i,
            forall|j: int|
                0 <= j < i ==> is_flush_of(
                    #[trigger] results@[j],
                    tables@[j].0,
                    tables@[j].1.entries(),
                ),
            forall|j: int|
                0 <= j < i ==> ((#[trigger] results@[j]) matches Ok(flushed) ==> (keys_have_bytes(
                    tables@[j].1.entries(),
                ) ==> holds_entries(flushed.table.bytes(), tables@[j].1.entries()))),
        decreases tables@.len() - i,
    {
        let result = flush_table(tables[i].0, &tables[i].1);
        results.push(result);
        i = i + 1;
    }
    results
}

/// The entries written for sorted entries of a memory table are sorted.
pub proof fn lemma_flushed_entries_sorted(entries: Seq<EntryPair>)
    requires
        keys_sorted(entries),
    ensures
        strictly_sorted(flushed_entries(entries)),
{
    let written = flushed_entries(entries);
    assert forall|i: int, j: int| 0 <= i < j < written.len() implies lex_lt(
        (#[trigger] written[i]).key,
        (#[trigger] written[j]).key,
    ) by {
        assert(lex_lt(entries[i].0, entries[j].0));
    }
}

/// Under every key the entries written for a memory table have what the
/// memory table holds under it.
pub proof fn lemma_flushed_entries_lookup(entries: Seq<EntryPair>, key: Seq<u8>)
    requires
        keys_sorted(entries),
    ensures
        find_key(flushed_entries(entries), key) == match table_get(as_table(entries), key) {
            Some(held) => Some(flushed_entry((key, held))),
            None => None,
        },
{
    let written = flushed_entries(entries);
    lemma_find_key(written, key);
    lemma_flushed_entries_sorted(entries);
    match find_key(written, key) {
        Some(e) => {
            let i = choose|i: int| 0 <= i < written.len() && written[i] == e;
            assert(entries[i].0 == key);
            lemma_sorted_keys_unique(entries, i);
        },
        None => {
            if has_key(entries, key) {
                let i = index_of(entries, key);
                assert(written[i].key == key);
            }
        },
    }
}

/// What is flushed is read back. The table that a flush writes has the
/// entries of the memory table, in their order and with their sequence
/// numbers, and a lookup in it finds under every key what the memory table
/// holds under it: the value, or the mark of a deletion. The keys of the
/// memory table must have at least one byte each.
pub proof fn lemma_flush_reads_back(entries: Seq<EntryPair>, key: Seq<u8>)
    requires
        keys_sorted(entries),
        keys_have_bytes(entries),
        sst_image(flushed_entries(entries)) is Ok,
    ensures
        sst_valid(sst_image(flushed_entries(entries))->Ok_0),
        sst_entries(sst_image(flushed_entries(entries))->Ok_0) == flushed_entries(entries),
        sst_lookup(sst_image(flushed_entries(entries))->Ok_0, key) == match table_get(
            as_table(entries),
            key,
        ) {
            Some(held) => Some(flushed_entry((key, held))),
            None => None,
        },
{
    let written = flushed_entries(entries);
    assert(keys_not_empty(written)) by {
        assert forall|i: int| 0 <= i < written.len() implies (#[trigger] written[i]).key.len()
            >= 1 by {
            assert(entries[i].0.len() >= 1);
        }
    }
    lemma_flushed_entries_sorted(entries);
    lemma_image_reads_back(written);
    lemma_image_lookup(written, key);
    lemma_flushed_entries_lookup(entries, key);
}

} // verus!
