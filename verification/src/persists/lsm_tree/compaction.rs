//! Compaction: tables that overlap are merged into one table.
use crate::persists::bytes::key_eq;
use crate::persists::lsm_tree::merge::{
    inputs_sorted, is_merge_of, lemma_merge_emit, lemma_merge_end, lemma_merge_entry_from_input,
    lemma_merge_skip, lemma_merge_start, lemma_pending_step, lemma_pops_before_total,
    lemma_pops_before_transitive, merge_inv, merged, newest, pending, pops_before,
};
use crate::persists::sst::round_trip::{
    entry_fits, keys_not_empty, lemma_finalized_table_lookup, lemma_finalized_table_reads_back,
    lemma_fitting_entries_refusal, lemma_table_entries_fit,
};
use crate::persists::sst::sorted_string_table::{
    find_key, sst_entries, sst_lookup, sst_valid, SSTableIterator, SortedStringTable,
};
use crate::persists::sst::sst_table_block::SstError;
use crate::persists::sst::sst_writer::{append_all, empty_writer, finalize_model, SSTableWriter};
use crate::persists::sst::table_file::{fresh_level0_file_name, is_level0_name};
use crate::persists::sst::table_result::{EntryModel, TableResult};
use vstd::prelude::*;

verus! {

/// The entries of each of `tables`.
pub open spec fn table_entries(tables: Seq<SortedStringTable>) -> Seq<Seq<EntryModel>> {
    tables.map_values(|table: SortedStringTable| table.entries())
}

/// A table that a compaction has produced: the bytes of its file, and a name
/// for the file.
pub struct CompactedTable {
    pub file_name: String,
    pub bytes: Vec<u8>,
}

/// An entry that stands first in its table, and the number of that table.
#[derive(Clone, Copy)]
struct CompactionHeapEntry<'a> {
    table_result: TableResult<'a>,
    table_index: usize,
}

/// How the entry that stands first in a table, and the iterator behind it,
/// go with the number of entries that were taken from the table.
spec fn slot_ok(
    head: Option<TableResult>,
    iter: SSTableIterator,
    input: Seq<EntryModel>,
    taken: int,
) -> bool {
    &&& 0 <= taken <= input.len()
    &&& match head {
        Some(entry) => {
            &&& taken < input.len()
            &&& entry@ == input[taken]
            &&& iter.remaining() == input.skip(taken + 1)
        },
        None => taken == input.len() && iter.remaining().len() == 0,
    }
}

/// Takes the entry that a merge takes next out of `heap`, which holds for
/// each table the entry that stands first in it.
fn pop_min<'a>(heap: &mut Vec<Option<TableResult<'a>>>) -> (r: Option<CompactionHeapEntry<'a>>)
    ensures
        final(heap)@.len() == old(heap)@.len(),
        match r {
            None => final(heap)@ == old(heap)@ && forall|t: int|
                0 <= t < old(heap)@.len() ==> (#[trigger] old(heap)@[t]) is None,
            Some(entry) => {
                &&& entry.table_index < old(heap)@.len()
                &&& old(heap)@[entry.table_index as int] == Some(entry.table_result)
                &&& final(heap)@ == old(heap)@.update(entry.table_index as int, None)
                &&& forall|u: int|
                    0 <= u < old(heap)@.len() && u != entry.table_index && (#[trigger] old(
                        heap,
                    )@[u]) is Some ==> pops_before(
                        entry.table_result@,
                        entry.table_index as int,
                        old(heap)@[u]->0@,
                        u,
                    )
            },
        },
{
    let mut best: Option<CompactionHeapEntry<'a>> = None;
    let mut i: usize = 0;
    while i < heap.len()
        invariant
            i <= heap@.len(),
            heap@ == old(heap)@,
            match best {
                None => forall|t: int| 0 <= t < i ==> (#[trigger] heap@[t]) is None,
                Some(entry) => {
                    &&& entry.table_index < i
                    &&& heap@[entry.table_index as int] == Some(entry.table_result)
                    &&& forall|u: int|
                        0 <= u < i && u != entry.table_index && (#[trigger] heap@[u])
                            is Some ==> pops_before(
                            entry.table_result@,
                            entry.table_index as int,
                            heap@[u]->0@,
                            u,
                        )
                },
            },
        decreases heap@.len() - i,
    {
        if let Some(candidate) = heap[i] {
            let replace: bool = match &best {
                None => true,
                Some(entry) => candidate.merges_before(&entry.table_result),
            };
            proof {
                if let Some(entry) = best {
                    let b = entry.table_index as int;
                    if replace {
                        assert forall|u: int|
                            0 <= u < i + 1 && u != i && (#[trigger] heap@[u]) is Some implies pops_before(
                            candidate@,
                            i as int,
                            heap@[u]->0@,
                            u,
                        ) by {
                            if u != b {
                                lemma_pops_before_transitive(
                                    candidate@,
                                    i as int,
                                    entry.table_result@,
                                    b,
                                    heap@[u]->0@,
                                    u,
                                );
                            }
                        }
                    } else {
                        lemma_pops_before_total(entry.table_result@, b, candidate@, i as int);
                    }
                }
            }
            if replace {
                best = Some(CompactionHeapEntry { table_result: candidate, table_index: i });
            }
        }
        i = i + 1;
    }
    if let Some(entry) = &best {
        heap[entry.table_index] = None;
    }
    best
}

/// Merges `tables` into one table. Of the entries that the tables have under
/// a key, the merged table keeps the one with the largest sequence number,
/// and of several with that number the one of the first table. An entry that
/// marks a deletion is kept like any other. The tables must be sorted by key.
pub fn compact(tables: &Vec<SortedStringTable>) -> (r: Result<CompactedTable, SstError>)
    requires
        inputs_sorted(table_entries(tables@)),
    ensures
        is_merge_of(merged(table_entries(tables@)), table_entries(tables@)),
        match append_all(empty_writer(), merged(table_entries(tables@))) {
            Ok(w) => r matches Ok(table) && table.bytes@ == finalize_model(w) && is_level0_name(
                table.file_name@,
            ),
            Err(e) => r matches Err(err) && err == e,
        },
        r matches Ok(table) ==> {
            &&& sst_valid(table.bytes@)
            &&& sst_entries(table.bytes@) == merged(table_entries(tables@))
            &&& forall|key: Seq<u8>| #[trigger]
                sst_lookup(table.bytes@, key) == newest(table_entries(tables@), key)
        },
        r matches Err(err) ==> err == SstError::TableTooLarge,
{
    let ghost inputs = table_entries(tables@);
    let mut heap: Vec<Option<TableResult>> = Vec::with_capacity(tables.len());
    let mut writer = SSTableWriter::new();
    let mut iters: Vec<SSTableIterator> = Vec::new();
    let mut index: usize = 0;
    while index < tables.len()
        invariant
            index <= tables@.len(),
            inputs == table_entries(tables@),
            heap@.len() == index,
            iters@.len() == index,
            forall|t: int| 0 <= t < index ==> slot_ok(#[trigger] heap@[t], iters@[t], inputs[t], 0),
        decreases tables@.len() - index,
    {
        let mut iter = tables[index].iter();
        let first = iter.next();
        proof {
            let input = inputs[index as int];
            if first is Some {
                assert(input.drop_first() =~= input.skip(1));
            }
        }
        heap.push(first);
        iters.push(iter);
        index = index + 1;
    }
    let ghost mut taken: Seq<int> = Seq::new(inputs.len(), |t: int| 0int);
    let ghost mut done: Seq<EntryModel> = Seq::empty();
    let ghost mut last_source: int = 0;
    let mut status: Result<(), SstError> = Ok(());
    let mut last_added: Option<TableResult> = None;
    proof {
        lemma_merge_start(inputs, taken);
    }
    loop
        invariant
            inputs == table_entries(tables@),
            inputs_sorted(inputs),
            heap@.len() == inputs.len(),
            iters@.len() == inputs.len(),
            taken.len() == inputs.len(),
            forall|t: int|
                0 <= t < inputs.len() ==> slot_ok(
                    #[trigger] heap@[t],
                    iters@[t],
                    inputs[t],
                    taken[t],
                ),
            merge_inv(inputs, taken, done, last_source),
            match last_added {
                Some(last) => done.len() > 0 && last@ == done.last(),
                None => done.len() == 0,
            },
            match append_all(empty_writer(), done) {
                Ok(w) => status is Ok && writer@ == w,
                Err(e) => status == Err::<(), SstError>(e),
            },
        ensures
            merged(inputs) == done,
            is_merge_of(done, inputs),
            match append_all(empty_writer(), done) {
                Ok(w) => status is Ok && writer@ == w,
                Err(e) => status == Err::<(), SstError>(e),
            },
        decreases pending(inputs, taken, inputs.len() as int),
    {
        let ghost heads = heap@;
        let next = match pop_min(&mut heap) {
            Some(next) => next,
            None => {
                proof {
                    assert forall|t: int| 0 <= t < inputs.len() implies #[trigger] taken[t]
                        == inputs[t].len() by {
                        assert(slot_ok(heap@[t], iters@[t], inputs[t], taken[t]));
                    }
                    lemma_merge_end(inputs, taken, done, last_source);
                }
                break ;
            },
        };
        let source: usize = next.table_index;
        let ghost t = source as int;
        let ghost entry = next.table_result@;
        proof {
            assert(slot_ok(heads[t], iters@[t], inputs[t], taken[t]));
            assert(entry == inputs[t][taken[t]]);
            assert forall|u: int|
                0 <= u < inputs.len() && u != t && taken[u] < inputs[u].len() implies pops_before(
                inputs[t][taken[t]],
                t,
                (#[trigger] inputs[u])[taken[u]],
                u,
            ) by {
                assert(slot_ok(heads[u], iters@[u], inputs[u], taken[u]));
            }
            lemma_pending_step(inputs, taken, t, inputs.len() as int);
        }
        let following = iters[source].next();
        heap[source] = following;
        proof {
            let input = inputs[t];
            if following is Some {
                assert(input.skip(taken[t] + 1).drop_first() =~= input.skip(taken[t] + 2));
            }
        }
        let write: bool = match &last_added {
            Some(last) => !key_eq(next.table_result.key, last.key),
            None => true,
        };
        if write {
            if status.is_ok() {
                status = writer.append_entry(&next.table_result);
            }
            last_added = Some(next.table_result);
            proof {
                lemma_merge_emit(inputs, taken, done, last_source, t);
                assert(done.push(entry).drop_last() =~= done);
                done = done.push(entry);
                last_source = t;
            }
        } else {
            proof {
                lemma_merge_skip(inputs, taken, done, last_source, t);
            }
        }
        proof {
            let before = taken;
            taken = taken.update(t, taken[t] + 1);
            lemma_pending_step(inputs, taken, t, inputs.len() as int);
            assert forall|u: int| 0 <= u < inputs.len() implies slot_ok(
                #[trigger] heap@[u],
                iters@[u],
                inputs[u],
                taken[u],
            ) by {
                if u != t {
                    assert(slot_ok(heads[u], iters@[u], inputs[u], before[u]));
                }
            }
        }
    }
    proof {
        assert forall|i: int| 0 <= i < done.len() implies entry_fits(#[trigger] done[i]) by {
            let place = lemma_merge_entry_from_input(done, inputs, i);
            lemma_table_entries_fit(tables@[place.0].bytes());
        }
        assert(keys_not_empty(done));
        if append_all(empty_writer(), done) is Ok {
            lemma_finalized_table_reads_back(done);
            assert forall|key: Seq<u8>| #[trigger]
                sst_lookup(finalize_model(append_all(empty_writer(), done)->Ok_0), key) == newest(
                    inputs,
                    key,
                ) by {
                lemma_finalized_table_lookup(done, key);
                assert(find_key(done, key) == newest(inputs, key));
            }
        } else {
            lemma_fitting_entries_refusal(empty_writer(), done);
        }
    }
    match status {
        Ok(()) => Ok(
            CompactedTable { file_name: fresh_level0_file_name(), bytes: writer.finalize() },
        ),
        Err(e) => Err(e),
    }
}

} // verus!
