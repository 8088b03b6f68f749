//! Writing a sorted string table: entries are packed into blocks, and a
//! trailer ends the file.
use crate::persists::bytes::{u32_to_le, write_u32_le};
use crate::persists::memtable::memtable_trait::{
    entries_model, entry_model, EntryPair, MemTableEntry,
};
use crate::persists::sst::block_entry::{
    encode_entry, entry_size, lemma_encode_entry_len, BlockEntry,
};
use crate::persists::sst::sst_table_block::{pad_block, SSTableBlock, SstError, BLOCK_SIZE};
use crate::persists::sst::table_result::{EntryModel, TableResult};
use vstd::prelude::*;

verus! {

/// The version of the format that the writer writes.
pub const FORMAT_VERSION: u32 = 1;

/// The most bytes of blocks that a table can have: the trailer names their
/// end in four bytes, and the end lies on a block boundary.
pub const MAX_REGION_SIZE: usize = 0xFFFF_F000;

/// The entries that a memory table hands over when it is flushed: key, then
/// value or deletion mark, then sequence number.
pub type EntryType = Vec<MemTableEntry>;

/// What a writer has produced: the blocks that are complete, and the content
/// of the block it is filling.
pub struct WriterModel {
    pub written: Seq<u8>,
    pub current: Seq<u8>,
}

/// A writer that has produced nothing.
pub open spec fn empty_writer() -> WriterModel {
    WriterModel { written: Seq::empty(), current: Seq::empty() }
}

/// The writer after one more entry. The entry goes into the current block if
/// it fits there. If it does not, the current block is padded with zero bytes
/// and completed, and the entry starts the next block. An entry that no block
/// can hold is refused, and so is a block that would take the table over its
/// largest size.
pub open spec fn append_model(w: WriterModel, e: EntryModel) -> Result<WriterModel, SstError> {
    if entry_size(e.key, e.value) > BLOCK_SIZE {
        Err(SstError::CapacityExceeded)
    } else if entry_size(e.key, e.value) <= BLOCK_SIZE - w.current.len() {
        Ok(
            WriterModel {
                written: w.written,
                current: w.current + encode_entry(e.key, e.value, e.seq),
            },
        )
    } else if w.written.len() + 2 * BLOCK_SIZE > MAX_REGION_SIZE {
        Err(SstError::TableTooLarge)
    } else {
        Ok(
            WriterModel {
                written: w.written + pad_block(w.current),
                current: encode_entry(e.key, e.value, e.seq),
            },
        )
    }
}

/// The writer after all of `entries`, one after the other, or the first
/// refusal.
pub open spec fn append_all(w: WriterModel, entries: Seq<EntryModel>) -> Result<
    WriterModel,
    SstError,
>
    decreases entries.len(),
{
    if entries.len() == 0 {
        Ok(w)
    } else {
        match append_all(w, entries.drop_last()) {
            Ok(before) => append_model(before, entries.last()),
            Err(e) => Err(e),
        }
    }
}

/// The trailer of a table whose blocks take `region_len` bytes.
pub open spec fn trailer(region_len: u32) -> Seq<u8> {
    u32_to_le(region_len) + u32_to_le(FORMAT_VERSION)
}

/// The file that a writer leaves: the complete blocks, the current block
/// padded with zero bytes, and the trailer.
pub open spec fn finalize_model(w: WriterModel) -> Seq<u8> {
    w.written + pad_block(w.current) + trailer((w.written.len() + BLOCK_SIZE) as u32)
}

/// The file of a table with the entries `entries`, written in one go. A table
/// without entries has no block, only the trailer.
pub open spec fn sst_image(entries: Seq<EntryModel>) -> Result<Seq<u8>, SstError> {
    if entries.len() == 0 {
        Ok(trailer(0))
    } else {
        match append_all(empty_writer(), entries) {
            Ok(w) => Ok(finalize_model(w)),
            Err(e) => Err(e),
        }
    }
}

/// The entry that is written for one entry of a memory table.
pub open spec fn flushed_entry(entry: EntryPair) -> EntryModel {
    EntryModel { key: entry.0, value: entry.1.0, seq: entry.1.1 }
}

/// The entries that are written for the entries of a memory table.
pub open spec fn flushed_entries(entries: Seq<EntryPair>) -> Seq<EntryModel> {
    entries.map_values(|entry: EntryPair| flushed_entry(entry))
}

/// A writer of one table. The file is built in memory; `finalize` hands its
/// bytes out.
pub struct SSTableWriter {
    file: Vec<u8>,
    written_blocks_count: u32,
    current_block: SSTableBlock,
}

impl View for SSTableWriter {
    type V = WriterModel;

    /// The complete blocks, and the content of the block that is filled.
    closed spec fn view(&self) -> WriterModel {
        WriterModel { written: self.file@, current: self.current_block@ }
    }
}

impl SSTableWriter {
    /// The complete blocks are counted, and there is room for one block
    /// more.
    #[verifier::type_invariant]
    spec fn counted(self) -> bool {
        &&& self.file@.len() == self.written_blocks_count * BLOCK_SIZE
        &&& self.file@.len() + BLOCK_SIZE <= MAX_REGION_SIZE
        &&& self.current_block@.len() <= BLOCK_SIZE
    }

    /// A writer of a new table.
    pub fn new() -> (w: Self)
        ensures
            w@ == empty_writer(),
    {
        Self::with_capacity(0)
    }

    /// A writer of a new table that expects a file of about `size` bytes.
    pub fn with_capacity(size: u32) -> (w: Self)
        ensures
            w@ == empty_writer(),
    {
        let current_block = SSTableBlock::new();
        Self { file: Vec::with_capacity(size as usize), written_blocks_count: 0, current_block }
    }

    /// Appends one entry, given by its parts: a key, a value or nothing for
    /// the mark of a deletion, and a sequence number.
    pub fn append_parts(&mut self, key: &[u8], value: Option<&[u8]>, sequence_number: u64) -> (r:
        Result<(), SstError>)
        ensures
            match append_model(
                old(self)@,
                EntryModel {
                    key: key@,
                    value: match value {
                        Some(bytes) => Some(bytes@),
                        None => None,
                    },
                    seq: sequence_number,
                },
            ) {
                Ok(w) => r is Ok && final(self)@ == w,
                Err(e) => r == Err::<(), SstError>(e) && final(self)@ == old(self)@,
            },
    {
        proof {
            use_type_invariant(&*self);
            lemma_encode_entry_len(
                key@,
                match value {
                    Some(bytes) => Some(bytes@),
                    None => None,
                },
                sequence_number,
            );
        }
        let encoded = match value {
            Some(bytes) => BlockEntry::from_parts(key, bytes, &sequence_number),
            None => BlockEntry::tombstone(key, &sequence_number),
        };
        let block_entry = match encoded {
            Ok(block_entry) => block_entry,
            Err(_) => {
                return Err(SstError::CapacityExceeded);
            },
        };
        if !block_entry.can_fit(&self.current_block) && self.file.len() > MAX_REGION_SIZE - 2
            * BLOCK_SIZE {
            return Err(SstError::TableTooLarge);
        }
        let mut writer = Self::new();
        core::mem::swap(self, &mut writer);
        let SSTableWriter { mut file, mut written_blocks_count, mut current_block } = writer;
        if block_entry.can_fit(&current_block) {
            let appended = current_block.append_block(block_entry);
        } else {
            let mut block = SSTableBlock::new();
            core::mem::swap(&mut current_block, &mut block);
            let padded_block = block.finalize();
            written_blocks_count = written_blocks_count + 1;
            let ghost before = file@;
            file.extend_from_slice(padded_block.as_slice());
            assert(file@ =~= before + padded_block@);
            let appended = current_block.append_block(block_entry);
            assert(current_block@ =~= block_entry@);
        }
        *self = SSTableWriter { file, written_blocks_count, current_block };
        Ok(())
    }

    /// Appends one entry of a flushed memory table.
    pub fn append_flushed(&mut self, entry: &MemTableEntry) -> (r: Result<(), SstError>)
        ensures
            match append_model(old(self)@, flushed_entry(entry_model(*entry))) {
                Ok(w) => r is Ok && final(self)@ == w,
                Err(e) => r == Err::<(), SstError>(e) && final(self)@ == old(self)@,
            },
    {
        match &entry.1.0 {
            Some(value) => self.append_parts(
                entry.0.as_slice(),
                Some(value.as_slice()),
                entry.1.1,
            ),
            None => self.append_parts(entry.0.as_slice(), None, entry.1.1),
        }
    }

    /// Appends one entry.
    pub fn append_entry(&mut self, entry: &TableResult) -> (r: Result<(), SstError>)
        ensures
            match append_model(old(self)@, entry@) {
                Ok(w) => r is Ok && final(self)@ == w,
                Err(e) => r == Err::<(), SstError>(e) && final(self)@ == old(self)@,
            },
    {
        if entry.tombstone {
            self.append_parts(entry.key, None, entry.sequence_number)
        } else {
            self.append_parts(entry.key, Some(entry.value), entry.sequence_number)
        }
    }

    /// Completes the table: the current block is padded and written, and the
    /// trailer behind it names the end of the blocks and the version.
    pub fn finalize(self) -> (bytes: Vec<u8>)
        ensures
            bytes@ == finalize_model(self@),
    {
        proof {
            use_type_invariant(&self);
        }
        let SSTableWriter { mut file, written_blocks_count, current_block } = self;
        let padded_block = current_block.finalize();
        let ghost before = file@;
        file.extend_from_slice(padded_block.as_slice());
        assert(file@ =~= before + padded_block@);
        let metadata_offset: u32 = file.len() as u32;
        write_u32_le(&mut file, metadata_offset);
        write_u32_le(&mut file, FORMAT_VERSION);
        assert(file@ =~= finalize_model(self@));
        file
    }

    /// Writes a table with the entries of a flushed memory table, in their
    /// order, and gives the bytes of its file. `size` says about how many
    /// bytes to expect.
    pub fn write_to_file(entries: &EntryType, size: u32) -> (r: Result<Vec<u8>, SstError>)
        ensures
            match sst_image(flushed_entries(entries_model(entries@))) {
                Ok(image) => r matches Ok(bytes) && bytes@ == image,
                Err(e) => r matches Err(err) && err == e,
            },
    {
        let ghost model = flushed_entries(entries_model(entries@));
        if entries.len() == 0 {
            let mut file: Vec<u8> = Vec::new();
            write_u32_le(&mut file, 0);
            write_u32_le(&mut file, FORMAT_VERSION);
            assert(file@ =~= trailer(0));
            return Ok(file);
        }
        let mut writer = Self::with_capacity(size);
        let mut i: usize = 0;
        assert(model.take(0) =~= Seq::<EntryModel>::empty());
        while i < entries.len()
            invariant
                i <= entries@.len(),
                model == flushed_entries(entries_model(entries@)),
                model.len() == entries@.len(),
                append_all(empty_writer(), model.take(i as int)) == Ok::<WriterModel, SstError>(
                    writer@,
                ),
            decreases entries@.len() - i,
        {
            proof {
                lemma_append_all_step(empty_writer(), model, i as int);
            }
            match writer.append_flushed(&entries[i]) {
                Ok(()) => {},
                Err(e) => {
                    proof {
                        lemma_append_all_error(empty_writer(), model, i as int + 1);
                    }
                    return Err(e);
                },
            }
            i = i + 1;
        }
        assert(model.take(i as int) =~= model);
        Ok(writer.finalize())
    }
}

/// Appending the first `n + 1` entries is appending the first `n`, then one
/// more.
pub proof fn lemma_append_all_step(w: WriterModel, entries: Seq<EntryModel>, n: int)
    requires
        0 <= n < entries.len(),
    ensures
        append_all(w, entries.take(n + 1)) == match append_all(w, entries.take(n)) {
            Ok(before) => append_model(before, entries[n]),
            Err(e) => Err(e),
        },
{
    assert(entries.take(n + 1).drop_last() =~= entries.take(n));
    assert(entries.take(n + 1).last() == entries[n]);
}

/// Once a prefix of the entries is refused, all of them are, for the same
/// reason.
pub proof fn lemma_append_all_error(w: WriterModel, entries: Seq<EntryModel>, n: int)
    requires
        0 <= n <= entries.len(),
        append_all(w, entries.take(n)) is Err,
    ensures
        append_all(w, entries) == append_all(w, entries.take(n)),
    decreases entries.len() - n,
{
    if n < entries.len() {
        assert(entries.take(n + 1).drop_last() =~= entries.take(n));
        lemma_append_all_error(w, entries, n + 1);
    } else {
        assert(entries.take(n) =~= entries);
    }
}

} // verus!
