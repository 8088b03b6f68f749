//! Reading a sorted string table from the bytes of its file.
use crate::persists::bytes::{
    key_eq, key_lt, lemma_lex_lt_transitive, lemma_u32_from_le_bound, lemma_u64_from_le_bound,
    lex_lt, read_u32_le, read_u64_le, to_owned_bytes, u32_from_le, u64_from_le,
};
use crate::persists::sst::block_entry::{entry_size, value_bytes, TOMBSTONE_MARK};
use crate::persists::sst::sst_table_block::{SstError, BLOCK_SIZE, HEADER_SIZE, SEQ_SIZE};
use crate::persists::sst::table_result::{EntryModel, TableResult};
use vstd::prelude::*;

verus! {

/// The bytes of the record that ends a table file: where the blocks end, and
/// the format's version, four bytes each.
pub const TRAILER_SIZE: usize = 8;

/// The entry that starts at `off` in `data` and the offset behind it, where
/// the block that holds it ends at `end`. There is none where the block has no
/// room left for a key's length, where the key's length is zero (the block's
/// padding starts here), or where a length that the entry announces leads
/// past the end of the block. An entry with `TOMBSTONE_MARK` for the value's
/// length marks a deletion, and has no value.
pub open spec fn parse_entry(data: Seq<u8>, off: int, end: int) -> Option<(EntryModel, int)> {
    if off < 0 || end > data.len() || off + HEADER_SIZE > end {
        None
    } else {
        let key_at = off + HEADER_SIZE;
        let key_len = u32_from_le(data.subrange(off, key_at));
        if key_len == 0 || key_at + key_len + HEADER_SIZE > end {
            None
        } else {
            let value_at = key_at + key_len + HEADER_SIZE;
            let raw = u32_from_le(data.subrange(key_at + key_len, value_at));
            let value_len = if raw == TOMBSTONE_MARK {
                0
            } else {
                raw
            };
            if value_at + value_len + SEQ_SIZE > end {
                None
            } else {
                let seq_at = value_at + value_len;
                Some(
                    (
                        EntryModel {
                            key: data.subrange(key_at, key_at + key_len),
                            value: if raw == TOMBSTONE_MARK {
                                None
                            } else {
                                Some(data.subrange(value_at, seq_at))
                            },
                            seq: u64_from_le(data.subrange(seq_at, seq_at + SEQ_SIZE)) as u64,
                        },
                        seq_at + SEQ_SIZE,
                    ),
                )
            }
        }
    }
}

/// An entry that was parsed ends behind where it starts, and inside its block.
pub proof fn lemma_parse_entry_advances(data: Seq<u8>, off: int, end: int)
    ensures
        parse_entry(data, off, end) matches Some((e, next)) ==> {
            &&& off < next <= end
            &&& next == off + entry_size(e.key, e.value)
            &&& e.key.len() >= 1
        },
{
    if off >= 0 && end <= data.len() && off + HEADER_SIZE <= end {
        let key_at = off + HEADER_SIZE;
        let key_len = u32_from_le(data.subrange(off, key_at));
        lemma_u32_from_le_bound(data.subrange(off, key_at));
        lemma_u32_from_le_bound(data.subrange(key_at + key_len, key_at + key_len + HEADER_SIZE));
    }
}

/// The entries of the block of `data` that ends at `end`, from offset `off`
/// on: one entry after the other until none can be parsed.
pub open spec fn parse_block(data: Seq<u8>, off: int, end: int) -> Seq<EntryModel>
    decreases end - off,
{
    match parse_entry(data, off, end) {
        None => Seq::empty(),
        Some((e, next)) => {
            if off < next <= end {
                seq![e] + parse_block(data, next, end)
            } else {
                Seq::empty()
            }
        },
    }
}

/// Where one entry lies in the bytes of a table: the ranges of its key and
/// its value, and its sequence number.
#[derive(Debug, Clone, Copy)]
pub struct DataEntryBlock {
    key_start: usize,
    key_end: usize,
    value_start: usize,
    value_end: usize,
    seq_number: u64,
    tombstone: bool,
}

impl DataEntryBlock {
    /// Both ranges lie inside a buffer of `len` bytes, and the range of the
    /// value is empty where the entry marks a deletion.
    pub closed spec fn inside(&self, len: nat) -> bool {
        &&& self.key_start <= self.key_end <= len
        &&& self.value_start <= self.value_end <= len
        &&& self.tombstone ==> self.value_start == self.value_end
    }

    /// The entry that the ranges cut out of `data`.
    pub closed spec fn model(&self, data: Seq<u8>) -> EntryModel {
        EntryModel {
            key: data.subrange(self.key_start as int, self.key_end as int),
            value: if self.tombstone {
                None
            } else {
                Some(data.subrange(self.value_start as int, self.value_end as int))
            },
            seq: self.seq_number,
        }
    }

    /// Parses the entry that starts at `offset` in `buffer`, in a block that
    /// ends at `end`, and gives the offset behind it.
    pub fn parse_from_offset(buffer: &[u8], offset: usize, end: usize) -> (r: Option<
        (Self, usize),
    >)
        ensures
            match parse_entry(buffer@, offset as int, end as int) {
                None => r is None,
                Some((e, next)) => r matches Some((entry, n)) && n == next && entry.inside(
                    buffer@.len(),
                ) && entry.model(buffer@) == e,
            },
    {
        if end > buffer.len() || offset > end || end - offset < HEADER_SIZE {
            return None;
        }
        let key_at: usize = offset + HEADER_SIZE;
        let key_length: usize = read_u32_le(&buffer[offset..key_at]) as usize;
        if key_length == 0 || end - key_at < HEADER_SIZE || end - key_at - HEADER_SIZE
            < key_length {
            return None;
        }
        let key_end: usize = key_at + key_length;
        let value_at: usize = key_end + HEADER_SIZE;
        let raw: u32 = read_u32_le(&buffer[key_end..value_at]);
        let tombstone: bool = raw == TOMBSTONE_MARK;
        let value_length: usize = if tombstone {
            0
        } else {
            raw as usize
        };
        if end - value_at < SEQ_SIZE || end - value_at - SEQ_SIZE < value_length {
            return None;
        }
        let seq_at: usize = value_at + value_length;
        let seq: u64 = read_u64_le(&buffer[seq_at..seq_at + SEQ_SIZE]);
        proof {
            lemma_u64_from_le_bound(buffer@.subrange(seq_at as int, seq_at + SEQ_SIZE));
        }
        Some(
            (
                DataEntryBlock {
                    key_start: key_at,
                    key_end,
                    value_start: value_at,
                    value_end: seq_at,
                    seq_number: seq,
                    tombstone,
                },
                seq_at + SEQ_SIZE,
            ),
        )
    }

    /// The key, cut out of the table's bytes.
    pub fn key<'a>(&self, buffer: &'a [u8]) -> (k: &'a [u8])
        requires
            self.inside(buffer@.len()),
        ensures
            k@ == self.model(buffer@).key,
    {
        &buffer[self.key_start..self.key_end]
    }

    /// The bytes of the value, cut out of the table's bytes. An entry that
    /// marks a deletion has none.
    pub fn value<'a>(&self, buffer: &'a [u8]) -> (v: &'a [u8])
        requires
            self.inside(buffer@.len()),
        ensures
            v@ == value_bytes(self.model(buffer@).value),
    {
        &buffer[self.value_start..self.value_end]
    }

    /// The entry as a reader hands it out.
    pub fn get<'a>(&self, buffer: &'a [u8]) -> (r: TableResult<'a>)
        requires
            self.inside(buffer@.len()),
        ensures
            r@ == self.model(buffer@),
    {
        TableResult {
            key: self.key(buffer),
            value: self.value(buffer),
            sequence_number: self.seq_number,
            tombstone: self.tombstone,
        }
    }
}

/// The first entry of `entries` that has the key `key`.
pub open spec fn find_key(entries: Seq<EntryModel>, key: Seq<u8>) -> Option<EntryModel>
    decreases entries.len(),
{
    if entries.len() == 0 {
        None
    } else if entries[0].key == key {
        Some(entries[0])
    } else {
        find_key(entries.drop_first(), key)
    }
}

/// What `find_key` finds is an entry of the sequence with that key, and it
/// finds one whenever the sequence holds one.
pub proof fn lemma_find_key(entries: Seq<EntryModel>, key: Seq<u8>)
    ensures
        find_key(entries, key) matches Some(e) ==> e.key == key && entries.contains(e),
        find_key(entries, key) is None ==> forall|i: int|
            0 <= i < entries.len() ==> (#[trigger] entries[i]).key != key,
    decreases entries.len(),
{
    if entries.len() > 0 {
        let rest = entries.drop_first();
        lemma_find_key(rest, key);
        if entries[0].key != key {
            if let Some(e) = find_key(rest, key) {
                let i = choose|i: int| 0 <= i < rest.len() && rest[i] == e;
                assert(entries[i + 1] == e);
            } else {
                assert forall|i: int| 0 <= i < entries.len() implies (#[trigger] entries[i]).key
                    != key by {
                    if i > 0 {
                        assert(rest[i - 1] == entries[i]);
                    }
                }
            }
        } else {
            assert(entries.contains(entries[0]));
        }
    }
}

/// Looking through `a + b` is looking through `a`, then through `b`.
pub proof fn lemma_find_key_concat(a: Seq<EntryModel>, b: Seq<EntryModel>, key: Seq<u8>)
    ensures
        find_key(a + b, key) == match find_key(a, key) {
            Some(e) => Some(e),
            None => find_key(b, key),
        },
    decreases a.len(),
{
    if a.len() == 0 {
        assert(a + b =~= b);
    } else {
        assert((a + b).drop_first() =~= a.drop_first() + b);
        lemma_find_key_concat(a.drop_first(), b, key);
    }
}

/// The entries of one block of a table, each by its place in the table's bytes.
pub struct DataBlock {
    blocks: Vec<DataEntryBlock>,
}

impl DataBlock {
    /// Every entry of the block lies inside a buffer of `len` bytes.
    pub closed spec fn inside(&self, len: nat) -> bool {
        forall|i: int| 0 <= i < self.blocks@.len() ==> (#[trigger] self.blocks@[i]).inside(len)
    }

    /// The entries that the block cuts out of `data`, in the block's order.
    pub closed spec fn entries(&self, data: Seq<u8>) -> Seq<EntryModel> {
        Seq::new(self.blocks@.len(), |i: int| self.blocks@[i].model(data))
    }

    /// Parses the block of `buffer` that starts at `start` and ends at `end`.
    pub fn from_buffer(buffer: &[u8], start: usize, end: usize) -> (block: Self)
        ensures
            block.inside(buffer@.len()),
            block.entries(buffer@) == parse_block(buffer@, start as int, end as int),
    {
        let mut parsed_blocks: Vec<DataEntryBlock> = Vec::new();
        let mut offset: usize = start;
        let ghost mut parsed: Seq<EntryModel> = Seq::empty();
        loop
            invariant
                parsed == Seq::new(
                    parsed_blocks@.len(),
                    |i: int| parsed_blocks@[i].model(buffer@),
                ),
                forall|i: int|
                    0 <= i < parsed_blocks@.len() ==> (#[trigger] parsed_blocks@[i]).inside(
                        buffer@.len(),
                    ),
                parse_block(buffer@, start as int, end as int) == parsed + parse_block(
                    buffer@,
                    offset as int,
                    end as int,
                ),
            ensures
                parsed == Seq::new(
                    parsed_blocks@.len(),
                    |i: int| parsed_blocks@[i].model(buffer@),
                ),
                forall|i: int|
                    0 <= i < parsed_blocks@.len() ==> (#[trigger] parsed_blocks@[i]).inside(
                        buffer@.len(),
                    ),
                parse_block(buffer@, start as int, end as int) == parsed,
            decreases end - offset,
        {
            proof {
                lemma_parse_entry_advances(buffer@, offset as int, end as int);
            }
            match DataEntryBlock::parse_from_offset(buffer, offset, end) {
                Some((entry, next_offset)) => {
                    proof {
                        let e = entry.model(buffer@);
                        assert(parsed.push(e) =~= parsed + seq![e]);
                        assert(parsed + (seq![e] + parse_block(
                            buffer@,
                            next_offset as int,
                            end as int,
                        )) =~= parsed.push(e) + parse_block(
                            buffer@,
                            next_offset as int,
                            end as int,
                        ));
                        parsed = parsed.push(e);
                    }
                    parsed_blocks.push(entry);
                    offset = next_offset;
                    assert(parsed =~= Seq::new(
                        parsed_blocks@.len(),
                        |i: int| parsed_blocks@[i].model(buffer@),
                    ));
                },
                None => {
                    assert(parsed + Seq::<EntryModel>::empty() =~= parsed);
                    break ;
                },
            }
        }
        DataBlock { blocks: parsed_blocks }
    }

    /// The first entry of the block with the key `key`.
    pub fn get<'a>(&self, buffer: &'a [u8], key: &[u8]) -> (r: Option<TableResult<'a>>)
        requires
            self.inside(buffer@.len()),
        ensures
            match find_key(self.entries(buffer@), key@) {
                None => r is None,
                Some(e) => r matches Some(found) && found@ == e,
            },
    {
        let ghost entries = self.entries(buffer@);
        let mut i: usize = 0;
        assert(entries.skip(0) =~= entries);
        while i < self.blocks.len()
            invariant
                i <= self.blocks@.len(),
                self.inside(buffer@.len()),
                entries == self.entries(buffer@),
                find_key(entries, key@) == find_key(entries.skip(i as int), key@),
            decreases self.blocks@.len() - i,
        {
            let res = self.blocks[i].get(buffer);
            assert(entries.skip(i as int)[0] == res@);
            assert(entries.skip(i as int).drop_first() =~= entries.skip(i as int + 1));
            if key_eq(res.key, key) {
                return Some(res);
            }
            i = i + 1;
        }
        None
    }

    /// The number of entries in the block.
    pub fn len(&self) -> (n: usize)
        ensures
            forall|data: Seq<u8>| n == (#[trigger] self.entries(data)).len(),
    {
        self.blocks.len()
    }
}

/// The offset at which the blocks of a table end, as its trailer gives it.
pub open spec fn trailer_offset(data: Seq<u8>) -> int {
    u32_from_le(data.subrange(data.len() - TRAILER_SIZE, data.len() - HEADER_SIZE))
}

/// The version of the format, as the trailer of a table gives it.
pub open spec fn trailer_version(data: Seq<u8>) -> int {
    u32_from_le(data.subrange(data.len() - HEADER_SIZE, data.len() as int))
}

/// `data` is a table: it ends in a trailer, and the blocks end, as the
/// trailer has it, before the trailer starts.
pub open spec fn sst_valid(data: Seq<u8>) -> bool {
    &&& data.len() >= TRAILER_SIZE
    &&& trailer_offset(data) <= data.len() - TRAILER_SIZE
}

/// The number of blocks in a block region of `region_len` bytes. The last
/// block may be shorter than the others.
pub open spec fn block_count(region_len: int) -> int {
    (region_len + BLOCK_SIZE - 1) / (BLOCK_SIZE as int)
}

/// Where block `i` of a block region of `region_len` bytes ends.
pub open spec fn block_end(region_len: int, i: int) -> int {
    if (i + 1) * BLOCK_SIZE <= region_len {
        (i + 1) * BLOCK_SIZE
    } else {
        region_len
    }
}

/// The entries of the table `data`, block by block.
pub open spec fn sst_blocks(data: Seq<u8>) -> Seq<Seq<EntryModel>> {
    let region_len = trailer_offset(data);
    Seq::new(
        block_count(region_len) as nat,
        |i: int| parse_block(data, i * BLOCK_SIZE, block_end(region_len, i)),
    )
}

/// All entries of the table `data`, in the order of the file.
pub open spec fn sst_entries(data: Seq<u8>) -> Seq<EntryModel> {
    sst_blocks(data).flatten()
}

/// The key that a table remembers as its first: that of the first entry of
/// its first block, and the empty key where there is no such entry.
pub open spec fn first_key_of(blocks: Seq<Seq<EntryModel>>) -> Seq<u8> {
    if blocks.len() > 0 && blocks.first().len() > 0 {
        blocks.first().first().key
    } else {
        Seq::empty()
    }
}

/// The key that a table remembers as its last: that of the last entry of its
/// last block, and the empty key where there is no such entry.
pub open spec fn last_key_of(blocks: Seq<Seq<EntryModel>>) -> Seq<u8> {
    if blocks.len() > 0 && blocks.last().len() > 0 {
        blocks.last().last().key
    } else {
        Seq::empty()
    }
}

/// What a lookup of `key` in the table `data` gives: nothing for a key before
/// the table's first key or behind its last, and else the first entry with
/// that key.
pub open spec fn sst_lookup(data: Seq<u8>, key: Seq<u8>) -> Option<EntryModel> {
    let blocks = sst_blocks(data);
    if lex_lt(key, first_key_of(blocks)) || lex_lt(last_key_of(blocks), key) {
        None
    } else {
        find_key(blocks.flatten(), key)
    }
}

/// The entries of a table are sorted by key, and no key occurs twice.
pub open spec fn strictly_sorted(entries: Seq<EntryModel>) -> bool {
    forall|i: int, j: int|
        0 <= i < j < entries.len() ==> lex_lt((#[trigger] entries[i]).key, (#[trigger] entries[j]).key)
}

/// What the trailer of a table says.
#[derive(Debug, Clone, Copy)]
pub struct MetaData {
    metadata_offset: usize,
    version: usize,
}

/// Reads the trailer in the last eight bytes of `data`.
fn read_metadata(data: &[u8]) -> (meta_data: MetaData)
    requires
        data@.len() >= TRAILER_SIZE,
    ensures
        meta_data.metadata_offset == trailer_offset(data@),
        meta_data.version == trailer_version(data@),
{
    let len: usize = data.len();
    let metadata_offset: usize = read_u32_le(&data[len - TRAILER_SIZE..len - HEADER_SIZE]) as usize;
    let version: usize = read_u32_le(&data[len - HEADER_SIZE..len]) as usize;
    MetaData { metadata_offset, version }
}

/// A sorted string table, read from the bytes of its file. The table owns the
/// bytes; the entries it hands out borrow them.
pub struct SortedStringTable {
    first_key: Vec<u8>,
    last_key: Vec<u8>,
    data_blocks: Vec<DataBlock>,
    data: Vec<u8>,
    meta_data: MetaData,
}

impl SortedStringTable {
    /// What the table holds beside its bytes is what was read from them.
    #[verifier::type_invariant]
    spec fn parsed_from_data(self) -> bool {
        &&& sst_valid(self.data@)
        &&& self.meta_data.metadata_offset == trailer_offset(self.data@)
        &&& self.meta_data.version == trailer_version(self.data@)
        &&& self.data_blocks@.len() == sst_blocks(self.data@).len()
        &&& forall|i: int|
            0 <= i < self.data_blocks@.len() ==> {
                &&& (#[trigger] self.data_blocks@[i]).inside(self.data@.len())
                &&& self.data_blocks@[i].entries(self.data@) == sst_blocks(self.data@)[i]
            }
        &&& self.first_key@ == first_key_of(sst_blocks(self.data@))
        &&& self.last_key@ == last_key_of(sst_blocks(self.data@))
    }

    /// The bytes of the file that the table was read from.
    pub closed spec fn bytes(&self) -> Seq<u8> {
        self.data@
    }

    /// The entries of the table, block by block.
    pub open spec fn blocks(&self) -> Seq<Seq<EntryModel>> {
        sst_blocks(self.bytes())
    }

    /// All entries of the table, in the order of the file.
    pub open spec fn entries(&self) -> Seq<EntryModel> {
        sst_entries(self.bytes())
    }

    /// Reads a table from the bytes of its file. Bytes without a trailer, or
    /// with one that puts the end of the blocks behind its own place, are
    /// refused as corrupt.
    pub fn new(data: Vec<u8>) -> (r: Result<Self, SstError>)
        ensures
            r is Ok <==> sst_valid(data@),
            r matches Ok(table) ==> table.bytes() == data@,
            r matches Err(e) ==> e == SstError::SstCorruption,
    {
        let len: usize = data.len();
        if len < TRAILER_SIZE {
            return Err(SstError::SstCorruption);
        }
        let meta_data = read_metadata(data.as_slice());
        let region_len: usize = meta_data.metadata_offset;
        if region_len > len - TRAILER_SIZE {
            return Err(SstError::SstCorruption);
        }
        let ghost all = sst_blocks(data@);
        let mut blocks: Vec<DataBlock> = Vec::new();
        let mut start: usize = 0;
        while start < region_len
            invariant
                region_len == trailer_offset(data@),
                region_len <= data@.len(),
                all == sst_blocks(data@),
                start == blocks@.len() * BLOCK_SIZE || (start == region_len && blocks@.len()
                    == all.len()),
                start <= region_len,
                blocks@.len() <= all.len(),
                forall|i: int|
                    0 <= i < blocks@.len() ==> {
                        &&& (#[trigger] blocks@[i]).inside(data@.len())
                        &&& blocks@[i].entries(data@) == all[i]
                    },
            ensures
                blocks@.len() == all.len(),
                forall|i: int|
                    0 <= i < blocks@.len() ==> {
                        &&& (#[trigger] blocks@[i]).inside(data@.len())
                        &&& blocks@[i].entries(data@) == all[i]
                    },
            decreases region_len - start,
        {
            let end: usize = if region_len - start < BLOCK_SIZE {
                region_len
            } else {
                start + BLOCK_SIZE
            };
            let block = DataBlock::from_buffer(data.as_slice(), start, end);
            blocks.push(block);
            start = end;
        }
        let first_key: Vec<u8> = if blocks.len() > 0 && blocks[0].len() > 0 {
            to_owned_bytes(blocks[0].blocks[0].key(data.as_slice()))
        } else {
            Vec::new()
        };
        let last: usize = blocks.len();
        let last_key: Vec<u8> = if last > 0 && blocks[last - 1].len() > 0 {
            let block = &blocks[last - 1];
            to_owned_bytes(block.blocks[block.len() - 1].key(data.as_slice()))
        } else {
            Vec::new()
        };
        Ok(SortedStringTable { first_key, last_key, data_blocks: blocks, data, meta_data })
    }

    /// The bytes of the file that the table was read from.
    pub fn as_bytes(&self) -> (bytes: &[u8])
        ensures
            bytes@ == self.bytes(),
    {
        self.data.as_slice()
    }

    /// The key that the table remembers as its first.
    pub fn first_key(&self) -> (k: &[u8])
        ensures
            k@ == first_key_of(self.blocks()),
    {
        proof {
            use_type_invariant(self);
        }
        self.first_key.as_slice()
    }

    /// The key that the table remembers as its last.
    pub fn last_key(&self) -> (k: &[u8])
        ensures
            k@ == last_key_of(self.blocks()),
    {
        proof {
            use_type_invariant(self);
        }
        self.last_key.as_slice()
    }

    /// The offset at which the blocks end, as the trailer gives it.
    pub fn metadata_offset(&self) -> (n: usize)
        ensures
            n == trailer_offset(self.bytes()),
    {
        proof {
            use_type_invariant(self);
        }
        self.meta_data.metadata_offset
    }

    /// The version of the format, as the trailer gives it.
    pub fn version(&self) -> (n: usize)
        ensures
            n == trailer_version(self.bytes()),
    {
        proof {
            use_type_invariant(self);
        }
        self.meta_data.version
    }

    /// Looks up `key`. A key before the table's first key or behind its last
    /// is not looked for in the blocks.
    pub fn get(&self, key: &[u8]) -> (r: Option<TableResult<'_>>)
        ensures
            match sst_lookup(self.bytes(), key@) {
                None => r is None,
                Some(e) => r matches Some(found) && found@ == e,
            },
            lex_lt(key@, first_key_of(self.blocks())) || lex_lt(last_key_of(self.blocks()), key@)
                ==> r is None,
    {
        proof {
            use_type_invariant(self);
        }
        if key_lt(key, self.first_key.as_slice()) || key_lt(self.last_key.as_slice(), key) {
            return None;
        }
        let ghost all = sst_blocks(self.data@);
        let mut i: usize = 0;
        assert(all.skip(0) =~= all);
        while i < self.data_blocks.len()
            invariant
                i <= self.data_blocks@.len(),
                all == sst_blocks(self.data@),
                self.data_blocks@.len() == all.len(),
                forall|j: int|
                    0 <= j < self.data_blocks@.len() ==> {
                        &&& (#[trigger] self.data_blocks@[j]).inside(self.data@.len())
                        &&& self.data_blocks@[j].entries(self.data@) == all[j]
                    },
                find_key(all.flatten(), key@) == find_key(all.skip(i as int).flatten(), key@),
                !lex_lt(key@, first_key_of(all)),
                !lex_lt(last_key_of(all), key@),
            decreases self.data_blocks@.len() - i,
        {
            proof {
                assert(all.skip(i as int).drop_first() =~= all.skip(i as int + 1));
                assert(all.skip(i as int).flatten() == all[i as int] + all.skip(
                    i as int + 1,
                ).flatten());
                lemma_find_key_concat(all[i as int], all.skip(i as int + 1).flatten(), key@);
            }
            if let Some(result) = self.data_blocks[i].get(self.data.as_slice(), key) {
                return Some(result);
            }
            i = i + 1;
        }
        None
    }
    /// An iterator over all entries of the table, in the order of the file.
    pub fn iter(&self) -> (it: SSTableIterator<'_>)
        ensures
            it.remaining() == self.entries(),
            it.source() == self.bytes(),
    {
        let it = SSTableIterator { table: self, block_index: 0, entry_index: 0 };
        proof {
            let blocks = self.blocks();
            if blocks.len() > 0 {
                assert(blocks[0].skip(0) =~= blocks[0]);
                assert(blocks.skip(1) =~= blocks.drop_first());
            }
            assert(it.remaining() =~= self.entries());
        }
        it
    }

    /// Whether the entries are sorted by key, with no key twice.
    pub fn is_sorted(&self) -> (r: bool)
        ensures
            r == strictly_sorted(self.entries()),
    {
        let mut it = self.iter();
        let ghost entries = self.entries();
        let ghost mut done: Seq<EntryModel> = Seq::empty();
        let mut previous: Option<&[u8]> = None;
        assert(done + it.remaining() =~= entries);
        loop
            invariant
                entries == self.entries(),
                entries == done + it.remaining(),
                strictly_sorted(done),
                done.len() == 0 <==> previous is None,
                previous matches Some(k) ==> k@ == done.last().key,
            ensures
                it.remaining().len() == 0,
                self.entries() == done,
                strictly_sorted(done),
            decreases it.remaining().len(),
        {
            match it.next() {
                None => {
                    assert(done + Seq::<EntryModel>::empty() =~= done);
                    break ;
                },
                Some(entry) => {
                    let ghost n = done.len() as int;
                    assert(entries[n] == entry@);
                    if let Some(k) = previous {
                        if !key_lt(k, entry.key) {
                            assert(!lex_lt(entries[n - 1].key, entries[n].key));
                            return false;
                        }
                    }
                    proof {
                        let grown = done.push(entry@);
                        assert forall|i: int, j: int| 0 <= i < j < grown.len() implies lex_lt(
                            (#[trigger] grown[i]).key,
                            (#[trigger] grown[j]).key,
                        ) by {
                            if j == n && i < n - 1 {
                                assert(lex_lt(done[i].key, done[n - 1].key));
                                lemma_lex_lt_transitive(
                                    grown[i].key,
                                    done[n - 1].key,
                                    grown[j].key,
                                );
                            }
                        }
                        assert(grown + it.remaining() =~= entries);
                        done = grown;
                    }
                    previous = Some(entry.key);
                },
            }
        }
        true
    }
}

/// A walk through the entries of one block.
pub struct DataBlockIterator<'a> {
    block: &'a DataBlock,
    buffer: &'a [u8],
    index: usize,
}

impl DataBlock {
    /// An iterator over the entries of the block, which lie in `buffer`.
    pub fn iter<'a>(&'a self, buffer: &'a [u8]) -> (it: DataBlockIterator<'a>)
        requires
            self.inside(buffer@.len()),
        ensures
            it.remaining() == self.entries(buffer@),
    {
        assert(self.entries(buffer@).skip(0) =~= self.entries(buffer@));
        DataBlockIterator { block: self, buffer, index: 0 }
    }
}

impl<'a> DataBlockIterator<'a> {
    /// The entries of the block lie inside the buffer.
    #[verifier::type_invariant]
    spec fn inside_buffer(self) -> bool {
        self.block.inside(self.buffer@.len())
    }

    /// The entries that the iterator has yet to give.
    pub closed spec fn remaining(&self) -> Seq<EntryModel> {
        let entries = self.block.entries(self.buffer@);
        if self.index <= entries.len() {
            entries.skip(self.index as int)
        } else {
            Seq::empty()
        }
    }

    /// The next entry of the block, if one is left.
    pub fn next(&mut self) -> (r: Option<TableResult<'a>>)
        ensures
            match r {
                Some(entry) => old(self).remaining().len() > 0 && entry@ == old(
                    self,
                ).remaining().first() && final(self).remaining() == old(
                    self,
                ).remaining().drop_first(),
                None => old(self).remaining().len() == 0 && final(self).remaining().len() == 0,
            },
    {
        proof {
            use_type_invariant(&*self);
        }
        if self.index < self.block.blocks.len() {
            let entry = self.block.blocks[self.index].get(self.buffer);
            proof {
                let entries = self.block.entries(self.buffer@);
                assert(entries.skip(self.index as int).drop_first() =~= entries.skip(
                    self.index as int + 1,
                ));
            }
            self.index = self.index + 1;
            Some(entry)
        } else {
            None
        }
    }
}

/// A walk through all entries of a table, block after block.
pub struct SSTableIterator<'a> {
    table: &'a SortedStringTable,
    block_index: usize,
    entry_index: usize,
}

/// What a walk through `blocks` has yet to give when it stands at entry
/// `entry_index` of block `block_index`.
pub open spec fn remaining_from(
    blocks: Seq<Seq<EntryModel>>,
    block_index: int,
    entry_index: int,
) -> Seq<EntryModel> {
    if 0 <= block_index < blocks.len() {
        let block = blocks[block_index];
        let rest = blocks.skip(block_index + 1).flatten();
        if 0 <= entry_index <= block.len() {
            block.skip(entry_index) + rest
        } else {
            rest
        }
    } else {
        Seq::empty()
    }
}

/// A walk that stands at an entry gives that entry next.
proof fn lemma_remaining_take(blocks: Seq<Seq<EntryModel>>, block_index: int, entry_index: int)
    requires
        0 <= block_index < blocks.len(),
        0 <= entry_index < blocks[block_index].len(),
    ensures
        remaining_from(blocks, block_index, entry_index).len() > 0,
        remaining_from(blocks, block_index, entry_index).first()
            == blocks[block_index][entry_index],
        remaining_from(blocks, block_index, entry_index).drop_first() == remaining_from(
            blocks,
            block_index,
            entry_index + 1,
        ),
{
    let block = blocks[block_index];
    let rest = blocks.skip(block_index + 1).flatten();
    assert((block.skip(entry_index) + rest).drop_first() =~= block.skip(entry_index + 1) + rest);
}

/// A walk that stands behind the last entry of a block goes on at the start
/// of the next block.
proof fn lemma_remaining_next_block(
    blocks: Seq<Seq<EntryModel>>,
    block_index: int,
    entry_index: int,
)
    requires
        0 <= block_index < blocks.len(),
        entry_index >= blocks[block_index].len(),
    ensures
        remaining_from(blocks, block_index, entry_index) == remaining_from(
            blocks,
            block_index + 1,
            0,
        ),
{
    let block = blocks[block_index];
    let after = blocks.skip(block_index + 1);
    if entry_index == block.len() {
        assert(block.skip(entry_index) + after.flatten() =~= after.flatten());
    }
    if after.len() > 0 {
        assert(after.drop_first() =~= blocks.skip(block_index + 2));
        assert(after.first().skip(0) =~= after.first());
    }
}

impl<'a> SSTableIterator<'a> {
    /// The bytes of the table that the iterator walks through.
    pub closed spec fn source(&self) -> Seq<u8> {
        self.table.bytes()
    }

    /// The entries that the iterator has yet to give.
    pub closed spec fn remaining(&self) -> Seq<EntryModel> {
        remaining_from(self.table.blocks(), self.block_index as int, self.entry_index as int)
    }

    /// The next entry of the table, if one is left.
    pub fn next(&mut self) -> (r: Option<TableResult<'a>>)
        ensures
            final(self).source() == old(self).source(),
            match r {
                Some(entry) => old(self).remaining().len() > 0 && entry@ == old(
                    self,
                ).remaining().first() && final(self).remaining() == old(
                    self,
                ).remaining().drop_first(),
                None => old(self).remaining().len() == 0 && final(self).remaining().len() == 0,
            },
    {
        let table = self.table;
        proof {
            use_type_invariant(table);
        }
        let ghost blocks = table.blocks();
        loop
            invariant
                self.table == table,
                old(self).table == table,
                blocks == table.blocks(),
                table.data_blocks@.len() == blocks.len(),
                forall|i: int|
                    0 <= i < table.data_blocks@.len() ==> {
                        &&& (#[trigger] table.data_blocks@[i]).inside(table.data@.len())
                        &&& table.data_blocks@[i].entries(table.data@) == blocks[i]
                    },
                self.remaining() == old(self).remaining(),
            decreases blocks.len() - self.block_index,
        {
            if self.block_index >= table.data_blocks.len() {
                return None;
            }
            let block = &table.data_blocks[self.block_index];
            if self.entry_index < block.len() {
                let entry = block.blocks[self.entry_index].get(table.data.as_slice());
                proof {
                    lemma_remaining_take(
                        blocks,
                        self.block_index as int,
                        self.entry_index as int,
                    );
                }
                self.entry_index = self.entry_index + 1;
                return Some(entry);
            }
            proof {
                lemma_remaining_next_block(
                    blocks,
                    self.block_index as int,
                    self.entry_index as int,
                );
            }
            self.block_index = self.block_index + 1;
            self.entry_index = 0;
        }
    }
}

} // verus!
