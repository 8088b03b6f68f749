//! One entry in the byte layout of a block.
use crate::persists::bytes::{
    lemma_u32_from_le_bound, lemma_u32_le_round_trip, lemma_u64_le_round_trip, read_u32_le,
    u32_from_le, u32_to_le, u64_to_le, write_u32_le, write_u64_le,
};
use crate::persists::sst::sst_table_block::{
    BlockSizeExceededError, SSTableBlock, BLOCK_SIZE, HEADER_SIZE, SEQ_SIZE,
};
use vstd::prelude::*;

verus! {

/// What stands in the field for the value's length where the entry marks a
/// deletion: a length of zero with the highest bit set. No value is that
/// long, so the mark cannot be taken for a length.
pub const TOMBSTONE_MARK: u32 = 0x8000_0000;

/// What stands in the field for the value's length.
pub open spec fn value_field(value: Option<Seq<u8>>) -> u32 {
    match value {
        Some(bytes) => bytes.len() as u32,
        None => TOMBSTONE_MARK,
    }
}

/// The bytes that an entry holds as its value: none where it marks a
/// deletion.
pub open spec fn value_bytes(value: Option<Seq<u8>>) -> Seq<u8> {
    match value {
        Some(bytes) => bytes,
        None => Seq::empty(),
    }
}

/// The bytes of an entry: the key's length in four bytes, the key, the
/// value's length in four bytes, the value, and the sequence number in eight
/// bytes, each number least significant byte first. An entry that marks a
/// deletion has `TOMBSTONE_MARK` for the value's length, and no value.
pub open spec fn encode_entry(key: Seq<u8>, value: Option<Seq<u8>>, seq: u64) -> Seq<u8> {
    u32_to_le(key.len() as u32) + key + u32_to_le(value_field(value)) + value_bytes(value)
        + u64_to_le(seq)
}

/// The number of bytes that an entry with this key and value takes in a block.
pub open spec fn entry_size(key: Seq<u8>, value: Option<Seq<u8>>) -> int {
    2 * HEADER_SIZE + key.len() + value_bytes(value).len() + SEQ_SIZE
}

/// An encoded entry has the size that `entry_size` gives.
pub proof fn lemma_encode_entry_len(key: Seq<u8>, value: Option<Seq<u8>>, seq: u64)
    ensures
        encode_entry(key, value, seq).len() == entry_size(key, value),
{
    lemma_u32_le_round_trip(key.len() as u32);
    lemma_u32_le_round_trip(value_field(value));
    lemma_u64_le_round_trip(seq);
}

/// An entry encoded for a block.
pub struct BlockEntry {
    buffer: Vec<u8>,
}

impl View for BlockEntry {
    type V = Seq<u8>;

    /// The encoded bytes.
    closed spec fn view(&self) -> Seq<u8> {
        self.buffer@
    }
}

impl BlockEntry {
    /// The buffer holds one whole entry: both length fields, and as many bytes
    /// as they announce.
    pub open spec fn wf(&self) -> bool {
        &&& self@.len() >= 2 * HEADER_SIZE + SEQ_SIZE
        &&& self@.len() == 2 * HEADER_SIZE + SEQ_SIZE + self.key_len() + self.value_len()
    }

    /// The length that the first field announces.
    pub open spec fn key_len(&self) -> int {
        u32_from_le(self@.subrange(0, 4))
    }

    /// What stands in the second field.
    pub open spec fn raw_value_len(&self) -> int {
        u32_from_le(self@.subrange(4 + self.key_len(), 8 + self.key_len()))
    }

    /// The number of bytes of the value.
    pub open spec fn value_len(&self) -> int {
        if self.raw_value_len() == TOMBSTONE_MARK {
            0
        } else {
            self.raw_value_len()
        }
    }

    /// The key of a well-formed entry.
    pub open spec fn spec_key(&self) -> Seq<u8> {
        self@.subrange(4, 4 + self.key_len())
    }

    /// The value of a well-formed entry, and nothing where it marks a
    /// deletion.
    pub open spec fn spec_value(&self) -> Option<Seq<u8>> {
        if self.raw_value_len() == TOMBSTONE_MARK {
            None
        } else {
            Some(self@.subrange(8 + self.key_len(), 8 + self.key_len() + self.value_len()))
        }
    }

    /// Encodes an entry, with a value or as the mark of a deletion.
    fn encode(key: &[u8], value: Option<&[u8]>, seq_number: u64) -> (r: Result<
        Self,
        BlockSizeExceededError,
    >)
        ensures
            r is Ok <==> entry_size(
                key@,
                match value {
                    Some(bytes) => Some(bytes@),
                    None => None,
                },
            ) <= BLOCK_SIZE,
            r matches Ok(e) ==> {
                let model = match value {
                    Some(bytes) => Some(bytes@),
                    None => None,
                };
                &&& e@ == encode_entry(key@, model, seq_number)
                &&& e.wf()
                &&& e.spec_key() == key@
                &&& e.spec_value() == model
            },
    {
        let value_length: usize = match value {
            Some(bytes) => bytes.len(),
            None => 0,
        };
        if key.len() > BLOCK_SIZE || value_length > BLOCK_SIZE || key.len() + value_length
            > BLOCK_SIZE - 2 * HEADER_SIZE - SEQ_SIZE {
            return Err(BlockSizeExceededError);
        }
        let key_len: u32 = key.len() as u32;
        let value_len: u32 = match value {
            Some(bytes) => bytes.len() as u32,
            None => TOMBSTONE_MARK,
        };
        let mut buffer: Vec<u8> = Vec::with_capacity(
            2 * HEADER_SIZE + key.len() + value_length + SEQ_SIZE,
        );
        write_u32_le(&mut buffer, key_len);
        buffer.extend_from_slice(key);
        assert(buffer@ =~= u32_to_le(key_len) + key@);
        write_u32_le(&mut buffer, value_len);
        if let Some(bytes) = value {
            buffer.extend_from_slice(bytes);
        }
        let ghost model = match value {
            Some(bytes) => Some(bytes@),
            None => None,
        };
        assert(buffer@ =~= u32_to_le(key_len) + key@ + u32_to_le(value_len) + value_bytes(model));
        write_u64_le(&mut buffer, seq_number);
        let e = BlockEntry { buffer };
        proof {
            lemma_u32_le_round_trip(key_len);
            lemma_u32_le_round_trip(value_len);
            lemma_u64_le_round_trip(seq_number);
            assert(e@.subrange(0, 4) =~= u32_to_le(key_len));
            assert(e@.subrange(4 + key_len, 8 + key_len) =~= u32_to_le(value_len));
            assert(e.spec_key() =~= key@);
            if let Some(bytes) = value {
                assert(e.spec_value()->0 =~= bytes@);
            }
        }
        Ok(e)
    }

    /// Encodes an entry that holds `value` under `key`. An entry that no
    /// block can hold is refused.
    pub fn from_parts(key: &[u8], value: &[u8], seq_number: &u64) -> (r: Result<
        Self,
        BlockSizeExceededError,
    >)
        ensures
            r is Ok <==> entry_size(key@, Some(value@)) <= BLOCK_SIZE,
            r matches Ok(e) ==> {
                &&& e@ == encode_entry(key@, Some(value@), *seq_number)
                &&& e.wf()
                &&& e.spec_key() == key@
                &&& e.spec_value() == Some(value@)
            },
    {
        Self::encode(key, Some(value), *seq_number)
    }

    /// Encodes an entry that marks `key` as deleted. An entry that no block
    /// can hold is refused.
    pub fn tombstone(key: &[u8], seq_number: &u64) -> (r: Result<Self, BlockSizeExceededError>)
        ensures
            r is Ok <==> entry_size(key@, None) <= BLOCK_SIZE,
            r matches Ok(e) ==> {
                &&& e@ == encode_entry(key@, None, *seq_number)
                &&& e.wf()
                &&& e.spec_key() == key@
                &&& e.spec_value() is None
            },
    {
        Self::encode(key, None, *seq_number)
    }

    /// The key of the entry.
    pub fn key(&self) -> (k: &[u8])
        requires
            self.wf(),
        ensures
            k@ == self.spec_key(),
    {
        proof {
            lemma_u32_from_le_bound(self@.subrange(4 + self.key_len(), 8 + self.key_len()));
            assert(self@.len() == self.buffer.len());
        }
        let key_len: usize = read_u32_le(&self.buffer[0..4]) as usize;
        &self.buffer[4..4 + key_len]
    }

    /// Whether the entry marks a deletion.
    pub fn is_tombstone(&self) -> (r: bool)
        requires
            self.wf(),
        ensures
            r == self.spec_value() is None,
    {
        proof {
            lemma_u32_from_le_bound(self@.subrange(4 + self.key_len(), 8 + self.key_len()));
            assert(self@.len() == self.buffer.len());
        }
        let key_len: usize = read_u32_le(&self.buffer[0..4]) as usize;
        let value_len_offset: usize = 4 + key_len;
        read_u32_le(&self.buffer[value_len_offset..value_len_offset + 4]) == TOMBSTONE_MARK
    }

    /// The bytes of the value. An entry that marks a deletion has none.
    pub fn value(&self) -> (v: &[u8])
        requires
            self.wf(),
        ensures
            v@ == value_bytes(self.spec_value()),
    {
        proof {
            lemma_u32_from_le_bound(self@.subrange(4 + self.key_len(), 8 + self.key_len()));
            assert(self@.len() == self.buffer.len());
        }
        let key_len: usize = read_u32_le(&self.buffer[0..4]) as usize;
        let value_len_offset: usize = 4 + key_len;
        let raw: u32 = read_u32_le(&self.buffer[value_len_offset..value_len_offset + 4]);
        let value_len: usize = if raw == TOMBSTONE_MARK {
            0
        } else {
            raw as usize
        };
        &self.buffer[value_len_offset + 4..value_len_offset + 4 + value_len]
    }

    /// Whether the entry fits into what is left of `current_block`.
    pub fn can_fit(&self, current_block: &SSTableBlock) -> (r: bool)
        ensures
            r == (self@.len() <= BLOCK_SIZE - current_block@.len()),
    {
        self.buffer.len() <= current_block.capacity()
    }

    /// The encoded bytes, open to change. An entry whose bytes were changed
    /// need not be well formed any more.
    pub fn get_entry_buffer(&mut self) -> (buffer: &mut Vec<u8>)
        ensures
            buffer@ == old(self)@,
            final(self)@ == final(buffer)@,
    {
        &mut self.buffer
    }
}

} // verus!
