//! The fixed-size block that a table is made of.
use crate::persists::sst::block_entry::BlockEntry;
use vstd::prelude::*;

verus! {

/// Every block of a table has this many bytes.
pub const BLOCK_SIZE: usize = 4096;

/// The bytes of a length field in front of a key or a value.
pub const HEADER_SIZE: usize = 4;

/// The bytes of a sequence number behind a value.
pub const SEQ_SIZE: usize = 8;

/// An encoded entry is larger than the room it was meant for.
#[derive(Debug, Clone, Copy, PartialEq, Eq)]
pub struct BlockSizeExceededError;

/// Why a table could not be read or written.
#[derive(Debug, Clone, Copy, PartialEq, Eq)]
pub enum SstError {
    /// The bytes are no table: the trailer is missing, or it puts the end of
    /// the blocks behind the place where it stands itself.
    SstCorruption,
    /// An encoded entry is larger than a block.
    CapacityExceeded,
    /// The blocks take more bytes than the trailer's four-byte offset can name.
    TableTooLarge,
}

/// `n` zero bytes.
pub open spec fn zeros(n: nat) -> Seq<u8> {
    Seq::new(n, |i: int| 0u8)
}

/// `content` filled up with zero bytes to the size of a block. Content that
/// has the size of a block already stays as it is.
pub open spec fn pad_block(content: Seq<u8>) -> Seq<u8> {
    if content.len() < BLOCK_SIZE {
        content + zeros((BLOCK_SIZE - content.len()) as nat)
    } else {
        content
    }
}

/// A block under construction: the encoded entries appended so far, never
/// more than `BLOCK_SIZE` bytes of them.
pub struct SSTableBlock {
    entry_buf: Vec<u8>,
}

impl View for SSTableBlock {
    type V = Seq<u8>;

    /// The encoded entries that the block holds.
    closed spec fn view(&self) -> Seq<u8> {
        self.entry_buf@
    }
}

impl SSTableBlock {
    /// A block never holds more than `BLOCK_SIZE` bytes.
    #[verifier::type_invariant]
    spec fn within_block_size(self) -> bool {
        self.entry_buf@.len() <= BLOCK_SIZE
    }

    /// An empty block.
    pub fn new() -> (b: Self)
        ensures
            b@ == Seq::<u8>::empty(),
    {
        Self { entry_buf: Vec::new() }
    }

    /// Appends the bytes of `block_entry` if they fit into what is left of the
    /// block, and leaves the block as it is if they do not.
    pub fn append_block(&mut self, block_entry: BlockEntry) -> (r: Result<
        (),
        BlockSizeExceededError,
    >)
        ensures
            old(self)@.len() <= BLOCK_SIZE,
            r is Ok <==> block_entry@.len() <= BLOCK_SIZE - old(self)@.len(),
            r is Ok ==> final(self)@ == old(self)@ + block_entry@,
            r is Err ==> final(self)@ == old(self)@,
    {
        proof {
            use_type_invariant(&*self);
        }
        let mut block_entry = block_entry;
        if !block_entry.can_fit(self) {
            return Err(BlockSizeExceededError);
        }
        let mut block = Self::new();
        core::mem::swap(self, &mut block);
        let mut entry_buf = block.entry_buf;
        entry_buf.append(block_entry.get_entry_buffer());
        *self = Self { entry_buf };
        Ok(())
    }

    /// The bytes that are left in the block.
    pub fn capacity(&self) -> (n: usize)
        ensures
            n == BLOCK_SIZE - self@.len(),
    {
        proof {
            use_type_invariant(self);
        }
        BLOCK_SIZE - self.entry_buf.len()
    }

    /// The block as it is written: its entries, then zero bytes up to
    /// `BLOCK_SIZE`.
    pub fn finalize(self) -> (bytes: Vec<u8>)
        ensures
            self@.len() <= BLOCK_SIZE,
            bytes@ == pad_block(self@),
            bytes@.len() == BLOCK_SIZE,
    {
        proof {
            use_type_invariant(&self);
        }
        let mut entry_buf = self.entry_buf;
        if entry_buf.len() < BLOCK_SIZE {
            entry_buf.resize(BLOCK_SIZE, 0);
        }
        assert(entry_buf@ =~= pad_block(self@));
        entry_buf
    }

    /// Whether the block holds no entry yet.
    pub fn is_empty(&self) -> (r: bool)
        ensures
            r == (self@.len() == 0),
    {
        self.entry_buf.is_empty()
    }
}

impl Default for SSTableBlock {
    fn default() -> (b: Self)
        ensures
            b@ == Seq::<u8>::empty(),
    {
        Self::new()
    }
}

} // verus!
