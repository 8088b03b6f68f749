//! Reading all entries of a table file at once.
use crate::persists::bytes::to_owned_bytes;
use crate::persists::sst::sorted_string_table::{parse_block, DataBlock};
use crate::persists::sst::sst_table_block::BLOCK_SIZE;
use crate::persists::sst::table_result::EntryModel;
use vstd::arithmetic::div_mod::{
    lemma_div_is_ordered, lemma_div_multiples_vanish, lemma_fundamental_div_mod,
};
use vstd::prelude::*;

verus! {

/// The entries of the whole blocks of `buffer`, block by block. Bytes behind
/// the last whole block, such as a trailer, are not read.
pub open spec fn whole_blocks(buffer: Seq<u8>) -> Seq<Seq<EntryModel>> {
    Seq::new(
        (buffer.len() / (BLOCK_SIZE as nat)) as nat,
        |i: int| parse_block(buffer, i * BLOCK_SIZE, (i + 1) * BLOCK_SIZE),
    )
}

/// The keys and values of `entries`, with nothing for the value of an entry
/// that marks a deletion.
pub open spec fn key_value_pairs(entries: Seq<EntryModel>) -> Seq<(Seq<u8>, Option<Seq<u8>>)> {
    entries.map_values(|e: EntryModel| (e.key, e.value))
}

/// The plain value of a key with its value.
pub open spec fn pair_model(pair: (Vec<u8>, Option<Vec<u8>>)) -> (Seq<u8>, Option<Seq<u8>>) {
    (
        pair.0@,
        match pair.1 {
            Some(value) => Some(value@),
            None => None,
        },
    )
}

/// The plain values of keys with their values.
pub open spec fn pairs_model(pairs: Seq<(Vec<u8>, Option<Vec<u8>>)>) -> Seq<
    (Seq<u8>, Option<Seq<u8>>),
> {
    pairs.map_values(|pair: (Vec<u8>, Option<Vec<u8>>)| pair_model(pair))
}

/// A reader that goes through a table file from its first block to its last.
pub struct SSTableReader {}

impl SSTableReader {
    /// The keys and values of all entries in the whole blocks of `buffer`, in
    /// the order of the file.
    pub fn file_into_iterator(buffer: &[u8]) -> (pairs: Vec<(Vec<u8>, Option<Vec<u8>>)>)
        ensures
            pairs_model(pairs@) == key_value_pairs(whole_blocks(buffer@).flatten()),
    {
        let ghost blocks = whole_blocks(buffer@);
        let mut pairs: Vec<(Vec<u8>, Option<Vec<u8>>)> = Vec::new();
        let mut cursor: usize = 0;
        let ghost mut index: int = 0;
        assert(blocks.take(0) =~= Seq::<Seq<EntryModel>>::empty());
        while buffer.len() - cursor >= BLOCK_SIZE
            invariant
                cursor <= buffer@.len(),
                cursor == index * BLOCK_SIZE,
                0 <= index <= blocks.len(),
                blocks == whole_blocks(buffer@),
                pairs_model(pairs@) == key_value_pairs(blocks.take(index).flatten()),
            decreases buffer@.len() - cursor,
        {
            let block = DataBlock::from_buffer(buffer, cursor, cursor + BLOCK_SIZE);
            let ghost before = pairs_model(pairs@);
            let ghost entries = block.entries(buffer@);
            assert(index < blocks.len()) by {
                assert((index + 1) * BLOCK_SIZE <= buffer@.len());
                lemma_div_is_ordered(
                    (index + 1) * BLOCK_SIZE,
                    buffer@.len() as int,
                    BLOCK_SIZE as int,
                );
                lemma_div_multiples_vanish(index + 1, BLOCK_SIZE as int);
            }
            assert(entries == blocks[index]);
            let mut it = block.iter(buffer);
            let ghost mut taken: int = 0;
            loop
                invariant
                    0 <= taken <= entries.len(),
                    it.remaining() == entries.skip(taken),
                    pairs_model(pairs@) == before
                        + key_value_pairs(entries.take(taken)),
                ensures
                    pairs_model(pairs@) == before
                        + key_value_pairs(entries),
                decreases entries.len() - taken,
            {
                let ghost so_far = pairs_model(pairs@);
                match it.next() {
                    Some(entry) => {
                        let value: Option<Vec<u8>> = if entry.tombstone {
                            None
                        } else {
                            Some(to_owned_bytes(entry.value))
                        };
                        pairs.push((to_owned_bytes(entry.key), value));
                        proof {
                            assert(entries.skip(taken).drop_first() =~= entries.skip(taken + 1));
                            assert(entries.take(taken + 1) =~= entries.take(taken).push(
                                entries[taken],
                            ));
                            assert(pairs_model(pairs@) =~= so_far.push((entry@.key, entry@.value)));
                            assert(before + key_value_pairs(entries.take(taken + 1)) =~= (before
                                + key_value_pairs(entries.take(taken))).push(
                                (entries[taken].key, entries[taken].value),
                            ));
                            taken = taken + 1;
                        }
                    },
                    None => {
                        assert(entries.take(taken) =~= entries);
                        break ;
                    },
                }
            }
            proof {
                assert(blocks.take(index + 1) =~= blocks.take(index).push(blocks[index]));
                blocks.take(index).lemma_flatten_push(blocks[index]);
                let flat = blocks.take(index).flatten();
                assert(key_value_pairs(flat + entries) =~= key_value_pairs(flat) + key_value_pairs(
                    entries,
                ));
                index = index + 1;
            }
            cursor = cursor + BLOCK_SIZE;
        }
        proof {
            assert(index == blocks.len()) by {
                if index < blocks.len() {
                    lemma_fundamental_div_mod(
                        buffer@.len() as int,
                        BLOCK_SIZE as int,
                    );
                    assert((index + 1) * BLOCK_SIZE <= (buffer@.len() as int / BLOCK_SIZE as int)
                        * BLOCK_SIZE) by (nonlinear_arith)
                        requires
                            index + 1 <= buffer@.len() as int / BLOCK_SIZE as int,
                    ;
                }
            }
            assert(blocks.take(index) =~= blocks);
        }
        pairs
    }
}

} // verus!
