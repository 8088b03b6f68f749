//! What is written as a table is read back as the same entries.
use crate::persists::bytes::{
    lemma_u32_le_round_trip, lemma_u64_le_round_trip, u32_to_le, u64_to_le,
};
use crate::persists::sst::block_entry::{
    encode_entry, entry_size, lemma_encode_entry_len, value_bytes, value_field,
};
use crate::persists::bytes::{lemma_lex_lt_total, lex_lt};
use crate::persists::sst::sorted_string_table::{
    block_count, block_end, find_key, first_key_of, last_key_of, lemma_find_key, parse_block,
    parse_entry, sst_blocks, sst_entries, sst_lookup, sst_valid, strictly_sorted, trailer_offset,
    trailer_version, TRAILER_SIZE,
};
use crate::persists::sst::sst_writer::{
    append_all, append_model, empty_writer, finalize_model, sst_image, trailer, WriterModel,
    FORMAT_VERSION, MAX_REGION_SIZE,
};
use crate::persists::sst::sorted_string_table::lemma_parse_entry_advances;
use crate::persists::sst::sst_table_block::{pad_block, SstError, BLOCK_SIZE, HEADER_SIZE};
use crate::persists::sst::table_result::EntryModel;
use vstd::prelude::*;

verus! {

/// An entry that a block can hold and a reader can find again: its key is not
/// empty, and its encoding is no larger than a block.
pub open spec fn entry_fits(e: EntryModel) -> bool {
    &&& e.key.len() >= 1
    &&& entry_size(e.key, e.value) <= BLOCK_SIZE
}

/// Every entry of `entries` fits.
pub open spec fn all_fit(entries: Seq<EntryModel>) -> bool {
    forall|i: int| 0 <= i < entries.len() ==> entry_fits(#[trigger] entries[i])
}

/// The encodings of `entries`, one behind the other.
pub open spec fn encode_all(entries: Seq<EntryModel>) -> Seq<u8>
    decreases entries.len(),
{
    if entries.len() == 0 {
        Seq::empty()
    } else {
        encode_entry(entries[0].key, entries[0].value, entries[0].seq) + encode_all(
            entries.drop_first(),
        )
    }
}

/// Encoding one more entry adds its encoding at the end.
pub proof fn lemma_encode_all_push(entries: Seq<EntryModel>, e: EntryModel)
    ensures
        encode_all(entries.push(e)) == encode_all(entries) + encode_entry(e.key, e.value, e.seq),
    decreases entries.len(),
{
    if entries.len() == 0 {
        assert(entries.push(e).drop_first() =~= Seq::<EntryModel>::empty());
        assert(encode_all(Seq::<EntryModel>::empty()) =~= Seq::<u8>::empty());
        assert(encode_all(entries.push(e)) =~= encode_all(entries) + encode_entry(
            e.key,
            e.value,
            e.seq,
        ));
    } else {
        assert(entries.push(e).drop_first() =~= entries.drop_first().push(e));
        lemma_encode_all_push(entries.drop_first(), e);
        assert(encode_all(entries.push(e)) =~= encode_all(entries) + encode_entry(
            e.key,
            e.value,
            e.seq,
        ));
    }
}

/// Where `data` holds the encoding of an entry that fits, inside a block,
/// that entry is parsed there.
pub proof fn lemma_parse_encoded_entry(data: Seq<u8>, off: int, end: int, e: EntryModel)
    requires
        entry_fits(e),
        0 <= off,
        off + entry_size(e.key, e.value) <= end <= data.len(),
        data.subrange(off, off + entry_size(e.key, e.value)) == encode_entry(
            e.key,
            e.value,
            e.seq,
        ),
    ensures
        parse_entry(data, off, end) == Some((e, off + entry_size(e.key, e.value))),
{
    let enc = encode_entry(e.key, e.value, e.seq);
    let size = entry_size(e.key, e.value);
    let key_len = e.key.len() as int;
    let value_len = value_bytes(e.value).len() as int;
    lemma_encode_entry_len(e.key, e.value, e.seq);
    lemma_u32_le_round_trip(key_len as u32);
    lemma_u32_le_round_trip(value_field(e.value));
    lemma_u64_le_round_trip(e.seq);
    let piece = data.subrange(off, off + size);
    assert(data.subrange(off, off + 4) =~= piece.subrange(0, 4));
    assert(enc.subrange(0, 4) =~= u32_to_le(key_len as u32));
    assert(data.subrange(off + 4, off + 4 + key_len) =~= piece.subrange(4, 4 + key_len));
    assert(enc.subrange(4, 4 + key_len) =~= e.key);
    assert(data.subrange(off + 4 + key_len, off + 8 + key_len) =~= piece.subrange(
        4 + key_len,
        8 + key_len,
    ));
    assert(enc.subrange(4 + key_len, 8 + key_len) =~= u32_to_le(value_field(e.value)));
    assert(data.subrange(off + 8 + key_len, off + 8 + key_len + value_len) =~= piece.subrange(
        8 + key_len,
        8 + key_len + value_len,
    ));
    assert(enc.subrange(8 + key_len, 8 + key_len + value_len) =~= value_bytes(e.value));
    assert(data.subrange(off + 8 + key_len + value_len, off + 16 + key_len + value_len)
        =~= piece.subrange(8 + key_len + value_len, 16 + key_len + value_len));
    assert(enc.subrange(8 + key_len + value_len, 16 + key_len + value_len) =~= u64_to_le(e.seq));
}

/// Where a block holds nothing but zero bytes from `off` on, no entry is
/// parsed there.
pub proof fn lemma_parse_padding(data: Seq<u8>, off: int, end: int)
    requires
        0 <= off <= end <= data.len(),
        forall|i: int| off <= i < end ==> data[i] == 0,
    ensures
        parse_block(data, off, end) == Seq::<EntryModel>::empty(),
{
    if off + HEADER_SIZE <= end {
        let field = data.subrange(off, off + HEADER_SIZE);
        assert(field[0] == 0 && field[1] == 0 && field[2] == 0 && field[3] == 0);
    }
}

/// Where a block holds the encodings of entries that fit, one behind the
/// other from `off` on, they are parsed there in their order, and parsing goes
/// on behind them.
pub proof fn lemma_parse_encoded_entries(
    data: Seq<u8>,
    off: int,
    end: int,
    entries: Seq<EntryModel>,
)
    requires
        all_fit(entries),
        0 <= off,
        off + encode_all(entries).len() <= end <= data.len(),
        data.subrange(off, off + encode_all(entries).len()) == encode_all(entries),
    ensures
        parse_block(data, off, end) == entries + parse_block(
            data,
            off + encode_all(entries).len(),
            end,
        ),
    decreases entries.len(),
{
    if entries.len() == 0 {
        assert(entries + parse_block(data, off, end) =~= parse_block(data, off, end));
    } else {
        let e = entries[0];
        let rest = entries.drop_first();
        let enc = encode_entry(e.key, e.value, e.seq);
        let size = entry_size(e.key, e.value);
        let total = encode_all(entries).len() as int;
        lemma_encode_entry_len(e.key, e.value, e.seq);
        assert(entry_fits(e));
        let piece = data.subrange(off, off + total);
        assert(data.subrange(off, off + size) =~= piece.subrange(0, size));
        assert(piece.subrange(0, size) =~= enc);
        lemma_parse_encoded_entry(data, off, end, e);
        assert(data.subrange(off + size, off + total) =~= piece.subrange(size, total));
        assert(piece.subrange(size, total) =~= encode_all(rest));
        assert(all_fit(rest)) by {
            assert forall|i: int| 0 <= i < rest.len() implies entry_fits(#[trigger] rest[i]) by {
                assert(rest[i] == entries[i + 1]);
            }
        }
        lemma_parse_encoded_entries(data, off + size, end, rest);
        assert(seq![e] + (rest + parse_block(data, off + total, end)) =~= entries + parse_block(
            data,
            off + total,
            end,
        ));
    }
}

/// A block that holds the encodings of entries that fit, and zero bytes
/// behind them, is parsed as these entries.
pub proof fn lemma_parse_padded_block(data: Seq<u8>, start: int, entries: Seq<EntryModel>)
    requires
        all_fit(entries),
        0 <= start,
        start + BLOCK_SIZE <= data.len(),
        encode_all(entries).len() <= BLOCK_SIZE,
        data.subrange(start, start + BLOCK_SIZE) == pad_block(encode_all(entries)),
    ensures
        parse_block(data, start, start + BLOCK_SIZE) == entries,
{
    let content = encode_all(entries);
    let block = data.subrange(start, start + BLOCK_SIZE);
    let used = content.len() as int;
    assert(data.subrange(start, start + used) =~= block.subrange(0, used));
    assert(block.subrange(0, used) =~= content);
    lemma_parse_encoded_entries(data, start, start + BLOCK_SIZE, entries);
    assert forall|i: int| start + used <= i < start + BLOCK_SIZE implies data[i] == 0 by {
        assert(data[i] == block[i - start]);
    }
    lemma_parse_padding(data, start + used, start + BLOCK_SIZE);
    assert(entries + Seq::<EntryModel>::empty() =~= entries);
}

/// The blocks that a writer has completed after `entries`, and the entries of
/// the block that it is filling, each block as the entries it holds.
pub open spec fn pack(entries: Seq<EntryModel>) -> (Seq<Seq<EntryModel>>, Seq<EntryModel>)
    decreases entries.len(),
{
    if entries.len() == 0 {
        (Seq::empty(), Seq::empty())
    } else {
        let before = pack(entries.drop_last());
        let e = entries.last();
        if entry_size(e.key, e.value) <= BLOCK_SIZE - encode_all(before.1).len() {
            (before.0, before.1.push(e))
        } else {
            (before.0.push(before.1), seq![e])
        }
    }
}

/// All blocks of the table that a writer leaves after `entries`.
pub open spec fn packed_blocks(entries: Seq<EntryModel>) -> Seq<Seq<EntryModel>> {
    pack(entries).0.push(pack(entries).1)
}

/// The bytes of complete blocks, each block given as the entries it holds.
pub open spec fn blocks_bytes(blocks: Seq<Seq<EntryModel>>) -> Seq<u8>
    decreases blocks.len(),
{
    if blocks.len() == 0 {
        Seq::empty()
    } else {
        blocks_bytes(blocks.drop_last()) + pad_block(encode_all(blocks.last()))
    }
}

/// Every block of `blocks` holds entries that fit, and no more of them than a
/// block has room for.
pub open spec fn blocks_fit(blocks: Seq<Seq<EntryModel>>) -> bool {
    forall|i: int|
        0 <= i < blocks.len() ==> all_fit(#[trigger] blocks[i]) && encode_all(blocks[i]).len()
            <= BLOCK_SIZE
}

/// Complete blocks lie one behind the other, each `BLOCK_SIZE` bytes long.
pub proof fn lemma_blocks_bytes_layout(blocks: Seq<Seq<EntryModel>>)
    requires
        blocks_fit(blocks),
    ensures
        blocks_bytes(blocks).len() == blocks.len() * BLOCK_SIZE,
        forall|i: int|
            0 <= i < blocks.len() ==> #[trigger] blocks_bytes(blocks).subrange(
                i * BLOCK_SIZE,
                (i + 1) * BLOCK_SIZE,
            ) == pad_block(encode_all(blocks[i])),
    decreases blocks.len(),
{
    if blocks.len() > 0 {
        let front = blocks.drop_last();
        let last = pad_block(encode_all(blocks.last()));
        assert(blocks_fit(front)) by {
            assert forall|i: int| 0 <= i < front.len() implies all_fit(#[trigger] front[i])
                && encode_all(front[i]).len() <= BLOCK_SIZE by {
                assert(front[i] == blocks[i]);
            }
        }
        lemma_blocks_bytes_layout(front);
        assert(all_fit(blocks[blocks.len() - 1]));
        assert(last.len() == BLOCK_SIZE);
        let bytes = blocks_bytes(blocks);
        assert forall|i: int| 0 <= i < blocks.len() implies #[trigger] bytes.subrange(
            i * BLOCK_SIZE,
            (i + 1) * BLOCK_SIZE,
        ) == pad_block(encode_all(blocks[i])) by {
            if i < front.len() {
                assert(front[i] == blocks[i]);
                assert(bytes.subrange(i * BLOCK_SIZE, (i + 1) * BLOCK_SIZE) =~= blocks_bytes(
                    front,
                ).subrange(i * BLOCK_SIZE, (i + 1) * BLOCK_SIZE));
            } else {
                assert(bytes.subrange(i * BLOCK_SIZE, (i + 1) * BLOCK_SIZE) =~= last);
            }
        }
    }
}

/// The entries that a writer has taken are those of its complete blocks,
/// then those of the block it is filling. Every block holds at least one
/// entry, and all of its entries fit.
pub proof fn lemma_pack_holds_entries(entries: Seq<EntryModel>)
    requires
        all_fit(entries),
    ensures
        pack(entries).0.flatten() + pack(entries).1 == entries,
        blocks_fit(pack(entries).0),
        all_fit(pack(entries).1),
        encode_all(pack(entries).1).len() <= BLOCK_SIZE,
        forall|i: int| 0 <= i < pack(entries).0.len() ==> (#[trigger] pack(entries).0[i]).len() > 0,
        entries.len() > 0 ==> pack(entries).1.len() > 0,
    decreases entries.len(),
{
    if entries.len() == 0 {
        assert(pack(entries).0.flatten() + pack(entries).1 =~= entries);
    } else {
        let front = entries.drop_last();
        let e = entries.last();
        assert(all_fit(front)) by {
            assert forall|i: int| 0 <= i < front.len() implies entry_fits(#[trigger] front[i]) by {
                assert(front[i] == entries[i]);
            }
        }
        lemma_pack_holds_entries(front);
        let before = pack(front);
        let after = pack(entries);
        assert(entry_fits(entries[entries.len() - 1]));
        lemma_encode_entry_len(e.key, e.value, e.seq);
        assert(entries =~= front.push(e));
        if entry_size(e.key, e.value) <= BLOCK_SIZE - encode_all(before.1).len() {
            lemma_encode_all_push(before.1, e);
            assert(after.0.flatten() + after.1 =~= (before.0.flatten() + before.1).push(e));
            assert(all_fit(after.1)) by {
                assert forall|i: int| 0 <= i < after.1.len() implies entry_fits(
                    #[trigger] after.1[i],
                ) by {
                    if i < before.1.len() {
                        assert(after.1[i] == before.1[i]);
                    }
                }
            }
        } else {
            before.0.lemma_flatten_push(before.1);
            assert(after.0.flatten() + after.1 =~= (before.0.flatten() + before.1).push(e));
            lemma_encode_all_push(Seq::<EntryModel>::empty(), e);
            assert(encode_all(Seq::<EntryModel>::empty()) =~= Seq::<u8>::empty());
            assert(Seq::<EntryModel>::empty().push(e) =~= seq![e]);
            assert(blocks_fit(after.0)) by {
                assert forall|i: int| 0 <= i < after.0.len() implies all_fit(
                    #[trigger] after.0[i],
                ) && encode_all(after.0[i]).len() <= BLOCK_SIZE by {
                    if i < before.0.len() {
                        assert(after.0[i] == before.0[i]);
                    }
                }
            }
            assert forall|i: int| 0 <= i < after.0.len() implies (#[trigger] after.0[i]).len()
                > 0 by {
                if i < before.0.len() {
                    assert(after.0[i] == before.0[i]);
                } else {
                    assert(encode_all(before.1).len() > 0);
                    assert(before.1.len() > 0);
                }
            }
        }
    }
}

/// Every key of `entries` has at least one byte.
pub open spec fn keys_not_empty(entries: Seq<EntryModel>) -> bool {
    forall|i: int| 0 <= i < entries.len() ==> (#[trigger] entries[i]).key.len() >= 1
}

/// What a writer holds after `entries` is what `pack` says: the complete
/// blocks hold the entries of `pack`'s blocks, and the current block those of
/// its last. A writer takes only entries that fit into a block.
pub proof fn lemma_writer_packs(entries: Seq<EntryModel>)
    requires
        append_all(empty_writer(), entries) is Ok,
        keys_not_empty(entries),
    ensures
        all_fit(entries),
        append_all(empty_writer(), entries)->Ok_0.written == blocks_bytes(pack(entries).0),
        append_all(empty_writer(), entries)->Ok_0.current == encode_all(pack(entries).1),
        blocks_bytes(pack(entries).0).len() == pack(entries).0.len() * BLOCK_SIZE,
        blocks_bytes(pack(entries).0).len() + BLOCK_SIZE <= MAX_REGION_SIZE,
    decreases entries.len(),
{
    if entries.len() == 0 {
        assert(encode_all(Seq::<EntryModel>::empty()) =~= Seq::<u8>::empty());
        assert(blocks_bytes(Seq::<Seq<EntryModel>>::empty()) =~= Seq::<u8>::empty());
    } else {
        let front = entries.drop_last();
        let e = entries.last();
        assert(keys_not_empty(front)) by {
            assert forall|i: int| 0 <= i < front.len() implies (#[trigger] front[i]).key.len()
                >= 1 by {
                assert(front[i] == entries[i]);
            }
        }
        lemma_writer_packs(front);
        let w = append_all(empty_writer(), front)->Ok_0;
        assert(append_model(w, e) is Ok);
        assert(entries[entries.len() - 1].key.len() >= 1);
        assert(all_fit(entries)) by {
            assert forall|i: int| 0 <= i < entries.len() implies entry_fits(
                #[trigger] entries[i],
            ) by {
                if i < front.len() {
                    assert(front[i] == entries[i]);
                }
            }
        }
        lemma_pack_holds_entries(front);
        lemma_encode_entry_len(e.key, e.value, e.seq);
        let before = pack(front);
        if entry_size(e.key, e.value) <= BLOCK_SIZE - encode_all(before.1).len() {
            lemma_encode_all_push(before.1, e);
        } else {
            assert(before.0.push(before.1).drop_last() =~= before.0);
            lemma_encode_all_push(Seq::<EntryModel>::empty(), e);
            assert(encode_all(Seq::<EntryModel>::empty()) =~= Seq::<u8>::empty());
            assert(Seq::<EntryModel>::empty().push(e) =~= seq![e]);
            assert(encode_all(seq![e]) =~= encode_entry(e.key, e.value, e.seq));
        }
    }
}

/// A file that consists of complete blocks and a trailer that names their end
/// is a table, and its blocks hold the entries that were encoded into them.
pub proof fn lemma_blocks_read_back(blocks: Seq<Seq<EntryModel>>, data: Seq<u8>)
    requires
        blocks_fit(blocks),
        blocks.len() * BLOCK_SIZE <= MAX_REGION_SIZE,
        data == blocks_bytes(blocks) + trailer((blocks.len() * BLOCK_SIZE) as u32),
    ensures
        sst_valid(data),
        trailer_offset(data) == blocks.len() * BLOCK_SIZE,
        trailer_version(data) == FORMAT_VERSION,
        sst_blocks(data) == blocks,
{
    let region = blocks_bytes(blocks);
    let n = blocks.len() * BLOCK_SIZE;
    lemma_blocks_bytes_layout(blocks);
    lemma_u32_le_round_trip(n as u32);
    lemma_u32_le_round_trip(FORMAT_VERSION);
    assert(data.len() == n + TRAILER_SIZE);
    assert(data.subrange(data.len() - TRAILER_SIZE, data.len() - HEADER_SIZE) =~= u32_to_le(
        n as u32,
    ));
    assert(data.subrange(data.len() - HEADER_SIZE, data.len() as int) =~= u32_to_le(
        FORMAT_VERSION,
    ));
    assert(block_count(n) == blocks.len());
    assert forall|i: int| 0 <= i < blocks.len() implies (#[trigger] sst_blocks(data)[i])
        == blocks[i] by {
        assert(block_end(n, i) == (i + 1) * BLOCK_SIZE);
        assert(data.subrange(i * BLOCK_SIZE, (i + 1) * BLOCK_SIZE) =~= region.subrange(
            i * BLOCK_SIZE,
            (i + 1) * BLOCK_SIZE,
        ));
        lemma_parse_padded_block(data, i * BLOCK_SIZE, blocks[i]);
    }
    assert(sst_blocks(data) =~= blocks);
}

/// The file that a writer leaves is a table that holds the entries that the
/// writer took, in their order, in the blocks that `pack` describes.
pub proof fn lemma_finalized_table_reads_back(entries: Seq<EntryModel>)
    requires
        append_all(empty_writer(), entries) is Ok,
        keys_not_empty(entries),
    ensures
        ({
            let data = finalize_model(append_all(empty_writer(), entries)->Ok_0);
            &&& sst_valid(data)
            &&& trailer_version(data) == FORMAT_VERSION
            &&& sst_blocks(data) == packed_blocks(entries)
            &&& sst_entries(data) == entries
        }),
{
    let w = append_all(empty_writer(), entries)->Ok_0;
    let data = finalize_model(w);
    let blocks = packed_blocks(entries);
    lemma_writer_packs(entries);
    lemma_pack_holds_entries(entries);
    assert(blocks.drop_last() =~= pack(entries).0);
    assert(blocks_fit(blocks)) by {
        assert forall|i: int| 0 <= i < blocks.len() implies all_fit(#[trigger] blocks[i])
            && encode_all(blocks[i]).len() <= BLOCK_SIZE by {
            if i < pack(entries).0.len() {
                assert(blocks[i] == pack(entries).0[i]);
            }
        }
    }
    assert(blocks_bytes(blocks) == w.written + pad_block(w.current));
    lemma_blocks_read_back(blocks, data);
    pack(entries).0.lemma_flatten_push(pack(entries).1);
}

/// The file of a table that was written in one go is a table that holds the
/// entries it was written from, in their order.
pub proof fn lemma_image_reads_back(entries: Seq<EntryModel>)
    requires
        sst_image(entries) is Ok,
        keys_not_empty(entries),
    ensures
        sst_valid(sst_image(entries)->Ok_0),
        trailer_version(sst_image(entries)->Ok_0) == FORMAT_VERSION,
        sst_entries(sst_image(entries)->Ok_0) == entries,
        entries.len() > 0 ==> sst_blocks(sst_image(entries)->Ok_0) == packed_blocks(entries),
        entries.len() == 0 ==> sst_blocks(sst_image(entries)->Ok_0).len() == 0,
{
    if entries.len() == 0 {
        let data = sst_image(entries)->Ok_0;
        assert(blocks_bytes(Seq::<Seq<EntryModel>>::empty()) =~= Seq::<u8>::empty());
        assert(data =~= blocks_bytes(Seq::<Seq<EntryModel>>::empty()) + trailer(0));
        lemma_blocks_read_back(Seq::empty(), data);
        assert(Seq::<Seq<EntryModel>>::empty().flatten() =~= entries);
    } else {
        lemma_finalized_table_reads_back(entries);
    }
}

/// In blocks whose entries are sorted by key, a lookup that leaves out the
/// keys before the first and behind the last finds what a lookup through all
/// entries finds. The first and the last block must not be empty where there
/// are entries at all.
pub proof fn lemma_lookup_in_sorted_blocks(blocks: Seq<Seq<EntryModel>>, key: Seq<u8>)
    requires
        strictly_sorted(blocks.flatten()),
        blocks.flatten().len() > 0 ==> blocks.first().len() > 0 && blocks.last().len() > 0,
    ensures
        lex_lt(key, first_key_of(blocks)) || lex_lt(last_key_of(blocks), key) ==> find_key(
            blocks.flatten(),
            key,
        ) is None,
{
    let all = blocks.flatten();
    lemma_find_key(all, key);
    if all.len() > 0 {
        blocks.lemma_flatten_and_flatten_alt_are_equivalent();
        assert(blocks.len() > 0);
        assert(all =~= blocks.first() + blocks.drop_first().flatten());
        assert(all =~= blocks.drop_last().flatten_alt() + blocks.last());
        assert(all.first() == blocks.first().first());
        assert(all.last() == blocks.last().last());
        if let Some(e) = find_key(all, key) {
            let i = choose|i: int| 0 <= i < all.len() && all[i] == e;
            lemma_lex_lt_total(key, all.first().key);
            lemma_lex_lt_total(key, all.last().key);
            if 0 < i {
                assert(lex_lt(all[0].key, all[i].key));
            }
            if i < all.len() - 1 {
                assert(lex_lt(all[i].key, all[all.len() - 1].key));
            }
        }
    } else {
        assert(find_key(all, key) is None);
    }
}

/// The table that a writer leaves after entries sorted by key answers a
/// lookup with the entry that has the key, if there is one.
pub proof fn lemma_finalized_table_lookup(entries: Seq<EntryModel>, key: Seq<u8>)
    requires
        append_all(empty_writer(), entries) is Ok,
        keys_not_empty(entries),
        strictly_sorted(entries),
    ensures
        sst_lookup(finalize_model(append_all(empty_writer(), entries)->Ok_0), key) == find_key(
            entries,
            key,
        ),
{
    let data = finalize_model(append_all(empty_writer(), entries)->Ok_0);
    lemma_finalized_table_reads_back(entries);
    let blocks = sst_blocks(data);
    lemma_writer_packs(entries);
    lemma_pack_holds_entries(entries);
    if entries.len() > 0 {
        if pack(entries).0.len() > 0 {
            assert(blocks.first() == pack(entries).0[0]);
        }
    }
    lemma_lookup_in_sorted_blocks(blocks, key);
}

/// A table that was written in one go from entries sorted by key answers a
/// lookup with the entry that has the key, if there is one.
pub proof fn lemma_image_lookup(entries: Seq<EntryModel>, key: Seq<u8>)
    requires
        sst_image(entries) is Ok,
        keys_not_empty(entries),
        strictly_sorted(entries),
    ensures
        sst_lookup(sst_image(entries)->Ok_0, key) == find_key(entries, key),
{
    if entries.len() > 0 {
        lemma_finalized_table_lookup(entries, key);
    } else {
        let data = sst_image(entries)->Ok_0;
        lemma_image_reads_back(entries);
        assert(sst_blocks(data).flatten() =~= Seq::<EntryModel>::empty());
        lemma_lookup_in_sorted_blocks(sst_blocks(data), key);
    }
}

/// Every entry that is parsed from a block has a key of at least one byte,
/// and is no larger than the block.
pub proof fn lemma_parsed_block_fits(data: Seq<u8>, off: int, end: int)
    requires
        0 <= off,
        end - off <= BLOCK_SIZE,
    ensures
        all_fit(parse_block(data, off, end)),
    decreases end - off,
{
    lemma_parse_entry_advances(data, off, end);
    match parse_entry(data, off, end) {
        Some((e, next)) => {
            lemma_parsed_block_fits(data, next, end);
            let rest = parse_block(data, next, end);
            let all = parse_block(data, off, end);
            assert forall|i: int| 0 <= i < all.len() implies entry_fits(#[trigger] all[i]) by {
                if i > 0 {
                    assert(all[i] == rest[i - 1]);
                }
            }
        },
        None => {},
    }
}

/// Where every block holds entries that fit, so do all blocks together.
pub proof fn lemma_flatten_all_fit(blocks: Seq<Seq<EntryModel>>)
    requires
        forall|i: int| 0 <= i < blocks.len() ==> all_fit(#[trigger] blocks[i]),
    ensures
        all_fit(blocks.flatten()),
    decreases blocks.len(),
{
    if blocks.len() > 0 {
        let rest = blocks.drop_first();
        assert forall|i: int| 0 <= i < rest.len() implies all_fit(#[trigger] rest[i]) by {
            assert(rest[i] == blocks[i + 1]);
        }
        lemma_flatten_all_fit(rest);
        let all = blocks.flatten();
        let first = blocks.first();
        assert(all_fit(blocks[0]));
        assert forall|i: int| 0 <= i < all.len() implies entry_fits(#[trigger] all[i]) by {
            if i < first.len() {
                assert(all[i] == first[i]);
            } else {
                assert(all[i] == rest.flatten()[i - first.len()]);
            }
        }
    }
}

/// Every entry that is read from a table has a key of at least one byte and
/// is no larger than a block, whatever the bytes of the table are.
pub proof fn lemma_table_entries_fit(data: Seq<u8>)
    ensures
        all_fit(sst_entries(data)),
{
    let blocks = sst_blocks(data);
    let region_len = trailer_offset(data);
    assert forall|i: int| 0 <= i < blocks.len() implies all_fit(#[trigger] blocks[i]) by {
        lemma_parsed_block_fits(data, i * BLOCK_SIZE, block_end(region_len, i));
    }
    lemma_flatten_all_fit(blocks);
}

/// Entries that fit are refused by a writer only where the table would grow
/// too large.
pub proof fn lemma_fitting_entries_refusal(w: WriterModel, entries: Seq<EntryModel>)
    requires
        all_fit(entries),
        append_all(w, entries) is Err,
    ensures
        append_all(w, entries) == Err::<WriterModel, SstError>(SstError::TableTooLarge),
    decreases entries.len(),
{
    if entries.len() > 0 {
        let front = entries.drop_last();
        assert(entry_fits(entries[entries.len() - 1]));
        if append_all(w, front) is Err {
            assert forall|i: int| 0 <= i < front.len() implies entry_fits(#[trigger] front[i]) by {
                assert(front[i] == entries[i]);
            }
            lemma_fitting_entries_refusal(w, front);
        }
    }
}

/// What a writer holds after any entries: whole blocks, no more of them than
/// leave room for one block more, and a current block of no more than
/// `BLOCK_SIZE` bytes.
pub proof fn lemma_writer_shape(entries: Seq<EntryModel>)
    requires
        append_all(empty_writer(), entries) is Ok,
    ensures
        append_all(empty_writer(), entries)->Ok_0.written.len() + BLOCK_SIZE <= MAX_REGION_SIZE,
        append_all(empty_writer(), entries)->Ok_0.current.len() <= BLOCK_SIZE,
    decreases entries.len(),
{
    if entries.len() > 0 {
        let e = entries.last();
        lemma_writer_shape(entries.drop_last());
        lemma_encode_entry_len(e.key, e.value, e.seq);
    }
}

/// The file that a writer leaves is a table, whatever entries it took.
pub proof fn lemma_finalized_table_valid(entries: Seq<EntryModel>)
    requires
        append_all(empty_writer(), entries) is Ok,
    ensures
        sst_valid(finalize_model(append_all(empty_writer(), entries)->Ok_0)),
{
    let w = append_all(empty_writer(), entries)->Ok_0;
    let data = finalize_model(w);
    let n = w.written.len() + BLOCK_SIZE;
    lemma_writer_shape(entries);
    lemma_u32_le_round_trip(n as u32);
    lemma_u32_le_round_trip(FORMAT_VERSION);
    assert(pad_block(w.current).len() == BLOCK_SIZE);
    assert(data.len() == n + TRAILER_SIZE);
    assert(data.subrange(data.len() - TRAILER_SIZE, data.len() - HEADER_SIZE) =~= u32_to_le(
        n as u32,
    ));
}

/// The file of a table that was written in one go is a table, whatever
/// entries it was written from.
pub proof fn lemma_image_valid(entries: Seq<EntryModel>)
    requires
        sst_image(entries) is Ok,
    ensures
        sst_valid(sst_image(entries)->Ok_0),
{
    if entries.len() == 0 {
        let data = sst_image(entries)->Ok_0;
        lemma_u32_le_round_trip(0u32);
        lemma_u32_le_round_trip(FORMAT_VERSION);
        assert(data.len() == TRAILER_SIZE);
        assert(data.subrange(data.len() - TRAILER_SIZE, data.len() - HEADER_SIZE) =~= u32_to_le(
            0u32,
        ));
    } else {
        lemma_finalized_table_valid(entries);
    }
}

} // verus!
