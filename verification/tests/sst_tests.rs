use lsm_kv::persists::sst::block_entry::BlockEntry;
use lsm_kv::persists::sst::flush_worker::{flush_all, flush_table};
use lsm_kv::persists::sst::sorted_string_table::{DataBlock, DataEntryBlock, SortedStringTable};
use lsm_kv::persists::sst::ss_table_reader::SSTableReader;
use lsm_kv::persists::sst::sst_table_block::{
    BlockSizeExceededError, SSTableBlock, SstError, BLOCK_SIZE, HEADER_SIZE,
};
use lsm_kv::persists::sst::sst_writer::SSTableWriter;
use lsm_kv::persists::sst::table_file::{fresh_level0_file_name, level0_file_name};
use lsm_kv::persists::sst::table_result::TableResult;
use lsm_kv::persists::memtable::btree_map::BTreeMemTable;
use lsm_kv::persists::memtable::memtable_trait::MemTable;

fn simple_entries() -> Vec<(Vec<u8>, (Option<Vec<u8>>, u64))> {
    vec![
        (b"key1".to_vec(), (Some(b"value1".to_vec()), 1)),
        (b"key2".to_vec(), (Some(b"value2".to_vec()), 2)),
        (b"key3".to_vec(), (Some(b"value3".to_vec()), 3)),
    ]
}

#[test]
fn test_write_simple_sstable() {
    let entries = simple_entries();

    let estimated_size: usize = entries
        .iter()
        .map(|(k, (v, _s))| 4 + k.len() + 4 + v.as_ref().map_or(0, |v| v.len() + std::mem::size_of::<u64>()))
        .sum();

    let file = SSTableWriter::write_to_file(&entries, estimated_size as u32)
        .expect("write_to_file failed");
    let file_size = file.len();

    assert!(file_size > 0);
    assert_eq!((file_size - 8) % BLOCK_SIZE, 0, "file not block-aligned");

    let pairs = SSTableReader::file_into_iterator(&file);
    assert_eq!(
        pairs,
        vec![
            (b"key1".to_vec(), Some(b"value1".to_vec())),
            (b"key2".to_vec(), Some(b"value2".to_vec())),
            (b"key3".to_vec(), Some(b"value3".to_vec())),
        ]
    );
}

#[test]
fn read_string_table_and_verify() {
    let file = SSTableWriter::write_to_file(&simple_entries(), 0).unwrap();

    let string_table = SortedStringTable::new(file).expect("Failed to parse SSTable");

    let key = b"key2";
    let result = string_table.get(key);

    assert!(result.is_some(), "Key not found");

    let entry = result.unwrap();

    assert_eq!(entry.key, key);
    assert_eq!(entry.value, b"value2");

    let should_not_be_found = string_table.get(b"key_5");

    assert!(should_not_be_found.is_none());
}

#[test]
fn flush_worker() {
    let mut flushable_tables: Vec<(u64, BTreeMemTable<640>)> = Vec::new();

    for j in 0..2u64 {
        let mut table = BTreeMemTable::<640>::new();

        for i in 0..10u64 {
            table.insert(
                format!("key{i}").as_bytes(),
                format!("value{}", j * i).as_bytes(),
                j * i,
            );
        }
        flushable_tables.push((j, table));
    }

    let results = flush_all(&flushable_tables);
    assert_eq!(results.len(), 2);

    let mut id: u64 = 0;
    for result in results {
        match result {
            Ok(flushed) => {
                assert_eq!(flushed.id, id);
                assert!(flushed.file_name.starts_with("L0_"));
                assert!(flushed.file_name.ends_with(".sst"));
                let table = flushed.table;
                for i in 0..10u64 {
                    let found = table.get(format!("key{i}").as_bytes()).unwrap();
                    assert_eq!(found.value, format!("value{}", id * i).as_bytes());
                    assert_eq!(found.sequence_number, id * i);
                }
            }
            Err(e) => panic!("Flush failed: {e:?}"),
        }
        id += 1;
    }
}

#[test]
fn entry_encoding_is_little_endian() {
    let entry = BlockEntry::from_parts(b"ab", b"xyz", &0x0102030405060708).unwrap();
    let mut entry = entry;
    assert_eq!(entry.key(), b"ab");
    assert_eq!(entry.value(), b"xyz");
    assert_eq!(
        entry.get_entry_buffer().as_slice(),
        &[2, 0, 0, 0, b'a', b'b', 3, 0, 0, 0, b'x', b'y', b'z', 8, 7, 6, 5, 4, 3, 2, 1][..]
    );
}

#[test]
fn entry_larger_than_a_block_is_refused() {
    let key = vec![b'k'; 10];
    let fits = vec![0u8; BLOCK_SIZE - 16 - 10];
    let too_long = vec![0u8; BLOCK_SIZE - 16 - 10 + 1];
    assert!(BlockEntry::from_parts(&key, &fits, &1).is_ok());
    assert_eq!(BlockEntry::from_parts(&key, &too_long, &1).err(), Some(BlockSizeExceededError));

    let mut writer = SSTableWriter::new();
    assert_eq!(writer.append_parts(&key, Some(&too_long), 1), Err(SstError::CapacityExceeded));
    assert_eq!(
        SSTableWriter::write_to_file(&vec![(key, (Some(too_long), 1))], 0),
        Err(SstError::CapacityExceeded)
    );
}

#[test]
fn block_takes_entries_until_it_is_full() {
    let mut block = SSTableBlock::new();
    assert!(block.is_empty());
    assert_eq!(block.capacity(), BLOCK_SIZE);
    let first = BlockEntry::from_parts(b"a", &vec![1u8; 2031], &1).unwrap();
    assert!(first.can_fit(&block));
    assert_eq!(block.append_block(first), Ok(()));
    assert_eq!(block.capacity(), 2048);
    let second = BlockEntry::from_parts(b"b", &vec![2u8; 2031], &2).unwrap();
    assert_eq!(block.append_block(second), Ok(()));
    assert_eq!(block.capacity(), 0);
    let third = BlockEntry::from_parts(b"c", b"", &3).unwrap();
    assert!(!third.can_fit(&block));
    assert_eq!(block.append_block(third), Err(BlockSizeExceededError));
    let bytes = block.finalize();
    assert_eq!(bytes.len(), BLOCK_SIZE);
    assert_eq!(SSTableBlock::default().finalize(), vec![0u8; BLOCK_SIZE]);
}

#[test]
fn one_byte_too_many_starts_a_new_block_and_pads_the_old() {
    // 16 + 1 + 4062 and 16 + 1 + 0 make 4096: the two entries fill a block exactly
    let exact = vec![
        (b"a".to_vec(), (Some(vec![7u8; 4062]), 1)),
        (b"b".to_vec(), (Some(Vec::new()), 2)),
    ];
    let file = SSTableWriter::write_to_file(&exact, 0).unwrap();
    assert_eq!(file.len(), BLOCK_SIZE + 8);
    assert_eq!(&file[BLOCK_SIZE..], &[0, 0x10, 0, 0, 1, 0, 0, 0][..]);

    // one byte more in the second entry, and it starts the second block
    let over = vec![
        (b"a".to_vec(), (Some(vec![7u8; 4062]), 1)),
        (b"b".to_vec(), (Some(vec![9u8]), 2)),
    ];
    let file = SSTableWriter::write_to_file(&over, 0).unwrap();
    assert_eq!(file.len(), 2 * BLOCK_SIZE + 8);
    assert!(file[4079..BLOCK_SIZE].iter().all(|byte| *byte == 0));
    assert_eq!(&file[BLOCK_SIZE..BLOCK_SIZE + 5], &[1, 0, 0, 0, b'b'][..]);
    assert!(file[BLOCK_SIZE + 18..2 * BLOCK_SIZE].iter().all(|byte| *byte == 0));
    assert_eq!(&file[2 * BLOCK_SIZE..], &[0, 0x20, 0, 0, 1, 0, 0, 0][..]);

    let table = SortedStringTable::new(file).unwrap();
    assert_eq!(table.metadata_offset(), 2 * BLOCK_SIZE);
    assert_eq!(table.version(), 1);
    let all: Vec<(Vec<u8>, u64)> = collect(&table);
    assert_eq!(all, vec![(b"a".to_vec(), 1), (b"b".to_vec(), 2)]);
    assert_eq!(table.get(b"b").unwrap().value, &[9u8][..]);
}

fn collect(table: &SortedStringTable) -> Vec<(Vec<u8>, u64)> {
    let mut all = Vec::new();
    let mut iter = table.iter();
    while let Some(entry) = iter.next() {
        all.push((entry.key.to_vec(), entry.sequence_number));
    }
    all
}

#[test]
fn table_without_entries_is_a_trailer_only() {
    let file = SSTableWriter::write_to_file(&Vec::new(), 0).unwrap();
    assert_eq!(file, vec![0, 0, 0, 0, 1, 0, 0, 0]);
    let table = SortedStringTable::new(file).unwrap();
    assert!(table.get(b"a").is_none());
    assert!(table.iter().next().is_none());
    assert_eq!(table.first_key(), b"");
    assert_eq!(table.last_key(), b"");
    assert!(table.is_sorted());
}

#[test]
fn streaming_writer_ends_with_a_block_and_a_trailer() {
    let writer = SSTableWriter::new();
    let file = writer.finalize();
    assert_eq!(file.len(), BLOCK_SIZE + 8);
    assert!(file[..BLOCK_SIZE].iter().all(|byte| *byte == 0));
    assert_eq!(&file[BLOCK_SIZE..], &[0, 0x10, 0, 0, 1, 0, 0, 0][..]);

    let mut writer = SSTableWriter::with_capacity(64);
    writer.append_entry(&TableResult::new(b"k1", b"v1", 5)).unwrap();
    writer.append_entry(&TableResult::new(b"k2", b"", 6)).unwrap();
    let table = SortedStringTable::new(writer.finalize()).unwrap();
    assert_eq!(collect(&table), vec![(b"k1".to_vec(), 5), (b"k2".to_vec(), 6)]);
    assert_eq!(table.first_key(), b"k1");
    assert_eq!(table.last_key(), b"k2");
}

#[test]
fn corrupt_tables_are_refused() {
    assert_eq!(SortedStringTable::new(vec![0u8; 7]).err(), Some(SstError::SstCorruption));
    // the trailer puts the end of the blocks behind its own start
    assert_eq!(
        SortedStringTable::new(vec![1, 0, 0, 0, 1, 0, 0, 0]).err(),
        Some(SstError::SstCorruption)
    );
    assert!(SortedStringTable::new(vec![0, 0, 0, 0, 1, 0, 0, 0]).is_ok());
}

#[test]
fn lookup_outside_the_key_range_finds_nothing() {
    let file = SSTableWriter::write_to_file(&simple_entries(), 0).unwrap();
    let table = SortedStringTable::new(file).unwrap();
    assert_eq!(table.first_key(), b"key1");
    assert_eq!(table.last_key(), b"key3");
    assert!(table.get(b"key0").is_none());
    assert!(table.get(b"key").is_none());
    assert!(table.get(b"key4").is_none());
    assert!(table.get(b"key31").is_none());
    assert_eq!(table.get(b"key1").unwrap().sequence_number, 1);
    assert_eq!(table.get(b"key3").unwrap().value, b"value3");
    assert!(table.is_sorted());
}

#[test]
fn parsing_stops_at_padding_and_at_lengths_that_overrun() {
    let entry = [1, 0, 0, 0, b'k', 2, 0, 0, 0, b'v', b'w', 9, 0, 0, 0, 0, 0, 0, 0];
    let mut buffer = entry.to_vec();
    buffer.extend_from_slice(&[0u8; 8]);
    let (parsed, next) = DataEntryBlock::parse_from_offset(&buffer, 0, buffer.len()).unwrap();
    assert_eq!(next, 19);
    assert_eq!(parsed.key(&buffer), b"k");
    assert_eq!(parsed.value(&buffer), b"vw");
    assert_eq!(parsed.get(&buffer).sequence_number, 9);
    // a key length of zero is padding
    assert!(DataEntryBlock::parse_from_offset(&buffer, 19, buffer.len()).is_none());
    // the block ends before the sequence number does
    assert!(DataEntryBlock::parse_from_offset(&buffer, 0, 18).is_none());
    // no room for a length field
    assert!(DataEntryBlock::parse_from_offset(&buffer, 24, buffer.len()).is_none());
    // the end of the block lies behind the buffer
    assert!(DataEntryBlock::parse_from_offset(&buffer, 0, buffer.len() + 1).is_none());
    // a key that is longer than what is left
    let overrun = [200, 0, 0, 0, b'k', 0, 0, 0, 0, 0, 0, 0, 0, 0, 0, 0, 0];
    assert!(DataEntryBlock::parse_from_offset(&overrun, 0, overrun.len()).is_none());

    let block = DataBlock::from_buffer(&buffer, 0, buffer.len());
    assert_eq!(block.len(), 1);
    assert_eq!(block.get(&buffer, b"k").unwrap().value, b"vw");
    assert!(block.get(&buffer, b"v").is_none());
    let mut iter = block.iter(&buffer);
    assert_eq!(iter.next().unwrap().key, b"k");
    assert!(iter.next().is_none());
}

#[test]
fn flush_keeps_tombstones_apart_from_empty_values() {
    let mut table = BTreeMemTable::<640>::new();
    table.insert(b"b", b"2", 1);
    table.delete(b"a", 2);
    table.insert(b"c", b"", 3);
    let flushed = flush_table(77, &table).unwrap();
    assert_eq!(flushed.id, 77);
    // the entry of "a": key, the mark in place of a length, the sequence number
    assert_eq!(
        &flushed.table.as_bytes()[..17],
        &[1, 0, 0, 0, b'a', 0, 0, 0, 0x80, 2, 0, 0, 0, 0, 0, 0, 0][..]
    );
    let sst = &flushed.table;
    let a = sst.get(b"a").unwrap();
    assert_eq!((a.value, a.sequence_number, a.tombstone), (&b""[..], 2, true));
    let b = sst.get(b"b").unwrap();
    assert_eq!((b.value, b.sequence_number, b.tombstone), (&b"2"[..], 1, false));
    let c = sst.get(b"c").unwrap();
    assert_eq!((c.value, c.sequence_number, c.tombstone), (&b""[..], 3, false));
    assert_eq!(collect(sst), vec![(b"a".to_vec(), 2), (b"b".to_vec(), 1), (b"c".to_vec(), 3)]);
    assert_eq!(
        SSTableReader::file_into_iterator(flushed.table.as_bytes()),
        vec![
            (b"a".to_vec(), None),
            (b"b".to_vec(), Some(b"2".to_vec())),
            (b"c".to_vec(), Some(Vec::new())),
        ]
    );
}

#[test]
fn tombstone_entry_round_trip() {
    let mut entry = BlockEntry::tombstone(b"gone", &3).unwrap();
    assert!(entry.is_tombstone());
    assert_eq!(entry.key(), b"gone");
    assert_eq!(entry.value(), b"");
    assert_eq!(
        entry.get_entry_buffer().as_slice(),
        &[4, 0, 0, 0, b'g', b'o', b'n', b'e', 0, 0, 0, 0x80, 3, 0, 0, 0, 0, 0, 0, 0][..]
    );
    let live = BlockEntry::from_parts(b"here", b"", &4).unwrap();
    assert!(!live.is_tombstone());

    let mut writer = SSTableWriter::new();
    writer.append_entry(&TableResult::deleted(b"gone", 3)).unwrap();
    writer.append_entry(&TableResult::new(b"here", b"", 4)).unwrap();
    let table = SortedStringTable::new(writer.finalize()).unwrap();
    assert!(table.get(b"gone").unwrap().tombstone);
    assert!(!table.get(b"here").unwrap().tombstone);
}

#[test]
fn file_names_of_the_first_level() {
    assert_eq!(level0_file_name("abc"), "L0_abc.sst");
    let name = fresh_level0_file_name();
    assert_eq!(name.len(), 3 + 36 + 4);
    assert!(name.starts_with("L0_"));
    assert!(name.ends_with(".sst"));
    assert_ne!(name, fresh_level0_file_name());
    assert_eq!(HEADER_SIZE, 4);
}
