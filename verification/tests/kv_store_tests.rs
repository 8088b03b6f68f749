use lsm_kv::persists::kv_store::{KvError, KvStore};
use lsm_kv::persists::memtable::btree_map::BTreeMemTable;
use lsm_kv::persists::memtable::memtable_trait::MemTable;
use lsm_kv::persists::sst::flush_worker::{FlushCommand, FlushedTable};
use lsm_kv::persists::sst::sorted_string_table::SortedStringTable;
use lsm_kv::persists::sst::sst_table_block::SstError;
use lsm_kv::persists::sst::sst_writer::SSTableWriter;
use lsm_kv::persists::wal::LogCommand;

type TestKvStore = KvStore<64>;

fn keys_of(table: &BTreeMemTable<64>) -> Vec<String> {
    table
        .iter_all()
        .into_iter()
        .map(|(k, _)| String::from_utf8_lossy(k).to_string())
        .collect()
}

#[test]
fn kv_store_test_test_insert_and_get() {
    let mut store = TestKvStore::new();

    store.put_value("foo", "bar");

    match store.get_value("foo") {
        Ok(Some(val)) => assert_eq!("bar", val),
        _ => panic!("Expected Found"),
    }
}

#[test]
fn test_will_be_flushed() {
    let mut store = TestKvStore::new();
    let value = "abcdefgh";

    let _ = store.put_value("key1", value);
    let _ = store.put_value("key2", value);
    let _ = store.delete_value("key1");
    let _ = store.put_value("key3", value);
    let _ = store.put_value("key4", value);

    assert_eq!(store.sealed_tables().len(), 1);

    let active_keys = keys_of(store.active_table());
    let flush_keys: Vec<String> = store
        .sealed_tables()
        .iter()
        .flat_map(|(_, table)| keys_of(table))
        .collect();

    assert_eq!(active_keys, vec!["key4"]);
    assert_eq!(flush_keys, vec!["key1", "key2", "key3"]);
}

#[test]
fn seq_numbers_are_unique_and_monotone() {
    let mut store = KvStore::<640_000>::new();

    let value = "value";

    let mut seq_nums: Vec<u64> = Vec::new();

    for i in 0..5000 {
        seq_nums.push(store.put_value(&i.to_string(), value));
    }

    seq_nums.sort();

    for i in 1..seq_nums.len() {
        assert!(seq_nums[i] > seq_nums[i - 1]);
    }
}

#[test]
fn value_from_mem_is_returned_over_flushable() {
    let mut store = TestKvStore::new();

    let mut active_memtable = BTreeMemTable::<64>::new();
    active_memtable.insert(b"key1", b"correct_value", 300);
    store.replace_active(active_memtable);

    let mut flush1 = BTreeMemTable::<64>::new();
    flush1.insert(b"key1", b"outdated_low", 100);

    let mut flush2 = BTreeMemTable::<64>::new();
    flush2.insert(b"key1", b"outdated_high", 200);

    store.seal_table(1, flush1);
    store.seal_table(2, flush2);

    let result = store.get_value("key1");
    assert_eq!(result, Ok(Some("correct_value".into())));
}

#[test]
fn value_is_selected_from_highest_seq_flushable_when_memtable_empty() {
    let mut store = TestKvStore::new();
    let mut flush1 = BTreeMemTable::<64>::new();
    flush1.insert(b"key1", b"outdated_low", 100);

    let mut flush2 = BTreeMemTable::<64>::new();
    flush2.insert(b"key1", b"correct_value", 200);

    store.seal_table(1, flush1);
    store.seal_table(2, flush2);

    let result = store.get_value("key1");
    assert_eq!(result, Ok(Some("correct_value".into())));
}

#[test]
fn highest_seq_wins_whatever_the_order_of_the_sealed_tables() {
    let mut store = TestKvStore::new();
    let mut newer = BTreeMemTable::<64>::new();
    newer.insert(b"key1", b"old_high", 200);
    let mut older = BTreeMemTable::<64>::new();
    older.insert(b"key1", b"old_low", 100);

    store.seal_table(2, newer);
    store.seal_table(1, older);

    assert_eq!(store.get_value("key1"), Ok(Some("old_high".into())));
}

#[test]
fn test_event_loop_removes_table_after_flushresult() {
    let mut store = KvStore::<640>::new();

    let id = 1337;
    let dummy_table = BTreeMemTable::<640>::new();
    store.seal_table(id, dummy_table);

    let path = String::from("L0_00000000-0000-4000-8000-000000000000.sst");
    let bytes = SSTableWriter::write_to_file(&Vec::new(), 0).unwrap();

    store.on_flush_result::<SstError>(Ok(FlushedTable {
        id: 1337,
        file_name: path,
        table: SortedStringTable::new(bytes).unwrap(),
    }));

    assert!(
        !store.sealed_tables().iter().any(|(table_id, _)| *table_id == id),
        "Table with ID {id} should have been removed by event_loop"
    );
}

#[test]
fn failed_flush_keeps_the_sealed_table() {
    let mut store = KvStore::<640>::new();
    store.seal_table(7, BTreeMemTable::<640>::new());

    store.on_flush_result::<SstError>(Err(SstError::TableTooLarge));
    assert_eq!(store.sealed_tables().len(), 1);
}

#[test]
fn delete_gives_the_old_value_when_the_table_is_set_aside() {
    // the entry fills the table of ten bytes exactly
    let mut store = KvStore::<10>::new();
    assert_eq!(store.put_value("k", "v"), 0);
    assert_eq!(store.sealed_tables().len(), 0);
    assert_eq!(store.get_value("k"), Ok(Some("v".into())));
    assert_eq!(store.delete_value("k"), Ok((Some(("k".to_string(), "v".to_string())), 1)));
    assert_eq!(store.sealed_tables().len(), 1);
    assert_eq!(store.get_value("k"), Ok(None));
    // a deletion mark is no value, and a key that was not there has none
    assert_eq!(store.delete_value("k"), Ok((None, 2)));
    assert_eq!(store.apply_delete(b"k", 3), Some((None, 2)));
    assert_eq!(store.apply_delete(b"other", 4), None);
}

#[test]
fn overwrite_returns_latest_value() {
    let mut store = TestKvStore::new();
    store.put_value("k", "v1");
    store.put_value("k", "v2");
    assert_eq!(store.get_value("k"), Ok(Some("v2".into())));
}

#[test]
fn tombstone_masks_older_value() {
    let mut store = TestKvStore::new();
    store.put_value("k", "v");
    let deleted = store.delete_value("k");
    assert_eq!(deleted, Ok((Some(("k".to_string(), "v".to_string())), 1)));
    assert_eq!(store.get_value("k"), Ok(None));
}

#[test]
fn tombstone_in_active_table_masks_sealed_value() {
    let mut store = TestKvStore::new();
    let mut sealed = BTreeMemTable::<64>::new();
    sealed.insert(b"k", b"old", 1);
    store.seal_table(1, sealed);
    let mut active = BTreeMemTable::<64>::new();
    active.delete(b"k", 2);
    store.replace_active(active);
    assert_eq!(store.get_value("k"), Ok(None));
}

#[test]
fn layered_read_falls_back_to_sealed_tables() {
    let mut store = TestKvStore::new();
    let mut active = BTreeMemTable::<64>::new();
    active.insert(b"k", b"new", 300);
    store.replace_active(active);
    let mut low = BTreeMemTable::<64>::new();
    low.insert(b"k", b"old_low", 100);
    let mut high = BTreeMemTable::<64>::new();
    high.insert(b"k", b"old_high", 200);
    store.seal_table(100, low);
    store.seal_table(200, high);

    assert_eq!(store.get_value("k"), Ok(Some("new".into())));
    store.replace_active(BTreeMemTable::<64>::new());
    assert_eq!(store.get_value("k"), Ok(Some("old_high".into())));
}

#[test]
fn sequence_numbers_start_at_zero_and_count_up() {
    let mut store = TestKvStore::new();
    assert_eq!(store.put_value("a", "1"), 0);
    assert_eq!(store.put_value("b", "2"), 1);
    assert_eq!(store.delete_value("a"), Ok((Some(("a".into(), "1".into())), 2)));
    assert_eq!(store.get_next_sequence_number(), 3);
    assert_eq!(store.put_value("c", "3"), 4);
}

#[test]
fn rotation_asks_for_a_flush_once() {
    let mut store = TestKvStore::new();
    store.put_value("key1", "abcdefgh");
    assert_eq!(store.take_flush_command(), None);
    store.put_value("key2", "abcdefgh");
    store.put_value("key3", "abcdefgh");
    assert_eq!(store.take_flush_command(), None);
    let seq = store.put_value("key4", "abcdefgh");
    assert_eq!(store.take_flush_command(), Some(FlushCommand::FlushAll));
    assert_eq!(store.take_flush_command(), None);
    assert_eq!(store.sealed_tables()[0].0, seq);
}

#[test]
fn exact_fill_does_not_rotate_and_the_next_write_does() {
    // three entries of 20 bytes each make up the 60 bytes exactly
    let mut store = KvStore::<60>::new();
    store.put_value("key1", "abcdefgh");
    store.put_value("key2", "abcdefgh");
    store.put_value("key3", "abcdefgh");
    assert_eq!(store.active_table().bytes_used(), 60);
    assert_eq!(store.sealed_tables().len(), 0);
    store.delete_value("k").unwrap();
    assert_eq!(store.sealed_tables().len(), 1);
    assert_eq!(store.active_table().bytes_used(), 9);
}

#[test]
fn get_all_gives_live_entries_of_the_active_table_only() {
    let mut store = TestKvStore::new();
    store.put_value("b", "2");
    store.put_value("a", "1");
    store.put_value("c", "3");
    store.delete_value("b").unwrap();
    let mut sealed = BTreeMemTable::<64>::new();
    sealed.insert(b"z", b"26", 0);
    store.seal_table(9, sealed);
    assert_eq!(
        store.get_all(),
        Ok(vec![("a".to_string(), "1".to_string()), ("c".to_string(), "3".to_string())])
    );
}

#[test]
fn bytes_that_are_no_text_are_rejected() {
    let mut store = TestKvStore::new();
    let mut active = BTreeMemTable::<64>::new();
    active.insert(b"k", &[0xff, 0xfe], 0);
    store.replace_active(active);
    assert_eq!(store.get_value("k"), Err(KvError::InvalidUtf8));
    assert_eq!(store.get(b"k"), Some(&[0xff, 0xfe][..]));
    assert_eq!(store.get_all(), Err(KvError::InvalidUtf8));
    assert_eq!(store.delete_value("k"), Err(KvError::InvalidUtf8));
    assert_eq!(store.get_value("k"), Ok(None));
}

#[test]
fn replay_restores_state_and_sequence_numbers() {
    let mut first = TestKvStore::new();
    let mut log: Vec<LogCommand> = Vec::new();
    let writes = [("key1", Some("abcdefgh")), ("key2", Some("abcdefgh")), ("key1", None),
        ("key3", Some("abcdefgh")), ("key4", Some("abcdefgh")), ("key2", Some("x"))];
    for (key, value) in writes {
        match value {
            Some(value) => {
                let seq_number = first.put_value(key, value);
                log.push(LogCommand::Put { key: key.into(), value: value.into(), seq_number });
            }
            None => {
                let (_, seq_number) = first.delete_value(key).unwrap();
                log.push(LogCommand::Delete { key: key.into(), seq_number });
            }
        }
    }

    let mut second = TestKvStore::new();
    second.replay(&log);

    for key in ["key1", "key2", "key3", "key4", "key5"] {
        assert_eq!(first.get_value(key), second.get_value(key));
    }
    assert_eq!(second.get_value("key2"), Ok(Some("x".into())));
    assert_eq!(second.get_value("key1"), Ok(None));
    assert_eq!(second.sealed_tables().len(), first.sealed_tables().len());
    assert_eq!(second.active_table().flush(), first.active_table().flush());
    assert_eq!(second.get_next_sequence_number(), 6);
    assert_eq!(first.get_next_sequence_number(), 6);
}

#[test]
fn replay_keeps_the_sequence_numbers_of_the_log() {
    let mut store = TestKvStore::new();
    store.replay(&vec![
        LogCommand::Put { key: "a".into(), value: "1".into(), seq_number: 41 },
        LogCommand::Delete { key: "b".into(), seq_number: 7 },
    ]);
    let entries = store.active_table().flush();
    assert_eq!(
        entries,
        vec![(b"a".to_vec(), (Some(b"1".to_vec()), 41)), (b"b".to_vec(), (None, 7))]
    );
    assert_eq!(store.put_value("c", "3"), 42);
}

#[test]
fn flushed_table_is_read_through_the_levels() {
    let mut store = TestKvStore::new();
    store.put_value("key1", "abcdefgh");
    store.put_value("key2", "abcdefgh");
    store.delete_value("key1").unwrap();
    store.put_value("key3", "abcdefgh");
    store.put_value("key4", "abcdefgh");
    assert_eq!(store.take_flush_command(), Some(FlushCommand::FlushAll));

    let results = store.flush_all();
    assert_eq!(results.len(), 1);
    for result in results {
        let flushed = result.unwrap();
        assert_eq!(flushed.id, 4);
        assert_eq!(flushed.table.as_bytes().len(), 4096 + 8);
        store.on_flush_result::<SstError>(Ok(flushed));
    }
    assert_eq!(store.sealed_tables().len(), 0);
    assert_eq!(store.get_value("key2"), Ok(Some("abcdefgh".into())));
    assert_eq!(store.get_value("key3"), Ok(Some("abcdefgh".into())));
    assert_eq!(store.get_value("key4"), Ok(Some("abcdefgh".into())));
    assert_eq!(store.get_value("key1"), Ok(None));
    assert_eq!(store.get_value("key0"), Ok(None));
}

#[test]
fn empty_value_and_tombstone_survive_a_flush() {
    let mut store = KvStore::<16>::new();
    store.put_value("empty", "");
    store.put_value("gone", "x");
    store.delete_value("gone").unwrap();
    store.put_value("last", "1");
    assert_eq!(store.sealed_tables().len(), 3);
    for result in store.flush_all() {
        store.on_flush_result::<SstError>(result);
    }
    assert_eq!(store.sealed_tables().len(), 0);
    assert_eq!(store.get_value("empty"), Ok(Some(String::new())));
    assert_eq!(store.get_value("gone"), Ok(None));
    assert_eq!(store.get_value("last"), Ok(Some("1".into())));
}
