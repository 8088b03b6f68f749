use lsm_kv::persists::memtable::btree_map::BTreeMemTable;
use lsm_kv::persists::memtable::memtable_trait::{LookupResult, MemTable};

type ActiveTestMemTable = BTreeMemTable<128>;

#[test]
fn btree_map_test_insert_and_get() {
    let mut table = ActiveTestMemTable::new();
    table.insert(b"foo", b"bar", 0);

    match table.get(b"foo") {
        LookupResult::Found((val, _)) => assert_eq!(val, b"bar"),
        _ => panic!("Expected Found"),
    }
}

#[test]
fn btree_map_test_delete() {
    let mut table = ActiveTestMemTable::new();
    table.insert(b"foo", b"bar", 0);
    table.delete(b"foo", 1);

    match table.get(b"foo") {
        LookupResult::Deleted(_) => {}
        _ => panic!("Expected Deleted"),
    }
}

#[test]
fn btree_map_test_not_found() {
    let table = ActiveTestMemTable::new();
    assert!(matches!(table.get(b"missing"), LookupResult::NotFound));
}

#[test]
fn test_flush() {
    let mut table = ActiveTestMemTable::new();
    table.insert(b"a", b"1", 0);
    table.insert(b"b", b"2", 1);
    table.delete(b"c", 2);

    let flushed = table.flush();

    assert!(flushed.contains(&(b"a".to_vec(), (Some(b"1".to_vec()), 0))));
    assert!(flushed.contains(&(b"b".to_vec(), (Some(b"2".to_vec()), 1))));
    assert!(flushed.contains(&(b"c".to_vec(), (None, 2))));

    // the table keeps what it holds
    match table.get(b"a") {
        LookupResult::Found((val, seq)) => assert_eq!((val, seq), (&b"1"[..], 0)),
        other => panic!("Expected Found, received {other:?}"),
    }
    assert!(matches!(table.get(b"c"), LookupResult::Deleted(2)));
    assert_eq!(table.bytes_used(), 9 + 10 + 10);
    assert_eq!(table.flush(), flushed);
}

#[test]
fn btree_map_test_test_insert_and_get() {
    let seq_number: u64 = 0;

    let mut table = ActiveTestMemTable::new();
    table.insert(b"foo", b"bar", seq_number);

    match table.get(b"foo") {
        LookupResult::Found((val, _seq_number)) => assert_eq!(val, b"bar"),
        _ => panic!("Expected Found"),
    }
}

#[test]
fn btree_map_test_test_delete() {
    let mut seq_number: u64 = 0;

    let mut table = ActiveTestMemTable::new();
    table.insert(b"foo", b"bar", seq_number);
    seq_number += 1;
    table.delete(b"foo", seq_number);

    match table.get(b"foo") {
        LookupResult::Deleted(_seq_number) => {}
        result => panic!("Expected Deleted, received {result:?}"),
    }
}

#[test]
fn btree_map_test_test_not_found() {
    let table = ActiveTestMemTable::new();
    assert!(matches!(table.get(b"missing"), LookupResult::NotFound));
}

#[test]
fn overwrite_counts_the_new_entry_in_place_of_the_old() {
    let mut table = ActiveTestMemTable::new();
    assert_eq!(ActiveTestMemTable::encoded_len(b"key", b"value"), 16);
    table.insert(b"key", b"value", 1);
    assert_eq!(table.bytes_used(), 16);
    table.insert(b"key", b"longer value", 2);
    assert_eq!(table.bytes_used(), 8 + 3 + 12);
    let previous = table.delete(b"key", 3);
    assert_eq!(previous, Some((Some(b"longer value".to_vec()), 2)));
    assert_eq!(table.bytes_used(), 8 + 3);
    assert_eq!(table.delete(b"other", 4), None);
    assert_eq!(table.bytes_used(), 8 + 3 + 8 + 5);
    table.insert(b"key", b"", 5);
    match table.get(b"key") {
        LookupResult::Found((value, seq)) => assert_eq!((value, seq), (&b""[..], 5)),
        other => panic!("Expected Found, received {other:?}"),
    }
}

#[test]
fn capacity_is_counted_to_the_byte() {
    let mut table = BTreeMemTable::<32>::new();
    assert!(table.has_capacity(32));
    assert!(!table.has_capacity(33));
    table.insert(b"0123456789", b"abcdefghijklmn", 1);
    assert_eq!(table.bytes_used(), 32);
    assert!(table.has_capacity(0));
    assert!(!table.has_capacity(1));
    assert!(!table.has_capacity(usize::MAX));
}

#[test]
fn entries_come_out_in_key_order() {
    let mut table = ActiveTestMemTable::new();
    table.insert(b"b", b"2", 1);
    table.insert(b"a\xff", b"x", 2);
    table.insert(b"a", b"1", 3);
    table.delete(b"ab", 4);
    table.insert(b"", b"empty", 5);
    let keys: Vec<Vec<u8>> = table.flush().into_iter().map(|(key, _)| key).collect();
    assert_eq!(keys, vec![b"".to_vec(), b"a".to_vec(), b"ab".to_vec(), b"a\xff".to_vec(), b"b".to_vec()]);
    assert_eq!(
        table.get_all(),
        vec![
            (b"".to_vec(), b"empty".to_vec()),
            (b"a".to_vec(), b"1".to_vec()),
            (b"a\xff".to_vec(), b"x".to_vec()),
            (b"b".to_vec(), b"2".to_vec()),
        ]
    );
    let all = table.iter_all();
    assert_eq!(all[2], (&b"ab"[..], None));
    assert_eq!(all[4], (&b"b"[..], Some(&b"2"[..])));
    let flushed = table.flush();
    assert_eq!(flushed.len(), 5);
    assert_eq!(table.bytes_used(), 10 + 11 + 10 + 10 + 13);
    assert_eq!(table.flush(), flushed);
}
