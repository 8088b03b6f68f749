use lsm_kv::persists::lsm_tree::compaction::compact;
use lsm_kv::persists::lsm_tree::lsm_manager::{LsmManager, TreeLevel};
use lsm_kv::persists::sst::sorted_string_table::SortedStringTable;
use lsm_kv::persists::sst::sst_writer::SSTableWriter;

type Entry = (Vec<u8>, (Option<Vec<u8>>, u64));

fn build_table(entries: &[Entry]) -> SortedStringTable {
    let file = SSTableWriter::write_to_file(&entries.to_vec(), 4 * 1024).unwrap();
    SortedStringTable::new(file).unwrap()
}

fn keys_and_values(table: &SortedStringTable) -> (Vec<String>, Vec<String>) {
    let mut keys = Vec::new();
    let mut values = Vec::new();
    let mut iter = table.iter();
    while let Some(r) = iter.next() {
        keys.push(String::from_utf8_lossy(r.key).into_owned());
        values.push(String::from_utf8_lossy(r.value).into_owned());
    }
    (keys, values)
}

#[test]
fn compact_keeps_latest_seq() {
    let t1 = build_table(&[
        (b"a".to_vec(), (Some(b"old".to_vec()), 1)),
        (b"b".to_vec(), (Some(b"x".to_vec()), 1)),
    ]);

    let t2 = build_table(&[
        (b"a".to_vec(), (Some(b"new".to_vec()), 2)),
        (b"c".to_vec(), (Some(b"y".to_vec()), 1)),
    ]);

    let out = compact(&vec![t1, t2]).unwrap();
    assert!(out.file_name.starts_with("L0_"));

    let merged = SortedStringTable::new(out.bytes).unwrap();
    let (keys, values) = keys_and_values(&merged);

    assert_eq!(keys, ["a", "b", "c"]);
    assert_eq!(values, ["new", "x", "y"]);
}

#[test]
fn compact_prefers_the_first_table_on_equal_sequence_numbers() {
    let t1 = build_table(&[(b"k".to_vec(), (Some(b"first".to_vec()), 5))]);
    let t2 = build_table(&[(b"k".to_vec(), (Some(b"second".to_vec()), 5))]);
    let t3 = build_table(&[]);
    let out = compact(&vec![t3, t1, t2]).unwrap();
    let merged = SortedStringTable::new(out.bytes).unwrap();
    assert_eq!(keys_and_values(&merged), (vec!["k".to_string()], vec!["first".to_string()]));
    assert_eq!(merged.get(b"k").unwrap().sequence_number, 5);
}

#[test]
fn compact_keeps_tombstones_and_merges_many_tables() {
    let t1 = build_table(&[
        (b"a".to_vec(), (Some(b"1".to_vec()), 1)),
        (b"d".to_vec(), (Some(b"4".to_vec()), 9)),
    ]);
    let t2 = build_table(&[
        (b"a".to_vec(), (None, 3)),
        (b"b".to_vec(), (Some(b"2".to_vec()), 2)),
        (b"d".to_vec(), (Some(b"old".to_vec()), 4)),
    ]);
    let t3 = build_table(&[
        (b"a".to_vec(), (Some(b"stale".to_vec()), 2)),
        (b"c".to_vec(), (Some(b"3".to_vec()), 7)),
    ]);
    let out = compact(&vec![t1, t2, t3]).unwrap();
    let merged = SortedStringTable::new(out.bytes).unwrap();
    let (keys, values) = keys_and_values(&merged);
    assert_eq!(keys, ["a", "b", "c", "d"]);
    assert_eq!(values, ["", "2", "3", "4"]);
    assert_eq!(merged.get(b"a").unwrap().sequence_number, 3);
    assert!(merged.get(b"a").unwrap().tombstone);
    assert!(!merged.get(b"b").unwrap().tombstone);
    assert!(merged.is_sorted());
}

#[test]
fn compact_of_nothing_is_an_empty_table() {
    let out = compact(&Vec::new()).unwrap();
    assert_eq!(out.bytes.len(), 4096 + 8);
    let merged = SortedStringTable::new(out.bytes).unwrap();
    assert!(merged.iter().next().is_none());
}

#[test]
fn level_lookup_returns_the_highest_sequence_number() {
    let older = build_table(&[
        (b"a".to_vec(), (Some(b"old".to_vec()), 1)),
        (b"b".to_vec(), (Some(b"x".to_vec()), 1)),
    ]);
    let newer = build_table(&[(b"a".to_vec(), (Some(b"new".to_vec()), 2))]);
    let mut level = TreeLevel::new(vec![newer]);
    level.add(older);
    assert_eq!(level.len(), 2);
    assert_eq!(level.get_value(b"a").unwrap().value, b"new");
    assert_eq!(level.get_value(b"b").unwrap().value, b"x");
    assert!(level.get_value(b"c").is_none());
}

#[test]
fn manager_asks_the_levels_in_order() {
    let mut manager = LsmManager::new();
    assert!(manager.get_value(b"a").is_none());
    manager.add_table(build_table(&[(b"a".to_vec(), (Some(b"level0".to_vec()), 1))]));
    manager.add_level(TreeLevel::new(vec![build_table(&[
        (b"a".to_vec(), (Some(b"level1".to_vec()), 9)),
        (b"z".to_vec(), (Some(b"deep".to_vec()), 1)),
    ])]));
    assert_eq!(manager.get_value(b"a").unwrap().value, b"level0");
    assert_eq!(manager.get_value(b"z").unwrap().value, b"deep");
    manager.add_table(build_table(&[(b"a".to_vec(), (Some(b"newer".to_vec()), 2))]));
    assert_eq!(manager.get_value(b"a").unwrap().value, b"newer");
}
