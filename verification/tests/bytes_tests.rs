use lsm_kv::persists::bytes::{key_eq, key_lt};
use lsm_kv::persists::sst::table_result::TableResult;
use lsm_kv::persists::wal::{keep_readable, LogCommand};

#[test]
fn keys_are_ordered_byte_by_byte() {
    assert!(key_lt(b"a", b"b"));
    assert!(key_lt(b"", b"a"));
    assert!(key_lt(b"a", b"ab"));
    assert!(key_lt(b"ab", b"b"));
    assert!(key_lt(b"a\x7f", b"a\x80"));
    assert!(!key_lt(b"a", b"a"));
    assert!(!key_lt(b"b", b"a"));
    assert!(!key_lt(b"", b""));
    assert!(key_eq(b"abc", b"abc"));
    assert!(!key_eq(b"abc", b"abd"));
    assert!(!key_eq(b"abc", b"ab"));
}

#[test]
fn merge_order_is_key_ascending_then_sequence_descending() {
    let a1 = TableResult::new(b"a", b"", 1);
    let a2 = TableResult::new(b"a", b"", 2);
    let b1 = TableResult::new(b"b", b"", 1);
    assert!(a2.merges_before(&a1));
    assert!(!a1.merges_before(&a2));
    assert!(a1.merges_before(&b1));
    assert!(!b1.merges_before(&a2));
    assert!(!a1.merges_before(&a1));
    assert!(a1.same_version(&TableResult::new(b"a", b"other", 1)));
    assert!(a1.same_version(&TableResult::deleted(b"a", 1)));
    assert!(!a1.same_version(&a2));
}

#[test]
fn unreadable_lines_of_the_log_are_passed_over() {
    let lines = vec![
        Some(LogCommand::Put { key: "a".into(), value: "1".into(), seq_number: 0 }),
        None,
        Some(LogCommand::Delete { key: "a".into(), seq_number: 1 }),
        None,
    ];
    let kept = keep_readable(lines);
    assert_eq!(kept.len(), 2);
    assert_eq!(kept[0].sequence_number(), 0);
    assert_eq!(kept[1].sequence_number(), 1);
    assert!(matches!(kept[1], LogCommand::Delete { .. }));
    assert!(keep_readable(Vec::new()).is_empty());
}
