use lsm_kv::mem_table::MemTable;

#[test]
fn test_put_and_get() {
    let mut table = MemTable::new();
    table.put(b"a", b"valueA", 1);
    table.put(b"a", b"valueA-2", 2);
    table.put(b"b", b"valueB", 3);
    table.put(b"c", b"valueC", 4);
    table.put(b"c", b"valueC-2", 5);

    let value_a = table.get(b"a").unwrap();
    let value_b = table.get(b"b").unwrap();
    let value_c = table.get(b"c").unwrap();

    assert_eq!(value_a.value.as_ref().unwrap(), b"valueA-2");
    assert_eq!(value_b.value.as_ref().unwrap(), b"valueB");
    assert_eq!(value_c.value.as_ref().unwrap(), b"valueC-2");
    let a = table.range(b"a", b"c");
    for aa in &a {
        println!("{}", aa.timestamp);
    }
}

#[test]
fn range_is_sorted_and_inclusive() {
    let mut table = MemTable::new();
    table.put(b"d", b"4", 4);
    table.put(b"b", b"2", 2);
    table.put(b"a", b"1", 1);
    table.put(b"c", b"3", 3);
    let entries = table.range(b"b", b"d");
    let keys: Vec<&[u8]> = entries.iter().map(|e| e.key.as_slice()).collect();
    assert_eq!(keys, vec![b"b" as &[u8], b"c", b"d"]);
}

#[test]
fn delete_stores_tombstone() {
    let mut table = MemTable::new();
    table.put(b"k", b"v", 1);
    table.delete(b"k", 2);
    let e = table.get(b"k").unwrap();
    assert!(e.deleted);
    assert!(e.value.is_none());
    assert_eq!(e.timestamp, 2);
    // tombstones still appear in range scans
    assert_eq!(table.range(b"a", b"z").len(), 1);
}

#[test]
fn size_accounting_reaches_threshold_exactly() {
    // one entry accounts for key_len + value_len + 16 (timestamp) + 1 (tombstone)
    let mut table = MemTable::new();
    table.put(b"k", &[7u8; 109], 1); // 1 + 109 + 17 = 127
    assert!(!table.is_over_weight());
    table.put(b"k", &[7u8; 110], 2); // 1 + 110 + 17 = 128
    assert!(table.is_over_weight());
}

#[test]
fn delete_of_large_value_shrinks_size() {
    let mut table = MemTable::new();
    table.put(b"k", &[7u8; 200], 1);
    assert!(table.is_over_weight());
    table.delete(b"k", 2); // entry shrinks to 1 + 17 = 18 accounted bytes
    assert!(!table.is_over_weight());
}

#[test]
fn clear_and_is_empty() {
    let mut table = MemTable::new();
    assert!(table.is_empty());
    table.put(b"a", b"1", 1);
    assert!(!table.is_empty());
    table.clear();
    assert!(table.is_empty());
    assert!(table.get(b"a").is_none());
}

#[test]
fn iter_yields_ascending_records() {
    let mut table = MemTable::new();
    table.put(b"b", b"2", 2);
    table.put(b"a", b"1", 1);
    table.delete(b"c", 3);
    let all = table.iter();
    assert_eq!(all.len(), 3);
    assert_eq!(all[0].key, b"a");
    assert_eq!(all[1].key, b"b");
    assert_eq!(all[2].key, b"c");
    assert!(all[2].deleted);
}
