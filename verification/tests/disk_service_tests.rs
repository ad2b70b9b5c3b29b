use lsm_kv::disk_service::{DBFIterator, DiskService, FileService};
use lsm_kv::mem_table::MemTable;

/// Seals a small MemTable and returns the data-block file's bytes.
fn sample_dbf() -> Vec<u8> {
    let mut mem = MemTable::new();
    mem.put(b"apple", b"red", 1);
    mem.put(b"banana", b"yellow", 2);
    mem.delete(b"cherry", 3);
    let mut ds = DiskService::new();
    ds.write_mem_table_to_disk(&mem)
}

#[test]
fn dbf_header_holds_smallest_and_largest_key() {
    let bytes = sample_dbf();
    let mut len8 = [0u8; 8];
    len8.copy_from_slice(&bytes[0..8]);
    let min_len = u64::from_le_bytes(len8) as usize;
    len8.copy_from_slice(&bytes[8..16]);
    let max_len = u64::from_le_bytes(len8) as usize;
    assert_eq!(min_len, b"apple".len());
    assert_eq!(max_len, b"cherry".len());
    assert_eq!(&bytes[16..16 + min_len], b"apple");
    assert_eq!(&bytes[16 + min_len..16 + min_len + max_len], b"cherry");
}

#[test]
fn dbf_iterator_yields_records_in_key_order() {
    let bytes = sample_dbf();
    let mut len8 = [0u8; 8];
    len8.copy_from_slice(&bytes[0..8]);
    let min_len = u64::from_le_bytes(len8) as usize;
    len8.copy_from_slice(&bytes[8..16]);
    let max_len = u64::from_le_bytes(len8) as usize;
    let off = 16 + min_len + max_len;

    let mut it = DBFIterator::new(bytes, off);
    let first = it.next().unwrap();
    assert_eq!(first.key, b"apple");
    assert_eq!(first.value.as_ref().unwrap(), b"red");
    assert_eq!(first.timestamp, 1);
    let second = it.next().unwrap();
    assert_eq!(second.key, b"banana");
    let third = it.next().unwrap();
    assert_eq!(third.key, b"cherry");
    assert!(third.deleted);
    assert!(third.value.is_none());
    assert!(it.next().is_none());
}

#[test]
fn parse_and_rebuild_mem_table_from_disk() {
    let bytes = sample_dbf();
    let file = FileService::parse(&bytes).unwrap();
    let mem = file.rebuild_mem_table_from_disk();
    assert_eq!(mem.get(b"apple").unwrap().value.as_ref().unwrap(), b"red");
    assert_eq!(mem.get(b"banana").unwrap().value.as_ref().unwrap(), b"yellow");
    assert!(mem.get(b"cherry").unwrap().deleted);
    assert!(mem.get(b"durian").is_none());
}

#[test]
fn parse_rejects_unsorted_records() {
    // a file whose body is not in ascending key order must be refused
    let mut mem_b = MemTable::new();
    mem_b.put(b"b", b"2", 1);
    let mut mem_a = MemTable::new();
    mem_a.put(b"a", b"1", 2);
    let mut ds = DiskService::new();
    let bytes_b = ds.write_mem_table_to_disk(&mem_b);
    let bytes_a = ds.write_mem_table_to_disk(&mem_a);
    // splice: header of the b-file, body records b then a (out of order)
    let body_a = &bytes_a[16 + 1 + 1..];
    let mut spliced = bytes_b.clone();
    spliced.extend_from_slice(body_a);
    assert!(FileService::parse(&spliced).is_err());
}

#[test]
fn get_prefers_newest_file() {
    let mut ds = DiskService::new();
    let mut old = MemTable::new();
    old.put(b"k", b"old", 1);
    ds.write_mem_table_to_disk(&old);
    let mut newer = MemTable::new();
    newer.put(b"k", b"new", 2);
    ds.write_mem_table_to_disk(&newer);
    let e = ds.get(b"k").unwrap();
    assert_eq!(e.value.as_ref().unwrap(), b"new");
    assert!(ds.get(b"missing").is_none());
}

#[test]
fn range_merges_files_and_suppresses_tombstones() {
    let mut ds = DiskService::new();
    let mut old = MemTable::new();
    old.put(b"a", b"1", 1);
    old.put(b"b", b"2", 2);
    ds.write_mem_table_to_disk(&old);
    let mut newer = MemTable::new();
    newer.delete(b"a", 3);
    newer.put(b"c", b"3", 4);
    ds.write_mem_table_to_disk(&newer);

    let entries = ds.range(b"a", b"z");
    let keys: Vec<&[u8]> = entries.iter().map(|e| e.key.as_slice()).collect();
    assert_eq!(keys, vec![b"b" as &[u8], b"c"]);
    assert_eq!(entries[0].value.as_ref().unwrap(), b"2");
    assert_eq!(entries[1].value.as_ref().unwrap(), b"3");
}

#[test]
fn open_indexes_files_newest_first() {
    let mut ds = DiskService::new();
    let mut old = MemTable::new();
    old.put(b"k", b"old", 1);
    let old_bytes = ds.write_mem_table_to_disk(&old);
    let mut newer = MemTable::new();
    newer.put(b"k", b"new", 2);
    let new_bytes = ds.write_mem_table_to_disk(&newer);

    let blobs = vec![new_bytes, old_bytes];
    let reopened = DiskService::open(&blobs).unwrap();
    assert_eq!(reopened.get(b"k").unwrap().value.as_ref().unwrap(), b"new");
}
