use lsm_kv::util::get_timestamp;
use lsm_kv::wal::{WAL, WALIterator};

/// Reads one encoded record at `*pos` and checks every field.
fn check_entry(
    buf: &[u8],
    pos: &mut usize,
    key: &[u8],
    value: Option<&[u8]>,
    timestamp: u128,
    deleted: bool,
) {
    let mut len_buffer = [0u8; 8];
    len_buffer.copy_from_slice(&buf[*pos..*pos + 8]);
    *pos += 8;
    let file_key_len = u64::from_le_bytes(len_buffer) as usize;
    assert_eq!(file_key_len, key.len());

    let file_deleted = buf[*pos] != 0;
    *pos += 1;
    assert_eq!(file_deleted, deleted);

    if deleted {
        let file_key = &buf[*pos..*pos + file_key_len];
        *pos += file_key_len;
        assert_eq!(file_key, key);
    } else {
        len_buffer.copy_from_slice(&buf[*pos..*pos + 8]);
        *pos += 8;
        let file_value_len = u64::from_le_bytes(len_buffer) as usize;
        assert_eq!(file_value_len, value.unwrap().len());
        let file_key = &buf[*pos..*pos + file_key_len];
        *pos += file_key_len;
        assert_eq!(file_key, key);
        let file_value = &buf[*pos..*pos + file_value_len];
        *pos += file_value_len;
        assert_eq!(file_value, value.unwrap());
    }

    let mut timestamp_buffer = [0u8; 16];
    timestamp_buffer.copy_from_slice(&buf[*pos..*pos + 16]);
    *pos += 16;
    let file_timestamp = u128::from_le_bytes(timestamp_buffer);
    assert_eq!(file_timestamp, timestamp);
}

#[test]
fn test_put() {
    let timestamp = get_timestamp();

    let test_value: Vec<(&[u8], Option<&[u8]>)> = vec![
        (b"a", Some(b"value_a")),
        (b"b", Some(b"value_b")),
        (b"a", Some(b"value_a2")),
        (b"c", Some(b"value_c")),
    ];

    let mut wal = WAL::new();

    for val in test_value.iter() {
        wal.put(val.0, val.1.unwrap(), timestamp);
    }

    let bytes = wal.bytes();
    let mut pos = 0usize;
    for val in test_value.iter() {
        check_entry(&bytes, &mut pos, val.0, val.1, timestamp, false);
    }
    assert_eq!(pos, bytes.len());
}

#[test]
fn test_delete() {
    let timestamp = get_timestamp();

    let test_value: Vec<(&[u8], Option<&[u8]>)> = vec![
        (b"a", Some(b"value_a")),
        (b"b", Some(b"value_b")),
        (b"a", Some(b"value_a2")),
        (b"c", Some(b"value_c")),
    ];
    let mut wal = WAL::new();
    for val in test_value.iter() {
        wal.delete(val.0, timestamp);
    }

    let bytes = wal.bytes();
    let mut pos = 0usize;
    for val in test_value.iter() {
        check_entry(&bytes, &mut pos, val.0, None, timestamp, true);
    }
    assert_eq!(pos, bytes.len());
}

#[test]
fn test_read_wal() {
    let test_value: Vec<(&[u8], Option<&[u8]>)> = vec![
        (b"Apple", Some(b"Apple Smoothie")),
        (b"Lime", Some(b"Lime Smoothie")),
        (b"Orange", Some(b"Orange Smoothie")),
    ];

    let mut wal = WAL::new();
    for (i, val) in test_value.iter().enumerate() {
        wal.put(val.0, val.1.unwrap(), i as u128);
    }

    let (new_wal, new_mem_table) = WAL::recover(&wal.bytes());

    let bytes = new_wal.bytes();
    let mut pos = 0usize;
    for (i, e) in test_value.iter().enumerate() {
        check_entry(&bytes, &mut pos, e.0, e.1, i as u128, false);

        let mem_e = new_mem_table.get(e.0).unwrap();
        assert_eq!(mem_e.key, e.0);
        assert_eq!(mem_e.value.as_ref().unwrap().as_slice(), e.1.unwrap());
        assert_eq!(mem_e.timestamp, i as u128);
    }
}

#[test]
fn recover_rewrites_the_same_bytes() {
    let mut wal = WAL::new();
    wal.put(b"a", b"1", 1);
    wal.delete(b"a", 2);
    wal.put(b"b", b"2", 3);
    let before = wal.bytes();
    let (new_wal, mem) = WAL::recover(&before);
    assert_eq!(new_wal.bytes(), before);
    assert!(mem.get(b"a").unwrap().deleted);
    assert_eq!(mem.get(b"b").unwrap().value.as_ref().unwrap(), b"2");
}

#[test]
fn iterator_walks_records_in_order() {
    let mut wal = WAL::new();
    wal.put(b"a", b"x", 7);
    wal.delete(b"b", 8);
    let mut it = WALIterator::new(wal.bytes());
    let first = it.next().unwrap();
    assert_eq!(first.key, b"a");
    assert_eq!(first.value.as_ref().unwrap(), b"x");
    assert_eq!(first.timestamp, 7);
    assert!(!first.deleted);
    let second = it.next().unwrap();
    assert_eq!(second.key, b"b");
    assert!(second.deleted);
    assert!(it.next().is_none());
}

#[test]
fn fresh_empties_the_segment() {
    let mut wal = WAL::new();
    wal.put(b"a", b"x", 1);
    assert!(!wal.bytes().is_empty());
    wal.fresh();
    assert!(wal.bytes().is_empty());
}
