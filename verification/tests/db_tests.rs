use lsm_kv::db::Db;
use lsm_kv::disk_service::DbError;

/// Runs `db.put` and records a sealed data-block file, newest first, the
/// way the shell around the store would persist it.
fn put_tracked(db: &mut Db, blobs: &mut Vec<Vec<u8>>, key: &[u8], value: &[u8]) -> bool {
    let eff = db.put(key, value);
    match eff.new_dbf {
        Some(bytes) => {
            blobs.insert(0, bytes);
            true
        }
        None => false,
    }
}

fn delete_tracked(db: &mut Db, blobs: &mut Vec<Vec<u8>>, key: &[u8]) -> bool {
    let eff = db.delete(key);
    match eff.new_dbf {
        Some(bytes) => {
            blobs.insert(0, bytes);
            true
        }
        None => false,
    }
}

#[test]
fn test_put_get_range() {
    let mut handler_db = Db::new();
    handler_db.put(b"a", b"value-a");
    handler_db.put(b"b", b"value-b");
    handler_db.put(b"a", b"value-a2");
    handler_db.put(b"c", b"value-c");
    handler_db.put(b"d", b"value-d");
    let a = handler_db.get(b"a").unwrap();
    let b = handler_db.get(b"b").unwrap();
    let c = handler_db.get(b"c").unwrap();

    assert_eq!(a, b"value-a2".to_vec());
    assert_eq!(b, b"value-b".to_vec());
    assert_eq!(c, b"value-c".to_vec());

    let test_data_range = vec![b"value-a2".to_vec(), b"value-b".to_vec(), b"value-c".to_vec()];
    let vec_range = handler_db.range(b"a", b"c");

    let mut test_iter = test_data_range.into_iter();
    for val in vec_range {
        assert_eq!(val, test_iter.next().unwrap())
    }
}

#[test]
fn test_close_and_open() {
    let mut handler_db = Db::new();
    handler_db.put(b"a", b"value-a");
    handler_db.put(b"b", b"value-b");
    handler_db.put(b"a", b"value-a2");
    handler_db.put(b"c", b"value-c");
    handler_db.put(b"d", b"value-d");
    let _a = handler_db.get(b"a").unwrap();
    let _b = handler_db.get(b"b").unwrap();
    let _c = handler_db.get(b"c").unwrap();
    let wal_bytes = handler_db.wal_bytes();
    handler_db.close();

    let blobs: Vec<Vec<u8>> = Vec::new();
    let new_handler_db = Db::open(&wal_bytes, &blobs).unwrap();

    let a = new_handler_db.get(b"a").unwrap();
    let b = new_handler_db.get(b"b").unwrap();
    let c = new_handler_db.get(b"c").unwrap();

    assert_eq!(a, b"value-a2".to_vec());
    assert_eq!(b, b"value-b".to_vec());
    assert_eq!(c, b"value-c".to_vec());
}

#[test]
fn overwrites_visible_in_get_and_range() {
    let mut db = Db::new();
    db.put(b"a", b"A1");
    db.put(b"b", b"B");
    db.put(b"a", b"A2");
    db.put(b"c", b"C");
    assert_eq!(db.get(b"a").unwrap(), b"A2".to_vec());
    assert_eq!(db.get(b"b").unwrap(), b"B".to_vec());
    let vals = db.range(b"a", b"c");
    assert_eq!(vals, vec![b"A2".to_vec(), b"B".to_vec(), b"C".to_vec()]);
}

#[test]
fn delete_then_get_not_found_and_range_empty() {
    let mut db = Db::new();
    db.put(b"a", b"A");
    db.delete(b"a");
    assert!(db.get(b"a").is_none());
    assert_eq!(db.range(b"a", b"z"), Vec::<Vec<u8>>::new());
}

#[test]
fn flush_then_reopen_preserves_reads() {
    let mut db = Db::new();
    let mut blobs: Vec<Vec<u8>> = Vec::new();
    let mut keys: Vec<Vec<u8>> = Vec::new();
    let mut flushed = false;
    let mut i = 0u8;
    // populate until the MemTable crosses its threshold and a flush happens
    while !flushed {
        let key = vec![b'k', i];
        let value = vec![b'v'; 20];
        flushed = put_tracked(&mut db, &mut blobs, &key, &value);
        keys.push(key);
        i += 1;
    }
    assert_eq!(blobs.len(), 1);
    put_tracked(&mut db, &mut blobs, b"z", b"Z");
    keys.push(b"z".to_vec());

    let wal_bytes = db.wal_bytes();
    let db2 = Db::open(&wal_bytes, &blobs).unwrap();
    for key in &keys {
        let expected = if key == b"z" { b"Z".to_vec() } else { vec![b'v'; 20] };
        assert_eq!(db2.get(key).unwrap(), expected);
    }
    assert_eq!(db2.get(b"z").unwrap(), b"Z".to_vec());
}

#[test]
fn crash_after_wal_flush_keeps_latest_write() {
    let mut db = Db::new();
    db.put(b"k", b"v");
    db.put(b"k", b"v2");
    // the process dies before any flush to a data-block file: only the WAL
    // bytes survive
    let wal_bytes = db.wal_bytes();
    drop(db);
    let blobs: Vec<Vec<u8>> = Vec::new();
    let db2 = Db::open(&wal_bytes, &blobs).unwrap();
    assert_eq!(db2.get(b"k").unwrap(), b"v2".to_vec());
}

#[test]
fn truncated_wal_tail_is_dropped() {
    let mut db = Db::new();
    db.put(b"k1", b"v1");
    db.put(b"k2", b"v2");
    db.put(b"k3", b"v3");
    let mut wal_bytes = db.wal_bytes();
    wal_bytes.pop(); // lose the last byte of the segment
    let blobs: Vec<Vec<u8>> = Vec::new();
    let db2 = Db::open(&wal_bytes, &blobs).unwrap();
    assert_eq!(db2.get(b"k1").unwrap(), b"v1".to_vec());
    assert_eq!(db2.get(b"k2").unwrap(), b"v2".to_vec());
    assert!(db2.get(b"k3").is_none());
}

#[test]
fn tombstone_in_newer_file_shadows_older_value() {
    let mut db = Db::new();
    let mut blobs: Vec<Vec<u8>> = Vec::new();
    put_tracked(&mut db, &mut blobs, b"a", b"1");
    // force the first flush; the file holds a=1 and the filler
    assert!(put_tracked(&mut db, &mut blobs, b"fill1", &[b'f'; 128]));
    delete_tracked(&mut db, &mut blobs, b"a");
    // force the second flush; the newer file holds the tombstone for a
    assert!(put_tracked(&mut db, &mut blobs, b"fill2", &[b'g'; 128]));
    assert!(db.get(b"a").is_none());
    assert_eq!(db.range(b"a", b"b"), Vec::<Vec<u8>>::new());
    // the same holds after reopening from the persisted bytes
    let wal_bytes = db.wal_bytes();
    let db2 = Db::open(&wal_bytes, &blobs).unwrap();
    assert!(db2.get(b"a").is_none());
    assert_eq!(db2.get(b"fill1").unwrap(), vec![b'f'; 128]);
    assert_eq!(db2.get(b"fill2").unwrap(), vec![b'g'; 128]);
}

#[test]
fn open_rejects_malformed_file() {
    let wal_bytes: Vec<u8> = Vec::new();
    let blobs = vec![vec![1u8, 2, 3]];
    match Db::open(&wal_bytes, &blobs) {
        Err(DbError::MalformedFile) => {}
        Ok(_) => panic!("a malformed data-block file must be rejected"),
    }
}

#[test]
fn range_after_flush_merges_both_layers() {
    let mut db = Db::new();
    let mut blobs: Vec<Vec<u8>> = Vec::new();
    put_tracked(&mut db, &mut blobs, b"a", b"old-a");
    put_tracked(&mut db, &mut blobs, b"b", b"old-b");
    // seal a and b into a file
    assert!(put_tracked(&mut db, &mut blobs, b"fill", &[b'f'; 128]));
    // newer value for a lives only in the MemTable
    put_tracked(&mut db, &mut blobs, b"a", b"new-a");
    let vals = db.range(b"a", b"b");
    assert_eq!(vals, vec![b"new-a".to_vec(), b"old-b".to_vec()]);
}
