//! The DB facade: sequences the MemTable, the write-ahead log and the disk
//! service so that an acknowledged write is in the MemTable and durable in
//! the WAL, reads resolve newest-wins with tombstones suppressed, and a
//! restart rebuilds the MemTable from the WAL without losing or
//! double-applying records.
//!
//! The facade works over byte buffers.  Each write returns the bytes that
//! must reach the WAL segment file (and, after a flush, the bytes of the new
//! data-block file); opening takes the WAL segment's bytes and every
//! data-block file's bytes, newest first.

use vstd::prelude::*;

use crate::codec::{lemma_dec_stream_of_enc_exact, spec_dec_stream, spec_enc_record,
    spec_enc_stream};
use crate::disk_service::{
    combine, disk_lookup, disk_winner, drop_tombstones, file_view_wf, lemma_disk_lookup_char, lemma_disk_range_props, lemma_disk_winner_char,
    lemma_filter_range_props, lemma_merge_props, lemma_suppress_props, merge_newest,
    spec_dbf_valid, spec_dbf_view, spec_disk_range, spec_merge, suppress_tombstones, DbError,
    DiskService, FileView,
};
use crate::mem_table::{
    clone_bytes, filter_range, find_rec, has_key, has_rec, in_range, lemma_find_rec_char,
    lemma_find_rec_present, lemma_replay_find_snoc, rec_valid, replay_find, sorted_by_key,
    table_size, MemTable, MemTableEntry, RecordView, MEM_TABLE_MAX_SIZE,
};
use crate::util::get_timestamp;
use crate::wal::WAL;

verus! {

/// Longest key the store accepts, in bytes.
pub const MAX_KEY_SIZE: usize = 128;

/// A key is non-empty and no longer than `MAX_KEY_SIZE`.
pub open spec fn key_ok(k: Seq<u8>) -> bool {
    1 <= k.len() <= MAX_KEY_SIZE
}

/// Model of the whole store: the MemTable's records, the records the active
/// WAL segment holds, the sealed files newest-first, and the clock that
/// stamped the last write.
#[verifier::ext_equal]
pub ghost struct DbView {
    pub mem: Seq<RecordView>,
    pub wal: Seq<RecordView>,
    pub files: Seq<FileView>,
    pub clock: u128,
}

/// Structural well-formedness of the model, as the store maintains it: the
/// MemTable is sorted, every file is well formed, and replaying the WAL
/// yields exactly the MemTable.
pub open spec fn view_wf(v: DbView) -> bool {
    &&& sorted_by_key(v.mem)
    &&& forall|i: int| 0 <= i < v.mem.len() ==> rec_valid(#[trigger] v.mem[i])
    &&& forall|i: int| 0 <= i < v.wal.len() ==> rec_valid(#[trigger] v.wal[i])
    &&& forall|i: int| 0 <= i < v.files.len() ==> file_view_wf(#[trigger] v.files[i])
    &&& forall|k: Seq<u8>| #[trigger] replay_find(v.wal, k) == find_rec(v.mem, k)
}

/// What a point read returns before interpreting tombstones: the MemTable's
/// record if it has one, else the newest file that holds the key.
pub open spec fn lookup(v: DbView, k: Seq<u8>) -> Option<RecordView> {
    match find_rec(v.mem, k) {
        Some(r) => Some(r),
        None => disk_lookup(v.files, k),
    }
}

/// The value a point read yields: `None` for an absent key and for a
/// tombstone alike.
pub open spec fn lookup_value(v: DbView, k: Seq<u8>) -> Option<Seq<u8>> {
    match lookup(v, k) {
        Some(r) => r.value,
        None => None,
    }
}

/// The record with the greatest timestamp for `k` anywhere in the store,
/// ties resolved towards the fresher source (MemTable, then newer files).
pub open spec fn fresh_entry(v: DbView, k: Seq<u8>) -> Option<RecordView> {
    combine(find_rec(v.mem, k), disk_winner(v.files, k))
}

/// Every stored timestamp is at or below the clock.
pub open spec fn clock_covers(v: DbView) -> bool {
    &&& forall|i: int| 0 <= i < v.mem.len() ==> #[trigger] v.mem[i].timestamp <= v.clock
    &&& forall|i: int, j: int|
        0 <= i < v.files.len() && 0 <= j < v.files[i].records.len()
            ==> #[trigger] v.files[i].records[j].timestamp <= v.clock
}

/// Timestamps order the store's layers: for any key, the MemTable's record
/// is at least as new as any file's, and a newer file's at least as new as
/// any older file's.
pub open spec fn ts_coherent(v: DbView) -> bool {
    &&& forall|k: Seq<u8>, i: int|
        0 <= i < v.files.len() ==> match (
            find_rec(v.mem, k),
            #[trigger] find_rec(v.files[i].records, k),
        ) {
            (Some(m), Some(d)) => d.timestamp <= m.timestamp,
            _ => true,
        }
    &&& forall|k: Seq<u8>, i: int, j: int|
        0 <= i < j < v.files.len() ==> match (
            #[trigger] find_rec(v.files[i].records, k),
            #[trigger] find_rec(v.files[j].records, k),
        ) {
            (Some(ni), Some(nj)) => nj.timestamp <= ni.timestamp,
            _ => true,
        }
}

/// Timestamp well-formedness: layers are coherent and the clock dominates.
pub open spec fn ts_wf(v: DbView) -> bool {
    clock_covers(v) && ts_coherent(v)
}

/// A record the store holds somewhere, MemTable or any file.
pub open spec fn record_in_db(v: DbView, r: RecordView) -> bool {
    has_rec(v.mem, r) || exists|i: int| 0 <= i < v.files.len() && has_rec(
        #[trigger] v.files[i].records,
        r,
    )
}

/// The records a range scan returns: MemTable and files merged newest-wins
/// over the inclusive key range, tombstones suppressed.
pub open spec fn spec_db_range(v: DbView, lo: Seq<u8>, hi: Seq<u8>) -> Seq<RecordView> {
    suppress_tombstones(
        spec_merge(filter_range(v.mem, lo, hi), spec_disk_range(v.files, lo, hi)),
    )
}

pub open spec fn spec_record_value(r: RecordView) -> Seq<u8> {
    match r.value {
        Some(v) => v,
        None => Seq::empty(),
    }
}

/// What a write asks of the surrounding shell: `wal_append` must be
/// appended to the active WAL segment file and flushed; when `new_dbf` is
/// set, the write sealed the MemTable, and those bytes are the new
/// data-block file, after whose sync the old WAL segment file is replaced
/// by a fresh empty one.
pub struct WriteEffect {
    pub wal_append: Vec<u8>,
    pub new_dbf: Option<Vec<u8>>,
}

/// The store.
pub struct Db {
    mem_table: MemTable,
    wal: WAL,
    disk_service: DiskService,
    clock: u128,
}

impl View for Db {
    type V = DbView;

    closed spec fn view(&self) -> DbView {
        DbView {
            mem: self.mem_table@,
            wal: self.wal@,
            files: self.disk_service@,
            clock: self.clock,
        }
    }
}

impl Db {
    pub closed spec fn wf(&self) -> bool {
        &&& self.mem_table.wf()
        &&& self.wal.wf()
        &&& self.disk_service.wf()
        &&& view_wf(self@)
    }

    pub proof fn lemma_wf_facts(&self)
        requires
            self.wf(),
        ensures
            view_wf(self@),
            table_size(self@.mem) <= usize::MAX,
    {
        self.mem_table.lemma_wf_facts();
    }

    /// An empty store.
    pub fn new() -> (db: Db)
        ensures
            db.wf(),
            db@.mem == Seq::<RecordView>::empty(),
            db@.wal == Seq::<RecordView>::empty(),
            db@.files == Seq::<FileView>::empty(),
            db@.clock == 0,
            ts_wf(db@),
            forall|k: Seq<u8>| #[trigger] lookup(db@, k) is None,
    {
        let db = Db {
            mem_table: MemTable::new(),
            wal: WAL::new(),
            disk_service: DiskService::new(),
            clock: 0,
        };
        db
    }

    /// Stamps the next write: strictly after every earlier one (wall clock
    /// permitting, never before it), saturating only at the clock type's
    /// end.
    fn next_timestamp(&mut self) -> (ts: u128)
        ensures
            final(self)@.clock == ts,
            old(self)@.clock <= ts,
            old(self)@.clock < u128::MAX ==> old(self)@.clock < ts,
            final(self)@.mem == old(self)@.mem,
            final(self)@.wal == old(self)@.wal,
            final(self)@.files == old(self)@.files,
            final(self).mem_table == old(self).mem_table,
            final(self).wal == old(self).wal,
            final(self).disk_service == old(self).disk_service,
    {
        let now = get_timestamp();
        let ts = if now > self.clock {
            now
        } else if self.clock == u128::MAX {
            u128::MAX
        } else {
            self.clock + 1
        };
        self.clock = ts;
        ts
    }

    /// Writes `value` under `key`: the record is appended to the WAL, made
    /// visible in the MemTable, and, when the MemTable has crossed its
    /// threshold, sealed with it into a new data-block file.  A read of
    /// `key` now yields `value`; no other key changed.
    pub fn put(&mut self, key: &[u8], value: &[u8]) -> (eff: WriteEffect)
        requires
            old(self).wf(),
            key_ok(key@),
            table_size(old(self)@.mem) + key@.len() + value@.len() + 17 <= usize::MAX,
        ensures
            final(self).wf(),
            lookup(final(self)@, key@) == Some(
                RecordView { key: key@, value: Some(value@), timestamp: final(self)@.clock },
            ),
            lookup_value(final(self)@, key@) == Some(value@),
            forall|k: Seq<u8>|
                k != key@ ==> #[trigger] lookup(final(self)@, k) == lookup(old(self)@, k),
            forall|k: Seq<u8>|
                k != key@ ==> #[trigger] fresh_entry(final(self)@, k) == fresh_entry(
                    old(self)@,
                    k,
                ),
            old(self)@.clock <= final(self)@.clock,
            old(self)@.clock < u128::MAX ==> old(self)@.clock < final(self)@.clock,
            ts_wf(old(self)@) ==> ts_wf(final(self)@) && fresh_entry(final(self)@, key@) == Some(
                RecordView { key: key@, value: Some(value@), timestamp: final(self)@.clock },
            ),
            eff.wal_append@ == spec_enc_record(
                RecordView { key: key@, value: Some(value@), timestamp: final(self)@.clock },
            ),
            match eff.new_dbf {
                None => {
                    &&& final(self)@.wal == old(self)@.wal.push(
                        RecordView {
                            key: key@,
                            value: Some(value@),
                            timestamp: final(self)@.clock,
                        },
                    )
                    &&& final(self)@.files == old(self)@.files
                    &&& table_size(final(self)@.mem) < MEM_TABLE_MAX_SIZE
                },
                Some(bytes) => {
                    &&& spec_dbf_valid(bytes@)
                    &&& final(self)@.wal == Seq::<RecordView>::empty()
                    &&& final(self)@.mem == Seq::<RecordView>::empty()
                    &&& final(self)@.files == seq![spec_dbf_view(bytes@)] + old(self)@.files
                },
            },
    {
        let ts = self.next_timestamp();
        let ghost rec = RecordView { key: key@, value: Some(value@), timestamp: ts };
        let wal_append = self.wal.put(key, value, ts);
        self.mem_table.put(key, value, ts);
        proof {
            self.lemma_after_write(*old(self), rec);
        }
        if self.mem_table.is_over_weight() {
            let dbf = self.disk_service.write_mem_table_to_disk(&self.mem_table);
            self.wal.fresh();
            self.mem_table.clear();
            proof {
                assert(self@.files.skip(1) =~= old(self)@.files);
                self.lemma_after_flush(*old(self), rec);
            }
            WriteEffect { wal_append, new_dbf: Some(dbf) }
        } else {
            WriteEffect { wal_append, new_dbf: None }
        }
    }

    /// Deletes `key` by writing a tombstone: appended to the WAL, visible
    /// in the MemTable, flushed with it like any record.  A read of `key`
    /// now yields not-found; no other key changed.
    pub fn delete(&mut self, key: &[u8]) -> (eff: WriteEffect)
        requires
            old(self).wf(),
            key_ok(key@),
            table_size(old(self)@.mem) + key@.len() + 17 <= usize::MAX,
        ensures
            final(self).wf(),
            lookup(final(self)@, key@) == Some(
                RecordView { key: key@, value: None, timestamp: final(self)@.clock },
            ),
            lookup_value(final(self)@, key@) is None,
            forall|k: Seq<u8>|
                k != key@ ==> #[trigger] lookup(final(self)@, k) == lookup(old(self)@, k),
            forall|k: Seq<u8>|
                k != key@ ==> #[trigger] fresh_entry(final(self)@, k) == fresh_entry(
                    old(self)@,
                    k,
                ),
            old(self)@.clock <= final(self)@.clock,
            old(self)@.clock < u128::MAX ==> old(self)@.clock < final(self)@.clock,
            ts_wf(old(self)@) ==> ts_wf(final(self)@) && fresh_entry(final(self)@, key@) == Some(
                RecordView { key: key@, value: None, timestamp: final(self)@.clock },
            ),
            eff.wal_append@ == spec_enc_record(
                RecordView { key: key@, value: None, timestamp: final(self)@.clock },
            ),
            match eff.new_dbf {
                None => {
                    &&& final(self)@.wal == old(self)@.wal.push(
                        RecordView { key: key@, value: None, timestamp: final(self)@.clock },
                    )
                    &&& final(self)@.files == old(self)@.files
                    &&& table_size(final(self)@.mem) < MEM_TABLE_MAX_SIZE
                },
                Some(bytes) => {
                    &&& spec_dbf_valid(bytes@)
                    &&& final(self)@.wal == Seq::<RecordView>::empty()
                    &&& final(self)@.mem == Seq::<RecordView>::empty()
                    &&& final(self)@.files == seq![spec_dbf_view(bytes@)] + old(self)@.files
                },
            },
    {
        let ts = self.next_timestamp();
        let ghost rec = RecordView { key: key@, value: None, timestamp: ts };
        let wal_append = self.wal.delete(key, ts);
        self.mem_table.delete(key, ts);
        proof {
            self.lemma_after_write(*old(self), rec);
        }
        if self.mem_table.is_over_weight() {
            let dbf = self.disk_service.write_mem_table_to_disk(&self.mem_table);
            self.wal.fresh();
            self.mem_table.clear();
            proof {
                assert(self@.files.skip(1) =~= old(self)@.files);
                self.lemma_after_flush(*old(self), rec);
            }
            WriteEffect { wal_append, new_dbf: Some(dbf) }
        } else {
            WriteEffect { wal_append, new_dbf: None }
        }
    }

    /// State after the WAL append and MemTable update of one write, before
    /// any flush: the one key changed, everything else as it was.
    proof fn lemma_after_write(&self, pre: Db, rec: RecordView)
        requires
            pre.wf(),
            self.mem_table.wf(),
            self.wal.wf(),
            self.disk_service == pre.disk_service,
            self@.files == pre@.files,
            self@.wal == pre@.wal.push(rec),
            find_rec(self@.mem, rec.key) == Some(rec),
            forall|k: Seq<u8>| k != rec.key ==> find_rec(self@.mem, k) == find_rec(pre@.mem, k),
            forall|i: int|
                0 <= i < self@.mem.len() ==> self@.mem[i] == rec || has_rec(
                    pre@.mem,
                    #[trigger] self@.mem[i],
                ),
            pre@.clock <= self@.clock,
            rec.timestamp == self@.clock,
        ensures
            self.wf(),
            lookup(self@, rec.key) == Some(rec),
            forall|k: Seq<u8>| k != rec.key ==> #[trigger] lookup(self@, k) == lookup(pre@, k),
            forall|k: Seq<u8>|
                k != rec.key ==> #[trigger] fresh_entry(self@, k) == fresh_entry(pre@, k),
            ts_wf(pre@) ==> ts_wf(self@) && fresh_entry(self@, rec.key) == Some(rec),
    {
        self.mem_table.lemma_wf_facts();
        self.wal.lemma_wf_facts();
        assert forall|k: Seq<u8>| #[trigger] replay_find(self@.wal, k) == find_rec(
            self@.mem,
            k,
        ) by {
            lemma_replay_find_snoc(pre@.wal, rec, k);
        }
        if ts_wf(pre@) {
            assert(clock_covers(self@)) by {
                assert forall|i: int| 0 <= i < self@.mem.len()
                    implies #[trigger] self@.mem[i].timestamp <= self@.clock by {
                    if self@.mem[i] != rec {
                        let j = choose|j: int|
                            0 <= j < pre@.mem.len() && pre@.mem[j] == self@.mem[i];
                        assert(pre@.mem[j].timestamp <= pre@.clock);
                    }
                }
            }
            assert(ts_coherent(self@)) by {
                assert forall|k: Seq<u8>, i: int| 0 <= i < self@.files.len() implies match (
                    find_rec(self@.mem, k),
                    #[trigger] find_rec(self@.files[i].records, k),
                ) {
                    (Some(m), Some(d)) => d.timestamp <= m.timestamp,
                    _ => true,
                } by {
                    if k == rec.key {
                        match find_rec(self@.files[i].records, k) {
                            Some(d) => {
                                lemma_find_rec_char(self@.files[i].records, k);
                                let j = choose|j: int|
                                    0 <= j < self@.files[i].records.len()
                                        && self@.files[i].records[j] == d;
                                assert(d.timestamp <= pre@.clock);
                            },
                            None => {},
                        }
                    }
                }
            }
            assert(fresh_entry(self@, rec.key) == Some(rec)) by {
                lemma_disk_winner_char(self@.files, rec.key);
                match disk_winner(self@.files, rec.key) {
                    Some(w) => {
                        let i = choose|i: int|
                            0 <= i < self@.files.len() && #[trigger] find_rec(
                                self@.files[i].records,
                                rec.key,
                            ) == Some(w);
                        lemma_find_rec_char(self@.files[i].records, rec.key);
                        let j = choose|j: int|
                            0 <= j < self@.files[i].records.len() && self@.files[i].records[j]
                                == w;
                        assert(w.timestamp <= pre@.clock);
                    },
                    None => {},
                }
            }
        }
    }

    /// State after a flush that followed a write: the MemTable and WAL are
    /// empty, the sealed records stand in the newest file, and no read
    /// changed.
    proof fn lemma_after_flush(&self, pre: Db, rec: RecordView)
        requires
            self.mem_table.wf(),
            self.wal.wf(),
            self.disk_service.wf(),
            self@.mem == Seq::<RecordView>::empty(),
            self@.wal == Seq::<RecordView>::empty(),
            self@.files.len() >= 1,
            pre.wf(),
            pre@.clock <= self@.clock,
            rec.timestamp == self@.clock,
            // what the write had established just before the flush
            self@.files[0].records.len() >= 1,
            find_rec(self@.files[0].records, rec.key) == Some(rec),
            forall|k: Seq<u8>|
                k != rec.key ==> find_rec(self@.files[0].records, k) == find_rec(pre@.mem, k),
            forall|i: int|
                0 <= i < self@.files[0].records.len() ==> self@.files[0].records[i] == rec
                    || has_rec(pre@.mem, #[trigger] self@.files[0].records[i]),
            self@.files.skip(1) == pre@.files,
        ensures
            self.wf(),
            lookup(self@, rec.key) == Some(rec),
            forall|k: Seq<u8>| k != rec.key ==> #[trigger] lookup(self@, k) == lookup(pre@, k),
            forall|k: Seq<u8>|
                k != rec.key ==> #[trigger] fresh_entry(self@, k) == fresh_entry(pre@, k),
            ts_wf(pre@) ==> ts_wf(self@) && fresh_entry(self@, rec.key) == Some(rec),
    {
        let v = self@;
        let fv = v.files[0];
        assert(v.files[0] == v.files.first());
        assert forall|i: int| 0 <= i < v.files.len() implies file_view_wf(
            #[trigger] v.files[i],
        ) by {
            if i > 0 {
                assert(v.files.skip(1)[i - 1] == v.files[i]);
            } else {
                self.disk_service.lemma_wf_facts();
            }
        }
        assert(lookup(v, rec.key) == Some(rec)) by {
            assert(find_rec(v.mem, rec.key) is None);
            assert(disk_lookup(v.files, rec.key) == Some(rec)) by {
                assert(v.files.skip(1) == pre@.files);
            }
        }
        assert forall|k: Seq<u8>| k != rec.key implies #[trigger] lookup(v, k) == lookup(
            pre@,
            k,
        ) by {
            assert(find_rec(v.mem, k) is None);
            assert(disk_lookup(v.files, k) == match find_rec(fv.records, k) {
                Some(r) => Some(r),
                None => disk_lookup(pre@.files, k),
            });
        }
        assert forall|k: Seq<u8>| k != rec.key implies #[trigger] fresh_entry(v, k)
            == fresh_entry(pre@, k) by {
            assert(disk_winner(v.files, k) == combine(
                find_rec(fv.records, k),
                disk_winner(pre@.files, k),
            ));
            assert(find_rec(fv.records, k) == find_rec(pre@.mem, k));
        }
        if ts_wf(pre@) {
            assert(clock_covers(v)) by {
                assert forall|i: int, j: int|
                    0 <= i < v.files.len() && 0 <= j < v.files[i].records.len()
                    implies #[trigger] v.files[i].records[j].timestamp <= v.clock by {
                    if i == 0 {
                        if v.files[0].records[j] != rec {
                            let t = choose|t: int|
                                0 <= t < pre@.mem.len() && pre@.mem[t] == v.files[0].records[j];
                            assert(pre@.mem[t].timestamp <= pre@.clock);
                        }
                    } else {
                        assert(v.files.skip(1)[i - 1] == v.files[i]);
                        assert(pre@.files[i - 1].records[j].timestamp <= pre@.clock);
                    }
                }
            }
            assert(ts_coherent(v)) by {
                assert forall|k: Seq<u8>, i: int, j: int| 0 <= i < j < v.files.len()
                    implies match (
                    #[trigger] find_rec(v.files[i].records, k),
                    #[trigger] find_rec(v.files[j].records, k),
                ) {
                    (Some(ni), Some(nj)) => nj.timestamp <= ni.timestamp,
                    _ => true,
                } by {
                    assert(v.files.skip(1)[j - 1] == v.files[j]);
                    if i == 0 {
                        match (find_rec(fv.records, k), find_rec(v.files[j].records, k)) {
                            (Some(ni), Some(nj)) => {
                                if k == rec.key {
                                    assert(ni == rec);
                                    lemma_find_rec_char(v.files[j].records, k);
                                    let t = choose|t: int|
                                        0 <= t < v.files[j].records.len()
                                            && v.files[j].records[t] == nj;
                                    assert(nj.timestamp <= pre@.clock);
                                } else {
                                    assert(find_rec(pre@.mem, k) == Some(ni));
                                }
                            },
                            _ => {},
                        }
                    } else {
                        assert(v.files.skip(1)[i - 1] == v.files[i]);
                    }
                }
            }
            assert(fresh_entry(v, rec.key) == Some(rec)) by {
                assert(find_rec(v.mem, rec.key) is None);
                assert(disk_winner(v.files, rec.key) == combine(
                    Some(rec),
                    disk_winner(pre@.files, rec.key),
                ));
                lemma_disk_winner_char(pre@.files, rec.key);
                match disk_winner(pre@.files, rec.key) {
                    Some(w) => {
                        let i = choose|i: int|
                            0 <= i < pre@.files.len() && #[trigger] find_rec(
                                pre@.files[i].records,
                                rec.key,
                            ) == Some(w);
                        lemma_find_rec_char(pre@.files[i].records, rec.key);
                        let j = choose|j: int|
                            0 <= j < pre@.files[i].records.len() && pre@.files[i].records[j]
                                == w;
                        assert(w.timestamp <= pre@.clock);
                    },
                    None => {},
                }
            }
        }
    }

    /// Point read: the MemTable first; on a miss, the files newest-first.
    /// A tombstone anywhere yields not-found without consulting older
    /// layers.
    pub fn get(&self, key: &[u8]) -> (r: Option<Vec<u8>>)
        requires
            self.wf(),
        ensures
            match r {
                Some(v) => lookup_value(self@, key@) == Some(v@),
                None => lookup_value(self@, key@) is None,
            },
    {
        match self.mem_table.get(key) {
            Some(e) => {
                if e.deleted {
                    return None;
                }
                match e.value {
                    Some(v) => Some(v),
                    None => {
                        proof {
                            assert(false);
                        }
                        None
                    },
                }
            },
            None => {
                match self.disk_service.get(key) {
                    Some(e) => {
                        if e.deleted {
                            return None;
                        }
                        match e.value {
                            Some(v) => Some(v),
                            None => {
                                proof {
                                    assert(false);
                                }
                                None
                            },
                        }
                    },
                    None => None,
                }
            },
        }
    }

    /// Range scan over the inclusive key range: for every live key the
    /// newest value, ascending by key.
    #[verifier::loop_isolation(false)]
    pub fn range(&self, min_key: &[u8], max_key: &[u8]) -> (vals: Vec<Vec<u8>>)
        requires
            self.wf(),
        ensures
            vals@.map_values(|v: Vec<u8>| v@) == spec_db_range(self@, min_key@, max_key@)
                .map_values(|r: RecordView| spec_record_value(r)),
    {
        let mem_entries = self.mem_table.range(min_key, max_key);
        let disk_entries = self.disk_service.range_entries(min_key, max_key);
        let merged = merge_newest(mem_entries, disk_entries);
        let kept = drop_tombstones(merged);
        let ghost krecs = spec_db_range(self@, min_key@, max_key@);
        proof {
            assert(kept@.map_values(|e: MemTableEntry| e@) == krecs);
        }
        let mut vals: Vec<Vec<u8>> = Vec::new();
        let mut i: usize = 0;
        let n = kept.len();
        proof {
            assert(vals@.map_values(|v: Vec<u8>| v@) =~= krecs.take(0).map_values(
                |r: RecordView| spec_record_value(r),
            ));
        }
        while i < n
            invariant
                i <= n,
                n == kept@.len(),
                vals@.map_values(|v: Vec<u8>| v@) == krecs.take(i as int).map_values(
                    |r: RecordView| spec_record_value(r),
                ),
            decreases n - i,
        {
            let ghost pre = vals@.map_values(|v: Vec<u8>| v@);
            proof {
                assert(kept@[i as int]@ == krecs[i as int]);
            }
            match &kept[i].value {
                Some(v) => {
                    vals.push(clone_bytes(v.as_slice()));
                },
                None => {
                    vals.push(Vec::new());
                },
            }
            proof {
                assert(vals@.map_values(|v: Vec<u8>| v@) =~= pre.push(
                    spec_record_value(krecs[i as int]),
                ));
                assert(krecs.take(i + 1).map_values(|r: RecordView| spec_record_value(r))
                    =~= krecs.take(i as int).map_values(|r: RecordView| spec_record_value(r)).push(
                    spec_record_value(krecs[i as int]),
                ));
            }
            i = i + 1;
        }
        proof {
            assert(krecs.take(n as int) =~= krecs);
        }
        vals
    }

    /// The active WAL segment's bytes, as the shell must hold them on disk.
    pub fn wal_bytes(&self) -> (b: Vec<u8>)
        requires
            self.wf(),
        ensures
            b@ == spec_enc_stream(self@.wal),
    {
        self.wal.bytes()
    }

    /// Releases the store.  All effects were surfaced at each write; there
    /// is nothing left to flush.
    pub fn close(self) {
    }

    /// Reopens a store from the active WAL segment's bytes and the bytes of
    /// every data-block file, newest first: the files are indexed, the WAL
    /// is replayed into a fresh MemTable (a truncated tail dropped
    /// silently) and rewritten, and the clock restarts past every stored
    /// timestamp.
    pub fn open(wal_bytes: &Vec<u8>, dbf_blobs: &Vec<Vec<u8>>) -> (r: Result<Db, DbError>)
        ensures
            match r {
                Ok(db) => {
                    &&& db.wf()
                    &&& db@.files.len() == dbf_blobs@.len()
                    &&& forall|i: int|
                        0 <= i < dbf_blobs@.len() ==> spec_dbf_valid(#[trigger] dbf_blobs@[i]@)
                    &&& forall|i: int|
                        0 <= i < dbf_blobs@.len() ==> db@.files[i] == spec_dbf_view(
                            #[trigger] dbf_blobs@[i]@,
                        )
                    &&& db@.wal == spec_dec_stream(wal_bytes@)
                    &&& forall|k: Seq<u8>|
                        #[trigger] find_rec(db@.mem, k) == replay_find(
                            spec_dec_stream(wal_bytes@),
                            k,
                        )
                    &&& table_size(db@.mem) <= wal_bytes@.len()
                    &&& clock_covers(db@)
                    &&& ts_coherent(db@) ==> ts_wf(db@)
                },
                Err(_) => exists|i: int|
                    0 <= i < dbf_blobs@.len() && !spec_dbf_valid(#[trigger] dbf_blobs@[i]@),
            },
    {
        let disk_service = match DiskService::open(dbf_blobs) {
            Ok(d) => d,
            Err(e) => {
                return Err(e);
            },
        };
        let (wal, mem_table) = WAL::recover(wal_bytes);
        let disk_max = disk_service.max_timestamp();
        let mem_max = Self::mem_max_timestamp(&mem_table);
        let clock = if disk_max > mem_max {
            disk_max
        } else {
            mem_max
        };
        let db = Db { mem_table, wal, disk_service, clock };
        proof {
            db.mem_table.lemma_wf_facts();
            db.wal.lemma_wf_facts();
            db.disk_service.lemma_wf_facts();
        }
        Ok(db)
    }

    /// The greatest timestamp in the table, or zero when it is empty.
    #[verifier::loop_isolation(false)]
    fn mem_max_timestamp(mem_table: &MemTable) -> (m: u128)
        requires
            mem_table.wf(),
        ensures
            forall|i: int| 0 <= i < mem_table@.len() ==> #[trigger] mem_table@[i].timestamp <= m,
    {
        let entries = mem_table.iter();
        let mut m: u128 = 0;
        let mut i: usize = 0;
        let n = entries.len();
        while i < n
            invariant
                i <= n,
                n == entries@.len(),
                forall|t: int| 0 <= t < i ==> #[trigger] entries@[t]@.timestamp <= m,
            decreases n - i,
        {
            if entries[i].timestamp > m {
                m = entries[i].timestamp;
            }
            i = i + 1;
        }
        proof {
            assert forall|t: int| 0 <= t < mem_table@.len()
                implies #[trigger] mem_table@[t].timestamp <= m by {
                assert(entries@[t]@ == mem_table@[t]);
            }
        }
        m
    }
}

/// Newest-wins: what a point read returns for `k` is the record with the
/// greatest timestamp for `k` anywhere in the store, or not-found when the
/// store holds no record for `k` (the caller translating a tombstone to
/// not-found on top).
pub proof fn lemma_newest_wins(v: DbView, k: Seq<u8>)
    requires
        view_wf(v),
        ts_wf(v),
    ensures
        match lookup(v, k) {
            Some(r) => {
                &&& r.key == k
                &&& record_in_db(v, r)
                &&& forall|r2: RecordView|
                    record_in_db(v, r2) && r2.key == k ==> r2.timestamp <= r.timestamp
            },
            None => forall|r2: RecordView| record_in_db(v, r2) ==> r2.key != k,
        },
{
    lemma_find_rec_char(v.mem, k);
    lemma_disk_lookup_char(v.files, k);
    match lookup(v, k) {
        Some(r) => {
            match find_rec(v.mem, k) {
                Some(m) => {
                    assert(record_in_db(v, r));
                    assert forall|r2: RecordView| record_in_db(v, r2) && r2.key == k
                        implies r2.timestamp <= r.timestamp by {
                        if has_rec(v.mem, r2) {
                            let i = choose|i: int| 0 <= i < v.mem.len() && v.mem[i] == r2;
                            lemma_find_rec_present(v.mem, i);
                        } else {
                            let i = choose|i: int|
                                0 <= i < v.files.len() && has_rec(
                                    #[trigger] v.files[i].records,
                                    r2,
                                );
                            let j = choose|j: int|
                                0 <= j < v.files[i].records.len() && v.files[i].records[j] == r2;
                            lemma_find_rec_present(v.files[i].records, j);
                            assert(find_rec(v.files[i].records, k) == Some(r2));
                        }
                    }
                },
                None => {
                    let fi = choose|fi: int|
                        {
                            &&& 0 <= fi < v.files.len()
                            &&& #[trigger] find_rec(v.files[fi].records, k) == Some(r)
                            &&& forall|i2: int|
                                0 <= i2 < fi ==> #[trigger] find_rec(
                                    v.files[i2].records,
                                    k,
                                ) is None
                        };
                    lemma_find_rec_char(v.files[fi].records, k);
                    assert(record_in_db(v, r));
                    assert forall|r2: RecordView| record_in_db(v, r2) && r2.key == k
                        implies r2.timestamp <= r.timestamp by {
                        if has_rec(v.mem, r2) {
                            let i = choose|i: int| 0 <= i < v.mem.len() && v.mem[i] == r2;
                            lemma_find_rec_present(v.mem, i);
                        } else {
                            let i = choose|i: int|
                                0 <= i < v.files.len() && has_rec(
                                    #[trigger] v.files[i].records,
                                    r2,
                                );
                            let j = choose|j: int|
                                0 <= j < v.files[i].records.len() && v.files[i].records[j] == r2;
                            lemma_find_rec_present(v.files[i].records, j);
                            assert(find_rec(v.files[i].records, k) == Some(r2));
                            if i < fi {
                                assert(false);
                            } else if i == fi {
                            } else {
                                assert(match (
                                    find_rec(v.files[fi].records, k),
                                    find_rec(v.files[i].records, k),
                                ) {
                                    (Some(ni), Some(nj)) => nj.timestamp <= ni.timestamp,
                                    _ => true,
                                });
                            }
                        }
                    }
                },
            }
        },
        None => {
            assert forall|r2: RecordView| record_in_db(v, r2) implies r2.key != k by {
                if r2.key == k {
                    if has_rec(v.mem, r2) {
                        let i = choose|i: int| 0 <= i < v.mem.len() && v.mem[i] == r2;
                        lemma_find_rec_present(v.mem, i);
                    } else {
                        let i = choose|i: int|
                            0 <= i < v.files.len() && has_rec(#[trigger] v.files[i].records, r2);
                        let j = choose|j: int|
                            0 <= j < v.files[i].records.len() && v.files[i].records[j] == r2;
                        lemma_find_rec_present(v.files[i].records, j);
                    }
                }
            }
        },
    }
}

/// Range ordering and content: a range scan's records ascend strictly by
/// key, every key lies in the inclusive range, and each key resolves to the
/// store's freshest record for it, kept only if it carries a value.
pub proof fn lemma_db_range_props(v: DbView, lo: Seq<u8>, hi: Seq<u8>)
    requires
        view_wf(v),
    ensures
        sorted_by_key(spec_db_range(v, lo, hi)),
        forall|i: int|
            0 <= i < spec_db_range(v, lo, hi).len() ==> in_range(
                #[trigger] spec_db_range(v, lo, hi)[i].key,
                lo,
                hi,
            ),
        forall|k: Seq<u8>|
            #[trigger] find_rec(spec_db_range(v, lo, hi), k) == if in_range(k, lo, hi) {
                match fresh_entry(v, k) {
                    Some(r) => if r.value is Some {
                        Some(r)
                    } else {
                        None
                    },
                    None => None,
                }
            } else {
                None
            },
{
    lemma_filter_range_props(v.mem, lo, hi);
    lemma_disk_range_props(v.files, lo, hi);
    let fm = filter_range(v.mem, lo, hi);
    let fd = spec_disk_range(v.files, lo, hi);
    lemma_merge_props(fm, fd);
    let merged = spec_merge(fm, fd);
    lemma_suppress_props(merged);
    let out = spec_db_range(v, lo, hi);
    assert forall|i: int| 0 <= i < out.len() implies in_range(#[trigger] out[i].key, lo, hi) by {
        let j = choose|j: int| 0 <= j < merged.len() && merged[j] == out[i];
        assert(has_key(fm, merged[j].key) || has_key(fd, merged[j].key));
        if has_key(fm, merged[j].key) {
            let t = choose|t: int| 0 <= t < fm.len() && fm[t].key == merged[j].key;
            assert(in_range(fm[t].key, lo, hi));
        } else {
            let t = choose|t: int| 0 <= t < fd.len() && fd[t].key == merged[j].key;
            assert(find_rec(fd, fd[t].key) == if in_range(fd[t].key, lo, hi) {
                disk_winner(v.files, fd[t].key)
            } else {
                None
            });
            lemma_find_rec_char(fd, fd[t].key);
            lemma_find_rec_present(fd, t);
        }
    }
    assert forall|k: Seq<u8>| #[trigger] find_rec(out, k) == (if in_range(k, lo, hi) {
        match fresh_entry(v, k) {
            Some(r) => if r.value is Some {
                Some(r)
            } else {
                None
            },
            None => None,
        }
    } else {
        None
    }) by {
        assert(find_rec(merged, k) == combine(find_rec(fm, k), find_rec(fd, k)));
    }
}

/// Crash safety of the flushed prefix: reopening from the bytes the WAL
/// held and the files as they stood yields a store whose every read agrees
/// with the one that was lost.
pub proof fn lemma_reopen_preserves_lookup(v: DbView, v2: DbView)
    requires
        view_wf(v),
        v2.files == v.files,
        forall|k: Seq<u8>|
            #[trigger] find_rec(v2.mem, k) == replay_find(
                spec_dec_stream(spec_enc_stream(v.wal)),
                k,
            ),
    ensures
        forall|k: Seq<u8>| #[trigger] lookup(v2, k) == lookup(v, k),
{
    lemma_dec_stream_of_enc_exact(v.wal);
    assert forall|k: Seq<u8>| #[trigger] lookup(v2, k) == lookup(v, k) by {
        assert(find_rec(v2.mem, k) == replay_find(v.wal, k));
        assert(replay_find(v.wal, k) == find_rec(v.mem, k));
    }
}

} // verus!
