//! The write-ahead log: every record is appended to the active segment
//! before it becomes visible in the MemTable, and on startup the segment is
//! replayed to rebuild the MemTable that was lost with the process.
//!
//! The log's contents live in a byte buffer here; the surrounding shell is
//! responsible for mirroring appended bytes to the segment file and handing
//! the file's bytes back at recovery.

use vstd::prelude::*;

use crate::codec::{
    append_record, decode_record, lemma_dec_of_enc_prefix, lemma_dec_record_bounds,
    lemma_dec_stream_of_enc, lemma_dec_stream_step, lemma_enc_stream_snoc, push_all,
    spec_dec_record, spec_dec_stream, spec_enc_record, spec_enc_stream,
};
use crate::mem_table::{
    clone_bytes, entry_size, find_rec, lemma_replay_find_snoc, rec_valid, replay_find, table_size,
    MemTable, RecordView,
};

verus! {

/// One record read back from a segment.
pub struct WALEntry {
    pub key: Vec<u8>,
    pub value: Option<Vec<u8>>,
    pub timestamp: u128,
    pub deleted: bool,
}

impl View for WALEntry {
    type V = RecordView;

    open spec fn view(&self) -> RecordView {
        RecordView {
            key: self.key@,
            value: match self.value {
                Some(v) => Some(v@),
                None => None,
            },
            timestamp: self.timestamp,
        }
    }
}

/// The tombstone flag mirrors the absence of a value.
pub open spec fn wal_entry_wf(e: WALEntry) -> bool {
    e.deleted <==> e.value is None
}

/// The active segment.  Its model is the list of records appended since the
/// segment was opened; the byte buffer is exactly their encoding.
pub struct WAL {
    buf: Vec<u8>,
    records: Ghost<Seq<RecordView>>,
}

impl View for WAL {
    type V = Seq<RecordView>;

    closed spec fn view(&self) -> Seq<RecordView> {
        self.records@
    }
}

impl WAL {
    pub closed spec fn wf(&self) -> bool {
        &&& self.buf@ == spec_enc_stream(self.records@)
        &&& forall|i: int| 0 <= i < self.records@.len() ==> rec_valid(#[trigger] self.records@[i])
    }

    pub proof fn lemma_wf_facts(&self)
        requires
            self.wf(),
        ensures
            forall|i: int| 0 <= i < self@.len() ==> rec_valid(#[trigger] self@[i]),
    {
    }

    /// Opens a fresh, empty segment.
    pub fn new() -> (w: WAL)
        ensures
            w.wf(),
            w@ == Seq::<RecordView>::empty(),
    {
        let w = WAL { buf: Vec::new(), records: Ghost(Seq::empty()) };
        proof {
            assert(w.buf@ =~= spec_enc_stream(w.records@));
        }
        w
    }

    /// The segment's bytes as they stand on disk.
    pub fn bytes(&self) -> (b: Vec<u8>)
        requires
            self.wf(),
        ensures
            b@ == spec_enc_stream(self@),
    {
        clone_bytes(self.buf.as_slice())
    }

    /// Appends one record with a value; returns the bytes appended so the
    /// caller can mirror them to the segment file.
    pub fn put(&mut self, key: &[u8], value: &[u8], timestamp: u128) -> (appended: Vec<u8>)
        requires
            old(self).wf(),
        ensures
            final(self).wf(),
            final(self)@ == old(self)@.push(
                RecordView { key: key@, value: Some(value@), timestamp },
            ),
            appended@ == spec_enc_record(RecordView { key: key@, value: Some(value@), timestamp }),
    {
        let ghost rv = RecordView { key: key@, value: Some(value@), timestamp };
        let mut appended: Vec<u8> = Vec::new();
        append_record(&mut appended, key, Some(value), timestamp);
        push_all(&mut self.buf, appended.as_slice());
        proof {
            lemma_enc_stream_snoc(self.records@, rv);
        }
        self.records = Ghost(self.records@.push(rv));
        appended
    }

    /// Appends one tombstone; returns the bytes appended.
    pub fn delete(&mut self, key: &[u8], timestamp: u128) -> (appended: Vec<u8>)
        requires
            old(self).wf(),
        ensures
            final(self).wf(),
            final(self)@ == old(self)@.push(RecordView { key: key@, value: None, timestamp }),
            appended@ == spec_enc_record(RecordView { key: key@, value: None, timestamp }),
    {
        let ghost rv = RecordView { key: key@, value: None, timestamp };
        let mut appended: Vec<u8> = Vec::new();
        append_record(&mut appended, key, None, timestamp);
        push_all(&mut self.buf, appended.as_slice());
        proof {
            lemma_enc_stream_snoc(self.records@, rv);
        }
        self.records = Ghost(self.records@.push(rv));
        appended
    }

    /// Starts a new, empty segment; invoked after the records the old
    /// segment covered have been sealed into a data-block file.
    pub fn fresh(&mut self)
        ensures
            final(self).wf(),
            final(self)@ == Seq::<RecordView>::empty(),
    {
        self.buf.clear();
        self.records = Ghost(Seq::empty());
        proof {
            assert(self.buf@ =~= spec_enc_stream(self.records@));
        }
    }

    /// Replays a segment's bytes: every decodable record is folded into a
    /// fresh MemTable, in order, and written to a fresh segment; a truncated
    /// tail is dropped silently.
    #[verifier::loop_isolation(false)]
    pub fn recover(bytes: &Vec<u8>) -> (r: (WAL, MemTable))
        ensures
            r.0.wf(),
            r.1.wf(),
            r.0@ == spec_dec_stream(bytes@),
            table_size(r.1@) <= bytes@.len(),
            forall|k: Seq<u8>|
                #[trigger] find_rec(r.1@, k) == replay_find(spec_dec_stream(bytes@), k),
    {
        let mut mem = MemTable::new();
        let mut wal = WAL::new();
        let mut pos: usize = 0;
        let mut fin = false;
        proof {
            assert(bytes@.skip(0) =~= bytes@);
            assert(Seq::<RecordView>::empty() + spec_dec_stream(bytes@) =~= spec_dec_stream(
                bytes@,
            ));
        }
        while !fin
            invariant
                pos <= bytes@.len(),
                wal.wf(),
                mem.wf(),
                table_size(mem@) <= pos,
                spec_dec_stream(bytes@) == wal@ + spec_dec_stream(bytes@.skip(pos as int)),
                fin ==> spec_dec_record(bytes@.skip(pos as int)) is None,
                forall|k: Seq<u8>| #[trigger] find_rec(mem@, k) == replay_find(wal@, k),
            decreases bytes@.len() - pos + (if fin { 0int } else { 1int }),
        {
            let ghost rest = bytes@.skip(pos as int);
            match decode_record(bytes, pos) {
                None => {
                    fin = true;
                },
                Some((e, end)) => {
                    proof {
                        lemma_dec_record_bounds(rest);
                        lemma_dec_stream_step(rest);
                        assert(rest.skip(end - pos) =~= bytes@.skip(end as int));
                        assert(table_size(mem@) + entry_size(e@) <= pos + (end - pos) - 8);
                    }
                    let ghost wal0 = wal@;
                    match &e.value {
                        Some(v) => {
                            mem.put(e.key.as_slice(), v.as_slice(), e.timestamp);
                            let _ = wal.put(e.key.as_slice(), v.as_slice(), e.timestamp);
                        },
                        None => {
                            mem.delete(e.key.as_slice(), e.timestamp);
                            let _ = wal.delete(e.key.as_slice(), e.timestamp);
                        },
                    }
                    proof {
                        assert(wal@ =~= wal0.push(e@));
                        assert forall|k: Seq<u8>| #[trigger] find_rec(mem@, k) == replay_find(
                            wal@,
                            k,
                        ) by {
                            lemma_replay_find_snoc(wal0, e@, k);
                        }
                        assert(wal@ + spec_dec_stream(bytes@.skip(end as int))
                            =~= wal0 + (seq![e@] + spec_dec_stream(bytes@.skip(end as int))));
                    }
                    pos = end;
                },
            }
        }
        proof {
            lemma_dec_stream_step(bytes@.skip(pos as int));
            assert(wal@ + Seq::<RecordView>::empty() =~= wal@);
        }
        (wal, mem)
    }
}

/// Recovery of a segment whose last record a crash cut short: the complete
/// records are replayed exactly and the truncated trailing record is
/// silently dropped, because no strict prefix of an encoded record decodes.
pub proof fn lemma_truncated_tail_dropped(rs: Seq<RecordView>, r: RecordView, i: int)
    requires
        forall|t: int| 0 <= t < rs.len() ==> rec_valid(#[trigger] rs[t]),
        rec_valid(r),
        0 <= i < spec_enc_record(r).len(),
    ensures
        spec_dec_stream(spec_enc_stream(rs) + spec_enc_record(r).take(i)) == rs,
{
    lemma_dec_of_enc_prefix(r, i);
    lemma_dec_stream_of_enc(rs, spec_enc_record(r).take(i));
}

/// WAL round trip: a segment holding the encodings of records `rs` (and at
/// most an undecodable tail, such as a record truncated by a crash) replays
/// to exactly `rs` — so `recover` folds them into the MemTable in order —
/// and the segment `recover` rewrites byte-encodes that same prefix.
pub proof fn lemma_wal_round_trip(rs: Seq<RecordView>, tail: Seq<u8>)
    requires
        forall|i: int| 0 <= i < rs.len() ==> rec_valid(#[trigger] rs[i]),
        spec_dec_record(tail) is None,
    ensures
        spec_dec_stream(spec_enc_stream(rs) + tail) == rs,
        spec_enc_stream(spec_dec_stream(spec_enc_stream(rs) + tail)) == spec_enc_stream(rs),
{
    lemma_dec_stream_of_enc(rs, tail);
}

/// Reads a segment's records in file order.
pub struct WALIterator {
    buf: Vec<u8>,
    pos: usize,
}

impl WALIterator {
    pub closed spec fn buf_spec(&self) -> Seq<u8> {
        self.buf@
    }

    pub closed spec fn pos_spec(&self) -> int {
        self.pos as int
    }

    pub closed spec fn wf(&self) -> bool {
        self.pos <= self.buf@.len()
    }

    pub fn new(buf: Vec<u8>) -> (it: WALIterator)
        ensures
            it.wf(),
            it.buf_spec() == buf@,
            it.pos_spec() == 0,
    {
        WALIterator { buf, pos: 0 }
    }

    /// Yields the next record, or `None` at the end of the segment or at a
    /// truncated tail.
    pub fn next(&mut self) -> (r: Option<WALEntry>)
        requires
            old(self).wf(),
        ensures
            final(self).wf(),
            final(self).buf_spec() == old(self).buf_spec(),
            match r {
                Some(e) => {
                    &&& spec_dec_record(old(self).buf_spec().skip(old(self).pos_spec())) == Some(
                        (e@, final(self).pos_spec() - old(self).pos_spec()),
                    )
                    &&& wal_entry_wf(e)
                    &&& final(self).pos_spec() > old(self).pos_spec()
                },
                None => {
                    &&& spec_dec_record(old(self).buf_spec().skip(old(self).pos_spec())) is None
                    &&& final(self).pos_spec() == old(self).pos_spec()
                },
            },
    {
        match decode_record(&self.buf, self.pos) {
            Some((e, end)) => {
                self.pos = end;
                let out = WALEntry {
                    key: e.key,
                    value: e.value,
                    timestamp: e.timestamp,
                    deleted: e.deleted,
                };
                Some(out)
            },
            None => None,
        }
    }
}

} // verus!
