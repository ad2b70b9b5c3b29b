//! Byte encoding of records, shared by the write-ahead log and the body of a
//! data-block file, together with the decoding that inverts it and the
//! round-trip lemmas that recovery relies on.

use vstd::prelude::*;

use vstd::bytes::{
    lemma_auto_spec_u128_to_from_le_bytes, lemma_auto_spec_u64_to_from_le_bytes,
    spec_u128_from_le_bytes, spec_u128_to_le_bytes, spec_u64_from_le_bytes, spec_u64_to_le_bytes,
    u128_from_le_bytes, u128_to_le_bytes, u64_from_le_bytes, u64_to_le_bytes,
};

use crate::mem_table::{
    clone_bytes, entry_size, entry_wf, lemma_table_size_concat, lemma_table_size_single,
    rec_valid, table_size, MemTableEntry, RecordView,
};

verus! {

/// Encoding of one record, little-endian:
/// `key_len:8 | tombstone:1 | value_len:8 | key | value | timestamp:16`,
/// where a tombstone (`value` is `None`) omits both `value_len` and `value`.
pub open spec fn spec_enc_record(r: RecordView) -> Seq<u8> {
    match r.value {
        Some(v) => spec_u64_to_le_bytes(r.key.len() as u64) + seq![0u8] + spec_u64_to_le_bytes(
            v.len() as u64,
        ) + r.key + v + spec_u128_to_le_bytes(r.timestamp),
        None => spec_u64_to_le_bytes(r.key.len() as u64) + seq![1u8] + r.key
            + spec_u128_to_le_bytes(r.timestamp),
    }
}

/// Greedy decoding of one record from the front of `s`; `None` when the
/// bytes run out before the record is complete (a truncated tail).  On
/// success also yields the number of bytes consumed.
pub open spec fn spec_dec_record(s: Seq<u8>) -> Option<(RecordView, int)> {
    if s.len() < 9 {
        None
    } else {
        let klen = spec_u64_from_le_bytes(s.subrange(0, 8)) as int;
        if s[8] != 0 {
            if 25 + klen <= s.len() {
                Some(
                    (
                        RecordView {
                            key: s.subrange(9, 9 + klen),
                            value: None,
                            timestamp: spec_u128_from_le_bytes(s.subrange(9 + klen, 25 + klen)),
                        },
                        25 + klen,
                    ),
                )
            } else {
                None
            }
        } else {
            if s.len() < 17 {
                None
            } else {
                let vlen = spec_u64_from_le_bytes(s.subrange(9, 17)) as int;
                if 33 + klen + vlen <= s.len() {
                    Some(
                        (
                            RecordView {
                                key: s.subrange(17, 17 + klen),
                                value: Some(s.subrange(17 + klen, 17 + klen + vlen)),
                                timestamp: spec_u128_from_le_bytes(
                                    s.subrange(17 + klen + vlen, 33 + klen + vlen),
                                ),
                            },
                            33 + klen + vlen,
                        ),
                    )
                } else {
                    None
                }
            }
        }
    }
}

/// Concatenation of the encodings of a list of records.
pub open spec fn spec_enc_stream(rs: Seq<RecordView>) -> Seq<u8>
    decreases rs.len(),
{
    if rs.len() == 0 {
        Seq::empty()
    } else {
        spec_enc_record(rs[0]) + spec_enc_stream(rs.skip(1))
    }
}

/// Greedy decoding of a whole buffer; stops at the first incomplete record,
/// silently dropping the truncated tail.
pub open spec fn spec_dec_stream(s: Seq<u8>) -> Seq<RecordView>
    decreases s.len(),
{
    match spec_dec_record(s) {
        None => Seq::empty(),
        Some((r, n)) => if 0 < n <= s.len() {
            seq![r] + spec_dec_stream(s.skip(n))
        } else {
            Seq::empty()
        },
    }
}

/// A decoded record is well formed and never consumes more than the buffer.
pub proof fn lemma_dec_record_bounds(s: Seq<u8>)
    ensures
        match spec_dec_record(s) {
            Some((r, n)) => {
                &&& 25 <= n <= s.len()
                &&& rec_valid(r)
                &&& entry_size(r) + 8 <= n
            },
            None => true,
        },
{
}

/// One decoding step of the stream.
pub proof fn lemma_dec_stream_step(s: Seq<u8>)
    ensures
        match spec_dec_record(s) {
            Some((r, n)) => spec_dec_stream(s) == seq![r] + spec_dec_stream(s.skip(n)),
            None => spec_dec_stream(s) == Seq::<RecordView>::empty(),
        },
{
    lemma_dec_record_bounds(s);
}

pub proof fn lemma_enc_stream_snoc(rs: Seq<RecordView>, r: RecordView)
    ensures
        spec_enc_stream(rs.push(r)) == spec_enc_stream(rs) + spec_enc_record(r),
    decreases rs.len(),
{
    if rs.len() == 0 {
        assert(rs.push(r)[0] == r);
        assert(rs.push(r).skip(1) =~= Seq::<RecordView>::empty());
        assert(spec_enc_stream(Seq::<RecordView>::empty()) == Seq::<u8>::empty());
        assert(spec_enc_stream(rs.push(r)) =~= spec_enc_stream(rs) + spec_enc_record(r));
    } else {
        assert(rs.push(r)[0] == rs[0]);
        assert(rs.push(r).skip(1) =~= rs.skip(1).push(r));
        lemma_enc_stream_snoc(rs.skip(1), r);
        assert(spec_enc_stream(rs.push(r)) == spec_enc_record(rs[0]) + (spec_enc_stream(rs.skip(1))
            + spec_enc_record(r)));
        assert(spec_enc_record(rs[0]) + (spec_enc_stream(rs.skip(1)) + spec_enc_record(r)) =~= (
        spec_enc_record(rs[0]) + spec_enc_stream(rs.skip(1))) + spec_enc_record(r));
    }
}

/// Decoding inverts encoding, whatever follows the encoded record.
pub proof fn lemma_dec_of_enc(r: RecordView, rest: Seq<u8>)
    requires
        rec_valid(r),
    ensures
        spec_dec_record(spec_enc_record(r) + rest) == Some(
            (r, spec_enc_record(r).len() as int),
        ),
{
    lemma_auto_spec_u64_to_from_le_bytes();
    lemma_auto_spec_u128_to_from_le_bytes();
    let e = spec_enc_record(r);
    let s = e + rest;
    let k = r.key.len() as int;
    match r.value {
        Some(v) => {
            let vl = v.len() as int;
            assert(e.len() == 33 + k + vl);
            assert(s.subrange(0, 8) =~= spec_u64_to_le_bytes(r.key.len() as u64));
            assert(s[8] == 0);
            assert(s.subrange(9, 17) =~= spec_u64_to_le_bytes(v.len() as u64));
            assert(s.subrange(17, 17 + k) =~= r.key);
            assert(s.subrange(17 + k, 17 + k + vl) =~= v);
            assert(s.subrange(17 + k + vl, 33 + k + vl) =~= spec_u128_to_le_bytes(r.timestamp));
            assert(spec_u64_from_le_bytes(s.subrange(0, 8)) as int == k);
            assert(spec_u64_from_le_bytes(s.subrange(9, 17)) as int == vl);
            assert(spec_dec_record(s) == Some((r, 33 + k + vl)));
        },
        None => {
            assert(e.len() == 25 + k);
            assert(s.subrange(0, 8) =~= spec_u64_to_le_bytes(r.key.len() as u64));
            assert(s[8] == 1);
            assert(s.subrange(9, 9 + k) =~= r.key);
            assert(s.subrange(9 + k, 25 + k) =~= spec_u128_to_le_bytes(r.timestamp));
            assert(spec_u64_from_le_bytes(s.subrange(0, 8)) as int == k);
            assert(spec_dec_record(s) == Some((r, 25 + k)));
        },
    }
}

/// No strict prefix of an encoded record decodes: a record truncated
/// anywhere is recognised as incomplete.
pub proof fn lemma_dec_of_enc_prefix(r: RecordView, i: int)
    requires
        rec_valid(r),
        0 <= i < spec_enc_record(r).len(),
    ensures
        spec_dec_record(spec_enc_record(r).take(i)) is None,
{
    lemma_auto_spec_u64_to_from_le_bytes();
    lemma_auto_spec_u128_to_from_le_bytes();
    let e = spec_enc_record(r);
    let p = e.take(i);
    let k = r.key.len() as int;
    if p.len() < 9 {
    } else {
        assert(p.subrange(0, 8) =~= spec_u64_to_le_bytes(r.key.len() as u64));
        assert(spec_u64_from_le_bytes(p.subrange(0, 8)) as int == k);
        match r.value {
            Some(v) => {
                let vl = v.len() as int;
                assert(e.len() == 33 + k + vl);
                assert(p[8] == 0);
                if p.len() < 17 {
                } else {
                    assert(p.subrange(9, 17) =~= spec_u64_to_le_bytes(v.len() as u64));
                    assert(spec_u64_from_le_bytes(p.subrange(9, 17)) as int == vl);
                    assert(!(33 + k + vl <= p.len()));
                }
            },
            None => {
                assert(e.len() == 25 + k);
                assert(p[8] == 1);
                assert(!(25 + k <= p.len()));
            },
        }
    }
}

/// Round trip of a whole stream: decoding an encoded record list followed by
/// any undecodable tail yields exactly that list.
pub proof fn lemma_dec_stream_of_enc(rs: Seq<RecordView>, tail: Seq<u8>)
    requires
        forall|i: int| 0 <= i < rs.len() ==> rec_valid(#[trigger] rs[i]),
        spec_dec_record(tail) is None,
    ensures
        spec_dec_stream(spec_enc_stream(rs) + tail) == rs,
    decreases rs.len(),
{
    if rs.len() == 0 {
        assert(spec_enc_stream(rs) + tail =~= tail);
        lemma_dec_stream_step(tail);
        assert(spec_dec_stream(spec_enc_stream(rs) + tail) =~= rs);
    } else {
        let e0 = spec_enc_record(rs[0]);
        let s = spec_enc_stream(rs) + tail;
        assert(s =~= e0 + (spec_enc_stream(rs.skip(1)) + tail));
        lemma_dec_of_enc(rs[0], spec_enc_stream(rs.skip(1)) + tail);
        assert(spec_dec_record(s) == Some((rs[0], e0.len() as int)));
        lemma_dec_stream_step(s);
        lemma_dec_record_bounds(s);
        assert(s.skip(e0.len() as int) =~= spec_enc_stream(rs.skip(1)) + tail);
        lemma_dec_stream_of_enc(rs.skip(1), tail);
        assert(spec_dec_stream(s) == seq![rs[0]] + rs.skip(1));
        assert(seq![rs[0]] + rs.skip(1) =~= rs);
    }
}

/// Everything a decoded stream guarantees: records are well formed, and
/// their accounted footprint never exceeds the bytes they came from.
pub proof fn lemma_dec_stream_facts(s: Seq<u8>)
    ensures
        forall|i: int|
            0 <= i < spec_dec_stream(s).len() ==> rec_valid(#[trigger] spec_dec_stream(s)[i]),
        table_size(spec_dec_stream(s)) <= s.len(),
    decreases s.len(),
{
    lemma_dec_record_bounds(s);
    lemma_dec_stream_step(s);
    match spec_dec_record(s) {
        None => {
            assert(table_size(Seq::<RecordView>::empty()) == 0);
        },
        Some((r, n)) => {
            lemma_dec_stream_facts(s.skip(n));
            let rest = spec_dec_stream(s.skip(n));
            assert(spec_dec_stream(s) == seq![r] + rest);
            lemma_table_size_concat(seq![r], rest);
            lemma_table_size_single(r);
            assert forall|i: int| 0 <= i < spec_dec_stream(s).len()
                implies rec_valid(#[trigger] spec_dec_stream(s)[i]) by {
                if i == 0 {
                    assert(spec_dec_stream(s)[0] == r);
                } else {
                    assert(spec_dec_stream(s)[i] == rest[i - 1]);
                }
            }
        },
    }
}

/// The empty buffer decodes to no records; convenience form of the round
/// trip with nothing after the stream.
pub proof fn lemma_dec_stream_of_enc_exact(rs: Seq<RecordView>)
    requires
        forall|i: int| 0 <= i < rs.len() ==> rec_valid(#[trigger] rs[i]),
    ensures
        spec_dec_stream(spec_enc_stream(rs)) == rs,
{
    lemma_dec_stream_of_enc(rs, Seq::empty());
    assert(spec_enc_stream(rs) + Seq::<u8>::empty() =~= spec_enc_stream(rs));
}

/// Appends every byte of `data` to `out`.
#[verifier::loop_isolation(false)]
pub fn push_all(out: &mut Vec<u8>, data: &[u8])
    ensures
        final(out)@ == old(out)@ + data@,
{
    let mut i: usize = 0;
    proof {
        assert(out@ =~= old(out)@ + data@.subrange(0, 0));
    }
    while i < data.len()
        invariant
            i <= data@.len(),
            out@ == old(out)@ + data@.subrange(0, i as int),
        decreases data@.len() - i,
    {
        out.push(data[i]);
        proof {
            assert(out@ =~= old(out)@ + data@.subrange(0, i + 1));
        }
        i = i + 1;
    }
    proof {
        assert(data@.subrange(0, data@.len() as int) =~= data@);
    }
}

/// Appends the encoding of one record to `out`.
pub fn append_record(out: &mut Vec<u8>, key: &[u8], value: Option<&[u8]>, timestamp: u128)
    ensures
        final(out)@ == old(out)@ + spec_enc_record(
            RecordView {
                key: key@,
                value: match value {
                    Some(v) => Some(v@),
                    None => None,
                },
                timestamp,
            },
        ),
        rec_valid(
            RecordView {
                key: key@,
                value: match value {
                    Some(v) => Some(v@),
                    None => None,
                },
                timestamp,
            },
        ),
{
    let klen_bytes = u64_to_le_bytes(key.len() as u64);
    push_all(out, klen_bytes.as_slice());
    match value {
        Some(v) => {
            out.push(0u8);
            let vlen_bytes = u64_to_le_bytes(v.len() as u64);
            push_all(out, vlen_bytes.as_slice());
            push_all(out, key);
            push_all(out, v);
        },
        None => {
            out.push(1u8);
            push_all(out, key);
        },
    }
    let ts_bytes = u128_to_le_bytes(timestamp);
    push_all(out, ts_bytes.as_slice());
    proof {
        let rv = RecordView {
            key: key@,
            value: match value {
                Some(v) => Some(v@),
                None => None,
            },
            timestamp,
        };
        assert(out@ =~= old(out)@ + spec_enc_record(rv));
    }
}

/// Decodes the record starting at `pos`, returning it together with the
/// position just past it; `None` when the remaining bytes do not hold a
/// complete record.
pub fn decode_record(buf: &Vec<u8>, pos: usize) -> (r: Option<(MemTableEntry, usize)>)
    requires
        pos <= buf@.len(),
    ensures
        match r {
            Some((e, end)) => {
                &&& spec_dec_record(buf@.skip(pos as int)) == Some((e@, end - pos))
                &&& entry_wf(e)
                &&& pos < end <= buf@.len()
            },
            None => spec_dec_record(buf@.skip(pos as int)) is None,
        },
{
    let ghost g = buf@.skip(pos as int);
    let n = buf.len();
    let s = buf.as_slice();
    if n - pos < 9 {
        return None;
    }
    let klen64 = u64_from_le_bytes(&s[pos..pos + 8]);
    let tomb = s[pos + 8];
    proof {
        assert(g.subrange(0, 8) =~= buf@.subrange(pos as int, pos + 8));
        assert(g[8] == buf@[pos + 8]);
    }
    if tomb != 0 {
        if n - pos < 25 {
            return None;
        }
        let avail = n - pos - 25;
        if klen64 > avail as u64 {
            return None;
        }
        let klen = klen64 as usize;
        let key = clone_bytes(&s[pos + 9..pos + 9 + klen]);
        let ts = u128_from_le_bytes(&s[pos + 9 + klen..pos + 25 + klen]);
        let e = MemTableEntry { key, value: None, timestamp: ts, deleted: true };
        proof {
            assert(g.subrange(9, 9 + klen as int) =~= buf@.subrange(pos + 9, pos + 9 + klen));
            assert(g.subrange(9 + klen as int, 25 + klen as int) =~= buf@.subrange(
                pos + 9 + klen,
                pos + 25 + klen,
            ));
            assert(spec_dec_record(g) == Some((e@, 25 + klen as int)));
        }
        Some((e, pos + 25 + klen))
    } else {
        if n - pos < 33 {
            return None;
        }
        let vlen64 = u64_from_le_bytes(&s[pos + 9..pos + 17]);
        proof {
            assert(g.subrange(9, 17) =~= buf@.subrange(pos + 9, pos + 17));
        }
        let avail = n - pos - 33;
        if klen64 > avail as u64 {
            return None;
        }
        let klen = klen64 as usize;
        if vlen64 > (avail - klen) as u64 {
            return None;
        }
        let vlen = vlen64 as usize;
        let key = clone_bytes(&s[pos + 17..pos + 17 + klen]);
        let val = clone_bytes(&s[pos + 17 + klen..pos + 17 + klen + vlen]);
        let ts = u128_from_le_bytes(&s[pos + 17 + klen + vlen..pos + 33 + klen + vlen]);
        let e = MemTableEntry { key, value: Some(val), timestamp: ts, deleted: false };
        proof {
            assert(g.subrange(17, 17 + klen as int) =~= buf@.subrange(pos + 17, pos + 17 + klen));
            assert(g.subrange(17 + klen as int, 17 + klen as int + vlen as int) =~= buf@.subrange(
                pos + 17 + klen,
                pos + 17 + klen + vlen,
            ));
            assert(g.subrange(
                17 + klen as int + vlen as int,
                33 + klen as int + vlen as int,
            ) =~= buf@.subrange(pos + 17 + klen + vlen, pos + 33 + klen + vlen));
            assert(spec_dec_record(g) == Some((e@, 33 + klen as int + vlen as int)));
        }
        Some((e, pos + 33 + klen + vlen))
    }
}

} // verus!
