//! The disk service: seals a frozen MemTable into an immutable sorted
//! data-block file (DBF), tracks every such file newest-first, and serves
//! point and range reads across them with newest-wins resolution.
//!
//! A DBF's bytes are `min_key_len:8 | max_key_len:8 | min_key | max_key`
//! followed by the records in ascending key order, encoded as in the WAL.
//! The service holds each file's parsed form; reading and writing the actual
//! files is the surrounding shell's business.

use vstd::prelude::*;

use vstd::bytes::{
    lemma_auto_spec_u64_to_from_le_bytes, spec_u64_from_le_bytes, spec_u64_to_le_bytes,
    u64_from_le_bytes, u64_to_le_bytes,
};

use crate::codec::{
    append_record, decode_record, lemma_dec_record_bounds, lemma_dec_stream_facts,
    lemma_dec_stream_of_enc_exact, lemma_dec_stream_step, lemma_enc_stream_snoc, push_all,
    spec_dec_record, spec_dec_stream, spec_enc_stream,
};
use crate::keys::{
    compare_keys, key_le, key_leq, key_less, key_lt, keys_equal, lemma_key_lt_asymmetric,
    lemma_key_lt_irreflexive, lemma_key_lt_total, lemma_key_lt_transitive, KeyCmp,
};
use crate::mem_table::{
    clone_bytes, copy_entry, entry_wf, filter_range, find_rec, has_key, has_rec,
    in_range, lemma_find_rec_char, lemma_find_rec_present, lemma_find_rec_snoc,
    lemma_replay_find_snoc, lemma_replay_find_sorted, lemma_sorted_distinct,
    lemma_sorted_lower_bound, lemma_sorted_skip,
    lemma_table_size_prefix, lemma_table_size_snoc, rec_valid, replay_find, sorted_by_key,
    table_size, MemTable, MemTableEntry, RecordView,
};

verus! {

/// Errors surfaced when a stored file cannot be understood.
#[derive(Debug, PartialEq, Eq, Structural)]
pub enum DbError {
    /// A data-block file's header or body is not a well-formed DBF.
    MalformedFile,
}

/// Mathematical model of one data-block file.
#[verifier::ext_equal]
pub ghost struct FileView {
    pub min_key: Seq<u8>,
    pub max_key: Seq<u8>,
    pub records: Seq<RecordView>,
}

/// A well-formed file is non-empty, sorted, and its header carries exactly
/// the smallest and largest key among its records.
pub open spec fn file_view_wf(f: FileView) -> bool {
    &&& f.records.len() >= 1
    &&& sorted_by_key(f.records)
    &&& forall|i: int| 0 <= i < f.records.len() ==> rec_valid(#[trigger] f.records[i])
    &&& table_size(f.records) <= usize::MAX
    &&& f.min_key == f.records[0].key
    &&& f.max_key == f.records[f.records.len() - 1].key
}

/// Bytes of a DBF holding the given records.
pub open spec fn spec_dbf_bytes(recs: Seq<RecordView>) -> Seq<u8>
    recommends
        recs.len() >= 1,
{
    spec_u64_to_le_bytes(recs[0].key.len() as u64) + spec_u64_to_le_bytes(
        recs[recs.len() - 1].key.len() as u64,
    ) + recs[0].key + recs[recs.len() - 1].key + spec_enc_stream(recs)
}

/// Structural parse of a DBF header: the two boundary keys and the offset of
/// the first record.
pub open spec fn spec_dbf_header(s: Seq<u8>) -> Option<(Seq<u8>, Seq<u8>, int)> {
    if s.len() < 16 {
        None
    } else {
        let mlen = spec_u64_from_le_bytes(s.subrange(0, 8)) as int;
        let xlen = spec_u64_from_le_bytes(s.subrange(8, 16)) as int;
        if 16 + mlen + xlen <= s.len() {
            Some(
                (
                    s.subrange(16, 16 + mlen),
                    s.subrange(16 + mlen, 16 + mlen + xlen),
                    16 + mlen + xlen,
                ),
            )
        } else {
            None
        }
    }
}

/// Whether the bytes are a well-formed DBF: complete header, at least one
/// record, records sorted, and the header keys matching the first and last
/// record.
pub open spec fn spec_dbf_valid(s: Seq<u8>) -> bool {
    match spec_dbf_header(s) {
        None => false,
        Some((min, max, off)) => {
            let recs = spec_dec_stream(s.skip(off));
            &&& recs.len() >= 1
            &&& sorted_by_key(recs)
            &&& min == recs[0].key
            &&& max == recs[recs.len() - 1].key
        },
    }
}

/// The file a well-formed DBF's bytes describe.
pub open spec fn spec_dbf_view(s: Seq<u8>) -> FileView
    recommends
        spec_dbf_valid(s),
{
    match spec_dbf_header(s) {
        Some((min, max, off)) => FileView {
            min_key: min,
            max_key: max,
            records: spec_dec_stream(s.skip(off)),
        },
        None => FileView { min_key: Seq::empty(), max_key: Seq::empty(), records: Seq::empty() },
    }
}

/// Sealing records into bytes and parsing them back is the identity.
pub proof fn lemma_dbf_round_trip(recs: Seq<RecordView>)
    requires
        recs.len() >= 1,
        sorted_by_key(recs),
        forall|i: int| 0 <= i < recs.len() ==> rec_valid(#[trigger] recs[i]),
    ensures
        spec_dbf_valid(spec_dbf_bytes(recs)),
        spec_dbf_view(spec_dbf_bytes(recs)) == (FileView {
            min_key: recs[0].key,
            max_key: recs[recs.len() - 1].key,
            records: recs,
        }),
{
    lemma_auto_spec_u64_to_from_le_bytes();
    let s = spec_dbf_bytes(recs);
    let mk = recs[0].key;
    let xk = recs[recs.len() - 1].key;
    let ml = mk.len() as int;
    let xl = xk.len() as int;
    assert(s.subrange(0, 8) =~= spec_u64_to_le_bytes(mk.len() as u64));
    assert(s.subrange(8, 16) =~= spec_u64_to_le_bytes(xk.len() as u64));
    assert(spec_u64_from_le_bytes(s.subrange(0, 8)) as int == ml);
    assert(spec_u64_from_le_bytes(s.subrange(8, 16)) as int == xl);
    assert(s.subrange(16, 16 + ml) =~= mk);
    assert(s.subrange(16 + ml, 16 + ml + xl) =~= xk);
    assert(s.skip(16 + ml + xl) =~= spec_enc_stream(recs));
    lemma_dec_stream_of_enc_exact(recs);
}

/// First record for key `k` scanning files newest-first; the first file that
/// holds the key at all answers for it.
pub open spec fn disk_lookup(files: Seq<FileView>, k: Seq<u8>) -> Option<RecordView>
    decreases files.len(),
{
    if files.len() == 0 {
        None
    } else {
        match find_rec(files[0].records, k) {
            Some(r) => Some(r),
            None => disk_lookup(files.skip(1), k),
        }
    }
}

/// Newest-wins resolution of two candidates: the highest timestamp wins, and
/// on a tie the first argument (the newer source) does.
pub open spec fn combine(a: Option<RecordView>, b: Option<RecordView>) -> Option<RecordView> {
    match (a, b) {
        (None, x) => x,
        (Some(x), None) => Some(x),
        (Some(x), Some(y)) => if y.timestamp > x.timestamp {
            Some(y)
        } else {
            Some(x)
        },
    }
}

/// The record with the greatest timestamp for `k` over all files, ties going
/// to the newest file.
pub open spec fn disk_winner(files: Seq<FileView>, k: Seq<u8>) -> Option<RecordView>
    decreases files.len(),
{
    if files.len() == 0 {
        None
    } else {
        combine(find_rec(files[0].records, k), disk_winner(files.skip(1), k))
    }
}

/// Merge of two key-sorted tables; on a shared key the entry with the higher
/// timestamp survives, ties going to `a`.
pub open spec fn spec_merge(a: Seq<RecordView>, b: Seq<RecordView>) -> Seq<RecordView>
    decreases a.len() + b.len(),
{
    if a.len() == 0 {
        b
    } else if b.len() == 0 {
        a
    } else if key_lt(a[0].key, b[0].key) {
        seq![a[0]] + spec_merge(a.skip(1), b)
    } else if key_lt(b[0].key, a[0].key) {
        seq![b[0]] + spec_merge(a, b.skip(1))
    } else {
        seq![
            if b[0].timestamp > a[0].timestamp {
                b[0]
            } else {
                a[0]
            },
        ] + spec_merge(a.skip(1), b.skip(1))
    }
}

/// The records of a range scan before tombstone suppression: each file's
/// records within the range, merged newest-first.
pub open spec fn spec_disk_range(files: Seq<FileView>, lo: Seq<u8>, hi: Seq<u8>) -> Seq<
    RecordView,
>
    decreases files.len(),
{
    if files.len() == 0 {
        Seq::empty()
    } else {
        spec_merge(filter_range(files[0].records, lo, hi), spec_disk_range(files.skip(1), lo, hi))
    }
}

/// Drops tombstones, keeping order.
pub open spec fn suppress_tombstones(s: Seq<RecordView>) -> Seq<RecordView>
    decreases s.len(),
{
    if s.len() == 0 {
        Seq::empty()
    } else {
        suppress_tombstones(s.drop_last()) + if s.last().value is Some {
            seq![s.last()]
        } else {
            Seq::empty()
        }
    }
}

/// Everything the merge guarantees: order is kept, and each key resolves to
/// the newest of what the two inputs held for it.
pub proof fn lemma_merge_props(a: Seq<RecordView>, b: Seq<RecordView>)
    requires
        sorted_by_key(a),
        sorted_by_key(b),
    ensures
        sorted_by_key(spec_merge(a, b)),
        forall|k: Seq<u8>|
            #[trigger] find_rec(spec_merge(a, b), k) == combine(find_rec(a, k), find_rec(b, k)),
        forall|i: int|
            0 <= i < spec_merge(a, b).len() ==> has_key(a, #[trigger] spec_merge(a, b)[i].key)
                || has_key(b, spec_merge(a, b)[i].key),
    decreases a.len() + b.len(),
{
    let m = spec_merge(a, b);
    if a.len() == 0 {
        assert forall|k: Seq<u8>| #[trigger] find_rec(m, k) == combine(
            find_rec(a, k),
            find_rec(b, k),
        ) by {
            assert(find_rec(a, k) is None);
        }
        assert forall|i: int| 0 <= i < m.len() implies has_key(a, #[trigger] m[i].key) || has_key(
            b,
            m[i].key,
        ) by {
            assert(b[i].key == m[i].key);
        }
    } else if b.len() == 0 {
        assert forall|k: Seq<u8>| #[trigger] find_rec(m, k) == combine(
            find_rec(a, k),
            find_rec(b, k),
        ) by {
            assert(find_rec(b, k) is None);
        }
        assert forall|i: int| 0 <= i < m.len() implies has_key(a, #[trigger] m[i].key) || has_key(
            b,
            m[i].key,
        ) by {
            assert(a[i].key == m[i].key);
        }
    } else {
        lemma_sorted_skip(a);
        lemma_sorted_skip(b);
        let a0 = a[0];
        let b0 = b[0];
        if key_lt(a0.key, b0.key) {
            let m1 = spec_merge(a.skip(1), b);
            lemma_merge_props(a.skip(1), b);
            assert(m == seq![a0] + m1);
            assert(m[0] == a0);
            lemma_merge_head_left(a, b, m1, a0);
        } else if key_lt(b0.key, a0.key) {
            let m1 = spec_merge(a, b.skip(1));
            lemma_merge_props(a, b.skip(1));
            assert(m == seq![b0] + m1);
            lemma_merge_head_right(a, b, m1, b0);
        } else {
            lemma_key_lt_total(a0.key, b0.key);
            assert(a0.key == b0.key);
            let w = if b0.timestamp > a0.timestamp {
                b0
            } else {
                a0
            };
            let m1 = spec_merge(a.skip(1), b.skip(1));
            lemma_merge_props(a.skip(1), b.skip(1));
            assert(m == seq![w] + m1);
            lemma_merge_head_both(a, b, m1, w);
        }
    }
}

/// Head-step of the merge proof when `a`'s head key is strictly smaller.
proof fn lemma_merge_head_left(
    a: Seq<RecordView>,
    b: Seq<RecordView>,
    m1: Seq<RecordView>,
    a0: RecordView,
)
    requires
        sorted_by_key(a),
        sorted_by_key(b),
        a.len() > 0,
        b.len() > 0,
        a0 == a[0],
        key_lt(a0.key, b[0].key),
        m1 == spec_merge(a.skip(1), b),
        sorted_by_key(m1),
        forall|k: Seq<u8>|
            #[trigger] find_rec(m1, k) == combine(find_rec(a.skip(1), k), find_rec(b, k)),
        forall|i: int|
            0 <= i < m1.len() ==> has_key(a.skip(1), #[trigger] m1[i].key) || has_key(
                b,
                m1[i].key,
            ),
    ensures
        sorted_by_key(seq![a0] + m1),
        forall|k: Seq<u8>|
            #[trigger] find_rec(seq![a0] + m1, k) == combine(find_rec(a, k), find_rec(b, k)),
        forall|i: int|
            0 <= i < (seq![a0] + m1).len() ==> has_key(a, #[trigger] (seq![a0] + m1)[i].key)
                || has_key(b, (seq![a0] + m1)[i].key),
{
    let m = seq![a0] + m1;
    lemma_sorted_skip(a);
    // order: a0's key is strictly below every key appearing in m1
    assert forall|i: int| 0 <= i < m1.len() implies key_lt(a0.key, m1[i].key) by {
        if has_key(a.skip(1), m1[i].key) {
            lemma_sorted_lower_bound(a.skip(1), m1[i].key);
            assert(a.skip(1)[0] == a[1]);
            assert(key_lt(a0.key, a[1].key));
            lemma_key_le_transitive_lt(a0.key, a[1].key, m1[i].key);
        } else {
            assert(has_key(b, m1[i].key));
            lemma_sorted_lower_bound(b, m1[i].key);
            lemma_key_le_transitive_lt(a0.key, b[0].key, m1[i].key);
        }
    }
    assert forall|x: int, y: int| 0 <= x < y < m.len() implies key_lt(m[x].key, m[y].key) by {
        if x == 0 {
            assert(m[y] == m1[y - 1]);
        } else {
            assert(m[x] == m1[x - 1]);
            assert(m[y] == m1[y - 1]);
        }
    }
    // pointwise lookup
    assert forall|k: Seq<u8>| #[trigger] find_rec(m, k) == combine(
        find_rec(a, k),
        find_rec(b, k),
    ) by {
        assert(m[0] == a0);
        assert(m.skip(1) =~= m1);
        if k == a0.key {
            assert(find_rec(m, k) == Some(a0));
            assert(find_rec(a, k) == Some(a0));
            lemma_find_rec_char(b, k);
            match find_rec(b, k) {
                Some(x) => {
                    lemma_sorted_lower_bound(b, k);
                    lemma_key_lt_asymmetric(a0.key, b[0].key);
                    assert(key_le(b[0].key, a0.key));
                    assert(false);
                },
                None => {},
            }
        } else {
            assert(find_rec(m, k) == find_rec(m1, k));
            assert(find_rec(a, k) == find_rec(a.skip(1), k));
        }
    }
    // provenance of keys
    assert forall|i: int| 0 <= i < m.len() implies has_key(a, #[trigger] m[i].key) || has_key(
        b,
        m[i].key,
    ) by {
        if i == 0 {
            assert(a[0].key == m[0].key);
            assert(has_key(a, m[0].key));
        } else {
            assert(m[i] == m1[i - 1]);
            if has_key(a.skip(1), m1[i - 1].key) {
                let j = choose|j: int|
                    0 <= j < a.skip(1).len() && a.skip(1)[j].key == m1[i - 1].key;
                assert(a[j + 1].key == m1[i - 1].key);
                assert(has_key(a, m[i].key));
            }
        }
    }
}

/// Head-step of the merge proof when `b`'s head key is strictly smaller.
proof fn lemma_merge_head_right(
    a: Seq<RecordView>,
    b: Seq<RecordView>,
    m1: Seq<RecordView>,
    b0: RecordView,
)
    requires
        sorted_by_key(a),
        sorted_by_key(b),
        a.len() > 0,
        b.len() > 0,
        b0 == b[0],
        key_lt(b0.key, a[0].key),
        m1 == spec_merge(a, b.skip(1)),
        sorted_by_key(m1),
        forall|k: Seq<u8>|
            #[trigger] find_rec(m1, k) == combine(find_rec(a, k), find_rec(b.skip(1), k)),
        forall|i: int|
            0 <= i < m1.len() ==> has_key(a, #[trigger] m1[i].key) || has_key(
                b.skip(1),
                m1[i].key,
            ),
    ensures
        sorted_by_key(seq![b0] + m1),
        forall|k: Seq<u8>|
            #[trigger] find_rec(seq![b0] + m1, k) == combine(find_rec(a, k), find_rec(b, k)),
        forall|i: int|
            0 <= i < (seq![b0] + m1).len() ==> has_key(a, #[trigger] (seq![b0] + m1)[i].key)
                || has_key(b, (seq![b0] + m1)[i].key),
{
    let m = seq![b0] + m1;
    lemma_sorted_skip(b);
    assert forall|i: int| 0 <= i < m1.len() implies key_lt(b0.key, m1[i].key) by {
        if has_key(b.skip(1), m1[i].key) {
            lemma_sorted_lower_bound(b.skip(1), m1[i].key);
            assert(b.skip(1)[0] == b[1]);
            assert(key_lt(b0.key, b[1].key));
            lemma_key_le_transitive_lt(b0.key, b[1].key, m1[i].key);
        } else {
            assert(has_key(a, m1[i].key));
            lemma_sorted_lower_bound(a, m1[i].key);
            lemma_key_le_transitive_lt(b0.key, a[0].key, m1[i].key);
        }
    }
    assert forall|x: int, y: int| 0 <= x < y < m.len() implies key_lt(m[x].key, m[y].key) by {
        if x == 0 {
            assert(m[y] == m1[y - 1]);
        } else {
            assert(m[x] == m1[x - 1]);
            assert(m[y] == m1[y - 1]);
        }
    }
    assert forall|k: Seq<u8>| #[trigger] find_rec(m, k) == combine(
        find_rec(a, k),
        find_rec(b, k),
    ) by {
        assert(m[0] == b0);
        assert(m.skip(1) =~= m1);
        if k == b0.key {
            assert(find_rec(m, k) == Some(b0));
            assert(find_rec(b, k) == Some(b0));
            lemma_find_rec_char(a, k);
            match find_rec(a, k) {
                Some(x) => {
                    lemma_sorted_lower_bound(a, k);
                    lemma_key_lt_asymmetric(b0.key, a[0].key);
                    assert(false);
                },
                None => {},
            }
        } else {
            assert(find_rec(m, k) == find_rec(m1, k));
            assert(find_rec(b, k) == find_rec(b.skip(1), k));
        }
    }
    assert forall|i: int| 0 <= i < m.len() implies has_key(a, #[trigger] m[i].key) || has_key(
        b,
        m[i].key,
    ) by {
        if i == 0 {
            assert(b[0].key == m[0].key);
            assert(has_key(b, m[0].key));
        } else {
            assert(m[i] == m1[i - 1]);
            if has_key(b.skip(1), m1[i - 1].key) {
                let j = choose|j: int|
                    0 <= j < b.skip(1).len() && b.skip(1)[j].key == m1[i - 1].key;
                assert(b[j + 1].key == m1[i - 1].key);
                assert(has_key(b, m[i].key));
            }
        }
    }
}

/// Head-step of the merge proof when both heads carry the same key.
proof fn lemma_merge_head_both(
    a: Seq<RecordView>,
    b: Seq<RecordView>,
    m1: Seq<RecordView>,
    w: RecordView,
)
    requires
        sorted_by_key(a),
        sorted_by_key(b),
        a.len() > 0,
        b.len() > 0,
        a[0].key == b[0].key,
        w == if b[0].timestamp > a[0].timestamp {
            b[0]
        } else {
            a[0]
        },
        m1 == spec_merge(a.skip(1), b.skip(1)),
        sorted_by_key(m1),
        forall|k: Seq<u8>|
            #[trigger] find_rec(m1, k) == combine(find_rec(a.skip(1), k), find_rec(b.skip(1), k)),
        forall|i: int|
            0 <= i < m1.len() ==> has_key(a.skip(1), #[trigger] m1[i].key) || has_key(
                b.skip(1),
                m1[i].key,
            ),
    ensures
        sorted_by_key(seq![w] + m1),
        forall|k: Seq<u8>|
            #[trigger] find_rec(seq![w] + m1, k) == combine(find_rec(a, k), find_rec(b, k)),
        forall|i: int|
            0 <= i < (seq![w] + m1).len() ==> has_key(a, #[trigger] (seq![w] + m1)[i].key)
                || has_key(b, (seq![w] + m1)[i].key),
{
    let m = seq![w] + m1;
    lemma_sorted_skip(a);
    lemma_sorted_skip(b);
    assert forall|i: int| 0 <= i < m1.len() implies key_lt(w.key, m1[i].key) by {
        if has_key(a.skip(1), m1[i].key) {
            lemma_sorted_lower_bound(a.skip(1), m1[i].key);
            assert(a.skip(1)[0] == a[1]);
            assert(key_lt(a[0].key, a[1].key));
            lemma_key_le_transitive_lt(a[0].key, a[1].key, m1[i].key);
        } else {
            assert(has_key(b.skip(1), m1[i].key));
            lemma_sorted_lower_bound(b.skip(1), m1[i].key);
            assert(b.skip(1)[0] == b[1]);
            assert(key_lt(b[0].key, b[1].key));
            lemma_key_le_transitive_lt(b[0].key, b[1].key, m1[i].key);
        }
    }
    assert forall|x: int, y: int| 0 <= x < y < m.len() implies key_lt(m[x].key, m[y].key) by {
        if x == 0 {
            assert(m[y] == m1[y - 1]);
        } else {
            assert(m[x] == m1[x - 1]);
            assert(m[y] == m1[y - 1]);
        }
    }
    assert forall|k: Seq<u8>| #[trigger] find_rec(m, k) == combine(
        find_rec(a, k),
        find_rec(b, k),
    ) by {
        assert(m[0] == w);
        assert(m.skip(1) =~= m1);
        if k == w.key {
            assert(find_rec(m, k) == Some(w));
            assert(find_rec(a, k) == Some(a[0]));
            assert(find_rec(b, k) == Some(b[0]));
        } else {
            assert(find_rec(m, k) == find_rec(m1, k));
            assert(find_rec(a, k) == find_rec(a.skip(1), k));
            assert(find_rec(b, k) == find_rec(b.skip(1), k));
        }
    }
    assert forall|i: int| 0 <= i < m.len() implies has_key(a, #[trigger] m[i].key) || has_key(
        b,
        m[i].key,
    ) by {
        if i == 0 {
            assert(a[0].key == m[0].key);
            assert(has_key(a, m[0].key));
        } else {
            assert(m[i] == m1[i - 1]);
            if has_key(a.skip(1), m1[i - 1].key) {
                let j = choose|j: int|
                    0 <= j < a.skip(1).len() && a.skip(1)[j].key == m1[i - 1].key;
                assert(a[j + 1].key == m1[i - 1].key);
                assert(has_key(a, m[i].key));
            } else {
                let j = choose|j: int|
                    0 <= j < b.skip(1).len() && b.skip(1)[j].key == m1[i - 1].key;
                assert(b[j + 1].key == m1[i - 1].key);
                assert(has_key(b, m[i].key));
            }
        }
    }
}

/// `key_le` then `key_lt` gives `key_lt`.
proof fn lemma_key_le_transitive_lt(a: Seq<u8>, b: Seq<u8>, c: Seq<u8>)
    requires
        key_lt(a, b),
        key_le(b, c),
    ensures
        key_lt(a, c),
{
    if key_lt(b, c) {
        lemma_key_lt_transitive(a, b, c);
    }
}

/// Restricting a sorted table to a key range keeps it sorted and keeps
/// exactly the in-range keys.
pub proof fn lemma_filter_range_props(s: Seq<RecordView>, lo: Seq<u8>, hi: Seq<u8>)
    requires
        sorted_by_key(s),
    ensures
        sorted_by_key(filter_range(s, lo, hi)),
        forall|k: Seq<u8>|
            #[trigger] find_rec(filter_range(s, lo, hi), k) == if in_range(k, lo, hi) {
                find_rec(s, k)
            } else {
                None
            },
        forall|i: int|
            0 <= i < filter_range(s, lo, hi).len() ==> in_range(
                #[trigger] filter_range(s, lo, hi)[i].key,
                lo,
                hi,
            ),
        forall|i: int|
            0 <= i < filter_range(s, lo, hi).len() ==> has_key(
                s,
                #[trigger] filter_range(s, lo, hi)[i].key,
            ),
    decreases s.len(),
{
    let f = filter_range(s, lo, hi);
    if s.len() == 0 {
    } else {
        let d = s.drop_last();
        let r = s.last();
        assert(sorted_by_key(d)) by {
            assert forall|x: int, y: int| 0 <= x < y < d.len()
                implies key_lt(d[x].key, d[y].key) by {
                assert(d[x] == s[x]);
                assert(d[y] == s[y]);
            }
        }
        lemma_filter_range_props(d, lo, hi);
        let fd = filter_range(d, lo, hi);
        assert(s =~= d.push(r));
        if in_range(r.key, lo, hi) {
            assert(f =~= fd.push(r));
            // r's key is strictly above everything already in fd
            assert forall|i: int| 0 <= i < fd.len() implies key_lt(fd[i].key, r.key) by {
                let j = choose|j: int| 0 <= j < d.len() && d[j].key == fd[i].key;
                assert(s[j].key == fd[i].key);
                assert(key_lt(s[j].key, s[s.len() - 1].key));
            }
            assert forall|x: int, y: int| 0 <= x < y < f.len()
                implies key_lt(f[x].key, f[y].key) by {
                if y < fd.len() {
                    assert(f[x] == fd[x] && f[y] == fd[y]);
                } else {
                    assert(f[x] == fd[x] && f[y] == r);
                }
            }
            assert forall|k: Seq<u8>| #[trigger] find_rec(f, k) == (if in_range(k, lo, hi) {
                find_rec(s, k)
            } else {
                None
            }) by {
                lemma_find_rec_snoc(fd, r, k);
                lemma_find_rec_snoc(d, r, k);
                if k == r.key {
                    lemma_find_rec_char(d, k);
                    match find_rec(d, k) {
                        Some(x) => {
                            let j = choose|j: int| 0 <= j < d.len() && d[j] == x;
                            assert(s[j] == x);
                            lemma_sorted_distinct(s, j, s.len() - 1);
                        },
                        None => {},
                    }
                }
            }
            assert forall|i: int| 0 <= i < f.len() implies in_range(#[trigger] f[i].key, lo, hi)
                && has_key(s, f[i].key) by {
                if i < fd.len() {
                    assert(f[i] == fd[i]);
                    let j = choose|j: int| 0 <= j < d.len() && d[j].key == fd[i].key;
                    assert(s[j].key == f[i].key);
                } else {
                    assert(f[i] == r);
                    assert(s[s.len() - 1].key == f[i].key);
                }
            }
        } else {
            assert(f =~= fd);
            assert forall|k: Seq<u8>| #[trigger] find_rec(f, k) == (if in_range(k, lo, hi) {
                find_rec(s, k)
            } else {
                None
            }) by {
                lemma_find_rec_snoc(d, r, k);
                if k == r.key {
                } else {
                }
            }
            assert forall|i: int| 0 <= i < f.len() implies in_range(#[trigger] f[i].key, lo, hi)
                && has_key(s, f[i].key) by {
                assert(f[i] == fd[i]);
                let j = choose|j: int| 0 <= j < d.len() && d[j].key == fd[i].key;
                assert(s[j].key == f[i].key);
            }
        }
    }
}

/// The raw range scan is sorted and resolves every in-range key to its
/// newest record over all files.
pub proof fn lemma_disk_range_props(files: Seq<FileView>, lo: Seq<u8>, hi: Seq<u8>)
    requires
        forall|i: int| 0 <= i < files.len() ==> file_view_wf(#[trigger] files[i]),
    ensures
        sorted_by_key(spec_disk_range(files, lo, hi)),
        forall|k: Seq<u8>|
            #[trigger] find_rec(spec_disk_range(files, lo, hi), k) == if in_range(k, lo, hi) {
                disk_winner(files, k)
            } else {
                None
            },
    decreases files.len(),
{
    let dr = spec_disk_range(files, lo, hi);
    if files.len() == 0 {
    } else {
        assert(forall|i: int|
            0 <= i < files.skip(1).len() ==> #[trigger] files.skip(1)[i] == files[i + 1]);
        lemma_disk_range_props(files.skip(1), lo, hi);
        lemma_filter_range_props(files[0].records, lo, hi);
        let fr = filter_range(files[0].records, lo, hi);
        let rest = spec_disk_range(files.skip(1), lo, hi);
        lemma_merge_props(fr, rest);
        assert(dr == spec_merge(fr, rest));
        assert forall|k: Seq<u8>| #[trigger] find_rec(dr, k) == (if in_range(k, lo, hi) {
            disk_winner(files, k)
        } else {
            None
        }) by {
            assert(find_rec(dr, k) == combine(find_rec(fr, k), find_rec(rest, k)));
        }
    }
}

/// Dropping tombstones keeps the order and leaves exactly the keys whose
/// newest record carries a value.
pub proof fn lemma_suppress_props(s: Seq<RecordView>)
    requires
        sorted_by_key(s),
    ensures
        sorted_by_key(suppress_tombstones(s)),
        forall|k: Seq<u8>|
            #[trigger] find_rec(suppress_tombstones(s), k) == (match find_rec(s, k) {
                Some(r) => if r.value is Some {
                    Some(r)
                } else {
                    None
                },
                None => None,
            }),
        forall|i: int|
            0 <= i < suppress_tombstones(s).len() ==> #[trigger] suppress_tombstones(
                s,
            )[i].value is Some,
        forall|i: int|
            0 <= i < suppress_tombstones(s).len() ==> has_rec(s, #[trigger] suppress_tombstones(s)[i]),
    decreases s.len(),
{
    let f = suppress_tombstones(s);
    if s.len() == 0 {
    } else {
        let d = s.drop_last();
        let r = s.last();
        assert(sorted_by_key(d)) by {
            assert forall|x: int, y: int| 0 <= x < y < d.len()
                implies key_lt(d[x].key, d[y].key) by {
                assert(d[x] == s[x]);
                assert(d[y] == s[y]);
            }
        }
        lemma_suppress_props(d);
        let fd = suppress_tombstones(d);
        assert(s =~= d.push(r));
        assert forall|i: int| 0 <= i < fd.len() implies has_rec(s, #[trigger] fd[i]) by {
            let j = choose|j: int| 0 <= j < d.len() && d[j] == fd[i];
            assert(s[j] == fd[i]);
        }
        if r.value is Some {
            assert(f =~= fd.push(r));
            assert forall|i: int| 0 <= i < fd.len() implies key_lt(fd[i].key, r.key) by {
                let j = choose|j: int| 0 <= j < d.len() && d[j] == fd[i];
                assert(key_lt(s[j].key, s[s.len() - 1].key));
            }
            assert forall|x: int, y: int| 0 <= x < y < f.len()
                implies key_lt(f[x].key, f[y].key) by {
                if y < fd.len() {
                    assert(f[x] == fd[x] && f[y] == fd[y]);
                } else {
                    assert(f[x] == fd[x] && f[y] == r);
                }
            }
            assert forall|k: Seq<u8>| #[trigger] find_rec(f, k) == (match find_rec(s, k) {
                Some(x) => if x.value is Some {
                    Some(x)
                } else {
                    None
                },
                None => None,
            }) by {
                lemma_find_rec_snoc(fd, r, k);
                lemma_find_rec_snoc(d, r, k);
                if k == r.key {
                    lemma_find_rec_char(d, k);
                    match find_rec(d, k) {
                        Some(x) => {
                            let j = choose|j: int| 0 <= j < d.len() && d[j] == x;
                            assert(s[j] == x);
                            lemma_sorted_distinct(s, j, s.len() - 1);
                        },
                        None => {},
                    }
                }
            }
            assert forall|i: int| 0 <= i < f.len() implies #[trigger] f[i].value is Some
                && has_rec(s, f[i]) by {
                if i < fd.len() {
                    assert(f[i] == fd[i]);
                } else {
                    assert(f[i] == r);
                    assert(s[s.len() - 1] == r);
                }
            }
        } else {
            assert(f =~= fd);
            assert forall|k: Seq<u8>| #[trigger] find_rec(f, k) == (match find_rec(s, k) {
                Some(x) => if x.value is Some {
                    Some(x)
                } else {
                    None
                },
                None => None,
            }) by {
                lemma_find_rec_snoc(d, r, k);
                if k == r.key {
                    lemma_find_rec_char(d, k);
                    match find_rec(d, k) {
                        Some(x) => {
                            let j = choose|j: int| 0 <= j < d.len() && d[j] == x;
                            assert(s[j] == x);
                            lemma_sorted_distinct(s, j, s.len() - 1);
                        },
                        None => {},
                    }
                }
            }
        }
    }
}

/// Header correctness of a well-formed DBF: `min_key` is at or below every
/// record's key and `max_key` at or above it, `min_key` and `max_key` being
/// themselves the first and last record's keys.
pub proof fn lemma_dbf_header_bounds(f: FileView, i: int)
    requires
        file_view_wf(f),
        0 <= i < f.records.len(),
    ensures
        key_le(f.min_key, f.records[i].key),
        key_le(f.records[i].key, f.max_key),
{
    if i > 0 {
        assert(key_lt(f.records[0].key, f.records[i].key));
    }
    if i < f.records.len() - 1 {
        assert(key_lt(f.records[i].key, f.records[f.records.len() - 1].key));
    }
}

/// A point lookup answers from the newest file that holds the key at all.
pub proof fn lemma_disk_lookup_char(files: Seq<FileView>, k: Seq<u8>)
    ensures
        match disk_lookup(files, k) {
            Some(r) => exists|i: int|
                {
                    &&& 0 <= i < files.len()
                    &&& #[trigger] find_rec(files[i].records, k) == Some(r)
                    &&& forall|i2: int|
                        0 <= i2 < i ==> #[trigger] find_rec(files[i2].records, k) is None
                },
            None => forall|i: int|
                0 <= i < files.len() ==> #[trigger] find_rec(files[i].records, k) is None,
        },
    decreases files.len(),
{
    if files.len() > 0 {
        lemma_disk_lookup_char(files.skip(1), k);
        assert(forall|i: int|
            0 <= i < files.skip(1).len() ==> #[trigger] files.skip(1)[i] == files[i + 1]);
        match find_rec(files[0].records, k) {
            Some(r) => {
                assert(find_rec(files[0].records, k) == Some(r));
            },
            None => {
                match disk_lookup(files.skip(1), k) {
                    Some(r) => {
                        let i = choose|i: int|
                            {
                                &&& 0 <= i < files.skip(1).len()
                                &&& #[trigger] find_rec(files.skip(1)[i].records, k) == Some(r)
                                &&& forall|i2: int|
                                    0 <= i2 < i ==> #[trigger] find_rec(
                                        files.skip(1)[i2].records,
                                        k,
                                    ) is None
                            };
                        assert(find_rec(files[i + 1].records, k) == Some(r));
                        assert forall|i2: int| 0 <= i2 < i + 1 implies #[trigger] find_rec(
                            files[i2].records,
                            k,
                        ) is None by {
                            if i2 > 0 {
                                assert(find_rec(files.skip(1)[i2 - 1].records, k) is None);
                            }
                        }
                    },
                    None => {
                        assert forall|i: int| 0 <= i < files.len() implies #[trigger] find_rec(
                            files[i].records,
                            k,
                        ) is None by {
                            if i > 0 {
                                assert(find_rec(files.skip(1)[i - 1].records, k) is None);
                            }
                        }
                    },
                }
            },
        }
    }
}

/// The newest-wins winner for a key is one of the files' records for it.
pub proof fn lemma_disk_winner_char(files: Seq<FileView>, k: Seq<u8>)
    ensures
        match disk_winner(files, k) {
            Some(r) => exists|i: int|
                0 <= i < files.len() && #[trigger] find_rec(files[i].records, k) == Some(r),
            None => forall|i: int|
                0 <= i < files.len() ==> #[trigger] find_rec(files[i].records, k) is None,
        },
    decreases files.len(),
{
    if files.len() > 0 {
        lemma_disk_winner_char(files.skip(1), k);
        assert(forall|i: int|
            0 <= i < files.skip(1).len() ==> #[trigger] files.skip(1)[i] == files[i + 1]);
        match disk_winner(files, k) {
            Some(r) => {
                match (find_rec(files[0].records, k), disk_winner(files.skip(1), k)) {
                    (None, Some(x)) => {
                        let i = choose|i: int|
                            0 <= i < files.skip(1).len() && #[trigger] find_rec(
                                files.skip(1)[i].records,
                                k,
                            ) == Some(x);
                        assert(find_rec(files[i + 1].records, k) == Some(x));
                    },
                    (Some(x), None) => {
                        assert(find_rec(files[0].records, k) == Some(x));
                    },
                    (Some(x), Some(y)) => {
                        if y.timestamp > x.timestamp {
                            let i = choose|i: int|
                                0 <= i < files.skip(1).len() && #[trigger] find_rec(
                                    files.skip(1)[i].records,
                                    k,
                                ) == Some(y);
                            assert(find_rec(files[i + 1].records, k) == Some(y));
                        } else {
                            assert(find_rec(files[0].records, k) == Some(x));
                        }
                    },
                    (None, None) => {
                        assert(false);
                    },
                }
            },
            None => {
                assert forall|i: int| 0 <= i < files.len() implies #[trigger] find_rec(
                    files[i].records,
                    k,
                ) is None by {
                    if i > 0 {
                        assert(find_rec(files.skip(1)[i - 1].records, k) is None);
                    }
                }
            },
        }
    }
}

/// A chain of adjacent comparisons orders the whole table.
proof fn lemma_chain_lt(s: Seq<RecordView>, i: int, j: int)
    requires
        forall|t: int| 0 <= t < s.len() - 1 ==> key_lt(#[trigger] s[t].key, s[t + 1].key),
        0 <= i < j < s.len(),
    ensures
        key_lt(s[i].key, s[j].key),
    decreases j - i,
{
    if j > i + 1 {
        lemma_chain_lt(s, i, j - 1);
        lemma_key_lt_transitive(s[i].key, s[j - 1].key, s[j].key);
    }
}

/// Descriptor of one sealed data-block file: the two boundary keys from its
/// header and its records in ascending key order.
pub struct FileService {
    min_key: Vec<u8>,
    max_key: Vec<u8>,
    records: Vec<MemTableEntry>,
}

impl View for FileService {
    type V = FileView;

    closed spec fn view(&self) -> FileView {
        FileView {
            min_key: self.min_key@,
            max_key: self.max_key@,
            records: self.records@.map_values(|e: MemTableEntry| e@),
        }
    }
}

impl FileService {
    pub closed spec fn wf(&self) -> bool {
        &&& file_view_wf(self@)
        &&& forall|i: int| 0 <= i < self.records@.len() ==> entry_wf(#[trigger] self.records@[i])
    }

    pub proof fn lemma_wf_facts(&self)
        requires
            self.wf(),
        ensures
            file_view_wf(self@),
    {
    }

    /// Parses a DBF's bytes into a descriptor, rejecting anything that is
    /// not a well-formed file; a truncated record at the very end of the
    /// body is dropped silently, as at WAL recovery.
    #[verifier::loop_isolation(false)]
    #[verifier::rlimit(100)]
    #[verifier::spinoff_prover]
    pub fn parse(bytes: &Vec<u8>) -> (r: Result<FileService, DbError>)
        ensures
            match r {
                Ok(f) => {
                    &&& spec_dbf_valid(bytes@)
                    &&& f.wf()
                    &&& f@ == spec_dbf_view(bytes@)
                },
                Err(_) => !spec_dbf_valid(bytes@),
            },
    {
        let n = bytes.len();
        if n < 16 {
            return Err(DbError::MalformedFile);
        }
        let s = bytes.as_slice();
        let ml64 = u64_from_le_bytes(&s[0..8]);
        let xl64 = u64_from_le_bytes(&s[8..16]);
        proof {
            assert(bytes@.subrange(0, 8) == s@.subrange(0, 8));
            assert(bytes@.subrange(8, 16) == s@.subrange(8, 16));
        }
        if ml64 > (n - 16) as u64 {
            return Err(DbError::MalformedFile);
        }
        let ml = ml64 as usize;
        if xl64 > ((n - 16) - ml) as u64 {
            return Err(DbError::MalformedFile);
        }
        let xl = xl64 as usize;
        let min_key = clone_bytes(&s[16..16 + ml]);
        let max_key = clone_bytes(&s[16 + ml..16 + ml + xl]);
        let off = 16 + ml + xl;
        proof {
            assert(spec_dbf_header(bytes@) == Some((min_key@, max_key@, off as int)));
        }
        let ghost body = bytes@.skip(off as int);
        let mut records: Vec<MemTableEntry> = Vec::new();
        let mut pos = off;
        let mut fin = false;
        proof {
            assert(body.skip(0) =~= body);
            assert(Seq::<RecordView>::empty() + spec_dec_stream(body) =~= spec_dec_stream(body));
            assert(records@.map_values(|e: MemTableEntry| e@) =~= Seq::<RecordView>::empty());
        }
        while !fin
            invariant
                off <= pos <= bytes@.len(),
                spec_dec_stream(body) == records@.map_values(|e: MemTableEntry| e@)
                    + spec_dec_stream(bytes@.skip(pos as int)),
                fin ==> spec_dec_record(bytes@.skip(pos as int)) is None,
                forall|j: int| 0 <= j < records@.len() ==> entry_wf(#[trigger] records@[j]),
            decreases bytes@.len() - pos + (if fin { 0int } else { 1int }),
        {
            let ghost rest = bytes@.skip(pos as int);
            let ghost rv = records@.map_values(|e: MemTableEntry| e@);
            match decode_record(bytes, pos) {
                None => {
                    fin = true;
                },
                Some((e, end)) => {
                    proof {
                        lemma_dec_record_bounds(rest);
                        lemma_dec_stream_step(rest);
                        assert(rest.skip(end - pos) =~= bytes@.skip(end as int));
                    }
                    let ghost ev = e@;
                    records.push(e);
                    proof {
                        assert(records@.map_values(|e: MemTableEntry| e@) =~= rv.push(ev));
                        assert(rv + (seq![ev] + spec_dec_stream(bytes@.skip(end as int)))
                            =~= rv.push(ev) + spec_dec_stream(bytes@.skip(end as int)));
                    }
                    pos = end;
                },
            }
        }
        proof {
            lemma_dec_stream_step(bytes@.skip(pos as int));
            let rv = records@.map_values(|e: MemTableEntry| e@);
            assert(rv + Seq::<RecordView>::empty() =~= rv);
            assert(rv == spec_dec_stream(body));
        }
        let ghost recs = spec_dec_stream(body);
        // validation: at least one record, ascending keys, header matching
        if records.len() == 0 {
            return Err(DbError::MalformedFile);
        }
        let mut j: usize = 1;
        while j < records.len()
            invariant
                1 <= j <= records@.len(),
                forall|t: int| 0 <= t < j - 1 ==> key_lt(#[trigger] recs[t].key, recs[t + 1].key),
            decreases records@.len() - j,
        {
            if !key_less(records[j - 1].key.as_slice(), records[j].key.as_slice()) {
                proof {
                    assert(!key_lt(recs[j - 1].key, recs[j as int].key));
                    assert(!sorted_by_key(recs));
                }
                return Err(DbError::MalformedFile);
            }
            j = j + 1;
        }
        proof {
            assert forall|x: int, y: int| 0 <= x < y < recs.len()
                implies key_lt(recs[x].key, recs[y].key) by {
                lemma_chain_lt(recs, x, y);
            }
        }
        if !keys_equal(min_key.as_slice(), records[0].key.as_slice()) {
            return Err(DbError::MalformedFile);
        }
        if !keys_equal(max_key.as_slice(), records[records.len() - 1].key.as_slice()) {
            return Err(DbError::MalformedFile);
        }
        proof {
            lemma_dec_stream_facts(body);
        }
        let f = FileService { min_key, max_key, records };
        proof {
            assert(f@ =~= spec_dbf_view(bytes@));
        }
        Ok(f)
    }

    /// Replays this file's records into a fresh MemTable; the file being
    /// sorted, the result holds exactly its records.
    #[verifier::loop_isolation(false)]
    pub fn rebuild_mem_table_from_disk(&self) -> (mem: MemTable)
        requires
            self.wf(),
        ensures
            mem.wf(),
            table_size(mem@) <= table_size(self@.records),
            forall|k: Seq<u8>| #[trigger] find_rec(mem@, k) == find_rec(self@.records, k),
    {
        let ghost recs = self@.records;
        let mut mem = MemTable::new();
        let mut i: usize = 0;
        let n = self.records.len();
        proof {
            assert(recs.take(0) =~= Seq::<RecordView>::empty());
        }
        while i < n
            invariant
                i <= n,
                n == self.records@.len(),
                mem.wf(),
                table_size(mem@) <= table_size(recs.take(i as int)),
                forall|k: Seq<u8>|
                    #[trigger] find_rec(mem@, k) == replay_find(recs.take(i as int), k),
            decreases n - i,
        {
            let e = &self.records[i];
            proof {
                assert(recs[i as int] == self.records@[i as int]@);
                assert(recs.take(i + 1) =~= recs.take(i as int).push(recs[i as int]));
                lemma_table_size_snoc(recs.take(i as int), recs[i as int]);
                lemma_table_size_prefix(recs, i + 1);
            }
            let ghost pre = recs.take(i as int);
            match &e.value {
                Some(v) => {
                    mem.put(e.key.as_slice(), v.as_slice(), e.timestamp);
                },
                None => {
                    mem.delete(e.key.as_slice(), e.timestamp);
                },
            }
            proof {
                assert forall|k: Seq<u8>| #[trigger] find_rec(mem@, k) == replay_find(
                    recs.take(i + 1),
                    k,
                ) by {
                    lemma_replay_find_snoc(pre, recs[i as int], k);
                }
            }
            i = i + 1;
        }
        proof {
            assert(recs.take(n as int) =~= recs);
            assert forall|k: Seq<u8>| #[trigger] find_rec(mem@, k) == find_rec(recs, k) by {
                lemma_replay_find_sorted(recs, k);
            }
        }
        mem
    }
}


/// Reads a data-block file's records starting at the given offset (just
/// past the header).
pub struct DBFIterator {
    buf: Vec<u8>,
    pos: usize,
}

impl DBFIterator {
    pub closed spec fn buf_spec(&self) -> Seq<u8> {
        self.buf@
    }

    pub closed spec fn pos_spec(&self) -> int {
        self.pos as int
    }

    pub closed spec fn wf(&self) -> bool {
        self.pos <= self.buf@.len()
    }

    pub fn new(buf: Vec<u8>, pos: usize) -> (it: DBFIterator)
        requires
            pos <= buf@.len(),
        ensures
            it.wf(),
            it.buf_spec() == buf@,
            it.pos_spec() == pos,
    {
        DBFIterator { buf, pos }
    }

    /// Yields the next record, or `None` at the end of the file or at a
    /// truncated tail.
    pub fn next(&mut self) -> (r: Option<MemTableEntry>)
        requires
            old(self).wf(),
        ensures
            final(self).wf(),
            final(self).buf_spec() == old(self).buf_spec(),
            match r {
                Some(e) => {
                    &&& spec_dec_record(old(self).buf_spec().skip(old(self).pos_spec())) == Some(
                        (e@, final(self).pos_spec() - old(self).pos_spec()),
                    )
                    &&& entry_wf(e)
                    &&& final(self).pos_spec() > old(self).pos_spec()
                },
                None => {
                    &&& spec_dec_record(old(self).buf_spec().skip(old(self).pos_spec())) is None
                    &&& final(self).pos_spec() == old(self).pos_spec()
                },
            },
    {
        match decode_record(&self.buf, self.pos) {
            Some((e, end)) => {
                self.pos = end;
                Some(e)
            },
            None => None,
        }
    }
}

/// Merges two key-sorted entry lists, newest-wins; ties go to `a`, the
/// newer source.
#[verifier::loop_isolation(false)]
#[verifier::rlimit(100)]
#[verifier::spinoff_prover]
pub(crate) fn merge_newest(a: Vec<MemTableEntry>, b: Vec<MemTableEntry>) -> (m: Vec<MemTableEntry>)
    requires
        forall|i: int| 0 <= i < a@.len() ==> entry_wf(#[trigger] a@[i]),
        forall|i: int| 0 <= i < b@.len() ==> entry_wf(#[trigger] b@[i]),
    ensures
        m@.map_values(|e: MemTableEntry| e@) == spec_merge(
            a@.map_values(|e: MemTableEntry| e@),
            b@.map_values(|e: MemTableEntry| e@),
        ),
        forall|i: int| 0 <= i < m@.len() ==> entry_wf(#[trigger] m@[i]),
{
    let ghost av = a@.map_values(|e: MemTableEntry| e@);
    let ghost bv = b@.map_values(|e: MemTableEntry| e@);
    let mut m: Vec<MemTableEntry> = Vec::new();
    let mut i: usize = 0;
    let mut j: usize = 0;
    proof {
        assert(av.skip(0) =~= av);
        assert(bv.skip(0) =~= bv);
        assert(m@.map_values(|e: MemTableEntry| e@) + spec_merge(av, bv) =~= spec_merge(av, bv));
    }
    while i < a.len() && j < b.len()
        invariant
            i <= a@.len(),
            j <= b@.len(),
            m@.map_values(|e: MemTableEntry| e@) + spec_merge(
                av.skip(i as int),
                bv.skip(j as int),
            ) == spec_merge(av, bv),
            forall|t: int| 0 <= t < m@.len() ==> entry_wf(#[trigger] m@[t]),
        decreases a@.len() - i + b@.len() - j,
    {
        let ghost mv = m@.map_values(|e: MemTableEntry| e@);
        let ghost sa = av.skip(i as int);
        let ghost sb = bv.skip(j as int);
        proof {
            assert(sa[0] == av[i as int]);
            assert(sb[0] == bv[j as int]);
            assert(sa.skip(1) =~= av.skip(i + 1));
            assert(sb.skip(1) =~= bv.skip(j + 1));
            assert(av[i as int] == a@[i as int]@);
            assert(bv[j as int] == b@[j as int]@);
        }
        match compare_keys(a[i].key.as_slice(), b[j].key.as_slice()) {
            KeyCmp::Less => {
                m.push(copy_entry(&a[i]));
                proof {
                    assert(spec_merge(sa, sb) == seq![sa[0]] + spec_merge(sa.skip(1), sb));
                    assert(m@.map_values(|e: MemTableEntry| e@) =~= mv.push(sa[0]));
                    assert(mv.push(sa[0]) + spec_merge(av.skip(i + 1), sb) =~= mv + (seq![sa[0]]
                        + spec_merge(av.skip(i + 1), sb)));
                }
                i = i + 1;
            },
            KeyCmp::Greater => {
                m.push(copy_entry(&b[j]));
                proof {
                    lemma_key_lt_asymmetric(sb[0].key, sa[0].key);
                    assert(spec_merge(sa, sb) == seq![sb[0]] + spec_merge(sa, sb.skip(1)));
                    assert(m@.map_values(|e: MemTableEntry| e@) =~= mv.push(sb[0]));
                    assert(mv.push(sb[0]) + spec_merge(sa, bv.skip(j + 1)) =~= mv + (seq![sb[0]]
                        + spec_merge(sa, bv.skip(j + 1))));
                }
                j = j + 1;
            },
            KeyCmp::Equal => {
                proof {
                    lemma_key_lt_irreflexive(sa[0].key);
                }
                let w = if b[j].timestamp > a[i].timestamp {
                    copy_entry(&b[j])
                } else {
                    copy_entry(&a[i])
                };
                m.push(w);
                proof {
                    let ghost wv = if sb[0].timestamp > sa[0].timestamp {
                        sb[0]
                    } else {
                        sa[0]
                    };
                    assert(spec_merge(sa, sb) == seq![wv] + spec_merge(sa.skip(1), sb.skip(1)));
                    assert(m@.map_values(|e: MemTableEntry| e@) =~= mv.push(wv));
                    assert(mv.push(wv) + spec_merge(av.skip(i + 1), bv.skip(j + 1)) =~= mv + (
                    seq![wv] + spec_merge(av.skip(i + 1), bv.skip(j + 1))));
                }
                i = i + 1;
                j = j + 1;
            },
        }
    }
    while i < a.len()
        invariant
            i <= a@.len(),
            j <= b@.len(),
            i < a@.len() ==> j == b@.len(),
            m@.map_values(|e: MemTableEntry| e@) + spec_merge(
                av.skip(i as int),
                bv.skip(j as int),
            ) == spec_merge(av, bv),
            forall|t: int| 0 <= t < m@.len() ==> entry_wf(#[trigger] m@[t]),
        decreases a@.len() - i,
    {
        let ghost mv = m@.map_values(|e: MemTableEntry| e@);
        let ghost sa = av.skip(i as int);
        proof {
            assert(bv.skip(j as int) =~= Seq::<RecordView>::empty());
            assert(spec_merge(sa, bv.skip(j as int)) == sa);
            assert(av[i as int] == a@[i as int]@);
            assert(sa =~= seq![av[i as int]] + av.skip(i + 1));
        }
        m.push(copy_entry(&a[i]));
        proof {
            assert(m@.map_values(|e: MemTableEntry| e@) =~= mv.push(av[i as int]));
            assert(spec_merge(av.skip(i + 1), bv.skip(j as int)) == av.skip(i + 1));
            assert(mv.push(av[i as int]) + av.skip(i + 1) =~= mv + sa);
        }
        i = i + 1;
    }
    while j < b.len()
        invariant
            i == a@.len(),
            j <= b@.len(),
            m@.map_values(|e: MemTableEntry| e@) + spec_merge(
                av.skip(i as int),
                bv.skip(j as int),
            ) == spec_merge(av, bv),
            forall|t: int| 0 <= t < m@.len() ==> entry_wf(#[trigger] m@[t]),
        decreases b@.len() - j,
    {
        let ghost mv = m@.map_values(|e: MemTableEntry| e@);
        let ghost sb = bv.skip(j as int);
        proof {
            assert(av.skip(i as int) =~= Seq::<RecordView>::empty());
            assert(spec_merge(av.skip(i as int), sb) == sb);
            assert(bv[j as int] == b@[j as int]@);
            assert(sb =~= seq![bv[j as int]] + bv.skip(j + 1));
        }
        m.push(copy_entry(&b[j]));
        proof {
            assert(m@.map_values(|e: MemTableEntry| e@) =~= mv.push(bv[j as int]));
            assert(spec_merge(av.skip(i as int), bv.skip(j + 1)) == bv.skip(j + 1));
            assert(mv.push(bv[j as int]) + bv.skip(j + 1) =~= mv + sb);
        }
        j = j + 1;
    }
    proof {
        assert(av.skip(i as int) =~= Seq::<RecordView>::empty());
        assert(bv.skip(j as int) =~= Seq::<RecordView>::empty());
        assert(spec_merge(av.skip(i as int), bv.skip(j as int)) == Seq::<RecordView>::empty());
        assert(m@.map_values(|e: MemTableEntry| e@) + Seq::<RecordView>::empty() =~= m@.map_values(
            |e: MemTableEntry| e@,
        ));
    }
    m
}

/// Keeps the entries whose key lies in the inclusive range.
#[verifier::loop_isolation(false)]
#[verifier::rlimit(60)]
fn file_range(f: &FileService, min_key: &[u8], max_key: &[u8]) -> (v: Vec<MemTableEntry>)
    requires
        f.wf(),
    ensures
        v@.map_values(|e: MemTableEntry| e@) == filter_range(f@.records, min_key@, max_key@),
        forall|i: int| 0 <= i < v@.len() ==> entry_wf(#[trigger] v@[i]),
{
    let ghost recs = f@.records;
    let mut v: Vec<MemTableEntry> = Vec::new();
    let mut i: usize = 0;
    let n = f.records.len();
    proof {
        assert(recs.take(0) =~= Seq::<RecordView>::empty());
        assert(v@.map_values(|e: MemTableEntry| e@) =~= Seq::<RecordView>::empty());
    }
    while i < n
        invariant
            i <= n,
            n == f.records@.len(),
            v@.map_values(|e: MemTableEntry| e@) == filter_range(
                recs.take(i as int),
                min_key@,
                max_key@,
            ),
            forall|j: int| 0 <= j < v@.len() ==> entry_wf(#[trigger] v@[j]),
        decreases n - i,
    {
        let ghost pre = v@.map_values(|e: MemTableEntry| e@);
        proof {
            assert(recs[i as int] == f.records@[i as int]@);
        }
        let k = f.records[i].key.as_slice();
        if key_leq(min_key, k) && key_leq(k, max_key) {
            v.push(copy_entry(&f.records[i]));
            proof {
                assert(v@.map_values(|e: MemTableEntry| e@) =~= pre.push(recs[i as int]));
            }
        }
        proof {
            assert(recs.take(i + 1).drop_last() =~= recs.take(i as int));
            assert(recs.take(i + 1).last() == recs[i as int]);
            if in_range(recs[i as int].key, min_key@, max_key@) {
                assert(filter_range(recs.take(i + 1), min_key@, max_key@) =~= filter_range(
                    recs.take(i as int),
                    min_key@,
                    max_key@,
                ).push(recs[i as int]));
            } else {
                assert(filter_range(recs.take(i + 1), min_key@, max_key@) =~= filter_range(
                    recs.take(i as int),
                    min_key@,
                    max_key@,
                ));
            }
        }
        i = i + 1;
    }
    proof {
        assert(recs.take(n as int) =~= recs);
    }
    v
}

/// Scans one sorted file for an exact key, stopping at the first key past
/// it.
#[verifier::loop_isolation(false)]
fn file_find(f: &FileService, key: &[u8]) -> (r: Option<MemTableEntry>)
    requires
        f.wf(),
    ensures
        match r {
            Some(e) => find_rec(f@.records, key@) == Some(e@) && entry_wf(e),
            None => find_rec(f@.records, key@) is None,
        },
{
    let ghost recs = f@.records;
    let n = f.records.len();
    let mut j: usize = 0;
    while j < n
        invariant
            j <= n,
            n == f.records@.len(),
            forall|t: int| 0 <= t < j ==> #[trigger] recs[t].key != key@,
        decreases n - j,
    {
        proof {
            assert(recs[j as int] == f.records@[j as int]@);
        }
        match compare_keys(f.records[j].key.as_slice(), key) {
            KeyCmp::Less => {
                proof {
                    lemma_key_lt_irreflexive(recs[j as int].key);
                }
                j = j + 1;
            },
            KeyCmp::Equal => {
                proof {
                    lemma_find_rec_present(recs, j as int);
                }
                return Some(copy_entry(&f.records[j]));
            },
            KeyCmp::Greater => {
                proof {
                    assert forall|t: int| 0 <= t < recs.len() implies #[trigger] recs[t].key
                        != key@ by {
                        if t >= j {
                            if t > j {
                                assert(key_lt(recs[j as int].key, recs[t].key));
                                lemma_key_lt_transitive(key@, recs[j as int].key, recs[t].key);
                            }
                            lemma_key_lt_irreflexive(key@);
                        }
                    }
                    lemma_find_rec_char(recs, key@);
                }
                return None;
            },
        }
    }
    proof {
        lemma_find_rec_char(recs, key@);
    }
    None
}

/// Keeps the entries that carry a value, dropping tombstones.
#[verifier::loop_isolation(false)]
pub(crate) fn drop_tombstones(entries: Vec<MemTableEntry>) -> (v: Vec<MemTableEntry>)
    requires
        forall|i: int| 0 <= i < entries@.len() ==> entry_wf(#[trigger] entries@[i]),
    ensures
        v@.map_values(|e: MemTableEntry| e@) == suppress_tombstones(
            entries@.map_values(|e: MemTableEntry| e@),
        ),
        forall|i: int| 0 <= i < v@.len() ==> entry_wf(#[trigger] v@[i]),
{
    let ghost sv = entries@.map_values(|e: MemTableEntry| e@);
    let mut v: Vec<MemTableEntry> = Vec::new();
    let mut i: usize = 0;
    let n = entries.len();
    proof {
        assert(sv.take(0) =~= Seq::<RecordView>::empty());
        assert(v@.map_values(|e: MemTableEntry| e@) =~= Seq::<RecordView>::empty());
    }
    while i < n
        invariant
            i <= n,
            n == entries@.len(),
            v@.map_values(|e: MemTableEntry| e@) == suppress_tombstones(sv.take(i as int)),
            forall|j: int| 0 <= j < v@.len() ==> entry_wf(#[trigger] v@[j]),
        decreases n - i,
    {
        let ghost pre = v@.map_values(|e: MemTableEntry| e@);
        proof {
            assert(sv[i as int] == entries@[i as int]@);
        }
        if !entries[i].deleted {
            v.push(copy_entry(&entries[i]));
            proof {
                assert(v@.map_values(|e: MemTableEntry| e@) =~= pre.push(sv[i as int]));
            }
        }
        proof {
            assert(sv.take(i + 1).drop_last() =~= sv.take(i as int));
            assert(sv.take(i + 1).last() == sv[i as int]);
            if sv[i as int].value is Some {
                assert(suppress_tombstones(sv.take(i + 1)) =~= suppress_tombstones(
                    sv.take(i as int),
                ).push(sv[i as int]));
            } else {
                assert(suppress_tombstones(sv.take(i + 1)) =~= suppress_tombstones(
                    sv.take(i as int),
                ));
            }
        }
        i = i + 1;
    }
    proof {
        assert(sv.take(n as int) =~= sv);
    }
    v
}

/// The in-memory index over every sealed data-block file, newest first.
pub struct DiskService {
    files: Vec<FileService>,
}

impl View for DiskService {
    type V = Seq<FileView>;

    closed spec fn view(&self) -> Seq<FileView> {
        self.files@.map_values(|f: FileService| f@)
    }
}

impl DiskService {
    pub closed spec fn wf(&self) -> bool {
        forall|i: int| 0 <= i < self.files@.len() ==> (#[trigger] self.files@[i]).wf()
    }

    pub proof fn lemma_wf_facts(&self)
        requires
            self.wf(),
        ensures
            forall|i: int| 0 <= i < self@.len() ==> file_view_wf(#[trigger] self@[i]),
    {
        assert forall|i: int| 0 <= i < self@.len() implies file_view_wf(#[trigger] self@[i]) by {
            assert(self@[i] == self.files@[i]@);
        }
    }

    /// A service with no sealed files yet.
    pub fn new() -> (d: DiskService)
        ensures
            d.wf(),
            d@ == Seq::<FileView>::empty(),
    {
        let d = DiskService { files: Vec::new() };
        proof {
            assert(d@ =~= Seq::<FileView>::empty());
        }
        d
    }

    /// Rebuilds the index from the bytes of every `.dbf` file found on disk,
    /// given newest-first; fails on the first file that is not a well-formed
    /// DBF.
    #[verifier::loop_isolation(false)]
    pub fn open(blobs: &Vec<Vec<u8>>) -> (r: Result<DiskService, DbError>)
        ensures
            match r {
                Ok(d) => {
                    &&& d.wf()
                    &&& d@.len() == blobs@.len()
                    &&& forall|i: int|
                        0 <= i < blobs@.len() ==> spec_dbf_valid(#[trigger] blobs@[i]@)
                    &&& forall|i: int|
                        0 <= i < blobs@.len() ==> d@[i] == spec_dbf_view(#[trigger] blobs@[i]@)
                },
                Err(_) => exists|i: int|
                    0 <= i < blobs@.len() && !spec_dbf_valid(#[trigger] blobs@[i]@),
            },
    {
        let mut files: Vec<FileService> = Vec::new();
        let mut i: usize = 0;
        while i < blobs.len()
            invariant
                i <= blobs@.len(),
                files@.len() == i,
                forall|j: int| 0 <= j < i ==> (#[trigger] files@[j]).wf(),
                forall|j: int| 0 <= j < i ==> spec_dbf_valid(#[trigger] blobs@[j]@),
                forall|j: int| 0 <= j < i ==> #[trigger] files@[j]@ == spec_dbf_view(blobs@[j]@),
            decreases blobs@.len() - i,
        {
            match FileService::parse(&blobs[i]) {
                Ok(f) => {
                    files.push(f);
                    i = i + 1;
                },
                Err(e) => {
                    return Err(e);
                },
            }
        }
        let d = DiskService { files };
        proof {
            assert forall|t: int| 0 <= t < blobs@.len() implies d@[t] == spec_dbf_view(
                #[trigger] blobs@[t]@,
            ) by {
                assert(d@[t] == files@[t]@);
            }
        }
        Ok(d)
    }

    /// Point lookup across the files, newest first: the first file whose key
    /// range covers `key` and which holds it answers, tombstones included.
    #[verifier::loop_isolation(false)]
    pub fn get(&self, key: &[u8]) -> (r: Option<MemTableEntry>)
        requires
            self.wf(),
        ensures
            match r {
                Some(e) => disk_lookup(self@, key@) == Some(e@) && entry_wf(e),
                None => disk_lookup(self@, key@) is None,
            },
    {
        let mut i: usize = 0;
        let n = self.files.len();
        proof {
            assert(self@.skip(0) =~= self@);
        }
        while i < n
            invariant
                i <= n,
                n == self.files@.len(),
                disk_lookup(self@, key@) == disk_lookup(self@.skip(i as int), key@),
            decreases n - i,
        {
            let f = &self.files[i];
            proof {
                assert(self@[i as int] == f@);
                assert(self@.skip(i as int)[0] == self@[i as int]);
                assert(self@.skip(i as int).skip(1) =~= self@.skip(i + 1));
            }
            if key_leq(f.min_key.as_slice(), key) && key_leq(key, f.max_key.as_slice()) {
                match file_find(f, key) {
                    Some(e) => {
                        return Some(e);
                    },
                    None => {},
                }
            } else {
                proof {
                    f.lemma_wf_facts();
                    lemma_find_rec_char(f@.records, key@);
                    match find_rec(f@.records, key@) {
                        Some(x) => {
                            let t = choose|t: int|
                                0 <= t < f@.records.len() && f@.records[t] == x;
                            lemma_dbf_header_bounds(f@, t);
                            assert(false);
                        },
                        None => {},
                    }
                }
            }
            i = i + 1;
        }
        proof {
            assert(self@.skip(n as int) =~= Seq::<FileView>::empty());
        }
        None
    }

    /// Every record within the range across all files, newest-wins but with
    /// tombstones still present; the DB facade merges this with the
    /// MemTable before suppressing tombstones.
    #[verifier::loop_isolation(false)]
    pub(crate) fn range_entries(&self, min_key: &[u8], max_key: &[u8]) -> (v: Vec<MemTableEntry>)
        requires
            self.wf(),
        ensures
            v@.map_values(|e: MemTableEntry| e@) == spec_disk_range(self@, min_key@, max_key@),
            forall|i: int| 0 <= i < v@.len() ==> entry_wf(#[trigger] v@[i]),
    {
        let mut acc: Vec<MemTableEntry> = Vec::new();
        let mut i = self.files.len();
        proof {
            assert(self@.skip(i as int) =~= Seq::<FileView>::empty());
            assert(acc@.map_values(|e: MemTableEntry| e@) =~= spec_disk_range(
                self@.skip(i as int),
                min_key@,
                max_key@,
            ));
        }
        while i > 0
            invariant
                i <= self.files@.len(),
                acc@.map_values(|e: MemTableEntry| e@) == spec_disk_range(
                    self@.skip(i as int),
                    min_key@,
                    max_key@,
                ),
                forall|t: int| 0 <= t < acc@.len() ==> entry_wf(#[trigger] acc@[t]),
            decreases i,
        {
            i = i - 1;
            let fr = file_range(&self.files[i], min_key, max_key);
            acc = merge_newest(fr, acc);
            proof {
                assert(self@[i as int] == self.files@[i as int]@);
                assert(self@.skip(i as int)[0] == self@[i as int]);
                assert(self@.skip(i as int).skip(1) =~= self@.skip(i + 1));
            }
        }
        proof {
            assert(self@.skip(0) =~= self@);
        }
        acc
    }

    /// Range scan, ascending by key: for each key in `[min_key, max_key]`
    /// the newest record over all files, tombstones suppressed.
    pub fn range(&self, min_key: &[u8], max_key: &[u8]) -> (v: Vec<MemTableEntry>)
        requires
            self.wf(),
        ensures
            v@.map_values(|e: MemTableEntry| e@) == suppress_tombstones(
                spec_disk_range(self@, min_key@, max_key@),
            ),
            forall|i: int| 0 <= i < v@.len() ==> entry_wf(#[trigger] v@[i]),
    {
        let entries = self.range_entries(min_key, max_key);
        drop_tombstones(entries)
    }

    /// Seals a frozen MemTable into a new data-block file: returns the
    /// file's bytes for the shell to persist, and indexes the new file at
    /// the front, as the newest.
    #[verifier::loop_isolation(false)]
    pub fn write_mem_table_to_disk(&mut self, mem_table: &MemTable) -> (dbf: Vec<u8>)
        requires
            old(self).wf(),
            mem_table.wf(),
            mem_table@.len() >= 1,
        ensures
            final(self).wf(),
            dbf@ == spec_dbf_bytes(mem_table@),
            spec_dbf_valid(dbf@),
            spec_dbf_view(dbf@) == (FileView {
                min_key: mem_table@[0].key,
                max_key: mem_table@[mem_table@.len() - 1].key,
                records: mem_table@,
            }),
            final(self)@ == seq![spec_dbf_view(dbf@)] + old(self)@,
    {
        let ghost recs = mem_table@;
        proof {
            mem_table.lemma_wf_facts();
        }
        let records = mem_table.iter();
        let rn = records.len();
        let min_key = clone_bytes(records[0].key.as_slice());
        let max_key = clone_bytes(records[rn - 1].key.as_slice());
        proof {
            assert(records@[0]@ == recs[0]);
            assert(records@[rn - 1]@ == recs[recs.len() - 1]);
        }
        let mut dbf: Vec<u8> = Vec::new();
        let mb = u64_to_le_bytes(min_key.len() as u64);
        push_all(&mut dbf, mb.as_slice());
        let xb = u64_to_le_bytes(max_key.len() as u64);
        push_all(&mut dbf, xb.as_slice());
        push_all(&mut dbf, min_key.as_slice());
        push_all(&mut dbf, max_key.as_slice());
        let ghost header = dbf@;
        let mut t: usize = 0;
        proof {
            assert(dbf@ =~= header + spec_enc_stream(recs.take(0)));
        }
        while t < rn
            invariant
                t <= rn,
                rn == records@.len(),
                dbf@ == header + spec_enc_stream(recs.take(t as int)),
            decreases rn - t,
        {
            let ghost pre = dbf@;
            let e = &records[t];
            proof {
                assert(records@[t as int]@ == recs[t as int]);
            }
            match &e.value {
                Some(v) => {
                    append_record(&mut dbf, e.key.as_slice(), Some(v.as_slice()), e.timestamp);
                },
                None => {
                    append_record(&mut dbf, e.key.as_slice(), None, e.timestamp);
                },
            }
            proof {
                lemma_enc_stream_snoc(recs.take(t as int), recs[t as int]);
                assert(recs.take(t + 1) =~= recs.take(t as int).push(recs[t as int]));
                assert(dbf@ =~= header + spec_enc_stream(recs.take(t + 1)));
            }
            t = t + 1;
        }
        proof {
            assert(recs.take(rn as int) =~= recs);
            assert(dbf@ =~= spec_dbf_bytes(recs));
            lemma_dbf_round_trip(recs);
        }
        let fsvc = FileService { min_key, max_key, records };
        proof {
            assert(fsvc@ =~= (FileView {
                min_key: recs[0].key,
                max_key: recs[recs.len() - 1].key,
                records: recs,
            }));
        }
        self.files.insert(0, fsvc);
        proof {
            assert forall|x: int| 0 <= x < self.files@.len() implies (
            #[trigger] self.files@[x]).wf() by {
                if x > 0 {
                    assert(self.files@[x] == old(self).files@[x - 1]);
                }
            }
            assert(self@ =~= seq![spec_dbf_view(dbf@)] + old(self)@);
        }
        dbf
    }
}


impl DiskService {
    /// The greatest timestamp stored in any file, or zero with no files;
    /// used to seed the monotonic clock at startup.
    #[verifier::loop_isolation(false)]
    pub(crate) fn max_timestamp(&self) -> (m: u128)
        requires
            self.wf(),
        ensures
            forall|i: int, j: int|
                0 <= i < self@.len() && 0 <= j < self@[i].records.len()
                    ==> #[trigger] self@[i].records[j].timestamp <= m,
    {
        let mut m: u128 = 0;
        let mut i: usize = 0;
        let n = self.files.len();
        while i < n
            invariant
                i <= n,
                n == self.files@.len(),
                forall|x: int, j: int|
                    0 <= x < i && 0 <= j < self@[x].records.len()
                        ==> #[trigger] self@[x].records[j].timestamp <= m,
            decreases n - i,
        {
            let ghost m0 = m;
            let f = &self.files[i];
            let rn = f.records.len();
            let mut j: usize = 0;
            while j < rn
                invariant
                    j <= rn,
                    rn == f.records@.len(),
                    m0 <= m,
                    forall|t: int|
                        0 <= t < j ==> #[trigger] f@.records[t].timestamp <= m,
                decreases rn - j,
            {
                proof {
                    assert(f@.records[j as int] == f.records@[j as int]@);
                }
                if f.records[j].timestamp > m {
                    m = f.records[j].timestamp;
                }
                j = j + 1;
            }
            proof {
                assert(self@[i as int] == f@);
            }
            i = i + 1;
        }
        m
    }
}

} // verus!
