//! The MemTable: an in-memory buffer holding the most recent record per key,
//! sorted ascending by key bytes, with approximate byte-size accounting that
//! decides when the table is flushed to disk.

use vstd::prelude::*;

use crate::keys::{key_le, key_leq, key_less, key_lt, keys_equal};
use crate::keys::{lemma_key_lt_irreflexive, lemma_key_lt_total, lemma_key_lt_transitive};

verus! {

/// Flush threshold in accounted bytes; deliberately tiny so that flushes are
/// easy to exercise.
pub const MEM_TABLE_MAX_SIZE: usize = 128;

/// Mathematical model of one record: the key, the value (`None` marks a
/// tombstone) and the microsecond timestamp that decides newest-wins.
#[verifier::ext_equal]
pub ghost struct RecordView {
    pub key: Seq<u8>,
    pub value: Option<Seq<u8>>,
    pub timestamp: u128,
}

/// A record's lengths fit the 8-byte length prefixes of the on-disk encoding.
pub open spec fn rec_valid(r: RecordView) -> bool {
    &&& r.key.len() <= u64::MAX
    &&& match r.value {
        Some(v) => v.len() <= u64::MAX,
        None => true,
    }
}

/// One stored record.  `deleted` is true exactly when `value` is `None`.
pub struct MemTableEntry {
    pub key: Vec<u8>,
    pub value: Option<Vec<u8>>,
    pub timestamp: u128,
    pub deleted: bool,
}

impl View for MemTableEntry {
    type V = RecordView;

    open spec fn view(&self) -> RecordView {
        RecordView {
            key: self.key@,
            value: match self.value {
                Some(v) => Some(v@),
                None => None,
            },
            timestamp: self.timestamp,
        }
    }
}

/// The tombstone flag mirrors the absence of a value.
pub open spec fn entry_wf(e: MemTableEntry) -> bool {
    e.deleted <==> e.value is None
}

/// Keys strictly ascend; in particular every key occurs at most once.
pub open spec fn sorted_by_key(s: Seq<RecordView>) -> bool {
    forall|i: int, j: int|
        0 <= i < j < s.len() ==> key_lt(#[trigger] s[i].key, #[trigger] s[j].key)
}

/// First record carrying key `k`, scanning left to right.
pub open spec fn find_rec(s: Seq<RecordView>, k: Seq<u8>) -> Option<RecordView>
    decreases s.len(),
{
    if s.len() == 0 {
        None
    } else if s[0].key == k {
        Some(s[0])
    } else {
        find_rec(s.skip(1), k)
    }
}

pub open spec fn has_key(s: Seq<RecordView>, k: Seq<u8>) -> bool {
    exists|i: int| 0 <= i < s.len() && s[i].key == k
}

pub open spec fn has_rec(s: Seq<RecordView>, r: RecordView) -> bool {
    exists|i: int| 0 <= i < s.len() && s[i] == r
}

/// Result of folding a list of operations in order, read at key `k`: the
/// last record for `k` wins, as a later `put`/`delete` overwrites an earlier
/// one.
pub open spec fn replay_find(ops: Seq<RecordView>, k: Seq<u8>) -> Option<RecordView>
    decreases ops.len(),
{
    if ops.len() == 0 {
        None
    } else if ops.last().key == k {
        Some(ops.last())
    } else {
        replay_find(ops.drop_last(), k)
    }
}

/// Accounted byte footprint of one record: key bytes, 16 timestamp bytes,
/// one tombstone byte, and the value bytes if present.
pub open spec fn entry_size(r: RecordView) -> nat {
    r.key.len() + 17 + match r.value {
        Some(v) => v.len(),
        None => 0nat,
    }
}

pub open spec fn table_size(s: Seq<RecordView>) -> nat
    decreases s.len(),
{
    if s.len() == 0 {
        0
    } else {
        entry_size(s[0]) + table_size(s.skip(1))
    }
}

pub open spec fn in_range(k: Seq<u8>, lo: Seq<u8>, hi: Seq<u8>) -> bool {
    key_le(lo, k) && key_le(k, hi)
}

/// Records of `s` whose keys lie in the inclusive range `[lo, hi]`, in order.
pub open spec fn filter_range(s: Seq<RecordView>, lo: Seq<u8>, hi: Seq<u8>) -> Seq<RecordView>
    decreases s.len(),
{
    if s.len() == 0 {
        Seq::empty()
    } else {
        filter_range(s.drop_last(), lo, hi) + if in_range(s.last().key, lo, hi) {
            seq![s.last()]
        } else {
            Seq::empty()
        }
    }
}

pub proof fn lemma_replay_find_snoc(ops: Seq<RecordView>, r: RecordView, k: Seq<u8>)
    ensures
        replay_find(ops.push(r), k) == if r.key == k {
            Some(r)
        } else {
            replay_find(ops, k)
        },
{
    assert(ops.push(r).drop_last() =~= ops);
    assert(ops.push(r).last() == r);
}

pub proof fn lemma_find_rec_char(s: Seq<RecordView>, k: Seq<u8>)
    ensures
        match find_rec(s, k) {
            Some(r) => r.key == k && has_rec(s, r),
            None => !has_key(s, k),
        },
    decreases s.len(),
{
    if s.len() == 0 {
    } else if s[0].key == k {
        assert(has_rec(s, s[0]));
    } else {
        lemma_find_rec_char(s.skip(1), k);
        match find_rec(s.skip(1), k) {
            Some(r) => {
                let i = choose|i: int| 0 <= i < s.skip(1).len() && s.skip(1)[i] == r;
                assert(s[i + 1] == r);
                assert(has_rec(s, r));
            },
            None => {
                assert forall|i: int| 0 <= i < s.len() implies s[i].key != k by {
                    if i > 0 {
                        assert(s.skip(1)[i - 1] == s[i]);
                    }
                }
            },
        }
    }
}

pub proof fn lemma_sorted_distinct(s: Seq<RecordView>, i: int, j: int)
    requires
        sorted_by_key(s),
        0 <= i < s.len(),
        0 <= j < s.len(),
        i != j,
    ensures
        s[i].key != s[j].key,
{
    if i < j {
        lemma_key_lt_irreflexive(s[i].key);
    } else {
        lemma_key_lt_irreflexive(s[j].key);
    }
}

/// In a sorted table the record at index `i` is exactly what a search for its
/// key returns.
pub proof fn lemma_find_rec_present(s: Seq<RecordView>, i: int)
    requires
        sorted_by_key(s),
        0 <= i < s.len(),
    ensures
        find_rec(s, s[i].key) == Some(s[i]),
    decreases s.len(),
{
    if i == 0 {
    } else {
        assert(key_lt(s[0].key, s[i].key));
        lemma_key_lt_irreflexive(s[0].key);
        assert(s[0].key != s[i].key);
        assert(s.skip(1)[i - 1] == s[i]);
        assert(sorted_by_key(s.skip(1))) by {
            assert forall|x: int, y: int| 0 <= x < y < s.skip(1).len()
                implies key_lt(s.skip(1)[x].key, s.skip(1)[y].key) by {
                assert(s.skip(1)[x] == s[x + 1]);
                assert(s.skip(1)[y] == s[y + 1]);
            }
        }
        lemma_find_rec_present(s.skip(1), i - 1);
    }
}

pub proof fn lemma_find_rec_snoc(s: Seq<RecordView>, r: RecordView, k: Seq<u8>)
    ensures
        find_rec(s.push(r), k) == match find_rec(s, k) {
            Some(x) => Some(x),
            None => if r.key == k {
                Some(r)
            } else {
                None
            },
        },
    decreases s.len(),
{
    let t = s.push(r);
    if s.len() == 0 {
        assert(t[0] == r);
        assert(t.skip(1) =~= Seq::<RecordView>::empty());
        assert(find_rec(Seq::<RecordView>::empty(), k) is None);
        if r.key == k {
            assert(find_rec(t, k) == Some(t[0]));
        } else {
            assert(find_rec(t, k) == find_rec(t.skip(1), k));
        }
    } else {
        assert(t[0] == s[0]);
        assert(t.skip(1) =~= s.skip(1).push(r));
        lemma_find_rec_snoc(s.skip(1), r, k);
        if s[0].key == k {
            assert(find_rec(t, k) == Some(t[0]));
            assert(find_rec(s, k) == Some(s[0]));
        } else {
            assert(find_rec(t, k) == find_rec(s.skip(1).push(r), k));
            assert(find_rec(s, k) == find_rec(s.skip(1), k));
        }
    }
}

pub proof fn lemma_table_size_concat(a: Seq<RecordView>, b: Seq<RecordView>)
    ensures
        table_size(a + b) == table_size(a) + table_size(b),
    decreases a.len(),
{
    if a.len() == 0 {
        assert(a + b =~= b);
    } else {
        assert((a + b)[0] == a[0]);
        assert((a + b).skip(1) =~= a.skip(1) + b);
        lemma_table_size_concat(a.skip(1), b);
    }
}

pub proof fn lemma_table_size_single(r: RecordView)
    ensures
        table_size(seq![r]) == entry_size(r),
{
    let s = seq![r];
    assert(s.skip(1) =~= Seq::<RecordView>::empty());
    assert(table_size(Seq::<RecordView>::empty()) == 0);
    assert(table_size(s) == entry_size(s[0]) + table_size(s.skip(1)));
    assert(s[0] == r);
}

/// The footprint of any one entry is bounded by the whole table's footprint.
pub proof fn lemma_table_size_elem(s: Seq<RecordView>, i: int)
    requires
        0 <= i < s.len(),
    ensures
        entry_size(s[i]) <= table_size(s),
{
    assert(s =~= s.take(i) + seq![s[i]] + s.skip(i + 1));
    lemma_table_size_concat(s.take(i) + seq![s[i]], s.skip(i + 1));
    lemma_table_size_concat(s.take(i), seq![s[i]]);
    lemma_table_size_single(s[i]);
}

pub proof fn lemma_table_size_update(s: Seq<RecordView>, i: int, r: RecordView)
    requires
        0 <= i < s.len(),
    ensures
        table_size(s.update(i, r)) == table_size(s) - entry_size(s[i]) + entry_size(r),
{
    assert(s =~= s.take(i) + seq![s[i]] + s.skip(i + 1));
    assert(s.update(i, r) =~= s.take(i) + seq![r] + s.skip(i + 1));
    lemma_table_size_concat(s.take(i) + seq![s[i]], s.skip(i + 1));
    lemma_table_size_concat(s.take(i), seq![s[i]]);
    lemma_table_size_concat(s.take(i) + seq![r], s.skip(i + 1));
    lemma_table_size_concat(s.take(i), seq![r]);
    lemma_table_size_single(s[i]);
    lemma_table_size_single(r);
}

pub proof fn lemma_table_size_insert(s: Seq<RecordView>, i: int, r: RecordView)
    requires
        0 <= i <= s.len(),
    ensures
        table_size(s.insert(i, r)) == table_size(s) + entry_size(r),
{
    assert(s =~= s.take(i) + s.skip(i));
    assert(s.insert(i, r) =~= s.take(i) + seq![r] + s.skip(i));
    lemma_table_size_concat(s.take(i), s.skip(i));
    lemma_table_size_concat(s.take(i) + seq![r], s.skip(i));
    lemma_table_size_concat(s.take(i), seq![r]);
    lemma_table_size_single(r);
}

pub proof fn lemma_table_size_snoc(s: Seq<RecordView>, r: RecordView)
    ensures
        table_size(s.push(r)) == table_size(s) + entry_size(r),
{
    assert(s.push(r) =~= s + seq![r]);
    lemma_table_size_concat(s, seq![r]);
    lemma_table_size_single(r);
}

/// A prefix never accounts for more than the whole.
pub proof fn lemma_table_size_prefix(s: Seq<RecordView>, i: int)
    requires
        0 <= i <= s.len(),
    ensures
        table_size(s.take(i)) <= table_size(s),
{
    assert(s =~= s.take(i) + s.skip(i));
    lemma_table_size_concat(s.take(i), s.skip(i));
}

pub proof fn lemma_sorted_skip(s: Seq<RecordView>)
    requires
        sorted_by_key(s),
        s.len() > 0,
    ensures
        sorted_by_key(s.skip(1)),
{
    assert forall|x: int, y: int| 0 <= x < y < s.skip(1).len()
        implies key_lt(s.skip(1)[x].key, s.skip(1)[y].key) by {
        assert(s.skip(1)[x] == s[x + 1]);
        assert(s.skip(1)[y] == s[y + 1]);
    }
}

/// Every key present in a sorted table is at or above its first key.
pub proof fn lemma_sorted_lower_bound(s: Seq<RecordView>, k: Seq<u8>)
    requires
        sorted_by_key(s),
        s.len() > 0,
        has_key(s, k),
    ensures
        key_le(s[0].key, k),
{
    let i = choose|i: int| 0 <= i < s.len() && s[i].key == k;
    if i > 0 {
        assert(key_lt(s[0].key, s[i].key));
    }
}

/// On a table whose keys are distinct, a replay from the end agrees with a
/// search from the front.
pub proof fn lemma_replay_find_sorted(s: Seq<RecordView>, k: Seq<u8>)
    requires
        sorted_by_key(s),
    ensures
        replay_find(s, k) == find_rec(s, k),
    decreases s.len(),
{
    if s.len() > 0 {
        let d = s.drop_last();
        let r = s.last();
        assert(sorted_by_key(d)) by {
            assert forall|x: int, y: int| 0 <= x < y < d.len()
                implies key_lt(d[x].key, d[y].key) by {
                assert(d[x] == s[x]);
                assert(d[y] == s[y]);
            }
        }
        lemma_replay_find_sorted(d, k);
        assert(s =~= d.push(r));
        lemma_find_rec_snoc(d, r, k);
        if r.key == k {
            lemma_find_rec_char(d, k);
            match find_rec(d, k) {
                Some(x) => {
                    let j = choose|j: int| 0 <= j < d.len() && d[j] == x;
                    assert(s[j] == x);
                    lemma_sorted_distinct(s, j, s.len() - 1);
                },
                None => {},
            }
        }
    }
}

/// Copies a byte string.
pub fn clone_bytes(v: &[u8]) -> (r: Vec<u8>)
    ensures
        r@ == v@,
{
    let mut r: Vec<u8> = Vec::new();
    let mut i: usize = 0;
    while i < v.len()
        invariant
            i <= v@.len(),
            r@ == v@.subrange(0, i as int),
        decreases v@.len() - i,
    {
        r.push(v[i]);
        proof {
            assert(r@ =~= v@.subrange(0, i + 1));
        }
        i = i + 1;
    }
    proof {
        assert(r@ =~= v@);
    }
    r
}

/// Copies a record; records cross component boundaries by value.
pub fn copy_entry(e: &MemTableEntry) -> (r: MemTableEntry)
    ensures
        r@ == e@,
        r.deleted == e.deleted,
{
    let value = match &e.value {
        Some(v) => Some(clone_bytes(v.as_slice())),
        None => None,
    };
    let r = MemTableEntry { key: clone_bytes(e.key.as_slice()), value, timestamp: e.timestamp, deleted: e.deleted };
    proof {
        assert(r@ =~= e@);
    }
    r
}

/// The ordered in-memory buffer of the most recent record per key.
pub struct MemTable {
    entries: Vec<MemTableEntry>,
    size: usize,
}

impl View for MemTable {
    type V = Seq<RecordView>;

    closed spec fn view(&self) -> Seq<RecordView> {
        self.entries@.map_values(|e: MemTableEntry| e@)
    }
}

impl MemTable {
    pub closed spec fn wf(&self) -> bool {
        &&& sorted_by_key(self@)
        &&& forall|i: int| 0 <= i < self.entries@.len() ==> entry_wf(#[trigger] self.entries@[i])
        &&& forall|i: int| 0 <= i < self@.len() ==> rec_valid(#[trigger] self@[i])
        &&& self.size as nat == table_size(self@)
    }

    /// What well-formedness guarantees about the table's model.
    pub proof fn lemma_wf_facts(&self)
        requires
            self.wf(),
        ensures
            sorted_by_key(self@),
            forall|i: int| 0 <= i < self@.len() ==> rec_valid(#[trigger] self@[i]),
            table_size(self@) <= usize::MAX,
    {
    }

    pub fn new() -> (t: MemTable)
        ensures
            t.wf(),
            t@ == Seq::<RecordView>::empty(),
    {
        let t = MemTable { entries: Vec::new(), size: 0 };
        proof {
            assert(t@ =~= Seq::<RecordView>::empty());
        }
        t
    }

    /// Inserts or replaces the entry for `e.key`, keeping the table sorted
    /// and the size accounting exact.
    #[verifier::loop_isolation(false)]
    fn store(&mut self, e: MemTableEntry)
        requires
            old(self).wf(),
            entry_wf(e),
            rec_valid(e@),
            table_size(old(self)@) + entry_size(e@) <= usize::MAX,
        ensures
            final(self).wf(),
            find_rec(final(self)@, e@.key) == Some(e@),
            forall|k: Seq<u8>| k != e@.key ==> find_rec(final(self)@, k) == find_rec(old(self)@, k),
            table_size(final(self)@) <= table_size(old(self)@) + entry_size(e@),
            forall|i: int|
                0 <= i < final(self)@.len() ==> final(self)@[i] == e@ || has_rec(
                    old(self)@,
                    #[trigger] final(self)@[i],
                ),
    {
        let ghost s0 = self@;
        let ghost rv = e@;
        let mut i: usize = 0;
        let n = self.entries.len();
        while i < n && key_less(self.entries[i].key.as_slice(), e.key.as_slice())
            invariant
                n == self.entries@.len(),
                i <= n,
                self@ == s0,
                *self == *old(self),
                forall|j: int| 0 <= j < i ==> key_lt(#[trigger] s0[j].key, rv.key),
            decreases n - i,
        {
            proof {
                assert(s0[i as int] == self.entries@[i as int]@);
                assert(key_lt(s0[i as int].key, rv.key));
            }
            i = i + 1;
        }
        proof {
            assert(forall|j: int| 0 <= j < s0.len() ==> s0[j] == self.entries@[j]@);
        }
        if i < n && keys_equal(self.entries[i].key.as_slice(), e.key.as_slice()) {
            // replace in place
            proof {
                assert(s0[i as int].key == rv.key);
                lemma_table_size_elem(s0, i as int);
                lemma_table_size_update(s0, i as int, rv);
            }
            let old_sz = Self::entry_footprint(&self.entries[i]);
            let new_sz = Self::entry_footprint(&e);
            self.size = self.size - old_sz + new_sz;
            self.entries.set(i, e);
            proof {
                let s1 = self@;
                assert(s1 =~= s0.update(i as int, rv));
                Self::lemma_store_update(s0, i as int, rv);
            }
        } else {
            // insert at position i
            proof {
                lemma_table_size_insert(s0, i as int, rv);
                if i < n {
                    assert(s0[i as int].key != rv.key);
                    assert(!key_lt(s0[i as int].key, rv.key));
                    lemma_key_lt_total(s0[i as int].key, rv.key);
                    assert(key_lt(rv.key, s0[i as int].key));
                    assert forall|j: int| i <= j < s0.len()
                        implies key_lt(rv.key, #[trigger] s0[j].key) by {
                        if j > i {
                            lemma_key_lt_transitive(rv.key, s0[i as int].key, s0[j].key);
                        }
                    }
                }
            }
            let new_sz = Self::entry_footprint(&e);
            self.size = self.size + new_sz;
            self.entries.insert(i, e);
            proof {
                let s1 = self@;
                assert(s1 =~= s0.insert(i as int, rv));
                Self::lemma_store_insert(s0, i as int, rv);
            }
        }
    }

    /// Exact accounted footprint of one entry.
    fn entry_footprint(e: &MemTableEntry) -> (sz: usize)
        requires
            entry_size(e@) <= usize::MAX,
        ensures
            sz as nat == entry_size(e@),
    {
        let vlen = match &e.value {
            Some(v) => v.len(),
            None => 0,
        };
        e.key.len() + 17 + vlen
    }

    proof fn lemma_store_update(s: Seq<RecordView>, i: int, r: RecordView)
        requires
            sorted_by_key(s),
            0 <= i < s.len(),
            s[i].key == r.key,
        ensures
            sorted_by_key(s.update(i, r)),
            find_rec(s.update(i, r), r.key) == Some(r),
            forall|k: Seq<u8>| k != r.key ==> find_rec(s.update(i, r), k) == find_rec(s, k),
    {
        let s1 = s.update(i, r);
        assert forall|x: int, y: int| 0 <= x < y < s1.len()
            implies key_lt(s1[x].key, s1[y].key) by {
            assert(s1[x].key == s[x].key);
            assert(s1[y].key == s[y].key);
        }
        lemma_find_rec_present(s1, i);
        assert forall|k: Seq<u8>| k != r.key implies find_rec(s1, k) == find_rec(s, k) by {
            lemma_find_rec_char(s, k);
            lemma_find_rec_char(s1, k);
            match find_rec(s, k) {
                Some(x) => {
                    let j = choose|j: int| 0 <= j < s.len() && s[j] == x;
                    lemma_sorted_distinct(s, i, j);
                    assert(s1[j] == x);
                    lemma_find_rec_present(s1, j);
                    lemma_find_rec_present(s, j);
                },
                None => {
                    match find_rec(s1, k) {
                        Some(x) => {
                            let j = choose|j: int| 0 <= j < s1.len() && s1[j] == x;
                            assert(j != i);
                            assert(s[j] == x);
                            assert(has_key(s, k));
                        },
                        None => {},
                    }
                },
            }
        }
    }

    proof fn lemma_store_insert(s: Seq<RecordView>, i: int, r: RecordView)
        requires
            sorted_by_key(s),
            0 <= i <= s.len(),
            forall|j: int| 0 <= j < i ==> key_lt(#[trigger] s[j].key, r.key),
            forall|j: int| i <= j < s.len() ==> key_lt(r.key, #[trigger] s[j].key),
        ensures
            sorted_by_key(s.insert(i, r)),
            find_rec(s.insert(i, r), r.key) == Some(r),
            forall|k: Seq<u8>| k != r.key ==> find_rec(s.insert(i, r), k) == find_rec(s, k),
    {
        let s1 = s.insert(i, r);
        assert forall|x: int, y: int| 0 <= x < y < s1.len()
            implies key_lt(s1[x].key, s1[y].key) by {
            if x < i && y < i {
                assert(s1[x] == s[x] && s1[y] == s[y]);
            } else if x < i && y == i {
                assert(s1[x] == s[x] && s1[y] == r);
            } else if x < i && y > i {
                assert(s1[x] == s[x] && s1[y] == s[y - 1]);
            } else if x == i && y > i {
                assert(s1[x] == r && s1[y] == s[y - 1]);
            } else if x > i && y > i {
                assert(s1[x] == s[x - 1] && s1[y] == s[y - 1]);
            }
        }
        lemma_find_rec_present(s1, i);
        assert(s1[i] == r);
        assert forall|k: Seq<u8>| k != r.key implies find_rec(s1, k) == find_rec(s, k) by {
            lemma_find_rec_char(s, k);
            lemma_find_rec_char(s1, k);
            match find_rec(s, k) {
                Some(x) => {
                    let j = choose|j: int| 0 <= j < s.len() && s[j] == x;
                    let j1 = if j < i {
                        j
                    } else {
                        j + 1
                    };
                    assert(s1[j1] == x);
                    lemma_find_rec_present(s1, j1);
                    lemma_find_rec_present(s, j);
                },
                None => {
                    match find_rec(s1, k) {
                        Some(x) => {
                            let j1 = choose|j1: int| 0 <= j1 < s1.len() && s1[j1] == x;
                            assert(j1 != i);
                            let j = if j1 < i {
                                j1
                            } else {
                                j1 - 1
                            };
                            assert(s[j] == x);
                            assert(has_key(s, k));
                        },
                        None => {},
                    }
                },
            }
        }
    }

    /// Inserts or replaces the record for `key` with the given value.
    pub fn put(&mut self, key: &[u8], value: &[u8], timestamp: u128)
        requires
            old(self).wf(),
            table_size(old(self)@) + key@.len() + value@.len() + 17 <= usize::MAX,
        ensures
            final(self).wf(),
            find_rec(final(self)@, key@) == Some(
                RecordView { key: key@, value: Some(value@), timestamp },
            ),
            forall|k: Seq<u8>| k != key@ ==> find_rec(final(self)@, k) == find_rec(old(self)@, k),
            table_size(final(self)@) <= table_size(old(self)@) + key@.len() + value@.len() + 17,
            forall|i: int|
                0 <= i < final(self)@.len() ==> final(self)@[i] == (RecordView {
                    key: key@,
                    value: Some(value@),
                    timestamp,
                }) || has_rec(old(self)@, #[trigger] final(self)@[i]),
    {
        let e = MemTableEntry {
            key: clone_bytes(key),
            value: Some(clone_bytes(value)),
            timestamp,
            deleted: false,
        };
        self.store(e);
    }

    /// Inserts or replaces the record for `key` with a tombstone.
    pub fn delete(&mut self, key: &[u8], timestamp: u128)
        requires
            old(self).wf(),
            table_size(old(self)@) + key@.len() + 17 <= usize::MAX,
        ensures
            final(self).wf(),
            find_rec(final(self)@, key@) == Some(
                RecordView { key: key@, value: None, timestamp },
            ),
            forall|k: Seq<u8>| k != key@ ==> find_rec(final(self)@, k) == find_rec(old(self)@, k),
            table_size(final(self)@) <= table_size(old(self)@) + key@.len() + 17,
            forall|i: int|
                0 <= i < final(self)@.len() ==> final(self)@[i] == (RecordView {
                    key: key@,
                    value: None,
                    timestamp,
                }) || has_rec(old(self)@, #[trigger] final(self)@[i]),
    {
        let e = MemTableEntry { key: clone_bytes(key), value: None, timestamp, deleted: true };
        self.store(e);
    }

    /// Exact-match lookup; tombstones are returned and left to the caller to
    /// interpret.
    pub fn get(&self, key: &[u8]) -> (r: Option<MemTableEntry>)
        requires
            self.wf(),
        ensures
            match r {
                Some(e) => find_rec(self@, key@) == Some(e@) && entry_wf(e),
                None => find_rec(self@, key@) is None,
            },
    {
        let mut i: usize = 0;
        let n = self.entries.len();
        while i < n
            invariant
                self.wf(),
                n == self.entries@.len(),
                i <= n,
                forall|j: int| 0 <= j < i ==> #[trigger] self@[j].key != key@,
            decreases n - i,
        {
            if keys_equal(self.entries[i].key.as_slice(), key) {
                let e = copy_entry(&self.entries[i]);
                proof {
                    lemma_find_rec_present(self@, i as int);
                }
                return Some(e);
            }
            i = i + 1;
        }
        proof {
            lemma_find_rec_char(self@, key@);
        }
        None
    }

    /// All records with `min_key <= key <= max_key`, ascending, tombstones
    /// included.
    pub fn range(&self, min_key: &[u8], max_key: &[u8]) -> (v: Vec<MemTableEntry>)
        requires
            self.wf(),
        ensures
            v@.map_values(|e: MemTableEntry| e@) == filter_range(self@, min_key@, max_key@),
            forall|i: int| 0 <= i < v@.len() ==> entry_wf(#[trigger] v@[i]),
    {
        let mut v: Vec<MemTableEntry> = Vec::new();
        let mut i: usize = 0;
        let n = self.entries.len();
        proof {
            assert(self@.take(0) =~= Seq::<RecordView>::empty());
            assert(v@.map_values(|e: MemTableEntry| e@) =~= Seq::<RecordView>::empty());
        }
        while i < n
            invariant
                self.wf(),
                n == self.entries@.len(),
                i <= n,
                v@.map_values(|e: MemTableEntry| e@) == filter_range(
                    self@.take(i as int),
                    min_key@,
                    max_key@,
                ),
                forall|j: int| 0 <= j < v@.len() ==> entry_wf(#[trigger] v@[j]),
            decreases n - i,
        {
            let ghost pre = v@.map_values(|e: MemTableEntry| e@);
            let k = self.entries[i].key.as_slice();
            if key_leq(min_key, k) && key_leq(k, max_key) {
                let e = copy_entry(&self.entries[i]);
                v.push(e);
                proof {
                    assert(v@.map_values(|e: MemTableEntry| e@) =~= pre.push(self@[i as int]));
                }
            }
            proof {
                assert(self@.take(i + 1).drop_last() =~= self@.take(i as int));
                assert(self@.take(i + 1).last() == self@[i as int]);
                if in_range(self@[i as int].key, min_key@, max_key@) {
                    assert(filter_range(self@.take(i + 1), min_key@, max_key@) =~= filter_range(
                        self@.take(i as int),
                        min_key@,
                        max_key@,
                    ).push(self@[i as int]));
                } else {
                    assert(filter_range(self@.take(i + 1), min_key@, max_key@) =~= filter_range(
                        self@.take(i as int),
                        min_key@,
                        max_key@,
                    ));
                }
            }
            i = i + 1;
        }
        proof {
            assert(self@.take(n as int) =~= self@);
        }
        v
    }

    /// True when the accounted size has reached the flush threshold.
    pub fn is_over_weight(&self) -> (r: bool)
        requires
            self.wf(),
        ensures
            r == (table_size(self@) >= MEM_TABLE_MAX_SIZE),
    {
        self.size >= MEM_TABLE_MAX_SIZE
    }

    pub fn clear(&mut self)
        ensures
            final(self).wf(),
            final(self)@ == Seq::<RecordView>::empty(),
    {
        self.entries.clear();
        self.size = 0;
        proof {
            assert(self@ =~= Seq::<RecordView>::empty());
        }
    }

    pub fn is_empty(&self) -> (r: bool)
        ensures
            r == (self@.len() == 0),
    {
        self.entries.is_empty()
    }

    /// All records in ascending key order; used by the flush path.
    pub fn iter(&self) -> (v: Vec<MemTableEntry>)
        requires
            self.wf(),
        ensures
            v@.map_values(|e: MemTableEntry| e@) == self@,
            forall|i: int| 0 <= i < v@.len() ==> entry_wf(#[trigger] v@[i]),
    {
        let mut v: Vec<MemTableEntry> = Vec::new();
        let mut i: usize = 0;
        let n = self.entries.len();
        while i < n
            invariant
                self.wf(),
                n == self.entries@.len(),
                i <= n,
                v@.map_values(|e: MemTableEntry| e@) == self@.take(i as int),
                forall|j: int| 0 <= j < v@.len() ==> entry_wf(#[trigger] v@[j]),
            decreases n - i,
        {
            let ghost pre = v@.map_values(|e: MemTableEntry| e@);
            let e = copy_entry(&self.entries[i]);
            v.push(e);
            proof {
                assert(v@.map_values(|e: MemTableEntry| e@) =~= pre.push(self@[i as int]));
                assert(self@.take(i + 1) =~= self@.take(i as int).push(self@[i as int]));
            }
            i = i + 1;
        }
        proof {
            assert(self@.take(n as int) =~= self@);
        }
        v
    }
}

} // verus!
