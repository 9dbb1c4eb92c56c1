//! The document store: column families for bitmaps, stored values, indexes
//! and logs, modelled in memory with the same key structure the on-disk
//! engine uses, plus the write pipeline and the log read paths.

use vstd::prelude::*;

use crate::bitmap;
use crate::changelog;
use crate::raftlog;
use crate::types::{AccountId, ChangeId, Collection, DocumentId};

verus! {

use crate::raftlog::{RaftId, Entry, spec_raft_id_lt, spec_parse_entry};

/// Errors surfaced by the storage layer.
#[derive(Debug, Clone, PartialEq, Eq)]
pub enum StoreError {
    DataCorruption(String),
    InternalError(String),
    NotFound(String),
    InvalidArguments(String),
}

/// A record of the per-collection change log.
#[derive(Debug, Clone)]
pub struct ChangeRecord {
    pub account_id: AccountId,
    pub collection: Collection,
    pub change_id: ChangeId,
    pub payload: Vec<u8>,
}

/// Kinds of document-id bitmaps.
#[derive(Debug, Clone, Copy, PartialEq, Eq, Hash, Structural)]
pub enum BitmapKind {
    /// Ids ever used by a document.
    Used,
    /// Ids tombstoned by a deletion.
    Tombstoned,
    /// Membership of one tag value of one field.
    Tag { field: u8, value: u64 },
    /// Documents holding a term, exact spelling.
    TermExact { field: u8, hash: u64 },
    /// Documents holding a term, stemmed spelling.
    TermStemmed { field: u8, hash: u64 },
}

#[derive(Debug, Clone, Copy, PartialEq, Eq, Hash, Structural)]
pub struct BitmapKey {
    pub account_id: AccountId,
    pub collection: Collection,
    pub kind: BitmapKind,
}

/// Kinds of per-document stored values.
#[derive(Debug, Clone, Copy, PartialEq, Eq, Hash, Structural)]
pub enum ValueKind {
    /// Bytes stored for one field.
    Field(u8),
    /// The compressed positional term index of the document.
    TermIndex,
    /// The blob hashes the document references.
    BlobLink,
}

#[derive(Debug, Clone, Copy, PartialEq, Eq, Hash, Structural)]
pub struct ValueKey {
    pub account_id: AccountId,
    pub collection: Collection,
    pub document_id: DocumentId,
    pub kind: ValueKind,
}

/// One secondary-index entry; `value` sorts numerically, which for text
/// fields holds the first eight bytes big-endian so numeric order equals
/// byte order.
#[derive(Debug, Clone, Copy, PartialEq, Eq, Hash, Structural)]
pub struct IndexEntry {
    pub account_id: AccountId,
    pub collection: Collection,
    pub field: u8,
    pub value: u64,
    pub document_id: DocumentId,
}

/// The set of document ids a bitmap column-family row holds; a missing row
/// is the empty set.
pub open spec fn spec_bm_row(
    s: Seq<(BitmapKey, roaring::RoaringBitmap)>,
    k: BitmapKey,
) -> Set<u32>
    decreases s.len(),
{
    if s.len() == 0 {
        Set::<u32>::empty()
    } else if s[0].0 == k {
        bitmap::bm(s[0].1)
    } else {
        spec_bm_row(s.drop_first(), k)
    }
}

pub open spec fn spec_bm_has_key(s: Seq<(BitmapKey, roaring::RoaringBitmap)>, k: BitmapKey) -> bool
    decreases s.len(),
{
    if s.len() == 0 {
        false
    } else {
        s[0].0 == k || spec_bm_has_key(s.drop_first(), k)
    }
}

/// The refcount of a blob hash; a missing row counts zero.
pub open spec fn spec_ref_row(s: Seq<(u64, i64)>, h: u64) -> int
    decreases s.len(),
{
    if s.len() == 0 {
        0
    } else if s[0].0 == h {
        s[0].1 as int
    } else {
        spec_ref_row(s.drop_first(), h)
    }
}

pub open spec fn spec_ref_has_key(s: Seq<(u64, i64)>, h: u64) -> bool
    decreases s.len(),
{
    if s.len() == 0 {
        false
    } else {
        s[0].0 == h || spec_ref_has_key(s.drop_first(), h)
    }
}

/// The bytes stored under a value key, if any; a cleared or missing row
/// holds nothing.
pub open spec fn spec_val_row(s: Seq<(ValueKey, Option<Vec<u8>>)>, k: ValueKey) -> Option<Seq<u8>>
    decreases s.len(),
{
    if s.len() == 0 {
        Option::None
    } else if s[0].0 == k {
        match s[0].1 {
            Option::Some(v) => Some(v@),
            Option::None => Option::None,
        }
    } else {
        spec_val_row(s.drop_first(), k)
    }
}

/// Whether a secondary-index entry is present.
pub open spec fn spec_idx_row(s: Seq<(IndexEntry, bool)>, k: IndexEntry) -> bool
    decreases s.len(),
{
    if s.len() == 0 {
        false
    } else if s[0].0 == k {
        s[0].1
    } else {
        spec_idx_row(s.drop_first(), k)
    }
}

/// The content stored for a blob hash, if not purged.
pub open spec fn spec_blob_row(s: Seq<(u64, Option<Vec<u8>>)>, h: u64) -> Option<Seq<u8>>
    decreases s.len(),
{
    if s.len() == 0 {
        Option::None
    } else if s[0].0 == h {
        match s[0].1 {
            Option::Some(v) => Some(v@),
            Option::None => Option::None,
        }
    } else {
        spec_blob_row(s.drop_first(), h)
    }
}

/// The document store.  Logs are append-only; bitmap, value, index and
/// refcount rows are keyed uniquely.
pub struct JMAPStore {
    pub bitmaps: Vec<(BitmapKey, roaring::RoaringBitmap)>,
    pub values: Vec<(ValueKey, Option<Vec<u8>>)>,
    pub indexes: Vec<(IndexEntry, bool)>,
    pub blobs: Vec<(u64, Option<Vec<u8>>)>,
    pub blob_refs: Vec<(u64, i64)>,
    pub change_log: Vec<ChangeRecord>,
    pub raft_log: Vec<(RaftId, Vec<u8>)>,
    pub change_counters: Vec<((AccountId, Collection), ChangeId)>,
    pub term_indexes: Vec<((AccountId, Collection, DocumentId), crate::fulltext::TermIndex)>,
    pub blob_links: Vec<((AccountId, Collection, DocumentId), Vec<u64>)>,
    pub raft_term: u64,
    pub raft_index: u64,
}

/// Change ids grow strictly within one account and collection, in log
/// order.
pub open spec fn spec_change_log_sorted(log: Seq<ChangeRecord>) -> bool {
    forall|i: int, j: int|
        0 <= i < j < log.len() && log[i].account_id == log[j].account_id && log[i].collection
            == log[j].collection ==> log[i].change_id < log[j].change_id
}

impl JMAPStore {
    /// Well-formedness: the Raft log grows strictly in `(term, index)`
    /// order and every payload parses; the change log grows strictly per
    /// account and collection and every payload parses; key rows are
    /// unique; bitmaps and refcounts are finite and live.
    pub open spec fn wf(&self) -> bool {
        &&& forall|i: int, j: int|
            0 <= i < j < self.raft_log@.len() ==> spec_raft_id_lt(
                self.raft_log@[i].0,
                self.raft_log@[j].0,
            )
        &&& forall|i: int|
            0 <= i < self.raft_log@.len() ==> spec_parse_entry(#[trigger] self.raft_log@[i].1@)
                is Some
        &&& spec_change_log_sorted(self.change_log@)
        &&& forall|i: int|
            0 <= i < self.change_log@.len() ==> changelog::spec_parse_payload(
                #[trigger] self.change_log@[i].payload@,
            ) is Some
        &&& forall|i: int, j: int|
            0 <= i < j < self.bitmaps@.len() ==> (#[trigger] self.bitmaps@[i].0) != (
            #[trigger] self.bitmaps@[j].0)
        &&& forall|i: int|
            0 <= i < self.bitmaps@.len() ==> bitmap::bm(#[trigger] self.bitmaps@[i].1).finite()
        &&& forall|i: int, j: int|
            0 <= i < j < self.values@.len() ==> (#[trigger] self.values@[i].0) != (
            #[trigger] self.values@[j].0)
        &&& forall|i: int, j: int|
            0 <= i < j < self.blob_refs@.len() ==> (#[trigger] self.blob_refs@[i].0) != (
            #[trigger] self.blob_refs@[j].0)
        &&& forall|i: int, j: int|
            0 <= i < j < self.indexes@.len() ==> (#[trigger] self.indexes@[i].0) != (
            #[trigger] self.indexes@[j].0)
        &&& forall|i: int, j: int|
            0 <= i < j < self.blobs@.len() ==> (#[trigger] self.blobs@[i].0) != (
            #[trigger] self.blobs@[j].0)
        &&& forall|i: int, j: int|
            0 <= i < j < self.change_counters@.len() ==> (#[trigger] self.change_counters@[i].0)
                != (#[trigger] self.change_counters@[j].0)
        &&& forall|i: int, j: int|
            0 <= i < j < self.term_indexes@.len() ==> (#[trigger] self.term_indexes@[i].0) != (
            #[trigger] self.term_indexes@[j].0)
        &&& forall|i: int, j: int|
            0 <= i < j < self.blob_links@.len() ==> (#[trigger] self.blob_links@[i].0) != (
            #[trigger] self.blob_links@[j].0)
        &&& forall|i: int|
            0 <= i < self.raft_log@.len() ==> spec_raft_id_lt(
                #[trigger] self.raft_log@[i].0,
                RaftId { term: self.raft_term, index: self.raft_index },
            )
        &&& forall|i: int|
            0 <= i < self.change_log@.len() ==> (#[trigger] self.change_log@[i]).change_id
                <= spec_ctr_row(
                self.change_counters@,
                (self.change_log@[i].account_id, self.change_log@[i].collection),
            )
    }

    /// A fresh, empty store.
    pub fn new() -> (r: Self)
        ensures
            r.wf(),
            r.change_log@.len() == 0,
            r.raft_log@.len() == 0,
            r.bitmaps@.len() == 0,
            r.values@.len() == 0,
            r.indexes@.len() == 0,
            r.blobs@.len() == 0,
            r.blob_refs@.len() == 0,
            r.change_counters@.len() == 0,
            r.term_indexes@.len() == 0,
            r.blob_links@.len() == 0,
            r.raft_term == 0,
            r.raft_index == 0,
    {
        JMAPStore {
            bitmaps: Vec::new(),
            values: Vec::new(),
            indexes: Vec::new(),
            blobs: Vec::new(),
            blob_refs: Vec::new(),
            change_log: Vec::new(),
            raft_log: Vec::new(),
            change_counters: Vec::new(),
            term_indexes: Vec::new(),
            blob_links: Vec::new(),
            raft_term: 0,
            raft_index: 0,
        }
    }

    /// Hand out the next Raft id under the current term.
    pub fn assign_raft_id(&mut self) -> (r: RaftId)
        requires
            old(self).raft_index < u64::MAX,
        ensures
            r == (RaftId { term: old(self).raft_term, index: old(self).raft_index }),
            final(self).raft_index == old(self).raft_index + 1,
            final(self).raft_term == old(self).raft_term,
            *final(self) == (JMAPStore { raft_index: final(self).raft_index, ..*old(self) }),
    {
        let r = RaftId { term: self.raft_term, index: self.raft_index };
        self.raft_index = self.raft_index + 1;
        r
    }
}

/// Greatest log id at most `key` in the scanned records.
pub open spec fn spec_prev_raft_id(log: Seq<(RaftId, Vec<u8>)>, key: RaftId) -> Option<RaftId>
    decreases log.len(),
{
    if log.len() == 0 {
        Option::None
    } else {
        let rest = spec_prev_raft_id(log.drop_last(), key);
        let last = log.last().0;
        if !spec_raft_id_lt(key, last) {
            match rest {
                Option::None => Some(last),
                Option::Some(b) => if spec_raft_id_lt(b, last) {
                    Some(last)
                } else {
                    Some(b)
                },
            }
        } else {
            rest
        }
    }
}

/// Least log id at least `key` in the scanned records.
pub open spec fn spec_next_raft_id(log: Seq<(RaftId, Vec<u8>)>, key: RaftId) -> Option<RaftId>
    decreases log.len(),
{
    if log.len() == 0 {
        Option::None
    } else {
        let rest = spec_next_raft_id(log.drop_last(), key);
        let last = log.last().0;
        if !spec_raft_id_lt(last, key) {
            match rest {
                Option::None => Some(last),
                Option::Some(b) => if spec_raft_id_lt(last, b) {
                    Some(last)
                } else {
                    Some(b)
                },
            }
        } else {
            rest
        }
    }
}

impl JMAPStore {
    /// The greatest Raft id at most `key`, as a backward scan from the
    /// serialized key position reads it.
    #[verifier::loop_isolation(false)]
    pub fn get_prev_raft_id(&self, key: RaftId) -> (r: Result<Option<RaftId>, StoreError>)
        ensures
            r == Result::<Option<RaftId>, StoreError>::Ok(spec_prev_raft_id(self.raft_log@, key)),
    {
        let n = self.raft_log.len();
        let mut best: Option<RaftId> = None;
        let mut i: usize = 0;
        while i < n
            invariant
                i <= n,
                best == spec_prev_raft_id(self.raft_log@.take(i as int), key),
            decreases n - i,
        {
            let cand = self.raft_log[i].0;
            proof {
                assert(self.raft_log@.take(i + 1).drop_last() =~= self.raft_log@.take(i as int));
            }
            if !raft_id_lt(key, cand) {
                best = match best {
                    None => Some(cand),
                    Some(b) => if raft_id_lt(b, cand) {
                        Some(cand)
                    } else {
                        Some(b)
                    },
                };
            }
            i = i + 1;
        }
        assert(self.raft_log@.take(n as int) =~= self.raft_log@);
        Ok(best)
    }

    /// The least Raft id at least `key`, as a forward scan from the
    /// serialized key position reads it.
    #[verifier::loop_isolation(false)]
    pub fn get_next_raft_id(&self, key: RaftId) -> (r: Result<Option<RaftId>, StoreError>)
        ensures
            r == Result::<Option<RaftId>, StoreError>::Ok(spec_next_raft_id(self.raft_log@, key)),
    {
        let n = self.raft_log.len();
        let mut best: Option<RaftId> = None;
        let mut i: usize = 0;
        while i < n
            invariant
                i <= n,
                best == spec_next_raft_id(self.raft_log@.take(i as int), key),
            decreases n - i,
        {
            let cand = self.raft_log[i].0;
            proof {
                assert(self.raft_log@.take(i + 1).drop_last() =~= self.raft_log@.take(i as int));
            }
            if !raft_id_lt(cand, key) {
                best = match best {
                    None => Some(cand),
                    Some(b) => if raft_id_lt(cand, b) {
                        Some(cand)
                    } else {
                        Some(b)
                    },
                };
            }
            i = i + 1;
        }
        assert(self.raft_log@.take(n as int) =~= self.raft_log@);
        Ok(best)
    }
}

/// Strict `(term, index)` order, executable.
pub fn raft_id_lt(a: RaftId, b: RaftId) -> (r: bool)
    ensures
        r == spec_raft_id_lt(a, b),
{
    a.term < b.term || (a.term == b.term && a.index < b.index)
}


/// Find the row index of a bitmap key.
fn bm_find(rows: &Vec<(BitmapKey, roaring::RoaringBitmap)>, k: BitmapKey) -> (r: Option<usize>)
    ensures
        r matches Some(i) ==> i < rows@.len() && rows@[i as int].0 == k,
        r is None ==> forall|i: int| 0 <= i < rows@.len() ==> (#[trigger] rows@[i].0) != k,
{
    let n = rows.len();
    let mut i: usize = 0;
    while i < n
        invariant
            i <= n,
            n == rows@.len(),
            forall|j: int| 0 <= j < i ==> (#[trigger] rows@[j].0) != k,
        decreases n - i,
    {
        if rows[i].0 == k {
            return Some(i);
        }
        i = i + 1;
    }
    None
}

proof fn lemma_bm_row_absent(s: Seq<(BitmapKey, roaring::RoaringBitmap)>, k: BitmapKey)
    requires
        forall|i: int| 0 <= i < s.len() ==> (#[trigger] s[i].0) != k,
    ensures
        spec_bm_row(s, k) == Set::<u32>::empty(),
    decreases s.len(),
{
    if s.len() > 0 {
        lemma_bm_row_absent(s.drop_first(), k);
    }
}

proof fn lemma_bm_row_update(
    s: Seq<(BitmapKey, roaring::RoaringBitmap)>,
    i: int,
    p: (BitmapKey, roaring::RoaringBitmap),
)
    requires
        0 <= i < s.len(),
        s[i].0 == p.0,
        forall|a: int, b: int| 0 <= a < b < s.len() ==> (#[trigger] s[a].0) != (#[trigger] s[b].0),
    ensures
        forall|k2: BitmapKey|
            spec_bm_row(s.update(i, p), k2) == (if k2 == p.0 {
                bitmap::bm(p.1)
            } else {
                spec_bm_row(s, k2)
            }),
    decreases s.len(),
{
    if i == 0 {
        assert(s.update(0, p).drop_first() =~= s.drop_first());
    } else {
        assert(s[0].0 != p.0);
        assert(s.update(i, p).drop_first() =~= s.drop_first().update(i - 1, p));
        assert(s.drop_first()[i - 1].0 == p.0);
        lemma_bm_row_update(s.drop_first(), i - 1, p);
    }
    assert forall|k2: BitmapKey|
        spec_bm_row(s.update(i, p), k2) == (if k2 == p.0 {
            bitmap::bm(p.1)
        } else {
            spec_bm_row(s, k2)
        }) by {
        if i == 0 {
            assert(s.update(0, p).drop_first() =~= s.drop_first());
            assert(spec_bm_row(s.update(i, p), k2) == (if k2 == p.0 {
                bitmap::bm(p.1)
            } else {
                spec_bm_row(s.update(i, p).drop_first(), k2)
            }));
        } else {
            assert(s.update(i, p).drop_first() =~= s.drop_first().update(i - 1, p));
            if k2 == s[0].0 {
                assert(spec_bm_row(s.update(i, p), k2) == bitmap::bm(s[0].1));
                assert(spec_bm_row(s, k2) == bitmap::bm(s[0].1));
            } else {
                assert(spec_bm_row(s.update(i, p), k2) == spec_bm_row(
                    s.drop_first().update(i - 1, p),
                    k2,
                ));
                assert(spec_bm_row(s, k2) == spec_bm_row(s.drop_first(), k2));
            }
        }
    }
}

proof fn lemma_bm_row_push(
    s: Seq<(BitmapKey, roaring::RoaringBitmap)>,
    p: (BitmapKey, roaring::RoaringBitmap),
)
    requires
        forall|i: int| 0 <= i < s.len() ==> (#[trigger] s[i].0) != p.0,
    ensures
        forall|k2: BitmapKey|
            spec_bm_row(s.push(p), k2) == (if k2 == p.0 {
                bitmap::bm(p.1)
            } else {
                spec_bm_row(s, k2)
            }),
    decreases s.len(),
{
    if s.len() == 0 {
        assert(s.push(p)[0] == p);
        assert(s.push(p).drop_first() =~= Seq::<(BitmapKey, roaring::RoaringBitmap)>::empty());
    } else {
        assert(s.push(p).drop_first() =~= s.drop_first().push(p));
        lemma_bm_row_push(s.drop_first(), p);
        assert(s.push(p)[0] == s[0]);
    }
    assert forall|k2: BitmapKey|
        spec_bm_row(s.push(p), k2) == (if k2 == p.0 {
            bitmap::bm(p.1)
        } else {
            spec_bm_row(s, k2)
        }) by {
        if s.len() == 0 {
            assert(s.push(p).drop_first() =~= Seq::<(BitmapKey, roaring::RoaringBitmap)>::empty());
            if k2 != p.0 {
                assert(spec_bm_row(s.push(p), k2) == spec_bm_row(s.push(p).drop_first(), k2));
                assert(spec_bm_row(s.push(p).drop_first(), k2) == Set::<u32>::empty());
            }
        } else {
            assert(s.push(p).drop_first() =~= s.drop_first().push(p));
            if k2 == s[0].0 {
                assert(spec_bm_row(s.push(p), k2) == bitmap::bm(s[0].1));
            } else {
                assert(spec_bm_row(s.push(p), k2) == spec_bm_row(s.drop_first().push(p), k2));
                assert(spec_bm_row(s, k2) == spec_bm_row(s.drop_first(), k2));
            }
        }
    }
}

/// Set or clear one document id in one bitmap row, creating the row when a
/// bit is first set.
#[verifier::loop_isolation(false)]
pub fn bm_rows_apply(
    rows: &mut Vec<(BitmapKey, roaring::RoaringBitmap)>,
    key: BitmapKey,
    doc: DocumentId,
    set: bool,
)
    requires
        forall|a: int, b: int|
            0 <= a < b < old(rows)@.len() ==> (#[trigger] old(rows)@[a].0) != (
            #[trigger] old(rows)@[b].0),
        forall|i: int|
            0 <= i < old(rows)@.len() ==> bitmap::bm(#[trigger] old(rows)@[i].1).finite(),
    ensures
        forall|a: int, b: int|
            0 <= a < b < final(rows)@.len() ==> (#[trigger] final(rows)@[a].0) != (
            #[trigger] final(rows)@[b].0),
        forall|i: int|
            0 <= i < final(rows)@.len() ==> bitmap::bm(#[trigger] final(rows)@[i].1).finite(),
        forall|k2: BitmapKey|
            spec_bm_row(final(rows)@, k2) == (if k2 == key {
                if set {
                    spec_bm_row(old(rows)@, key).insert(doc)
                } else {
                    spec_bm_row(old(rows)@, key).remove(doc)
                }
            } else {
                spec_bm_row(old(rows)@, k2)
            }),
{
    match bm_find(rows, key) {
        Some(i) => {
            let (k0, mut b) = rows.remove(i);
            if set {
                bitmap::bm_insert(&mut b, doc);
            } else {
                bitmap::bm_remove(&mut b, doc);
            }
            rows.insert(i, (k0, b));
            proof {
                assert(rows@ =~= old(rows)@.update(i as int, rows@[i as int]));
                assert(spec_bm_row(old(rows)@, key) == bitmap::bm(old(rows)@[i as int].1)) by {
                    lemma_bm_row_at(old(rows)@, i as int);
                }
                lemma_bm_row_update(old(rows)@, i as int, rows@[i as int]);
            }
        },
        None => {
            proof {
                lemma_bm_row_absent(rows@, key);
            }
            let mut b = bitmap::bm_new();
            if set {
                bitmap::bm_insert(&mut b, doc);
            } else {
                bitmap::bm_remove(&mut b, doc);
            }
            proof {
                if set {
                    assert(bitmap::bm(b) =~= spec_bm_row(old(rows)@, key).insert(doc));
                } else {
                    assert(bitmap::bm(b) =~= spec_bm_row(old(rows)@, key).remove(doc));
                }
            }
            let ghost before = rows@;
            rows.push((key, b));
            proof {
                lemma_bm_row_push(before, (key, b));
            }
        },
    }
}

/// At a unique key's row, the first-match lookup reads that row.
proof fn lemma_bm_row_at(s: Seq<(BitmapKey, roaring::RoaringBitmap)>, i: int)
    requires
        0 <= i < s.len(),
        forall|a: int, b: int| 0 <= a < b < s.len() ==> (#[trigger] s[a].0) != (#[trigger] s[b].0),
    ensures
        spec_bm_row(s, s[i].0) == bitmap::bm(s[i].1),
    decreases i,
{
    if i > 0 {
        assert(s[0].0 != s[i].0);
        assert(s.drop_first()[i - 1] == s[i]);
        lemma_bm_row_at(s.drop_first(), i - 1);
    }
}

/// Read one bitmap row as a fresh roaring bitmap (missing row: empty).
#[verifier::loop_isolation(false)]
pub fn bm_rows_get(rows: &Vec<(BitmapKey, roaring::RoaringBitmap)>, key: BitmapKey) -> (r:
    roaring::RoaringBitmap)
    requires
        forall|a: int, b: int|
            0 <= a < b < rows@.len() ==> (#[trigger] rows@[a].0) != (#[trigger] rows@[b].0),
    ensures
        bitmap::bm(r) == spec_bm_row(rows@, key),
        bitmap::bm(r).finite(),
{
    match bm_find(rows, key) {
        Some(i) => {
            proof {
                lemma_bm_row_at(rows@, i as int);
            }
            bitmap::bm_clone(&rows[i].1)
        },
        None => {
            proof {
                lemma_bm_row_absent(rows@, key);
            }
            let b = bitmap::bm_new();
            proof {
                assert(bitmap::bm(b) =~= spec_bm_row(rows@, key));
            }
            b
        },
    }
}


/// View of an optional byte row.
pub open spec fn spec_opt_bytes(v: Option<Vec<u8>>) -> Option<Seq<u8>> {
    match v {
        Option::Some(x) => Some(x@),
        Option::None => Option::None,
    }
}

/// Find the row index of a stored-value key.
fn val_find(rows: &Vec<(ValueKey, Option<Vec<u8>>)>, k: ValueKey) -> (r: Option<usize>)
    ensures
        r matches Some(i) ==> i < rows@.len() && rows@[i as int].0 == k,
        r is None ==> forall|i: int| 0 <= i < rows@.len() ==> (#[trigger] rows@[i].0) != k,
{
    let n = rows.len();
    let mut i: usize = 0;
    while i < n
        invariant
            i <= n,
            n == rows@.len(),
            forall|j: int| 0 <= j < i ==> (#[trigger] rows@[j].0) != k,
        decreases n - i,
    {
        if rows[i].0 == k {
            return Some(i);
        }
        i = i + 1;
    }
    None
}

proof fn lemma_val_row_absent(s: Seq<(ValueKey, Option<Vec<u8>>)>, k: ValueKey)
    requires
        forall|i: int| 0 <= i < s.len() ==> (#[trigger] s[i].0) != k,
    ensures
        spec_val_row(s, k) == Option::<Seq<u8>>::None,
    decreases s.len(),
{
    if s.len() > 0 {
        lemma_val_row_absent(s.drop_first(), k);
    }
}

/// At a unique key's row, the first-match lookup reads that row.
proof fn lemma_val_row_at(s: Seq<(ValueKey, Option<Vec<u8>>)>, i: int)
    requires
        0 <= i < s.len(),
        forall|a: int, b: int| 0 <= a < b < s.len() ==> (#[trigger] s[a].0) != (#[trigger] s[b].0),
    ensures
        spec_val_row(s, s[i].0) == spec_opt_bytes(s[i].1),
    decreases i,
{
    if i > 0 {
        assert(s[0].0 != s[i].0);
        assert(s.drop_first()[i - 1] == s[i]);
        lemma_val_row_at(s.drop_first(), i - 1);
    }
}

proof fn lemma_val_row_update(s: Seq<(ValueKey, Option<Vec<u8>>)>, i: int, p: (ValueKey, Option<Vec<u8>>))
    requires
        0 <= i < s.len(),
        s[i].0 == p.0,
        forall|a: int, b: int| 0 <= a < b < s.len() ==> (#[trigger] s[a].0) != (#[trigger] s[b].0),
    ensures
        forall|k2: ValueKey|
            spec_val_row(s.update(i, p), k2) == (if k2 == p.0 {
                spec_opt_bytes(p.1)
            } else {
                spec_val_row(s, k2)
            }),
    decreases s.len(),
{
    if i > 0 {
        assert(s[0].0 != p.0);
        assert(s.update(i, p).drop_first() =~= s.drop_first().update(i - 1, p));
        assert(s.drop_first()[i - 1].0 == p.0);
        lemma_val_row_update(s.drop_first(), i - 1, p);
    }
    assert forall|k2: ValueKey|
        spec_val_row(s.update(i, p), k2) == (if k2 == p.0 {
            spec_opt_bytes(p.1)
        } else {
            spec_val_row(s, k2)
        }) by {
        if i == 0 {
            assert(s.update(0, p).drop_first() =~= s.drop_first());
            assert(spec_val_row(s.update(i, p), k2) == (if k2 == p.0 {
                spec_opt_bytes(p.1)
            } else {
                spec_val_row(s.update(i, p).drop_first(), k2)
            }));
        } else {
            assert(s.update(i, p).drop_first() =~= s.drop_first().update(i - 1, p));
            if k2 == s[0].0 {
                assert(spec_val_row(s.update(i, p), k2) == spec_opt_bytes(s[0].1));
                assert(spec_val_row(s, k2) == spec_opt_bytes(s[0].1));
            } else {
                assert(spec_val_row(s.update(i, p), k2) == spec_val_row(
                    s.drop_first().update(i - 1, p),
                    k2,
                ));
                assert(spec_val_row(s, k2) == spec_val_row(s.drop_first(), k2));
            }
        }
    }
}

proof fn lemma_val_row_push(s: Seq<(ValueKey, Option<Vec<u8>>)>, p: (ValueKey, Option<Vec<u8>>))
    requires
        forall|i: int| 0 <= i < s.len() ==> (#[trigger] s[i].0) != p.0,
    ensures
        forall|k2: ValueKey|
            spec_val_row(s.push(p), k2) == (if k2 == p.0 {
                spec_opt_bytes(p.1)
            } else {
                spec_val_row(s, k2)
            }),
    decreases s.len(),
{
    if s.len() == 0 {
        assert(s.push(p)[0] == p);
        assert(s.push(p).drop_first() =~= Seq::<(ValueKey, Option<Vec<u8>>)>::empty());
    } else {
        assert(s.push(p).drop_first() =~= s.drop_first().push(p));
        lemma_val_row_push(s.drop_first(), p);
        assert(s.push(p)[0] == s[0]);
    }
    assert forall|k2: ValueKey|
        spec_val_row(s.push(p), k2) == (if k2 == p.0 {
            spec_opt_bytes(p.1)
        } else {
            spec_val_row(s, k2)
        }) by {
        if s.len() == 0 {
            assert(s.push(p).drop_first() =~= Seq::<(ValueKey, Option<Vec<u8>>)>::empty());
            if k2 != p.0 {
                assert(spec_val_row(s.push(p), k2) == spec_val_row(s.push(p).drop_first(), k2));
                assert(spec_val_row(s.push(p).drop_first(), k2) == Option::<Seq<u8>>::None);
            }
        } else {
            assert(s.push(p).drop_first() =~= s.drop_first().push(p));
            if k2 == s[0].0 {
                assert(spec_val_row(s.push(p), k2) == spec_opt_bytes(s[0].1));
            } else {
                assert(spec_val_row(s.push(p), k2) == spec_val_row(s.drop_first().push(p), k2));
                assert(spec_val_row(s, k2) == spec_val_row(s.drop_first(), k2));
            }
        }
    }
}

/// Replace the stored-value row of a key, creating it when absent.
pub fn val_rows_set(rows: &mut Vec<(ValueKey, Option<Vec<u8>>)>, key: ValueKey, v: Option<Vec<u8>>)
    requires
        forall|a: int, b: int|
            0 <= a < b < old(rows)@.len() ==> (#[trigger] old(rows)@[a].0) != (
            #[trigger] old(rows)@[b].0),
    ensures
        forall|a: int, b: int|
            0 <= a < b < final(rows)@.len() ==> (#[trigger] final(rows)@[a].0) != (
            #[trigger] final(rows)@[b].0),
        forall|k2: ValueKey|
            spec_val_row(final(rows)@, k2) == (if k2 == key {
                spec_opt_bytes(v)
            } else {
                spec_val_row(old(rows)@, k2)
            }),
{
    match val_find(rows, key) {
        Some(i) => {
            let _old_row = rows.remove(i);
            rows.insert(i, (key, v));
            proof {
                assert(rows@ =~= old(rows)@.update(i as int, rows@[i as int]));
                lemma_val_row_update(old(rows)@, i as int, rows@[i as int]);
            }
        },
        None => {
            let ghost before = rows@;
            rows.push((key, v));
            proof {
                lemma_val_row_push(before, (key, v));
            }
        },
    }
}

/// Find the row index of a index key.
fn idx_find(rows: &Vec<(IndexEntry, bool)>, k: IndexEntry) -> (r: Option<usize>)
    ensures
        r matches Some(i) ==> i < rows@.len() && rows@[i as int].0 == k,
        r is None ==> forall|i: int| 0 <= i < rows@.len() ==> (#[trigger] rows@[i].0) != k,
{
    let n = rows.len();
    let mut i: usize = 0;
    while i < n
        invariant
            i <= n,
            n == rows@.len(),
            forall|j: int| 0 <= j < i ==> (#[trigger] rows@[j].0) != k,
        decreases n - i,
    {
        if rows[i].0 == k {
            return Some(i);
        }
        i = i + 1;
    }
    None
}

proof fn lemma_idx_row_absent(s: Seq<(IndexEntry, bool)>, k: IndexEntry)
    requires
        forall|i: int| 0 <= i < s.len() ==> (#[trigger] s[i].0) != k,
    ensures
        spec_idx_row(s, k) == false,
    decreases s.len(),
{
    if s.len() > 0 {
        lemma_idx_row_absent(s.drop_first(), k);
    }
}

/// At a unique key's row, the first-match lookup reads that row.
pub proof fn lemma_idx_row_at(s: Seq<(IndexEntry, bool)>, i: int)
    requires
        0 <= i < s.len(),
        forall|a: int, b: int| 0 <= a < b < s.len() ==> (#[trigger] s[a].0) != (#[trigger] s[b].0),
    ensures
        spec_idx_row(s, s[i].0) == (s[i].1),
    decreases i,
{
    if i > 0 {
        assert(s[0].0 != s[i].0);
        assert(s.drop_first()[i - 1] == s[i]);
        lemma_idx_row_at(s.drop_first(), i - 1);
    }
}

proof fn lemma_idx_row_update(s: Seq<(IndexEntry, bool)>, i: int, p: (IndexEntry, bool))
    requires
        0 <= i < s.len(),
        s[i].0 == p.0,
        forall|a: int, b: int| 0 <= a < b < s.len() ==> (#[trigger] s[a].0) != (#[trigger] s[b].0),
    ensures
        forall|k2: IndexEntry|
            spec_idx_row(s.update(i, p), k2) == (if k2 == p.0 {
                (p.1)
            } else {
                spec_idx_row(s, k2)
            }),
    decreases s.len(),
{
    if i > 0 {
        assert(s[0].0 != p.0);
        assert(s.update(i, p).drop_first() =~= s.drop_first().update(i - 1, p));
        assert(s.drop_first()[i - 1].0 == p.0);
        lemma_idx_row_update(s.drop_first(), i - 1, p);
    }
    assert forall|k2: IndexEntry|
        spec_idx_row(s.update(i, p), k2) == (if k2 == p.0 {
            (p.1)
        } else {
            spec_idx_row(s, k2)
        }) by {
        if i == 0 {
            assert(s.update(0, p).drop_first() =~= s.drop_first());
            assert(spec_idx_row(s.update(i, p), k2) == (if k2 == p.0 {
                (p.1)
            } else {
                spec_idx_row(s.update(i, p).drop_first(), k2)
            }));
        } else {
            assert(s.update(i, p).drop_first() =~= s.drop_first().update(i - 1, p));
            if k2 == s[0].0 {
                assert(spec_idx_row(s.update(i, p), k2) == (s[0].1));
                assert(spec_idx_row(s, k2) == (s[0].1));
            } else {
                assert(spec_idx_row(s.update(i, p), k2) == spec_idx_row(
                    s.drop_first().update(i - 1, p),
                    k2,
                ));
                assert(spec_idx_row(s, k2) == spec_idx_row(s.drop_first(), k2));
            }
        }
    }
}

proof fn lemma_idx_row_push(s: Seq<(IndexEntry, bool)>, p: (IndexEntry, bool))
    requires
        forall|i: int| 0 <= i < s.len() ==> (#[trigger] s[i].0) != p.0,
    ensures
        forall|k2: IndexEntry|
            spec_idx_row(s.push(p), k2) == (if k2 == p.0 {
                (p.1)
            } else {
                spec_idx_row(s, k2)
            }),
    decreases s.len(),
{
    if s.len() == 0 {
        assert(s.push(p)[0] == p);
        assert(s.push(p).drop_first() =~= Seq::<(IndexEntry, bool)>::empty());
    } else {
        assert(s.push(p).drop_first() =~= s.drop_first().push(p));
        lemma_idx_row_push(s.drop_first(), p);
        assert(s.push(p)[0] == s[0]);
    }
    assert forall|k2: IndexEntry|
        spec_idx_row(s.push(p), k2) == (if k2 == p.0 {
            (p.1)
        } else {
            spec_idx_row(s, k2)
        }) by {
        if s.len() == 0 {
            assert(s.push(p).drop_first() =~= Seq::<(IndexEntry, bool)>::empty());
            if k2 != p.0 {
                assert(spec_idx_row(s.push(p), k2) == spec_idx_row(s.push(p).drop_first(), k2));
                assert(spec_idx_row(s.push(p).drop_first(), k2) == false);
            }
        } else {
            assert(s.push(p).drop_first() =~= s.drop_first().push(p));
            if k2 == s[0].0 {
                assert(spec_idx_row(s.push(p), k2) == (s[0].1));
            } else {
                assert(spec_idx_row(s.push(p), k2) == spec_idx_row(s.drop_first().push(p), k2));
                assert(spec_idx_row(s, k2) == spec_idx_row(s.drop_first(), k2));
            }
        }
    }
}

/// Replace the index row of a key, creating it when absent.
pub fn idx_rows_set(rows: &mut Vec<(IndexEntry, bool)>, key: IndexEntry, v: bool)
    requires
        forall|a: int, b: int|
            0 <= a < b < old(rows)@.len() ==> (#[trigger] old(rows)@[a].0) != (
            #[trigger] old(rows)@[b].0),
    ensures
        forall|a: int, b: int|
            0 <= a < b < final(rows)@.len() ==> (#[trigger] final(rows)@[a].0) != (
            #[trigger] final(rows)@[b].0),
        forall|k2: IndexEntry|
            spec_idx_row(final(rows)@, k2) == (if k2 == key {
                (v)
            } else {
                spec_idx_row(old(rows)@, k2)
            }),
{
    match idx_find(rows, key) {
        Some(i) => {
            let _old_row = rows.remove(i);
            rows.insert(i, (key, v));
            proof {
                assert(rows@ =~= old(rows)@.update(i as int, rows@[i as int]));
                lemma_idx_row_update(old(rows)@, i as int, rows@[i as int]);
            }
        },
        None => {
            let ghost before = rows@;
            rows.push((key, v));
            proof {
                lemma_idx_row_push(before, (key, v));
            }
        },
    }
}

/// Find the row index of a blob-refcount key.
fn refc_find(rows: &Vec<(u64, i64)>, k: u64) -> (r: Option<usize>)
    ensures
        r matches Some(i) ==> i < rows@.len() && rows@[i as int].0 == k,
        r is None ==> forall|i: int| 0 <= i < rows@.len() ==> (#[trigger] rows@[i].0) != k,
{
    let n = rows.len();
    let mut i: usize = 0;
    while i < n
        invariant
            i <= n,
            n == rows@.len(),
            forall|j: int| 0 <= j < i ==> (#[trigger] rows@[j].0) != k,
        decreases n - i,
    {
        if rows[i].0 == k {
            return Some(i);
        }
        i = i + 1;
    }
    None
}

proof fn lemma_refc_row_absent(s: Seq<(u64, i64)>, k: u64)
    requires
        forall|i: int| 0 <= i < s.len() ==> (#[trigger] s[i].0) != k,
    ensures
        spec_ref_row(s, k) == 0int,
    decreases s.len(),
{
    if s.len() > 0 {
        lemma_refc_row_absent(s.drop_first(), k);
    }
}

/// At a unique key's row, the first-match lookup reads that row.
proof fn lemma_refc_row_at(s: Seq<(u64, i64)>, i: int)
    requires
        0 <= i < s.len(),
        forall|a: int, b: int| 0 <= a < b < s.len() ==> (#[trigger] s[a].0) != (#[trigger] s[b].0),
    ensures
        spec_ref_row(s, s[i].0) == (s[i].1 as int),
    decreases i,
{
    if i > 0 {
        assert(s[0].0 != s[i].0);
        assert(s.drop_first()[i - 1] == s[i]);
        lemma_refc_row_at(s.drop_first(), i - 1);
    }
}

proof fn lemma_refc_row_update(s: Seq<(u64, i64)>, i: int, p: (u64, i64))
    requires
        0 <= i < s.len(),
        s[i].0 == p.0,
        forall|a: int, b: int| 0 <= a < b < s.len() ==> (#[trigger] s[a].0) != (#[trigger] s[b].0),
    ensures
        forall|k2: u64|
            spec_ref_row(s.update(i, p), k2) == (if k2 == p.0 {
                (p.1 as int)
            } else {
                spec_ref_row(s, k2)
            }),
    decreases s.len(),
{
    if i > 0 {
        assert(s[0].0 != p.0);
        assert(s.update(i, p).drop_first() =~= s.drop_first().update(i - 1, p));
        assert(s.drop_first()[i - 1].0 == p.0);
        lemma_refc_row_update(s.drop_first(), i - 1, p);
    }
    assert forall|k2: u64|
        spec_ref_row(s.update(i, p), k2) == (if k2 == p.0 {
            (p.1 as int)
        } else {
            spec_ref_row(s, k2)
        }) by {
        if i == 0 {
            assert(s.update(0, p).drop_first() =~= s.drop_first());
            assert(spec_ref_row(s.update(i, p), k2) == (if k2 == p.0 {
                (p.1 as int)
            } else {
                spec_ref_row(s.update(i, p).drop_first(), k2)
            }));
        } else {
            assert(s.update(i, p).drop_first() =~= s.drop_first().update(i - 1, p));
            if k2 == s[0].0 {
                assert(spec_ref_row(s.update(i, p), k2) == (s[0].1 as int));
                assert(spec_ref_row(s, k2) == (s[0].1 as int));
            } else {
                assert(spec_ref_row(s.update(i, p), k2) == spec_ref_row(
                    s.drop_first().update(i - 1, p),
                    k2,
                ));
                assert(spec_ref_row(s, k2) == spec_ref_row(s.drop_first(), k2));
            }
        }
    }
}

proof fn lemma_refc_row_push(s: Seq<(u64, i64)>, p: (u64, i64))
    requires
        forall|i: int| 0 <= i < s.len() ==> (#[trigger] s[i].0) != p.0,
    ensures
        forall|k2: u64|
            spec_ref_row(s.push(p), k2) == (if k2 == p.0 {
                (p.1 as int)
            } else {
                spec_ref_row(s, k2)
            }),
    decreases s.len(),
{
    if s.len() == 0 {
        assert(s.push(p)[0] == p);
        assert(s.push(p).drop_first() =~= Seq::<(u64, i64)>::empty());
    } else {
        assert(s.push(p).drop_first() =~= s.drop_first().push(p));
        lemma_refc_row_push(s.drop_first(), p);
        assert(s.push(p)[0] == s[0]);
    }
    assert forall|k2: u64|
        spec_ref_row(s.push(p), k2) == (if k2 == p.0 {
            (p.1 as int)
        } else {
            spec_ref_row(s, k2)
        }) by {
        if s.len() == 0 {
            assert(s.push(p).drop_first() =~= Seq::<(u64, i64)>::empty());
            if k2 != p.0 {
                assert(spec_ref_row(s.push(p), k2) == spec_ref_row(s.push(p).drop_first(), k2));
                assert(spec_ref_row(s.push(p).drop_first(), k2) == 0int);
            }
        } else {
            assert(s.push(p).drop_first() =~= s.drop_first().push(p));
            if k2 == s[0].0 {
                assert(spec_ref_row(s.push(p), k2) == (s[0].1 as int));
            } else {
                assert(spec_ref_row(s.push(p), k2) == spec_ref_row(s.drop_first().push(p), k2));
                assert(spec_ref_row(s, k2) == spec_ref_row(s.drop_first(), k2));
            }
        }
    }
}

/// Replace the blob-refcount row of a key, creating it when absent.
pub fn refc_rows_set(rows: &mut Vec<(u64, i64)>, key: u64, v: i64)
    requires
        forall|a: int, b: int|
            0 <= a < b < old(rows)@.len() ==> (#[trigger] old(rows)@[a].0) != (
            #[trigger] old(rows)@[b].0),
    ensures
        forall|a: int, b: int|
            0 <= a < b < final(rows)@.len() ==> (#[trigger] final(rows)@[a].0) != (
            #[trigger] final(rows)@[b].0),
        forall|k2: u64|
            spec_ref_row(final(rows)@, k2) == (if k2 == key {
                (v as int)
            } else {
                spec_ref_row(old(rows)@, k2)
            }),
{
    match refc_find(rows, key) {
        Some(i) => {
            let _old_row = rows.remove(i);
            rows.insert(i, (key, v));
            proof {
                assert(rows@ =~= old(rows)@.update(i as int, rows@[i as int]));
                lemma_refc_row_update(old(rows)@, i as int, rows@[i as int]);
            }
        },
        None => {
            let ghost before = rows@;
            rows.push((key, v));
            proof {
                lemma_refc_row_push(before, (key, v));
            }
        },
    }
}

/// Find the row index of a blob-content key.
fn blob_find(rows: &Vec<(u64, Option<Vec<u8>>)>, k: u64) -> (r: Option<usize>)
    ensures
        r matches Some(i) ==> i < rows@.len() && rows@[i as int].0 == k,
        r is None ==> forall|i: int| 0 <= i < rows@.len() ==> (#[trigger] rows@[i].0) != k,
{
    let n = rows.len();
    let mut i: usize = 0;
    while i < n
        invariant
            i <= n,
            n == rows@.len(),
            forall|j: int| 0 <= j < i ==> (#[trigger] rows@[j].0) != k,
        decreases n - i,
    {
        if rows[i].0 == k {
            return Some(i);
        }
        i = i + 1;
    }
    None
}

proof fn lemma_blob_row_absent(s: Seq<(u64, Option<Vec<u8>>)>, k: u64)
    requires
        forall|i: int| 0 <= i < s.len() ==> (#[trigger] s[i].0) != k,
    ensures
        spec_blob_row(s, k) == Option::<Seq<u8>>::None,
    decreases s.len(),
{
    if s.len() > 0 {
        lemma_blob_row_absent(s.drop_first(), k);
    }
}

/// At a unique key's row, the first-match lookup reads that row.
proof fn lemma_blob_row_at(s: Seq<(u64, Option<Vec<u8>>)>, i: int)
    requires
        0 <= i < s.len(),
        forall|a: int, b: int| 0 <= a < b < s.len() ==> (#[trigger] s[a].0) != (#[trigger] s[b].0),
    ensures
        spec_blob_row(s, s[i].0) == spec_opt_bytes(s[i].1),
    decreases i,
{
    if i > 0 {
        assert(s[0].0 != s[i].0);
        assert(s.drop_first()[i - 1] == s[i]);
        lemma_blob_row_at(s.drop_first(), i - 1);
    }
}

proof fn lemma_blob_row_update(s: Seq<(u64, Option<Vec<u8>>)>, i: int, p: (u64, Option<Vec<u8>>))
    requires
        0 <= i < s.len(),
        s[i].0 == p.0,
        forall|a: int, b: int| 0 <= a < b < s.len() ==> (#[trigger] s[a].0) != (#[trigger] s[b].0),
    ensures
        forall|k2: u64|
            spec_blob_row(s.update(i, p), k2) == (if k2 == p.0 {
                spec_opt_bytes(p.1)
            } else {
                spec_blob_row(s, k2)
            }),
    decreases s.len(),
{
    if i > 0 {
        assert(s[0].0 != p.0);
        assert(s.update(i, p).drop_first() =~= s.drop_first().update(i - 1, p));
        assert(s.drop_first()[i - 1].0 == p.0);
        lemma_blob_row_update(s.drop_first(), i - 1, p);
    }
    assert forall|k2: u64|
        spec_blob_row(s.update(i, p), k2) == (if k2 == p.0 {
            spec_opt_bytes(p.1)
        } else {
            spec_blob_row(s, k2)
        }) by {
        if i == 0 {
            assert(s.update(0, p).drop_first() =~= s.drop_first());
            assert(spec_blob_row(s.update(i, p), k2) == (if k2 == p.0 {
                spec_opt_bytes(p.1)
            } else {
                spec_blob_row(s.update(i, p).drop_first(), k2)
            }));
        } else {
            assert(s.update(i, p).drop_first() =~= s.drop_first().update(i - 1, p));
            if k2 == s[0].0 {
                assert(spec_blob_row(s.update(i, p), k2) == spec_opt_bytes(s[0].1));
                assert(spec_blob_row(s, k2) == spec_opt_bytes(s[0].1));
            } else {
                assert(spec_blob_row(s.update(i, p), k2) == spec_blob_row(
                    s.drop_first().update(i - 1, p),
                    k2,
                ));
                assert(spec_blob_row(s, k2) == spec_blob_row(s.drop_first(), k2));
            }
        }
    }
}

proof fn lemma_blob_row_push(s: Seq<(u64, Option<Vec<u8>>)>, p: (u64, Option<Vec<u8>>))
    requires
        forall|i: int| 0 <= i < s.len() ==> (#[trigger] s[i].0) != p.0,
    ensures
        forall|k2: u64|
            spec_blob_row(s.push(p), k2) == (if k2 == p.0 {
                spec_opt_bytes(p.1)
            } else {
                spec_blob_row(s, k2)
            }),
    decreases s.len(),
{
    if s.len() == 0 {
        assert(s.push(p)[0] == p);
        assert(s.push(p).drop_first() =~= Seq::<(u64, Option<Vec<u8>>)>::empty());
    } else {
        assert(s.push(p).drop_first() =~= s.drop_first().push(p));
        lemma_blob_row_push(s.drop_first(), p);
        assert(s.push(p)[0] == s[0]);
    }
    assert forall|k2: u64|
        spec_blob_row(s.push(p), k2) == (if k2 == p.0 {
            spec_opt_bytes(p.1)
        } else {
            spec_blob_row(s, k2)
        }) by {
        if s.len() == 0 {
            assert(s.push(p).drop_first() =~= Seq::<(u64, Option<Vec<u8>>)>::empty());
            if k2 != p.0 {
                assert(spec_blob_row(s.push(p), k2) == spec_blob_row(s.push(p).drop_first(), k2));
                assert(spec_blob_row(s.push(p).drop_first(), k2) == Option::<Seq<u8>>::None);
            }
        } else {
            assert(s.push(p).drop_first() =~= s.drop_first().push(p));
            if k2 == s[0].0 {
                assert(spec_blob_row(s.push(p), k2) == spec_opt_bytes(s[0].1));
            } else {
                assert(spec_blob_row(s.push(p), k2) == spec_blob_row(s.drop_first().push(p), k2));
                assert(spec_blob_row(s, k2) == spec_blob_row(s.drop_first(), k2));
            }
        }
    }
}

/// Replace the blob-content row of a key, creating it when absent.
pub fn blob_rows_set(rows: &mut Vec<(u64, Option<Vec<u8>>)>, key: u64, v: Option<Vec<u8>>)
    requires
        forall|a: int, b: int|
            0 <= a < b < old(rows)@.len() ==> (#[trigger] old(rows)@[a].0) != (
            #[trigger] old(rows)@[b].0),
    ensures
        forall|a: int, b: int|
            0 <= a < b < final(rows)@.len() ==> (#[trigger] final(rows)@[a].0) != (
            #[trigger] final(rows)@[b].0),
        forall|k2: u64|
            spec_blob_row(final(rows)@, k2) == (if k2 == key {
                spec_opt_bytes(v)
            } else {
                spec_blob_row(old(rows)@, k2)
            }),
{
    match blob_find(rows, key) {
        Some(i) => {
            let _old_row = rows.remove(i);
            rows.insert(i, (key, v));
            proof {
                assert(rows@ =~= old(rows)@.update(i as int, rows@[i as int]));
                lemma_blob_row_update(old(rows)@, i as int, rows@[i as int]);
            }
        },
        None => {
            let ghost before = rows@;
            rows.push((key, v));
            proof {
                lemma_blob_row_push(before, (key, v));
            }
        },
    }
}


/// The last change id handed out for an account and collection; zero when
/// none was yet.
pub open spec fn spec_ctr_row(s: Seq<((AccountId, Collection), ChangeId)>, k: (
    AccountId,
    Collection,
)) -> ChangeId
    decreases s.len(),
{
    if s.len() == 0 {
        0
    } else if s[0].0 == k {
        s[0].1
    } else {
        spec_ctr_row(s.drop_first(), k)
    }
}

/// The positional term index of a document; empty when none is stored.
pub open spec fn spec_tix_row(
    s: Seq<((AccountId, Collection, DocumentId), crate::fulltext::TermIndex)>,
    k: (AccountId, Collection, DocumentId),
) -> Seq<crate::fulltext::TermPosition>
    decreases s.len(),
{
    if s.len() == 0 {
        Seq::<crate::fulltext::TermPosition>::empty()
    } else if s[0].0 == k {
        s[0].1.entries@
    } else {
        spec_tix_row(s.drop_first(), k)
    }
}

/// The blob hashes a document references, in storage order.
pub open spec fn spec_link_row(
    s: Seq<((AccountId, Collection, DocumentId), Vec<u64>)>,
    k: (AccountId, Collection, DocumentId),
) -> Seq<u64>
    decreases s.len(),
{
    if s.len() == 0 {
        Seq::<u64>::empty()
    } else if s[0].0 == k {
        s[0].1@
    } else {
        spec_link_row(s.drop_first(), k)
    }
}

/// Find the row index of a change-counter key.
fn ctr_find(rows: &Vec<((AccountId, Collection), ChangeId)>, k: (AccountId, Collection)) -> (r: Option<usize>)
    ensures
        r matches Some(i) ==> i < rows@.len() && rows@[i as int].0 == k,
        r is None ==> forall|i: int| 0 <= i < rows@.len() ==> (#[trigger] rows@[i].0) != k,
{
    let n = rows.len();
    let mut i: usize = 0;
    while i < n
        invariant
            i <= n,
            n == rows@.len(),
            forall|j: int| 0 <= j < i ==> (#[trigger] rows@[j].0) != k,
        decreases n - i,
    {
        if rows[i].0.0 == k.0 && rows[i].0.1 == k.1 {
            return Some(i);
        }
        i = i + 1;
    }
    None
}

proof fn lemma_ctr_row_absent(s: Seq<((AccountId, Collection), ChangeId)>, k: (AccountId, Collection))
    requires
        forall|i: int| 0 <= i < s.len() ==> (#[trigger] s[i].0) != k,
    ensures
        spec_ctr_row(s, k) == 0u64,
    decreases s.len(),
{
    if s.len() > 0 {
        lemma_ctr_row_absent(s.drop_first(), k);
    }
}

/// At a unique key's row, the first-match lookup reads that row.
proof fn lemma_ctr_row_at(s: Seq<((AccountId, Collection), ChangeId)>, i: int)
    requires
        0 <= i < s.len(),
        forall|a: int, b: int| 0 <= a < b < s.len() ==> (#[trigger] s[a].0) != (#[trigger] s[b].0),
    ensures
        spec_ctr_row(s, s[i].0) == (s[i].1),
    decreases i,
{
    if i > 0 {
        assert(s[0].0 != s[i].0);
        assert(s.drop_first()[i - 1] == s[i]);
        lemma_ctr_row_at(s.drop_first(), i - 1);
    }
}

proof fn lemma_ctr_row_update(s: Seq<((AccountId, Collection), ChangeId)>, i: int, p: ((AccountId, Collection), ChangeId))
    requires
        0 <= i < s.len(),
        s[i].0 == p.0,
        forall|a: int, b: int| 0 <= a < b < s.len() ==> (#[trigger] s[a].0) != (#[trigger] s[b].0),
    ensures
        forall|k2: (AccountId, Collection)|
            spec_ctr_row(s.update(i, p), k2) == (if k2 == p.0 {
                (p.1)
            } else {
                spec_ctr_row(s, k2)
            }),
    decreases s.len(),
{
    if i > 0 {
        assert(s[0].0 != p.0);
        assert(s.update(i, p).drop_first() =~= s.drop_first().update(i - 1, p));
        assert(s.drop_first()[i - 1].0 == p.0);
        lemma_ctr_row_update(s.drop_first(), i - 1, p);
    }
    assert forall|k2: (AccountId, Collection)|
        spec_ctr_row(s.update(i, p), k2) == (if k2 == p.0 {
            (p.1)
        } else {
            spec_ctr_row(s, k2)
        }) by {
        if i == 0 {
            assert(s.update(0, p).drop_first() =~= s.drop_first());
            assert(spec_ctr_row(s.update(i, p), k2) == (if k2 == p.0 {
                (p.1)
            } else {
                spec_ctr_row(s.update(i, p).drop_first(), k2)
            }));
        } else {
            assert(s.update(i, p).drop_first() =~= s.drop_first().update(i - 1, p));
            if k2 == s[0].0 {
                assert(spec_ctr_row(s.update(i, p), k2) == (s[0].1));
                assert(spec_ctr_row(s, k2) == (s[0].1));
            } else {
                assert(spec_ctr_row(s.update(i, p), k2) == spec_ctr_row(
                    s.drop_first().update(i - 1, p),
                    k2,
                ));
                assert(spec_ctr_row(s, k2) == spec_ctr_row(s.drop_first(), k2));
            }
        }
    }
}

proof fn lemma_ctr_row_push(s: Seq<((AccountId, Collection), ChangeId)>, p: ((AccountId, Collection), ChangeId))
    requires
        forall|i: int| 0 <= i < s.len() ==> (#[trigger] s[i].0) != p.0,
    ensures
        forall|k2: (AccountId, Collection)|
            spec_ctr_row(s.push(p), k2) == (if k2 == p.0 {
                (p.1)
            } else {
                spec_ctr_row(s, k2)
            }),
    decreases s.len(),
{
    if s.len() == 0 {
        assert(s.push(p)[0] == p);
        assert(s.push(p).drop_first() =~= Seq::<((AccountId, Collection), ChangeId)>::empty());
    } else {
        assert(s.push(p).drop_first() =~= s.drop_first().push(p));
        lemma_ctr_row_push(s.drop_first(), p);
        assert(s.push(p)[0] == s[0]);
    }
    assert forall|k2: (AccountId, Collection)|
        spec_ctr_row(s.push(p), k2) == (if k2 == p.0 {
            (p.1)
        } else {
            spec_ctr_row(s, k2)
        }) by {
        if s.len() == 0 {
            assert(s.push(p).drop_first() =~= Seq::<((AccountId, Collection), ChangeId)>::empty());
            if k2 != p.0 {
                assert(spec_ctr_row(s.push(p), k2) == spec_ctr_row(s.push(p).drop_first(), k2));
                assert(spec_ctr_row(s.push(p).drop_first(), k2) == 0u64);
            }
        } else {
            assert(s.push(p).drop_first() =~= s.drop_first().push(p));
            if k2 == s[0].0 {
                assert(spec_ctr_row(s.push(p), k2) == (s[0].1));
            } else {
                assert(spec_ctr_row(s.push(p), k2) == spec_ctr_row(s.drop_first().push(p), k2));
                assert(spec_ctr_row(s, k2) == spec_ctr_row(s.drop_first(), k2));
            }
        }
    }
}

/// Replace the change-counter row of a key, creating it when absent.
pub fn ctr_rows_set(rows: &mut Vec<((AccountId, Collection), ChangeId)>, key: (AccountId, Collection), v: ChangeId)
    requires
        forall|a: int, b: int|
            0 <= a < b < old(rows)@.len() ==> (#[trigger] old(rows)@[a].0) != (
            #[trigger] old(rows)@[b].0),
    ensures
        forall|a: int, b: int|
            0 <= a < b < final(rows)@.len() ==> (#[trigger] final(rows)@[a].0) != (
            #[trigger] final(rows)@[b].0),
        forall|k2: (AccountId, Collection)|
            spec_ctr_row(final(rows)@, k2) == (if k2 == key {
                (v)
            } else {
                spec_ctr_row(old(rows)@, k2)
            }),
{
    match ctr_find(rows, key) {
        Some(i) => {
            let _old_row = rows.remove(i);
            rows.insert(i, (key, v));
            proof {
                assert(rows@ =~= old(rows)@.update(i as int, rows@[i as int]));
                lemma_ctr_row_update(old(rows)@, i as int, rows@[i as int]);
            }
        },
        None => {
            let ghost before = rows@;
            rows.push((key, v));
            proof {
                lemma_ctr_row_push(before, (key, v));
            }
        },
    }
}

/// Find the row index of a term-index key.
fn tix_find(rows: &Vec<((AccountId, Collection, DocumentId), crate::fulltext::TermIndex)>, k: (AccountId, Collection, DocumentId)) -> (r: Option<usize>)
    ensures
        r matches Some(i) ==> i < rows@.len() && rows@[i as int].0 == k,
        r is None ==> forall|i: int| 0 <= i < rows@.len() ==> (#[trigger] rows@[i].0) != k,
{
    let n = rows.len();
    let mut i: usize = 0;
    while i < n
        invariant
            i <= n,
            n == rows@.len(),
            forall|j: int| 0 <= j < i ==> (#[trigger] rows@[j].0) != k,
        decreases n - i,
    {
        if rows[i].0.0 == k.0 && rows[i].0.1 == k.1 && rows[i].0.2 == k.2 {
            return Some(i);
        }
        i = i + 1;
    }
    None
}

proof fn lemma_tix_row_absent(s: Seq<((AccountId, Collection, DocumentId), crate::fulltext::TermIndex)>, k: (AccountId, Collection, DocumentId))
    requires
        forall|i: int| 0 <= i < s.len() ==> (#[trigger] s[i].0) != k,
    ensures
        spec_tix_row(s, k) == Seq::<crate::fulltext::TermPosition>::empty(),
    decreases s.len(),
{
    if s.len() > 0 {
        lemma_tix_row_absent(s.drop_first(), k);
    }
}

/// At a unique key's row, the first-match lookup reads that row.
proof fn lemma_tix_row_at(s: Seq<((AccountId, Collection, DocumentId), crate::fulltext::TermIndex)>, i: int)
    requires
        0 <= i < s.len(),
        forall|a: int, b: int| 0 <= a < b < s.len() ==> (#[trigger] s[a].0) != (#[trigger] s[b].0),
    ensures
        spec_tix_row(s, s[i].0) == (s[i].1.entries@),
    decreases i,
{
    if i > 0 {
        assert(s[0].0 != s[i].0);
        assert(s.drop_first()[i - 1] == s[i]);
        lemma_tix_row_at(s.drop_first(), i - 1);
    }
}

proof fn lemma_tix_row_update(s: Seq<((AccountId, Collection, DocumentId), crate::fulltext::TermIndex)>, i: int, p: ((AccountId, Collection, DocumentId), crate::fulltext::TermIndex))
    requires
        0 <= i < s.len(),
        s[i].0 == p.0,
        forall|a: int, b: int| 0 <= a < b < s.len() ==> (#[trigger] s[a].0) != (#[trigger] s[b].0),
    ensures
        forall|k2: (AccountId, Collection, DocumentId)|
            spec_tix_row(s.update(i, p), k2) == (if k2 == p.0 {
                (p.1.entries@)
            } else {
                spec_tix_row(s, k2)
            }),
    decreases s.len(),
{
    if i > 0 {
        assert(s[0].0 != p.0);
        assert(s.update(i, p).drop_first() =~= s.drop_first().update(i - 1, p));
        assert(s.drop_first()[i - 1].0 == p.0);
        lemma_tix_row_update(s.drop_first(), i - 1, p);
    }
    assert forall|k2: (AccountId, Collection, DocumentId)|
        spec_tix_row(s.update(i, p), k2) == (if k2 == p.0 {
            (p.1.entries@)
        } else {
            spec_tix_row(s, k2)
        }) by {
        if i == 0 {
            assert(s.update(0, p).drop_first() =~= s.drop_first());
            assert(spec_tix_row(s.update(i, p), k2) == (if k2 == p.0 {
                (p.1.entries@)
            } else {
                spec_tix_row(s.update(i, p).drop_first(), k2)
            }));
        } else {
            assert(s.update(i, p).drop_first() =~= s.drop_first().update(i - 1, p));
            if k2 == s[0].0 {
                assert(spec_tix_row(s.update(i, p), k2) == (s[0].1.entries@));
                assert(spec_tix_row(s, k2) == (s[0].1.entries@));
            } else {
                assert(spec_tix_row(s.update(i, p), k2) == spec_tix_row(
                    s.drop_first().update(i - 1, p),
                    k2,
                ));
                assert(spec_tix_row(s, k2) == spec_tix_row(s.drop_first(), k2));
            }
        }
    }
}

proof fn lemma_tix_row_push(s: Seq<((AccountId, Collection, DocumentId), crate::fulltext::TermIndex)>, p: ((AccountId, Collection, DocumentId), crate::fulltext::TermIndex))
    requires
        forall|i: int| 0 <= i < s.len() ==> (#[trigger] s[i].0) != p.0,
    ensures
        forall|k2: (AccountId, Collection, DocumentId)|
            spec_tix_row(s.push(p), k2) == (if k2 == p.0 {
                (p.1.entries@)
            } else {
                spec_tix_row(s, k2)
            }),
    decreases s.len(),
{
    if s.len() == 0 {
        assert(s.push(p)[0] == p);
        assert(s.push(p).drop_first() =~= Seq::<((AccountId, Collection, DocumentId), crate::fulltext::TermIndex)>::empty());
    } else {
        assert(s.push(p).drop_first() =~= s.drop_first().push(p));
        lemma_tix_row_push(s.drop_first(), p);
        assert(s.push(p)[0] == s[0]);
    }
    assert forall|k2: (AccountId, Collection, DocumentId)|
        spec_tix_row(s.push(p), k2) == (if k2 == p.0 {
            (p.1.entries@)
        } else {
            spec_tix_row(s, k2)
        }) by {
        if s.len() == 0 {
            assert(s.push(p).drop_first() =~= Seq::<((AccountId, Collection, DocumentId), crate::fulltext::TermIndex)>::empty());
            if k2 != p.0 {
                assert(spec_tix_row(s.push(p), k2) == spec_tix_row(s.push(p).drop_first(), k2));
                assert(spec_tix_row(s.push(p).drop_first(), k2) == Seq::<crate::fulltext::TermPosition>::empty());
            }
        } else {
            assert(s.push(p).drop_first() =~= s.drop_first().push(p));
            if k2 == s[0].0 {
                assert(spec_tix_row(s.push(p), k2) == (s[0].1.entries@));
            } else {
                assert(spec_tix_row(s.push(p), k2) == spec_tix_row(s.drop_first().push(p), k2));
                assert(spec_tix_row(s, k2) == spec_tix_row(s.drop_first(), k2));
            }
        }
    }
}

/// Replace the term-index row of a key, creating it when absent.
pub fn tix_rows_set(rows: &mut Vec<((AccountId, Collection, DocumentId), crate::fulltext::TermIndex)>, key: (AccountId, Collection, DocumentId), v: crate::fulltext::TermIndex)
    requires
        forall|a: int, b: int|
            0 <= a < b < old(rows)@.len() ==> (#[trigger] old(rows)@[a].0) != (
            #[trigger] old(rows)@[b].0),
    ensures
        forall|a: int, b: int|
            0 <= a < b < final(rows)@.len() ==> (#[trigger] final(rows)@[a].0) != (
            #[trigger] final(rows)@[b].0),
        forall|k2: (AccountId, Collection, DocumentId)|
            spec_tix_row(final(rows)@, k2) == (if k2 == key {
                (v.entries@)
            } else {
                spec_tix_row(old(rows)@, k2)
            }),
{
    match tix_find(rows, key) {
        Some(i) => {
            let _old_row = rows.remove(i);
            rows.insert(i, (key, v));
            proof {
                assert(rows@ =~= old(rows)@.update(i as int, rows@[i as int]));
                lemma_tix_row_update(old(rows)@, i as int, rows@[i as int]);
            }
        },
        None => {
            let ghost before = rows@;
            rows.push((key, v));
            proof {
                lemma_tix_row_push(before, (key, v));
            }
        },
    }
}

/// Find the row index of a blob-link key.
fn link_find(rows: &Vec<((AccountId, Collection, DocumentId), Vec<u64>)>, k: (AccountId, Collection, DocumentId)) -> (r: Option<usize>)
    ensures
        r matches Some(i) ==> i < rows@.len() && rows@[i as int].0 == k,
        r is None ==> forall|i: int| 0 <= i < rows@.len() ==> (#[trigger] rows@[i].0) != k,
{
    let n = rows.len();
    let mut i: usize = 0;
    while i < n
        invariant
            i <= n,
            n == rows@.len(),
            forall|j: int| 0 <= j < i ==> (#[trigger] rows@[j].0) != k,
        decreases n - i,
    {
        if rows[i].0.0 == k.0 && rows[i].0.1 == k.1 && rows[i].0.2 == k.2 {
            return Some(i);
        }
        i = i + 1;
    }
    None
}

proof fn lemma_link_row_absent(s: Seq<((AccountId, Collection, DocumentId), Vec<u64>)>, k: (AccountId, Collection, DocumentId))
    requires
        forall|i: int| 0 <= i < s.len() ==> (#[trigger] s[i].0) != k,
    ensures
        spec_link_row(s, k) == Seq::<u64>::empty(),
    decreases s.len(),
{
    if s.len() > 0 {
        lemma_link_row_absent(s.drop_first(), k);
    }
}

/// At a unique key's row, the first-match lookup reads that row.
proof fn lemma_link_row_at(s: Seq<((AccountId, Collection, DocumentId), Vec<u64>)>, i: int)
    requires
        0 <= i < s.len(),
        forall|a: int, b: int| 0 <= a < b < s.len() ==> (#[trigger] s[a].0) != (#[trigger] s[b].0),
    ensures
        spec_link_row(s, s[i].0) == (s[i].1@),
    decreases i,
{
    if i > 0 {
        assert(s[0].0 != s[i].0);
        assert(s.drop_first()[i - 1] == s[i]);
        lemma_link_row_at(s.drop_first(), i - 1);
    }
}

proof fn lemma_link_row_update(s: Seq<((AccountId, Collection, DocumentId), Vec<u64>)>, i: int, p: ((AccountId, Collection, DocumentId), Vec<u64>))
    requires
        0 <= i < s.len(),
        s[i].0 == p.0,
        forall|a: int, b: int| 0 <= a < b < s.len() ==> (#[trigger] s[a].0) != (#[trigger] s[b].0),
    ensures
        forall|k2: (AccountId, Collection, DocumentId)|
            spec_link_row(s.update(i, p), k2) == (if k2 == p.0 {
                (p.1@)
            } else {
                spec_link_row(s, k2)
            }),
    decreases s.len(),
{
    if i > 0 {
        assert(s[0].0 != p.0);
        assert(s.update(i, p).drop_first() =~= s.drop_first().update(i - 1, p));
        assert(s.drop_first()[i - 1].0 == p.0);
        lemma_link_row_update(s.drop_first(), i - 1, p);
    }
    assert forall|k2: (AccountId, Collection, DocumentId)|
        spec_link_row(s.update(i, p), k2) == (if k2 == p.0 {
            (p.1@)
        } else {
            spec_link_row(s, k2)
        }) by {
        if i == 0 {
            assert(s.update(0, p).drop_first() =~= s.drop_first());
            assert(spec_link_row(s.update(i, p), k2) == (if k2 == p.0 {
                (p.1@)
            } else {
                spec_link_row(s.update(i, p).drop_first(), k2)
            }));
        } else {
            assert(s.update(i, p).drop_first() =~= s.drop_first().update(i - 1, p));
            if k2 == s[0].0 {
                assert(spec_link_row(s.update(i, p), k2) == (s[0].1@));
                assert(spec_link_row(s, k2) == (s[0].1@));
            } else {
                assert(spec_link_row(s.update(i, p), k2) == spec_link_row(
                    s.drop_first().update(i - 1, p),
                    k2,
                ));
                assert(spec_link_row(s, k2) == spec_link_row(s.drop_first(), k2));
            }
        }
    }
}

proof fn lemma_link_row_push(s: Seq<((AccountId, Collection, DocumentId), Vec<u64>)>, p: ((AccountId, Collection, DocumentId), Vec<u64>))
    requires
        forall|i: int| 0 <= i < s.len() ==> (#[trigger] s[i].0) != p.0,
    ensures
        forall|k2: (AccountId, Collection, DocumentId)|
            spec_link_row(s.push(p), k2) == (if k2 == p.0 {
                (p.1@)
            } else {
                spec_link_row(s, k2)
            }),
    decreases s.len(),
{
    if s.len() == 0 {
        assert(s.push(p)[0] == p);
        assert(s.push(p).drop_first() =~= Seq::<((AccountId, Collection, DocumentId), Vec<u64>)>::empty());
    } else {
        assert(s.push(p).drop_first() =~= s.drop_first().push(p));
        lemma_link_row_push(s.drop_first(), p);
        assert(s.push(p)[0] == s[0]);
    }
    assert forall|k2: (AccountId, Collection, DocumentId)|
        spec_link_row(s.push(p), k2) == (if k2 == p.0 {
            (p.1@)
        } else {
            spec_link_row(s, k2)
        }) by {
        if s.len() == 0 {
            assert(s.push(p).drop_first() =~= Seq::<((AccountId, Collection, DocumentId), Vec<u64>)>::empty());
            if k2 != p.0 {
                assert(spec_link_row(s.push(p), k2) == spec_link_row(s.push(p).drop_first(), k2));
                assert(spec_link_row(s.push(p).drop_first(), k2) == Seq::<u64>::empty());
            }
        } else {
            assert(s.push(p).drop_first() =~= s.drop_first().push(p));
            if k2 == s[0].0 {
                assert(spec_link_row(s.push(p), k2) == (s[0].1@));
            } else {
                assert(spec_link_row(s.push(p), k2) == spec_link_row(s.drop_first().push(p), k2));
                assert(spec_link_row(s, k2) == spec_link_row(s.drop_first(), k2));
            }
        }
    }
}

/// Replace the blob-link row of a key, creating it when absent.
pub fn link_rows_set(rows: &mut Vec<((AccountId, Collection, DocumentId), Vec<u64>)>, key: (AccountId, Collection, DocumentId), v: Vec<u64>)
    requires
        forall|a: int, b: int|
            0 <= a < b < old(rows)@.len() ==> (#[trigger] old(rows)@[a].0) != (
            #[trigger] old(rows)@[b].0),
    ensures
        forall|a: int, b: int|
            0 <= a < b < final(rows)@.len() ==> (#[trigger] final(rows)@[a].0) != (
            #[trigger] final(rows)@[b].0),
        forall|k2: (AccountId, Collection, DocumentId)|
            spec_link_row(final(rows)@, k2) == (if k2 == key {
                (v@)
            } else {
                spec_link_row(old(rows)@, k2)
            }),
{
    match link_find(rows, key) {
        Some(i) => {
            let _old_row = rows.remove(i);
            rows.insert(i, (key, v));
            proof {
                assert(rows@ =~= old(rows)@.update(i as int, rows@[i as int]));
                lemma_link_row_update(old(rows)@, i as int, rows@[i as int]);
            }
        },
        None => {
            let ghost before = rows@;
            rows.push((key, v));
            proof {
                lemma_link_row_push(before, (key, v));
            }
        },
    }
}


/// Read one blob refcount (missing row: zero).
pub fn refc_rows_get(rows: &Vec<(u64, i64)>, h: u64) -> (r: i64)
    requires
        forall|a: int, b: int|
            0 <= a < b < rows@.len() ==> (#[trigger] rows@[a].0) != (#[trigger] rows@[b].0),
    ensures
        r == spec_ref_row(rows@, h),
{
    match refc_find(rows, h) {
        Some(i) => {
            proof {
                lemma_refc_row_at(rows@, i as int);
            }
            rows[i].1
        },
        None => {
            proof {
                lemma_refc_row_absent(rows@, h);
            }
            0
        },
    }
}

/// Read one stored value row as fresh bytes.
pub fn val_rows_get(rows: &Vec<(ValueKey, Option<Vec<u8>>)>, k: ValueKey) -> (r: Option<Vec<u8>>)
    requires
        forall|a: int, b: int|
            0 <= a < b < rows@.len() ==> (#[trigger] rows@[a].0) != (#[trigger] rows@[b].0),
    ensures
        spec_opt_bytes(r) == spec_val_row(rows@, k),
{
    match val_find(rows, k) {
        Some(i) => {
            proof {
                lemma_val_row_at(rows@, i as int);
            }
            match &rows[i].1 {
                Some(b) => Some(copy_byte_vec(b)),
                None => None,
            }
        },
        None => {
            proof {
                lemma_val_row_absent(rows@, k);
            }
            None
        },
    }
}

/// Read one blob content row as fresh bytes.
pub fn blob_rows_get(rows: &Vec<(u64, Option<Vec<u8>>)>, h: u64) -> (r: Option<Vec<u8>>)
    requires
        forall|a: int, b: int|
            0 <= a < b < rows@.len() ==> (#[trigger] rows@[a].0) != (#[trigger] rows@[b].0),
    ensures
        spec_opt_bytes(r) == spec_blob_row(rows@, h),
{
    match blob_find(rows, h) {
        Some(i) => {
            proof {
                lemma_blob_row_at(rows@, i as int);
            }
            match &rows[i].1 {
                Some(b) => Some(copy_byte_vec(b)),
                None => None,
            }
        },
        None => {
            proof {
                lemma_blob_row_absent(rows@, h);
            }
            None
        },
    }
}

/// Read one change counter (missing row: zero).
pub fn ctr_rows_get(rows: &Vec<((AccountId, Collection), ChangeId)>, k: (AccountId, Collection))
    -> (r: ChangeId)
    requires
        forall|a: int, b: int|
            0 <= a < b < rows@.len() ==> (#[trigger] rows@[a].0) != (#[trigger] rows@[b].0),
    ensures
        r == spec_ctr_row(rows@, k),
{
    match ctr_find(rows, k) {
        Some(i) => {
            proof {
                lemma_ctr_row_at(rows@, i as int);
            }
            rows[i].1
        },
        None => {
            proof {
                lemma_ctr_row_absent(rows@, k);
            }
            0
        },
    }
}

/// Read one document's term index as a fresh copy.
pub fn tix_rows_get(
    rows: &Vec<((AccountId, Collection, DocumentId), crate::fulltext::TermIndex)>,
    k: (AccountId, Collection, DocumentId),
) -> (r: crate::fulltext::TermIndex)
    requires
        forall|a: int, b: int|
            0 <= a < b < rows@.len() ==> (#[trigger] rows@[a].0) != (#[trigger] rows@[b].0),
    ensures
        r.entries@ == spec_tix_row(rows@, k),
{
    match tix_find(rows, k) {
        Some(i) => {
            proof {
                lemma_tix_row_at(rows@, i as int);
            }
            let src = &rows[i].1;
            let n = src.entries.len();
            let mut entries: Vec<crate::fulltext::TermPosition> = Vec::new();
            let mut j: usize = 0;
            while j < n
                invariant
                    j <= n,
                    n == src.entries@.len(),
                    entries@ == src.entries@.take(j as int),
                decreases n - j,
            {
                entries.push(src.entries[j]);
                assert(entries@ =~= src.entries@.take(j + 1));
                j = j + 1;
            }
            assert(entries@ =~= src.entries@);
            crate::fulltext::TermIndex { entries }
        },
        None => {
            proof {
                lemma_tix_row_absent(rows@, k);
            }
            crate::fulltext::TermIndex { entries: Vec::new() }
        },
    }
}

/// Read one document's blob links as a fresh copy.
pub fn link_rows_get(
    rows: &Vec<((AccountId, Collection, DocumentId), Vec<u64>)>,
    k: (AccountId, Collection, DocumentId),
) -> (r: Vec<u64>)
    requires
        forall|a: int, b: int|
            0 <= a < b < rows@.len() ==> (#[trigger] rows@[a].0) != (#[trigger] rows@[b].0),
    ensures
        r@ == spec_link_row(rows@, k),
{
    match link_find(rows, k) {
        Some(i) => {
            proof {
                lemma_link_row_at(rows@, i as int);
            }
            let src = &rows[i].1;
            let n = src.len();
            let mut out: Vec<u64> = Vec::new();
            let mut j: usize = 0;
            while j < n
                invariant
                    j <= n,
                    n == src@.len(),
                    out@ == src@.take(j as int),
                decreases n - j,
            {
                out.push(src[j]);
                assert(out@ =~= src@.take(j + 1));
                j = j + 1;
            }
            assert(out@ =~= src@);
            out
        },
        None => {
            proof {
                lemma_link_row_absent(rows@, k);
            }
            Vec::new()
        },
    }
}

/// Whether one index entry is present.
pub fn idx_rows_get(rows: &Vec<(IndexEntry, bool)>, k: IndexEntry) -> (r: bool)
    requires
        forall|a: int, b: int|
            0 <= a < b < rows@.len() ==> (#[trigger] rows@[a].0) != (#[trigger] rows@[b].0),
    ensures
        r == spec_idx_row(rows@, k),
{
    match idx_find(rows, k) {
        Some(i) => {
            proof {
                lemma_idx_row_at(rows@, i as int);
            }
            rows[i].1
        },
        None => {
            proof {
                lemma_idx_row_absent(rows@, k);
            }
            false
        },
    }
}

/// Copy a byte vector.
fn copy_byte_vec(v: &Vec<u8>) -> (r: Vec<u8>)
    ensures
        r@ == v@,
{
    let mut out: Vec<u8> = Vec::new();
    let n = v.len();
    let mut i: usize = 0;
    while i < n
        invariant
            i <= n,
            n == v@.len(),
            out@ == v@.take(i as int),
        decreases n - i,
    {
        out.push(v[i]);
        assert(out@ =~= v@.take(i + 1));
        i = i + 1;
    }
    assert(out@ =~= v@);
    out
}


/// The log entries strictly after `from`, all of them when `from` is the
/// none sentinel.
pub open spec fn spec_raft_after(log: Seq<(RaftId, Vec<u8>)>, from: RaftId) -> Seq<(RaftId, Vec<u8>)>
    decreases log.len(),
{
    if log.len() == 0 {
        Seq::<(RaftId, Vec<u8>)>::empty()
    } else {
        let head: Seq<(RaftId, Vec<u8>)> = if (from.term == u64::MAX && from.index == u64::MAX)
            || spec_raft_id_lt(from, log[0].0) {
            seq![log[0]]
        } else {
            Seq::<(RaftId, Vec<u8>)>::empty()
        };
        head + spec_raft_after(log.drop_first(), from)
    }
}

proof fn lemma_raft_after_snoc(log: Seq<(RaftId, Vec<u8>)>, from: RaftId)
    requires
        log.len() > 0,
    ensures
        spec_raft_after(log, from) == spec_raft_after(log.drop_last(), from) + (if (from.term
            == u64::MAX && from.index == u64::MAX) || spec_raft_id_lt(from, log.last().0) {
            seq![log.last()]
        } else {
            Seq::<(RaftId, Vec<u8>)>::empty()
        }),
    decreases log.len(),
{
    if log.len() == 1 {
        assert(log.drop_last() =~= Seq::<(RaftId, Vec<u8>)>::empty());
        assert(log.drop_first() =~= Seq::<(RaftId, Vec<u8>)>::empty());
        assert(spec_raft_after(log, from) =~= spec_raft_after(log.drop_last(), from) + (
        if (from.term == u64::MAX && from.index == u64::MAX) || spec_raft_id_lt(
            from,
            log.last().0,
        ) {
            seq![log.last()]
        } else {
            Seq::<(RaftId, Vec<u8>)>::empty()
        }));
    } else {
        lemma_raft_after_snoc(log.drop_first(), from);
        assert(log.drop_first().drop_last() =~= log.drop_last().drop_first());
        assert(log.drop_first().last() == log.last());
        assert(log.drop_last()[0] == log[0]);
        assert(spec_raft_after(log, from) =~= spec_raft_after(log.drop_last(), from) + (
        if (from.term == u64::MAX && from.index == u64::MAX) || spec_raft_id_lt(
            from,
            log.last().0,
        ) {
            seq![log.last()]
        } else {
            Seq::<(RaftId, Vec<u8>)>::empty()
        }));
    }
}

impl JMAPStore {
    /// Read up to `num_entries` log entries after `from_raft_id` (from the
    /// start when it is the none sentinel), each parsed from its payload.
    #[verifier::loop_isolation(false)]
    #[verifier::spinoff_prover]
    #[verifier::rlimit(100)]
    pub fn get_raft_entries(&self, from_raft_id: RaftId, num_entries: usize) -> (r: Result<
        Vec<Entry>,
        StoreError,
    >)
        requires
            self.wf(),
        ensures
            ({
                let sel = spec_raft_after(self.raft_log@, from_raft_id);
                match r {
                    Ok(v) => v@.len() == (if sel.len() <= num_entries {
                        sel.len() as int
                    } else {
                        num_entries as int
                    }) && (forall|i: int|
                        0 <= i < v@.len() ==> (#[trigger] v@[i]).raft_id == sel[i].0
                            && spec_parse_entry(sel[i].1@) == Some(
                            (v@[i].account_id, v@[i].changes@),
                        )),
                    Err(_) => false,
                }
            }),
    {
        let n = self.raft_log.len();
        let mut out: Vec<Entry> = Vec::new();
        let mut i: usize = 0;
        while i < n
            invariant
                i <= n,
                out@.len() <= num_entries,
                ({
                    let sel = spec_raft_after(self.raft_log@.take(i as int), from_raft_id);
                    &&& (out@.len() < num_entries ==> out@.len() == sel.len())
                    &&& out@.len() <= sel.len()
                    &&& (forall|j: int|
                        0 <= j < out@.len() ==> (#[trigger] out@[j]).raft_id == sel[j].0
                            && spec_parse_entry(sel[j].1@) == Some(
                            (out@[j].account_id, out@[j].changes@),
                        ))
                    &&& sel.is_prefix_of(spec_raft_after(self.raft_log@, from_raft_id))
                }),
            decreases n - i,
        {
            proof {
                lemma_raft_after_snoc(self.raft_log@.take(i + 1), from_raft_id);
                assert(self.raft_log@.take(i + 1).drop_last() =~= self.raft_log@.take(i as int));
                lemma_raft_after_prefix(self.raft_log@, from_raft_id, i + 1);
            }
            if out.len() >= num_entries {
                break ;
            }
            let (id, payload) = (&self.raft_log[i].0, &self.raft_log[i].1);
            let keep = (from_raft_id.term == u64::MAX && from_raft_id.index == u64::MAX)
                || raft_id_lt(from_raft_id, *id);
            if keep {
                let entry = match Entry::deserialize(payload.as_slice(), *id) {
                    Some(e) => e,
                    None => {
                        // Well-formed stores always parse.
                        proof {
                            assert(false);
                        }
                        return Err(
                            StoreError::InternalError(
                                String::from_str("corrupted raft entry"),
                            ),
                        );
                    },
                };
                out.push(entry);
            }
            i = i + 1;
        }
        proof {
            assert(self.raft_log@.take(n as int) =~= self.raft_log@);
            if i < n {
                // Stopped early with a full page: the selection only grows.
                assert(out@.len() == num_entries);
            }
        }
        Ok(out)
    }

    /// Append replicated entries to the log, in order, each serialized
    /// under its id's key; the node's term and index counters move past
    /// the last entry, as a follower adopting a leader's log does.
    #[verifier::loop_isolation(false)]
    #[verifier::spinoff_prover]
    #[verifier::rlimit(100)]
    pub fn insert_raft_entries(&mut self, entries: &Vec<Entry>) -> (r: Result<(), StoreError>)
        requires
            old(self).wf(),
            forall|i: int, j: int|
                0 <= i < j < entries@.len() ==> spec_raft_id_lt(
                    (#[trigger] entries@[i]).raft_id,
                    (#[trigger] entries@[j]).raft_id,
                ),
            forall|i: int, j: int|
                0 <= i < old(self).raft_log@.len() && 0 <= j < entries@.len() ==> spec_raft_id_lt(
                    (#[trigger] old(self).raft_log@[i]).0,
                    (#[trigger] entries@[j]).raft_id,
                ),
            forall|j: int|
                0 <= j < entries@.len() ==> !((#[trigger] entries@[j]).raft_id.term == u64::MAX
                    && entries@[j].raft_id.index == u64::MAX),
            forall|j: int| 0 <= j < entries@.len() ==> (#[trigger] entries@[j]).raft_id.index < u64::MAX,
        ensures
            r is Ok,
            final(self).wf(),
            final(self).raft_log@.len() == old(self).raft_log@.len() + entries@.len(),
            final(self).raft_log@.subrange(0, old(self).raft_log@.len() as int) == old(self).raft_log@,
            forall|j: int|
                0 <= j < entries@.len() ==> (#[trigger] final(self).raft_log@[old(self).raft_log@.len() + j]).0 == entries@[j].raft_id && spec_parse_entry(
                    final(self).raft_log@[old(self).raft_log@.len() + j].1@,
                ) == Some((entries@[j].account_id, entries@[j].changes@)),
            final(self).change_log == old(self).change_log,
            final(self).change_counters == old(self).change_counters,
            final(self).bitmaps == old(self).bitmaps,
            final(self).values == old(self).values,
            final(self).indexes == old(self).indexes,
            final(self).blobs == old(self).blobs,
            final(self).blob_refs == old(self).blob_refs,
            final(self).term_indexes == old(self).term_indexes,
            final(self).blob_links == old(self).blob_links,
    {
        let n = entries.len();
        let mut i: usize = 0;
        while i < n
            invariant
                i <= n,
                n == entries@.len(),
                self.raft_log@.len() == old(self).raft_log@.len() + i,
                self.raft_log@.subrange(0, old(self).raft_log@.len() as int) == old(self).raft_log@,
                forall|j: int|
                    0 <= j < i ==> (#[trigger] self.raft_log@[old(self).raft_log@.len() + j]).0
                        == entries@[j].raft_id && spec_parse_entry(
                        self.raft_log@[old(self).raft_log@.len() + j].1@,
                    ) == Some((entries@[j].account_id, entries@[j].changes@)),
                forall|a: int, b: int|
                    0 <= a < b < self.raft_log@.len() ==> spec_raft_id_lt(
                        self.raft_log@[a].0,
                        self.raft_log@[b].0,
                    ),
                forall|a: int|
                    0 <= a < self.raft_log@.len() ==> spec_parse_entry(
                        #[trigger] self.raft_log@[a].1@,
                    ) is Some,
                forall|a: int|
                    0 <= a < self.raft_log@.len() ==> spec_raft_id_lt(
                        #[trigger] self.raft_log@[a].0,
                        RaftId { term: self.raft_term, index: self.raft_index },
                    ),
                i > 0 ==> self.raft_term == entries@[i - 1].raft_id.term && self.raft_index
                    == entries@[i - 1].raft_id.index + 1,
                i == 0 ==> self.raft_term == old(self).raft_term && self.raft_index == old(self).raft_index,
                self.change_log == old(self).change_log,
                self.change_counters == old(self).change_counters,
                self.bitmaps == old(self).bitmaps,
                self.values == old(self).values,
                self.indexes == old(self).indexes,
                self.blobs == old(self).blobs,
                self.blob_refs == old(self).blob_refs,
                self.term_indexes == old(self).term_indexes,
                self.blob_links == old(self).blob_links,
            decreases n - i,
        {
            let e = &entries[i];
            let _changes_len = e.changes.len();
            let bytes = e.serialize();
            proof {
                crate::raftlog::lemma_entry_round_trip(e.account_id, e.changes@);
            }
            let ghost before = self.raft_log@;
            let ghost len0 = old(self).raft_log@.len() as int;
            self.raft_log.push((e.raft_id, bytes));
            // Track the adopted position, as a follower's counters do.
            self.raft_term = e.raft_id.term;
            self.raft_index = e.raft_id.index + 1;
            proof {
                assert(self.raft_log@.subrange(0, old(self).raft_log@.len() as int)
                    =~= before.subrange(0, old(self).raft_log@.len() as int));
                assert forall|a: int, b: int|
                    0 <= a < b < self.raft_log@.len() implies spec_raft_id_lt(
                    self.raft_log@[a].0,
                    self.raft_log@[b].0,
                ) by {
                    if b == self.raft_log@.len() - 1 {
                        assert(self.raft_log@[b].0 == entries@[i as int].raft_id);
                        if a >= len0 {
                            assert(self.raft_log@[a] == before[a]);
                            let j = a - len0;
                            assert(before[len0 + j].0 == entries@[j].raft_id);
                        } else {
                            assert(self.raft_log@[a] == old(self).raft_log@[a]);
                        }
                    }
                }
                assert forall|a: int|
                    0 <= a < self.raft_log@.len() implies spec_raft_id_lt(
                    #[trigger] self.raft_log@[a].0,
                    RaftId { term: self.raft_term, index: self.raft_index },
                ) by {
                    if a == self.raft_log@.len() - 1 {
                        assert(self.raft_log@[a].0 == entries@[i as int].raft_id);
                    } else if a >= len0 {
                        assert(self.raft_log@[a] == before[a]);
                        let j = a - len0;
                        assert(before[len0 + j].0 == entries@[j].raft_id);
                        assert(spec_raft_id_lt(entries@[j].raft_id, entries@[i as int].raft_id));
                    } else {
                        assert(self.raft_log@[a] == old(self).raft_log@[a]);
                        assert(spec_raft_id_lt(
                            old(self).raft_log@[a].0,
                            entries@[i as int].raft_id,
                        ));
                    }
                }
            }
            i = i + 1;
        }
        proof {
            if n == 0 {
                assert(self.raft_log@.subrange(0, old(self).raft_log@.len() as int) =~= old(self).raft_log@);
            }
        }
        Ok(())
    }
}

/// A prefix's selection is a prefix of the whole log's selection.
proof fn lemma_raft_after_prefix(log: Seq<(RaftId, Vec<u8>)>, from: RaftId, k: int)
    requires
        0 <= k <= log.len(),
    ensures
        spec_raft_after(log.take(k), from).is_prefix_of(spec_raft_after(log, from)),
    decreases log.len() - k,
{
    if k < log.len() {
        lemma_raft_after_prefix(log, from, k + 1);
        lemma_raft_after_snoc(log.take(k + 1), from);
        assert(log.take(k + 1).drop_last() =~= log.take(k));
        assert(log.take(log.len() as int) =~= log);
    } else {
        assert(log.take(k) =~= log);
    }
}


impl JMAPStore {
    /// Allocate the smallest free document id of a collection: the least
    /// id outside the live set, the used ids with the tombstoned ids
    /// taken out.  `None` only when every 32-bit id is live.
    #[verifier::loop_isolation(false)]
    pub fn assign_document_id(&self, account_id: AccountId, collection: Collection) -> (r: Option<
        DocumentId,
    >)
        requires
            self.wf(),
        ensures
            ({
                let live = spec_bm_row(
                    self.bitmaps@,
                    BitmapKey { account_id, collection, kind: BitmapKind::Used },
                ).difference(
                    spec_bm_row(
                        self.bitmaps@,
                        BitmapKey { account_id, collection, kind: BitmapKind::Tombstoned },
                    ),
                );
                match r {
                    Some(d) => !live.contains(d) && (forall|k: u32| k < d ==> live.contains(k)),
                    None => forall|k: u32| live.contains(k),
                }
            }),
    {
        let mut live = bm_rows_get(
            &self.bitmaps,
            BitmapKey { account_id, collection, kind: BitmapKind::Used },
        );
        let tomb = bm_rows_get(
            &self.bitmaps,
            BitmapKey { account_id, collection, kind: BitmapKind::Tombstoned },
        );
        crate::bitmap::bm_difference_with(&mut live, &tomb);
        let mut d: u32 = 0;
        let mut d_live = crate::bitmap::bm_contains(&live, d);
        while d < u32::MAX && d_live
            invariant
                d_live == bitmap::bm(live).contains(d),
                forall|k: u32| k < d ==> bitmap::bm(live).contains(k),
            decreases u32::MAX - d,
        {
            d = d + 1;
            d_live = crate::bitmap::bm_contains(&live, d);
        }
        if d_live {
            proof {
                assert forall|k: u32| bitmap::bm(live).contains(k) by {
                    if k < d {
                    } else {
                        assert(d == u32::MAX);
                        assert(k == u32::MAX || k < d);
                    }
                }
            }
            None
        } else {
            Some(d)
        }
    }
}

} // verus!
