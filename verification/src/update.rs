//! The write pipeline: one batch of document inserts, updates and deletes
//! applied atomically, feeding the bitmaps, stored values, indexes, blob
//! refcounts, the change log and the Raft log.

use vstd::prelude::*;

use crate::bitmap;
use crate::changelog;
use crate::fulltext;
use crate::raftlog;
use crate::store::{JMAPStore, StoreError, ChangeRecord, BitmapKey, BitmapKind, ValueKey, ValueKind, IndexEntry, bm_rows_apply, bm_rows_get, val_rows_set, idx_rows_set, refc_rows_set, blob_rows_set, spec_bm_row, spec_val_row, spec_idx_row, spec_ref_row, spec_blob_row, spec_opt_bytes, spec_change_log_sorted, spec_ctr_row, spec_tix_row, spec_link_row, ctr_rows_set, tix_rows_set, link_rows_set};
use crate::types::{AccountId, ChangeId, Collection, DocumentId};

verus! {

use crate::changelog::{ChangeLists, LogAction};
use crate::raftlog::{RaftId, Change, Entry, spec_raft_id_lt};
use vstd::string::{StringExecFns, StrSliceExecFns};

/// Storage and indexing options of one field write.
#[derive(Debug, Clone, Copy, PartialEq, Eq, Structural)]
pub enum FieldOptions {
    Plain,
    Store,
    Sort,
    StoreAndSort,
    StoreAsBlob(u8),
    Clear,
}

/// Text shapes: keywords index one bitmap; tokenized text indexes one
/// bitmap per token; full text also stems tokens and records positions.
#[derive(Debug, Clone, PartialEq, Eq)]
pub enum TextValue {
    Keyword(String),
    Tokenized(String),
    Full(String),
}

/// One field operation of a document write.
#[derive(Debug, Clone, PartialEq, Eq)]
pub enum UpdateField {
    Text { field: u8, options: FieldOptions, value: TextValue },
    Tag { field: u8, value: u64, clear: bool },
    Binary { field: u8, options: FieldOptions, value: Vec<u8> },
    Integer { field: u8, options: FieldOptions, value: u32 },
    LongInteger { field: u8, options: FieldOptions, value: u64 },
}

#[derive(Debug, Clone, Copy, PartialEq, Eq, Structural)]
pub enum WriteAction {
    Insert(DocumentId),
    Update(DocumentId),
    Delete(DocumentId),
}

/// One document's part of a write batch, with an optional change-log
/// action on its collection.
#[derive(Debug, Clone, PartialEq, Eq)]
pub struct DocumentBatch {
    pub collection: Collection,
    pub action: Option<WriteAction>,
    pub fields: Vec<UpdateField>,
    pub log_action: Option<LogAction>,
}

/// A write batch: everything one request changes in one account.
#[derive(Debug, Clone, PartialEq, Eq)]
pub struct WriteBatch {
    pub account_id: AccountId,
    pub batches: Vec<DocumentBatch>,
}

impl WriteBatch {
    pub fn new(account_id: AccountId) -> (r: Self)
        ensures
            r.account_id == account_id,
            r.batches@ =~= Seq::<DocumentBatch>::empty(),
    {
        WriteBatch { account_id, batches: Vec::new() }
    }

    /// Log one action against a collection without touching documents.
    pub fn log_action(&mut self, collection: Collection, action: LogAction)
        ensures
            final(self).account_id == old(self).account_id,
            final(self).batches@ == old(self).batches@.push(
                DocumentBatch {
                    collection,
                    action: Option::None,
                    fields: final(self).batches@.last().fields,
                    log_action: Some(action),
                },
            ),
            final(self).batches@.last().fields@ == Seq::<UpdateField>::empty(),
    {
        self.batches.push(
            DocumentBatch {
                collection,
                action: None,
                fields: Vec::new(),
                log_action: Some(action),
            },
        );
    }

    pub fn log_insert(&mut self, collection: Collection, id: u64)
        ensures
            final(self).account_id == old(self).account_id,
            final(self).batches@.len() == old(self).batches@.len() + 1,
            final(self).batches@.subrange(0, old(self).batches@.len() as int) == old(
                self,
            ).batches@,
            final(self).batches@.last().collection == collection,
            final(self).batches@.last().action is None,
            final(self).batches@.last().log_action == Some(LogAction::Insert(id)),
    {
        self.log_action(collection, LogAction::Insert(id));
        assert(self.batches@.subrange(0, old(self).batches@.len() as int) =~= old(self).batches@);
    }

    pub fn log_update(&mut self, collection: Collection, id: u64)
        ensures
            final(self).account_id == old(self).account_id,
            final(self).batches@.len() == old(self).batches@.len() + 1,
            final(self).batches@.subrange(0, old(self).batches@.len() as int) == old(
                self,
            ).batches@,
            final(self).batches@.last().collection == collection,
            final(self).batches@.last().action is None,
            final(self).batches@.last().log_action == Some(LogAction::Update(id)),
    {
        self.log_action(collection, LogAction::Update(id));
        assert(self.batches@.subrange(0, old(self).batches@.len() as int) =~= old(self).batches@);
    }

    pub fn log_delete(&mut self, collection: Collection, id: u64)
        ensures
            final(self).account_id == old(self).account_id,
            final(self).batches@.len() == old(self).batches@.len() + 1,
            final(self).batches@.subrange(0, old(self).batches@.len() as int) == old(
                self,
            ).batches@,
            final(self).batches@.last().collection == collection,
            final(self).batches@.last().action is None,
            final(self).batches@.last().log_action == Some(LogAction::Delete(id)),
    {
        self.log_action(collection, LogAction::Delete(id));
        assert(self.batches@.subrange(0, old(self).batches@.len() as int) =~= old(self).batches@);
    }

    pub fn log_child_update(&mut self, collection: Collection, id: u64)
        ensures
            final(self).account_id == old(self).account_id,
            final(self).batches@.len() == old(self).batches@.len() + 1,
            final(self).batches@.subrange(0, old(self).batches@.len() as int) == old(
                self,
            ).batches@,
            final(self).batches@.last().collection == collection,
            final(self).batches@.last().action is None,
            final(self).batches@.last().log_action == Some(LogAction::UpdateChild(id)),
    {
        self.log_action(collection, LogAction::UpdateChild(id));
        assert(self.batches@.subrange(0, old(self).batches@.len() as int) =~= old(self).batches@);
    }

    pub fn log_move(&mut self, collection: Collection, old_id: u64, new_id: u64)
        ensures
            final(self).account_id == old(self).account_id,
            final(self).batches@.len() == old(self).batches@.len() + 1,
            final(self).batches@.subrange(0, old(self).batches@.len() as int) == old(
                self,
            ).batches@,
            final(self).batches@.last().collection == collection,
            final(self).batches@.last().action is None,
            final(self).batches@.last().log_action == Some(LogAction::Move(old_id, new_id)),
    {
        self.log_action(collection, LogAction::Move(old_id, new_id));
        assert(self.batches@.subrange(0, old(self).batches@.len() as int) =~= old(self).batches@);
    }

    /// Write a document's fields together with a change-log action.
    pub fn document(
        &mut self,
        collection: Collection,
        action: WriteAction,
        fields: Vec<UpdateField>,
        log_action: Option<LogAction>,
    )
        ensures
            final(self).account_id == old(self).account_id,
            final(self).batches@.len() == old(self).batches@.len() + 1,
            final(self).batches@.subrange(0, old(self).batches@.len() as int) == old(
                self,
            ).batches@,
            final(self).batches@.last() == (DocumentBatch {
                collection,
                action: Some(action),
                fields: final(self).batches@.last().fields,
                log_action,
            }),
            final(self).batches@.last().fields@ == fields@,
    {
        self.batches.push(DocumentBatch { collection, action: Some(action), fields, log_action });
        assert(self.batches@.subrange(0, old(self).batches@.len() as int) =~= old(self).batches@);
    }
}

/// The log actions a batch sequence holds for one collection, in order.
pub open spec fn spec_actions_for(batches: Seq<DocumentBatch>, c: Collection) -> Seq<LogAction>
    decreases batches.len(),
{
    if batches.len() == 0 {
        Seq::<LogAction>::empty()
    } else {
        let head: Seq<LogAction> = if batches[0].collection == c {
            match batches[0].log_action {
                Option::Some(a) => seq![a],
                Option::None => Seq::<LogAction>::empty(),
            }
        } else {
            Seq::<LogAction>::empty()
        };
        head + spec_actions_for(batches.drop_first(), c)
    }
}

/// The four id lists the actions of one collection fold into.
pub open spec fn spec_lists_inserts(actions: Seq<LogAction>) -> Seq<u64>
    decreases actions.len(),
{
    if actions.len() == 0 {
        Seq::<u64>::empty()
    } else {
        spec_lists_inserts(actions.drop_last()) + changelog::spec_action_inserts(actions.last())
    }
}

pub open spec fn spec_lists_updates(actions: Seq<LogAction>) -> Seq<u64>
    decreases actions.len(),
{
    if actions.len() == 0 {
        Seq::<u64>::empty()
    } else {
        spec_lists_updates(actions.drop_last()) + changelog::spec_action_updates(actions.last())
    }
}

pub open spec fn spec_lists_child_updates(actions: Seq<LogAction>) -> Seq<u64>
    decreases actions.len(),
{
    if actions.len() == 0 {
        Seq::<u64>::empty()
    } else {
        spec_lists_child_updates(actions.drop_last()) + changelog::spec_action_child_updates(
            actions.last(),
        )
    }
}

pub open spec fn spec_lists_deletes(actions: Seq<LogAction>) -> Seq<u64>
    decreases actions.len(),
{
    if actions.len() == 0 {
        Seq::<u64>::empty()
    } else {
        spec_lists_deletes(actions.drop_last()) + changelog::spec_action_deletes(actions.last())
    }
}

/// Whether the actions of a collection log anything at all.
pub open spec fn spec_logs_collection(batches: Seq<DocumentBatch>, c: Collection) -> bool {
    spec_actions_for(batches, c).len() > 0
}

/// The fixed order in which collections are scanned for log entries.
pub open spec fn spec_collection_order() -> Seq<Collection> {
    seq![
        Collection::Principal,
        Collection::PushSubscription,
        Collection::Mail,
        Collection::Mailbox,
        Collection::Thread,
        Collection::Identity,
        Collection::EmailSubmission,
        Collection::VacationResponse,
    ]
}

/// Fold the actions of one collection into change lists, executable.
#[verifier::loop_isolation(false)]
fn collect_lists(batches: &Vec<DocumentBatch>, c: Collection) -> (r: ChangeLists)
    ensures
        r.inserts@ == spec_lists_inserts(spec_actions_for(batches@, c)),
        r.updates@ == spec_lists_updates(spec_actions_for(batches@, c)),
        r.child_updates@ == spec_lists_child_updates(spec_actions_for(batches@, c)),
        r.deletes@ == spec_lists_deletes(spec_actions_for(batches@, c)),
{
    let n = batches.len();
    let mut lists = ChangeLists::new();
    let mut i: usize = 0;
    while i < n
        invariant
            i <= n,
            lists.inserts@ == spec_lists_inserts(spec_actions_for(batches@.take(i as int), c)),
            lists.updates@ == spec_lists_updates(spec_actions_for(batches@.take(i as int), c)),
            lists.child_updates@ == spec_lists_child_updates(
                spec_actions_for(batches@.take(i as int), c),
            ),
            lists.deletes@ == spec_lists_deletes(spec_actions_for(batches@.take(i as int), c)),
        decreases n - i,
    {
        let b = &batches[i];
        proof {
            lemma_actions_for_snoc(batches@.take(i + 1), c);
            assert(batches@.take(i + 1).drop_last() =~= batches@.take(i as int));
        }
        if b.collection == c {
            match &b.log_action {
                Some(a) => {
                    lists.push_action(*a);
                    proof {
                        lemma_lists_snoc(spec_actions_for(batches@.take(i as int), c), *a);
                        assert(spec_actions_for(batches@.take(i as int), c).push(*a)
                            =~= spec_actions_for(batches@.take(i as int), c) + seq![*a]);
                    }
                },
                None => {
                    proof {
                        lemma_lists_empty_tail(spec_actions_for(batches@.take(i as int), c));
                    }
                },
            }
        } else {
            proof {
                lemma_lists_empty_tail(spec_actions_for(batches@.take(i as int), c));
            }
        }
        i = i + 1;
    }
    assert(batches@.take(n as int) =~= batches@);
    lists
}

/// Appending one batch appends its own actions (if of this collection).
proof fn lemma_actions_for_snoc(batches: Seq<DocumentBatch>, c: Collection)
    requires
        batches.len() > 0,
    ensures
        spec_actions_for(batches, c) == spec_actions_for(batches.drop_last(), c) + (
        if batches.last().collection == c {
            match batches.last().log_action {
                Option::Some(a) => seq![a],
                Option::None => Seq::<LogAction>::empty(),
            }
        } else {
            Seq::<LogAction>::empty()
        }),
    decreases batches.len(),
{
    if batches.len() == 1 {
        assert(batches.drop_last() =~= Seq::<DocumentBatch>::empty());
        assert(batches.drop_first() =~= Seq::<DocumentBatch>::empty());
        assert(spec_actions_for(batches, c) =~= spec_actions_for(batches.drop_last(), c) + (
        if batches.last().collection == c {
            match batches.last().log_action {
                Option::Some(a) => seq![a],
                Option::None => Seq::<LogAction>::empty(),
            }
        } else {
            Seq::<LogAction>::empty()
        }));
    } else {
        lemma_actions_for_snoc(batches.drop_first(), c);
        assert(batches.drop_first().drop_last() =~= batches.drop_last().drop_first());
        assert(batches.drop_first().last() == batches.last());
        assert(batches.drop_last()[0] == batches[0]);
        assert(spec_actions_for(batches, c) =~= spec_actions_for(batches.drop_last(), c) + (
        if batches.last().collection == c {
            match batches.last().log_action {
                Option::Some(a) => seq![a],
                Option::None => Seq::<LogAction>::empty(),
            }
        } else {
            Seq::<LogAction>::empty()
        }));
    }
}

proof fn lemma_lists_snoc(actions: Seq<LogAction>, a: LogAction)
    ensures
        spec_lists_inserts(actions.push(a)) == spec_lists_inserts(actions)
            + changelog::spec_action_inserts(a),
        spec_lists_updates(actions.push(a)) == spec_lists_updates(actions)
            + changelog::spec_action_updates(a),
        spec_lists_child_updates(actions.push(a)) == spec_lists_child_updates(actions)
            + changelog::spec_action_child_updates(a),
        spec_lists_deletes(actions.push(a)) == spec_lists_deletes(actions)
            + changelog::spec_action_deletes(a),
{
    assert(actions.push(a).drop_last() =~= actions);
    assert(actions.push(a).last() == a);
}

proof fn lemma_lists_empty_tail(actions: Seq<LogAction>)
    ensures
        spec_lists_inserts(actions + Seq::<LogAction>::empty()) == spec_lists_inserts(actions),
        spec_lists_updates(actions + Seq::<LogAction>::empty()) == spec_lists_updates(actions),
        spec_lists_child_updates(actions + Seq::<LogAction>::empty()) == spec_lists_child_updates(
            actions,
        ),
        spec_lists_deletes(actions + Seq::<LogAction>::empty()) == spec_lists_deletes(actions),
{
    assert(actions + Seq::<LogAction>::empty() =~= actions);
}


/// Documents the actions of one collection insert.
pub open spec fn spec_insert_docs(batches: Seq<DocumentBatch>, c: Collection) -> Set<u32> {
    Set::new(
        |d: u32|
            exists|i: int|
                0 <= i < batches.len() && (#[trigger] batches[i]).collection == c && batches[i].action
                    == Some(WriteAction::Insert(d)),
    )
}

/// Documents the actions of one collection delete.
pub open spec fn spec_delete_docs(batches: Seq<DocumentBatch>, c: Collection) -> Set<u32> {
    Set::new(
        |d: u32|
            exists|i: int|
                0 <= i < batches.len() && (#[trigger] batches[i]).collection == c && batches[i].action
                    == Some(WriteAction::Delete(d)),
    )
}

/// The change id a collection gets in this batch: one past its counter.
pub open spec fn spec_next_change_id(
    counters: Seq<((AccountId, Collection), ChangeId)>,
    account_id: AccountId,
    c: Collection,
) -> ChangeId {
    (spec_ctr_row(counters, (account_id, c)) + 1) as ChangeId
}

/// The `(collection, change id)` pairs a batch logs, in scan order.
pub open spec fn spec_new_log_meta(
    counters: Seq<((AccountId, Collection), ChangeId)>,
    account_id: AccountId,
    batches: Seq<DocumentBatch>,
    order: Seq<Collection>,
) -> Seq<(Collection, ChangeId)>
    decreases order.len(),
{
    if order.len() == 0 {
        Seq::<(Collection, ChangeId)>::empty()
    } else {
        let c = order[0];
        let acts = spec_actions_for(batches, c);
        let head: Seq<(Collection, ChangeId)> = if acts.len() > 0 {
            seq![(c, spec_next_change_id(counters, account_id, c))]
        } else {
            Seq::<(Collection, ChangeId)>::empty()
        };
        head + spec_new_log_meta(counters, account_id, batches, order.drop_first())
    }
}

/// The payload bytes of one collection's change lists.
pub open spec fn spec_record_payload(batches: Seq<DocumentBatch>, c: Collection) -> Seq<u8> {
    let acts = spec_actions_for(batches, c);
    changelog::spec_payload_bytes(
        spec_lists_inserts(acts),
        spec_lists_updates(acts),
        spec_lists_child_updates(acts),
        spec_lists_deletes(acts),
    )
}

/// The per-collection change summaries a batch adds to the Raft log.
pub open spec fn spec_new_raft_changes(
    counters: Seq<((AccountId, Collection), ChangeId)>,
    account_id: AccountId,
    batches: Seq<DocumentBatch>,
    order: Seq<Collection>,
) -> Seq<Change>
    decreases order.len(),
{
    if order.len() == 0 {
        Seq::<Change>::empty()
    } else {
        let c = order[0];
        let acts = spec_actions_for(batches, c);
        let head: Seq<Change> = if acts.len() > 0 {
            seq![
                Change {
                    change_id: spec_next_change_id(counters, account_id, c),
                    collection: c,
                },
            ]
        } else {
            Seq::<Change>::empty()
        };
        head + spec_new_raft_changes(counters, account_id, batches, order.drop_first())
    }
}

/// How a batch changes the appended change log: record fields equal the
/// scan-order metadata and each appended payload holds its collection's
/// lists.
pub open spec fn spec_records_match(
    appended: Seq<ChangeRecord>,
    counters: Seq<((AccountId, Collection), ChangeId)>,
    account_id: AccountId,
    batches: Seq<DocumentBatch>,
    order: Seq<Collection>,
) -> bool {
    let want = spec_new_log_meta(counters, account_id, batches, order);
    &&& appended.len() == want.len()
    &&& forall|i: int|
        0 <= i < appended.len() ==> (#[trigger] appended[i]).account_id == account_id
            && appended[i].collection == want[i].0 && appended[i].change_id == want[i].1
            && appended[i].payload@ == spec_record_payload(batches, want[i].0)
}


/// Saturating 64-bit signed addition, as the refcount merge applies it.
pub open spec fn spec_sat_add_i64(a: int, d: int) -> int {
    if a + d > i64::MAX {
        i64::MAX as int
    } else if a + d < i64::MIN {
        i64::MIN as int
    } else {
        a + d
    }
}

/// Merge a delta into one blob refcount row, saturating at the extremes.
pub fn refc_rows_merge(rows: &mut Vec<(u64, i64)>, h: u64, delta: i64)
    requires
        forall|a: int, b: int|
            0 <= a < b < old(rows)@.len() ==> (#[trigger] old(rows)@[a].0) != (
            #[trigger] old(rows)@[b].0),
    ensures
        forall|a: int, b: int|
            0 <= a < b < final(rows)@.len() ==> (#[trigger] final(rows)@[a].0) != (
            #[trigger] final(rows)@[b].0),
        forall|h2: u64|
            spec_ref_row(final(rows)@, h2) == (if h2 == h {
                spec_sat_add_i64(spec_ref_row(old(rows)@, h2), delta as int)
            } else {
                spec_ref_row(old(rows)@, h2)
            }),
{
    let cur: i64 = crate::store::refc_rows_get(rows, h);
    let newv: i64 = if delta >= 0 {
        if cur > i64::MAX - delta {
            i64::MAX
        } else {
            cur + delta
        }
    } else {
        if cur < i64::MIN - delta {
            i64::MIN
        } else {
            cur + delta
        }
    };
    refc_rows_set(rows, h, newv);
}

/// Copy a byte vector.
fn copy_bytes(v: &Vec<u8>) -> (r: Vec<u8>)
    ensures
        r@ == v@,
{
    let mut out: Vec<u8> = Vec::new();
    let n = v.len();
    let mut i: usize = 0;
    while i < n
        invariant
            i <= n,
            n == v@.len(),
            out@ == v@.take(i as int),
        decreases n - i,
    {
        out.push(v[i]);
        assert(out@ =~= v@.take(i + 1));
        i = i + 1;
    }
    assert(out@ =~= v@);
    out
}

/// Copy a hash list.
fn copy_hashes(v: &Vec<u64>) -> (r: Vec<u64>)
    ensures
        r@ == v@,
{
    let mut out: Vec<u64> = Vec::new();
    let n = v.len();
    let mut i: usize = 0;
    while i < n
        invariant
            i <= n,
            n == v@.len(),
            out@ == v@.take(i as int),
        decreases n - i,
    {
        out.push(v[i]);
        assert(out@ =~= v@.take(i + 1));
        i = i + 1;
    }
    assert(out@ =~= v@);
    out
}

/// The numeric sort key of text: its first eight bytes big-endian, zero
/// padded, so numeric order equals byte order on the prefix.
pub open spec fn spec_text_sort_key(bytes: Seq<u8>) -> u64 {
    (spec_byte_at(bytes, 0) * 0x100_0000_0000_0000 + spec_byte_at(bytes, 1) * 0x1_0000_0000_0000
        + spec_byte_at(bytes, 2) * 0x100_0000_0000 + spec_byte_at(bytes, 3) * 0x1_0000_0000
        + spec_byte_at(bytes, 4) * 0x100_0000 + spec_byte_at(bytes, 5) * 0x1_0000 + spec_byte_at(
        bytes,
        6,
    ) * 0x100 + spec_byte_at(bytes, 7)) as u64
}

pub open spec fn spec_byte_at(bytes: Seq<u8>, i: int) -> u64 {
    if i < bytes.len() {
        bytes[i] as u64
    } else {
        0
    }
}

pub fn text_sort_key(bytes: &Vec<u8>) -> (r: u64)
    ensures
        r == spec_text_sort_key(bytes@),
{
    let mut r: u64 = 0;
    let b0: u64 = if bytes.len() > 0 { bytes[0] as u64 } else { 0 };
    let b1: u64 = if bytes.len() > 1 { bytes[1] as u64 } else { 0 };
    let b2: u64 = if bytes.len() > 2 { bytes[2] as u64 } else { 0 };
    let b3: u64 = if bytes.len() > 3 { bytes[3] as u64 } else { 0 };
    let b4: u64 = if bytes.len() > 4 { bytes[4] as u64 } else { 0 };
    let b5: u64 = if bytes.len() > 5 { bytes[5] as u64 } else { 0 };
    let b6: u64 = if bytes.len() > 6 { bytes[6] as u64 } else { 0 };
    let b7: u64 = if bytes.len() > 7 { bytes[7] as u64 } else { 0 };
    b0 * 0x100_0000_0000_0000 + b1 * 0x1_0000_0000_0000 + b2 * 0x100_0000_0000 + b3 * 0x1_0000_0000
        + b4 * 0x100_0000 + b5 * 0x1_0000 + b6 * 0x100 + b7
}

impl JMAPStore {
    /// Whether the store's row tables keep their key uniqueness and
    /// finiteness; the parts of `wf` the field writer touches.
    pub open spec fn rows_wf(&self) -> bool {
        &&& forall|a: int, b: int|
            0 <= a < b < self.bitmaps@.len() ==> (#[trigger] self.bitmaps@[a].0) != (
            #[trigger] self.bitmaps@[b].0)
        &&& forall|i: int|
            0 <= i < self.bitmaps@.len() ==> bitmap::bm(#[trigger] self.bitmaps@[i].1).finite()
        &&& forall|a: int, b: int|
            0 <= a < b < self.values@.len() ==> (#[trigger] self.values@[a].0) != (
            #[trigger] self.values@[b].0)
        &&& forall|a: int, b: int|
            0 <= a < b < self.blob_refs@.len() ==> (#[trigger] self.blob_refs@[a].0) != (
            #[trigger] self.blob_refs@[b].0)
        &&& forall|a: int, b: int|
            0 <= a < b < self.indexes@.len() ==> (#[trigger] self.indexes@[a].0) != (
            #[trigger] self.indexes@[b].0)
        &&& forall|a: int, b: int|
            0 <= a < b < self.blobs@.len() ==> (#[trigger] self.blobs@[a].0) != (
            #[trigger] self.blobs@[b].0)
        &&& forall|a: int, b: int|
            0 <= a < b < self.term_indexes@.len() ==> (#[trigger] self.term_indexes@[a].0) != (
            #[trigger] self.term_indexes@[b].0)
        &&& forall|a: int, b: int|
            0 <= a < b < self.blob_links@.len() ==> (#[trigger] self.blob_links@[a].0) != (
            #[trigger] self.blob_links@[b].0)
    }

    /// Apply one document's field operations: term, tag and text bitmaps,
    /// stored values, index entries, the positional term index and blobs.
    /// The logs, counters and the id bitmaps stay untouched.
    #[verifier::loop_isolation(false)]
    pub fn apply_document(
        &mut self,
        account_id: AccountId,
        collection: Collection,
        document_id: DocumentId,
        fields: &Vec<UpdateField>,
    )
        requires
            old(self).rows_wf(),
        ensures
            final(self).rows_wf(),
            final(self).change_log == old(self).change_log,
            final(self).raft_log == old(self).raft_log,
            final(self).change_counters == old(self).change_counters,
            final(self).raft_term == old(self).raft_term,
            final(self).raft_index == old(self).raft_index,
            forall|k: BitmapKey|
                (k.kind == BitmapKind::Used || k.kind == BitmapKind::Tombstoned) ==> spec_bm_row(
                    final(self).bitmaps@,
                    k,
                ) == spec_bm_row(old(self).bitmaps@, k),
            forall|f: u8|
                spec_val_row(
                    final(self).values@,
                    ValueKey { account_id, collection, document_id, kind: ValueKind::Field(f) },
                ) == spec_stored_after(
                    spec_val_row(
                        old(self).values@,
                        ValueKey {
                            account_id,
                            collection,
                            document_id,
                            kind: ValueKind::Field(f),
                        },
                    ),
                    fields@,
                    f,
                ),
            forall|f: u8, v: u64|
                spec_bm_row(
                    final(self).bitmaps@,
                    BitmapKey { account_id, collection, kind: BitmapKind::Tag { field: f, value: v } },
                ) == spec_tag_row_after(
                    spec_bm_row(
                        old(self).bitmaps@,
                        BitmapKey {
                            account_id,
                            collection,
                            kind: BitmapKind::Tag { field: f, value: v },
                        },
                    ),
                    fields@,
                    f,
                    v,
                    document_id,
                ),
    {
        let n = fields.len();
        proof {
            assert(fields@.take(0) =~= Seq::<UpdateField>::empty());
        }
        let mut term_index = fulltext::TermIndex::new();
        let mut blob_fields: Vec<(u8, Vec<u8>)> = Vec::new();
        let mut position: u32 = 0;
        let mut i: usize = 0;
        while i < n
            invariant
                i <= n,
                self.rows_wf(),
                self.change_log == old(self).change_log,
                self.raft_log == old(self).raft_log,
                self.change_counters == old(self).change_counters,
                self.raft_term == old(self).raft_term,
                self.raft_index == old(self).raft_index,
                forall|k: BitmapKey|
                    (k.kind == BitmapKind::Used || k.kind == BitmapKind::Tombstoned)
                        ==> spec_bm_row(self.bitmaps@, k) == spec_bm_row(old(self).bitmaps@, k),
                n == fields@.len(),
                forall|f: u8|
                    spec_val_row(
                        self.values@,
                        ValueKey { account_id, collection, document_id, kind: ValueKind::Field(f) },
                    ) == spec_stored_after(
                        spec_val_row(
                            old(self).values@,
                            ValueKey {
                                account_id,
                                collection,
                                document_id,
                                kind: ValueKind::Field(f),
                            },
                        ),
                        fields@.take(i as int),
                        f,
                    ),
                forall|f: u8, v: u64|
                    spec_bm_row(
                        self.bitmaps@,
                        BitmapKey {
                            account_id,
                            collection,
                            kind: BitmapKind::Tag { field: f, value: v },
                        },
                    ) == spec_tag_row_after(
                        spec_bm_row(
                            old(self).bitmaps@,
                            BitmapKey {
                                account_id,
                                collection,
                                kind: BitmapKind::Tag { field: f, value: v },
                            },
                        ),
                        fields@.take(i as int),
                        f,
                        v,
                        document_id,
                    ),
            decreases n - i,
        {
            let ghost field_pre = *self;
            proof {
                assert(fields@.take(i + 1).drop_last() =~= fields@.take(i as int));
                assert(fields@.take(i + 1).last() == fields@[i as int]);
            }
            match &fields[i] {
                UpdateField::Text { field, options, value } => {
                    let f = *field;
                    let (is_stored, is_sorted, is_clear, blob_index) = match options {
                        FieldOptions::Plain => (false, false, false, None),
                        FieldOptions::Store => (true, false, false, None),
                        FieldOptions::Sort => (false, true, false, None),
                        FieldOptions::StoreAndSort => (true, true, false, None),
                        FieldOptions::StoreAsBlob(bi) => (false, false, false, Some(*bi)),
                        FieldOptions::Clear => (false, false, true, None),
                    };
                    let text_bytes: Vec<u8> = match value {
                        TextValue::Keyword(s) => {
                            let word = s.as_bytes_vec();
                            let h = fulltext::term_hash(&word);
                            bm_rows_apply(
                                &mut self.bitmaps,
                                BitmapKey {
                                    account_id,
                                    collection,
                                    kind: BitmapKind::TermExact { field: f, hash: h },
                                },
                                document_id,
                                !is_clear,
                            );
                            word
                        },
                        TextValue::Tokenized(s) => {
                            let tokens = fulltext::tokenize(s.as_str());
                            let tn = tokens.len();
                            let mut t: usize = 0;
                            while t < tn
                                invariant
                                    t <= tn,
                                    self.rows_wf(),
                                    self.change_log == old(self).change_log,
                                    self.raft_log == old(self).raft_log,
                                    self.change_counters == old(self).change_counters,
                                    self.raft_term == old(self).raft_term,
                                    self.raft_index == old(self).raft_index,
                                    forall|k: BitmapKey|
                                        (k.kind == BitmapKind::Used || k.kind
                                            == BitmapKind::Tombstoned) ==> spec_bm_row(
                                            self.bitmaps@,
                                            k,
                                        ) == spec_bm_row(old(self).bitmaps@, k),
                                    self.values == field_pre.values,
                                    forall|k: BitmapKey|
                                        (k.kind matches BitmapKind::Tag { .. }) ==> spec_bm_row(
                                            self.bitmaps@,
                                            k,
                                        ) == spec_bm_row(field_pre.bitmaps@, k),
                                decreases tn - t,
                            {
                                let h = fulltext::term_hash(&tokens[t]);
                                bm_rows_apply(
                                    &mut self.bitmaps,
                                    BitmapKey {
                                        account_id,
                                        collection,
                                        kind: BitmapKind::TermExact { field: f, hash: h },
                                    },
                                    document_id,
                                    !is_clear,
                                );
                                t = t + 1;
                            }
                            s.as_bytes_vec()
                        },
                        TextValue::Full(s) => {
                            let tokens = fulltext::tokenize(s.as_str());
                            let tn = tokens.len();
                            let mut t: usize = 0;
                            while t < tn
                                invariant
                                    t <= tn,
                                    self.rows_wf(),
                                    self.change_log == old(self).change_log,
                                    self.raft_log == old(self).raft_log,
                                    self.change_counters == old(self).change_counters,
                                    self.raft_term == old(self).raft_term,
                                    self.raft_index == old(self).raft_index,
                                    forall|k: BitmapKey|
                                        (k.kind == BitmapKind::Used || k.kind
                                            == BitmapKind::Tombstoned) ==> spec_bm_row(
                                            self.bitmaps@,
                                            k,
                                        ) == spec_bm_row(old(self).bitmaps@, k),
                                    self.values == field_pre.values,
                                    forall|k: BitmapKey|
                                        (k.kind matches BitmapKind::Tag { .. }) ==> spec_bm_row(
                                            self.bitmaps@,
                                            k,
                                        ) == spec_bm_row(field_pre.bitmaps@, k),
                                decreases tn - t,
                            {
                                let h = fulltext::term_hash(&tokens[t]);
                                bm_rows_apply(
                                    &mut self.bitmaps,
                                    BitmapKey {
                                        account_id,
                                        collection,
                                        kind: BitmapKind::TermExact { field: f, hash: h },
                                    },
                                    document_id,
                                    !is_clear,
                                );
                                let stemmed = fulltext::stem(&tokens[t]);
                                let hs = fulltext::term_hash(&stemmed);
                                if hs != h {
                                    bm_rows_apply(
                                        &mut self.bitmaps,
                                        BitmapKey {
                                            account_id,
                                            collection,
                                            kind: BitmapKind::TermStemmed { field: f, hash: hs },
                                        },
                                        document_id,
                                        !is_clear,
                                    );
                                }
                                if !is_clear && position < u32::MAX {
                                    term_index.push(f, h, position);
                                    position = position + 1;
                                }
                                t = t + 1;
                            }
                            s.as_bytes_vec()
                        },
                    };
                    match blob_index {
                        Some(bi) => {
                            blob_fields.push((bi, text_bytes));
                        },
                        None => {
                            if !is_clear {
                                let key = text_sort_key(&text_bytes);
                                if is_sorted {
                                    idx_rows_set(
                                        &mut self.indexes,
                                        IndexEntry {
                                            account_id,
                                            collection,
                                            field: f,
                                            value: key,
                                            document_id,
                                        },
                                        true,
                                    );
                                }
                                if is_stored {
                                    val_rows_set(
                                        &mut self.values,
                                        ValueKey {
                                            account_id,
                                            collection,
                                            document_id,
                                            kind: ValueKind::Field(f),
                                        },
                                        Some(text_bytes),
                                    );
                                }
                            } else {
                                let key = text_sort_key(&text_bytes);
                                val_rows_set(
                                    &mut self.values,
                                    ValueKey {
                                        account_id,
                                        collection,
                                        document_id,
                                        kind: ValueKind::Field(f),
                                    },
                                    None,
                                );
                                idx_rows_set(
                                    &mut self.indexes,
                                    IndexEntry {
                                        account_id,
                                        collection,
                                        field: f,
                                        value: key,
                                        document_id,
                                    },
                                    false,
                                );
                            }
                        },
                    }
                },
                UpdateField::Tag { field, value, clear } => {
                    bm_rows_apply(
                        &mut self.bitmaps,
                        BitmapKey {
                            account_id,
                            collection,
                            kind: BitmapKind::Tag { field: *field, value: *value },
                        },
                        document_id,
                        !*clear,
                    );
                },
                UpdateField::Binary { field, options, value } => {
                    match options {
                        FieldOptions::StoreAsBlob(bi) => {
                            blob_fields.push((*bi, copy_bytes(value)));
                        },
                        _ => {
                            val_rows_set(
                                &mut self.values,
                                ValueKey {
                                    account_id,
                                    collection,
                                    document_id,
                                    kind: ValueKind::Field(*field),
                                },
                                Some(copy_bytes(value)),
                            );
                        },
                    }
                },
                UpdateField::Integer { field, options, value } => {
                    self.apply_numeric(account_id, collection, document_id, *field, *options, *value as u64);
                },
                UpdateField::LongInteger { field, options, value } => {
                    self.apply_numeric(account_id, collection, document_id, *field, *options, *value);
                },
            }
            proof {
                assert forall|f: u8|
                    spec_val_row(
                        self.values@,
                        ValueKey { account_id, collection, document_id, kind: ValueKind::Field(f) },
                    ) == spec_stored_after(
                        spec_val_row(
                            old(self).values@,
                            ValueKey {
                                account_id,
                                collection,
                                document_id,
                                kind: ValueKind::Field(f),
                            },
                        ),
                        fields@.take(i + 1),
                        f,
                    ) by {
                    assert(spec_stored_after(
                        spec_val_row(
                            old(self).values@,
                            ValueKey {
                                account_id,
                                collection,
                                document_id,
                                kind: ValueKind::Field(f),
                            },
                        ),
                        fields@.take(i + 1),
                        f,
                    ) == spec_field_store_step(
                        spec_stored_after(
                            spec_val_row(
                                old(self).values@,
                                ValueKey {
                                    account_id,
                                    collection,
                                    document_id,
                                    kind: ValueKind::Field(f),
                                },
                            ),
                            fields@.take(i as int),
                            f,
                        ),
                        fields@[i as int],
                        f,
                    ));
                }
                assert forall|f: u8, v: u64|
                    spec_bm_row(
                        self.bitmaps@,
                        BitmapKey {
                            account_id,
                            collection,
                            kind: BitmapKind::Tag { field: f, value: v },
                        },
                    ) == spec_tag_row_after(
                        spec_bm_row(
                            old(self).bitmaps@,
                            BitmapKey {
                                account_id,
                                collection,
                                kind: BitmapKind::Tag { field: f, value: v },
                            },
                        ),
                        fields@.take(i + 1),
                        f,
                        v,
                        document_id,
                    ) by {
                    let key2 = BitmapKey {
                        account_id,
                        collection,
                        kind: BitmapKind::Tag { field: f, value: v },
                    };
                    assert(spec_tag_row_after(
                        spec_bm_row(old(self).bitmaps@, key2),
                        fields@.take(i + 1),
                        f,
                        v,
                        document_id,
                    ) == spec_field_tag_step(
                        spec_tag_row_after(
                            spec_bm_row(old(self).bitmaps@, key2),
                            fields@.take(i as int),
                            f,
                            v,
                            document_id,
                        ),
                        fields@[i as int],
                        f,
                        v,
                        document_id,
                    ));
                    match fields@[i as int] {
                        UpdateField::Tag { field: g, value: tv, clear } => {
                            if g == f && tv == v {
                                assert(spec_bm_row(self.bitmaps@, key2) == (if !clear {
                                    spec_bm_row(field_pre.bitmaps@, key2).insert(document_id)
                                } else {
                                    spec_bm_row(field_pre.bitmaps@, key2).remove(document_id)
                                }));
                            } else {
                                assert(spec_bm_row(self.bitmaps@, key2) == spec_bm_row(
                                    field_pre.bitmaps@,
                                    key2,
                                ));
                            }
                        },
                        _ => {
                            assert(spec_bm_row(self.bitmaps@, key2) == spec_bm_row(
                                field_pre.bitmaps@,
                                key2,
                            ));
                        },
                    }
                }
            }
            i = i + 1;
        }

        proof {
            assert(fields@.take(n as int) =~= fields@);
        }

        // Store the positional term index.
        if !term_index.is_empty() {
            tix_rows_set(
                &mut self.term_indexes,
                (account_id, collection, document_id),
                term_index,
            );
        }

        // Store blobs ordered by blob index, bump refcounts and record the
        // document's links.
        if blob_fields.len() > 0 {
            let mut hashes: Vec<u64> = Vec::new();
            let mut contents: Vec<Vec<u8>> = Vec::new();
            let mut bi: u32 = 0;
            while bi <= 255
                invariant
                    contents@.len() == hashes@.len(),
                    forall|a: int|
                        0 <= a < hashes@.len() ==> hashes@[a] == crate::fulltext::spec_term_hash(
                            (#[trigger] contents@[a])@,
                        ),
                decreases 256 - bi,
            {
                let m = blob_fields.len();
                let mut j: usize = 0;
                while j < m
                    invariant
                        j <= m,
                        m == blob_fields@.len(),
                        contents@.len() == hashes@.len(),
                        forall|a: int|
                            0 <= a < hashes@.len() ==> hashes@[a]
                                == crate::fulltext::spec_term_hash((#[trigger] contents@[a])@),
                    decreases m - j,
                {
                    if blob_fields[j].0 as u32 == bi {
                        let content = copy_bytes(&blob_fields[j].1);
                        let h = fulltext::term_hash(&content);
                        hashes.push(h);
                        contents.push(content);
                    }
                    j = j + 1;
                }
                bi = bi + 1;
            }
            store_references(&mut self.blob_refs, &mut self.blobs, &hashes, &contents);
            link_rows_set(&mut self.blob_links, (account_id, collection, document_id), hashes);
        }
    }

    /// Store, index or clear one numeric field.
    fn apply_numeric(
        &mut self,
        account_id: AccountId,
        collection: Collection,
        document_id: DocumentId,
        field: u8,
        options: FieldOptions,
        value: u64,
    )
        requires
            old(self).rows_wf(),
        ensures
            final(self).rows_wf(),
            final(self).change_log == old(self).change_log,
            final(self).raft_log == old(self).raft_log,
            final(self).change_counters == old(self).change_counters,
            final(self).raft_term == old(self).raft_term,
            final(self).raft_index == old(self).raft_index,
            final(self).bitmaps == old(self).bitmaps,
            forall|k2: ValueKey|
                spec_val_row(final(self).values@, k2) == (if k2 == (ValueKey {
                    account_id,
                    collection,
                    document_id,
                    kind: ValueKind::Field(field),
                }) {
                    match options {
                        FieldOptions::Store | FieldOptions::StoreAndSort => Some(
                            crate::serialize::spec_be_u64(value),
                        ),
                        FieldOptions::Clear => Option::<Seq<u8>>::None,
                        _ => spec_val_row(old(self).values@, k2),
                    }
                } else {
                    spec_val_row(old(self).values@, k2)
                }),
    {
        let (is_stored, is_sorted, is_clear) = match options {
            FieldOptions::Plain => (false, false, false),
            FieldOptions::Store => (true, false, false),
            FieldOptions::Sort => (false, true, false),
            FieldOptions::StoreAndSort => (true, true, false),
            FieldOptions::StoreAsBlob(_) => (false, false, false),
            FieldOptions::Clear => (false, false, true),
        };
        if !is_clear {
            if is_stored {
                let mut bytes: Vec<u8> = Vec::new();
                crate::serialize::write_be_u64(&mut bytes, value);
                val_rows_set(
                    &mut self.values,
                    ValueKey { account_id, collection, document_id, kind: ValueKind::Field(field) },
                    Some(bytes),
                );
            }
            if is_sorted {
                idx_rows_set(
                    &mut self.indexes,
                    IndexEntry { account_id, collection, field, value, document_id },
                    true,
                );
            }
        } else {
            val_rows_set(
                &mut self.values,
                ValueKey { account_id, collection, document_id, kind: ValueKind::Field(field) },
                None,
            );
            idx_rows_set(
                &mut self.indexes,
                IndexEntry { account_id, collection, field, value, document_id },
                false,
            );
        }
    }
}



/// What one field operation leaves stored under field `f` of the touched
/// document: a storing text, binary or numeric write replaces the row, a
/// clear empties it, anything else leaves it.
pub open spec fn spec_field_store_step(
    cur: Option<Seq<u8>>,
    field: UpdateField,
    f: u8,
) -> Option<Seq<u8>> {
    match field {
        UpdateField::Text { field: g, options, value } => if g == f {
            match options {
                FieldOptions::Store | FieldOptions::StoreAndSort => Some(
                    vstd::utf8::encode_utf8(spec_text_value_chars(value)),
                ),
                FieldOptions::Clear => Option::None,
                _ => cur,
            }
        } else {
            cur
        },
        UpdateField::Binary { field: g, options, value } => if g == f && !(options
            is StoreAsBlob) {
            Some(value@)
        } else {
            cur
        },
        UpdateField::Integer { field: g, options, value } => if g == f {
            match options {
                FieldOptions::Store | FieldOptions::StoreAndSort => Some(
                    crate::serialize::spec_be_u64(value as u64),
                ),
                FieldOptions::Clear => Option::None,
                _ => cur,
            }
        } else {
            cur
        },
        UpdateField::LongInteger { field: g, options, value } => if g == f {
            match options {
                FieldOptions::Store | FieldOptions::StoreAndSort => Some(
                    crate::serialize::spec_be_u64(value),
                ),
                FieldOptions::Clear => Option::None,
                _ => cur,
            }
        } else {
            cur
        },
        UpdateField::Tag { .. } => cur,
    }
}

/// The text a text operation carries.
pub open spec fn spec_text_value_chars(value: TextValue) -> Seq<char> {
    match value {
        TextValue::Keyword(s) => s@,
        TextValue::Tokenized(s) => s@,
        TextValue::Full(s) => s@,
    }
}

/// The stored row of field `f` after a list of operations, later writes
/// winning.
pub open spec fn spec_stored_after(
    row0: Option<Seq<u8>>,
    fields: Seq<UpdateField>,
    f: u8,
) -> Option<Seq<u8>>
    decreases fields.len(),
{
    if fields.len() == 0 {
        row0
    } else {
        spec_field_store_step(spec_stored_after(row0, fields.drop_last(), f), fields.last(), f)
    }
}

/// What one field operation does to the membership of the touched
/// document in the tag row `(f, v)`.
pub open spec fn spec_field_tag_step(cur: Set<u32>, field: UpdateField, f: u8, v: u64, doc: u32)
    -> Set<u32> {
    match field {
        UpdateField::Tag { field: g, value, clear } => if g == f && value == v {
            if clear {
                cur.remove(doc)
            } else {
                cur.insert(doc)
            }
        } else {
            cur
        },
        _ => cur,
    }
}

/// The tag row `(f, v)` after a list of operations.
pub open spec fn spec_tag_row_after(
    row0: Set<u32>,
    fields: Seq<UpdateField>,
    f: u8,
    v: u64,
    doc: u32,
) -> Set<u32>
    decreases fields.len(),
{
    if fields.len() == 0 {
        row0
    } else {
        spec_field_tag_step(spec_tag_row_after(row0, fields.drop_last(), f, v, doc), fields.last(), f, v, doc)
    }
}

/// The one failure a batch can hit: a touched collection whose change id
/// counter is exhausted.
pub open spec fn spec_counter_exhausted(
    counters: Seq<((AccountId, Collection), ChangeId)>,
    account_id: AccountId,
    batches: Seq<DocumentBatch>,
) -> bool {
    exists|q: int|
        0 <= q < 8 && spec_actions_for(batches, #[trigger] spec_collection_order()[q]).len() > 0
            && spec_ctr_row(counters, (account_id, spec_collection_order()[q])) == u64::MAX
}


/// How many entries of a hash list equal `h`.
pub open spec fn spec_count_hash(s: Seq<u64>, h: u64) -> int
    decreases s.len(),
{
    if s.len() == 0 {
        0
    } else {
        (if s[0] == h {
            1int
        } else {
            0
        }) + spec_count_hash(s.drop_first(), h)
    }
}

/// `n` saturating increments applied to a refcount.
pub open spec fn spec_sat_add_n(a: int, n: int) -> int {
    if a + n > i64::MAX {
        i64::MAX as int
    } else {
        a + n
    }
}

/// `n` saturating decrements applied to a refcount.
pub open spec fn spec_sat_sub_n(a: int, n: int) -> int {
    if a - n < i64::MIN {
        i64::MIN as int
    } else {
        a - n
    }
}

/// A refcount row always lies within the signed 64-bit range.
proof fn lemma_ref_row_bounds(s: Seq<(u64, i64)>, h: u64)
    ensures
        i64::MIN <= spec_ref_row(s, h) <= i64::MAX,
    decreases s.len(),
{
    if s.len() > 0 {
        lemma_ref_row_bounds(s.drop_first(), h);
    }
}

proof fn lemma_count_hash_nonneg(s: Seq<u64>, h: u64)
    ensures
        spec_count_hash(s, h) >= 0,
    decreases s.len(),
{
    if s.len() > 0 {
        lemma_count_hash_nonneg(s.drop_first(), h);
    }
}

proof fn lemma_count_hash_snoc(s: Seq<u64>, h: u64)
    requires
        s.len() > 0,
    ensures
        spec_count_hash(s, h) == spec_count_hash(s.drop_last(), h) + (if s.last() == h {
            1int
        } else {
            0
        }),
        spec_count_hash(s, h) >= 0,
    decreases s.len(),
{
    if s.len() > 1 {
        lemma_count_hash_snoc(s.drop_first(), h);
        assert(s.drop_first().drop_last() =~= s.drop_last().drop_first());
        assert(s.drop_first().last() == s.last());
        assert(s.drop_last()[0] == s[0]);
    } else {
        assert(s.drop_last() =~= Seq::<u64>::empty());
        assert(s.drop_first() =~= Seq::<u64>::empty());
    }
}

/// Drop one reference per listed hash: every refcount falls by its number
/// of occurrences, saturating at the bottom.
#[verifier::loop_isolation(false)]
fn drop_references(rows: &mut Vec<(u64, i64)>, links: &Vec<u64>)
    requires
        forall|a: int, b: int|
            0 <= a < b < old(rows)@.len() ==> (#[trigger] old(rows)@[a].0) != (
            #[trigger] old(rows)@[b].0),
    ensures
        forall|a: int, b: int|
            0 <= a < b < final(rows)@.len() ==> (#[trigger] final(rows)@[a].0) != (
            #[trigger] final(rows)@[b].0),
        forall|h: u64|
            spec_ref_row(final(rows)@, h) == spec_sat_sub_n(
                spec_ref_row(old(rows)@, h),
                spec_count_hash(links@, h),
            ),
{
    let n = links.len();
    let mut i: usize = 0;
    proof {
        assert(links@.take(0) =~= Seq::<u64>::empty());
        assert forall|h: u64|
            spec_ref_row(rows@, h) == spec_sat_sub_n(
                spec_ref_row(old(rows)@, h),
                spec_count_hash(links@.take(0), h),
            ) by {
            assert(spec_count_hash(links@.take(0), h) == 0);
            assert(spec_ref_row(old(rows)@, h) >= i64::MIN) by {
                lemma_ref_row_bounds(old(rows)@, h);
            }
        }
    }
    while i < n
        invariant
            i <= n,
            n == links@.len(),
            forall|a: int, b: int|
                0 <= a < b < rows@.len() ==> (#[trigger] rows@[a].0) != (#[trigger] rows@[b].0),
            forall|h: u64|
                spec_ref_row(rows@, h) == spec_sat_sub_n(
                    spec_ref_row(old(rows)@, h),
                    spec_count_hash(links@.take(i as int), h),
                ),
        decreases n - i,
    {
        let ghost pre = rows@;
        refc_rows_merge(rows, links[i], -1);
        proof {
            assert forall|h: u64|
                spec_ref_row(rows@, h) == spec_sat_sub_n(
                    spec_ref_row(old(rows)@, h),
                    spec_count_hash(links@.take(i + 1), h),
                ) by {
                lemma_count_hash_snoc(links@.take(i + 1), h);
                assert(links@.take(i + 1).drop_last() =~= links@.take(i as int));
                assert(links@.take(i + 1).last() == links@[i as int]);
                lemma_count_hash_nonneg(links@.take(i as int), h);
                lemma_ref_row_bounds(old(rows)@, h);
                lemma_ref_row_bounds(pre, h);
            }
        }
        i = i + 1;
    }
    assert(links@.take(n as int) =~= links@);
}

/// Store one blob per listed hash and raise each refcount by its number of
/// occurrences, saturating at the top; the contents are keyed by their
/// hashes.
#[verifier::loop_isolation(false)]
fn store_references(
    refs: &mut Vec<(u64, i64)>,
    blobs: &mut Vec<(u64, Option<Vec<u8>>)>,
    hashes: &Vec<u64>,
    contents: &Vec<Vec<u8>>,
)
    requires
        forall|a: int, b: int|
            0 <= a < b < old(refs)@.len() ==> (#[trigger] old(refs)@[a].0) != (
            #[trigger] old(refs)@[b].0),
        forall|a: int, b: int|
            0 <= a < b < old(blobs)@.len() ==> (#[trigger] old(blobs)@[a].0) != (
            #[trigger] old(blobs)@[b].0),
        contents@.len() == hashes@.len(),
        forall|a: int|
            0 <= a < hashes@.len() ==> hashes@[a] == crate::fulltext::spec_term_hash(
                (#[trigger] contents@[a])@,
            ),
    ensures
        forall|a: int, b: int|
            0 <= a < b < final(refs)@.len() ==> (#[trigger] final(refs)@[a].0) != (
            #[trigger] final(refs)@[b].0),
        forall|a: int, b: int|
            0 <= a < b < final(blobs)@.len() ==> (#[trigger] final(blobs)@[a].0) != (
            #[trigger] final(blobs)@[b].0),
        forall|h: u64|
            spec_ref_row(final(refs)@, h) == spec_sat_add_n(
                spec_ref_row(old(refs)@, h),
                spec_count_hash(hashes@, h),
            ),
        forall|a: int|
            0 <= a < hashes@.len() ==> spec_blob_row(final(blobs)@, #[trigger] hashes@[a]) == Some(
                contents@[a]@,
            ) || spec_blob_row(final(blobs)@, hashes@[a]) is Some,
{
    let n = hashes.len();
    let mut i: usize = 0;
    proof {
        assert(hashes@.take(0) =~= Seq::<u64>::empty());
        assert forall|h: u64|
            spec_ref_row(refs@, h) == spec_sat_add_n(
                spec_ref_row(old(refs)@, h),
                spec_count_hash(hashes@.take(0), h),
            ) by {
            assert(spec_count_hash(hashes@.take(0), h) == 0);
            assert(spec_ref_row(old(refs)@, h) <= i64::MAX) by {
                lemma_ref_row_bounds(old(refs)@, h);
            }
        }
    }
    while i < n
        invariant
            i <= n,
            n == hashes@.len(),
            contents@.len() == n,
            forall|a: int, b: int|
                0 <= a < b < refs@.len() ==> (#[trigger] refs@[a].0) != (#[trigger] refs@[b].0),
            forall|a: int, b: int|
                0 <= a < b < blobs@.len() ==> (#[trigger] blobs@[a].0) != (#[trigger] blobs@[b].0),
            forall|h: u64|
                spec_ref_row(refs@, h) == spec_sat_add_n(
                    spec_ref_row(old(refs)@, h),
                    spec_count_hash(hashes@.take(i as int), h),
                ),
            forall|a: int|
                0 <= a < i ==> spec_blob_row(blobs@, #[trigger] hashes@[a]) is Some,
        decreases n - i,
    {
        let content = copy_bytes(&contents[i]);
        let h = hashes[i];
        blob_rows_set(blobs, h, Some(content));
        refc_rows_merge(refs, h, 1);
        proof {
            assert forall|h2: u64|
                spec_ref_row(refs@, h2) == spec_sat_add_n(
                    spec_ref_row(old(refs)@, h2),
                    spec_count_hash(hashes@.take(i + 1), h2),
                ) by {
                lemma_count_hash_snoc(hashes@.take(i + 1), h2);
                assert(hashes@.take(i + 1).drop_last() =~= hashes@.take(i as int));
                assert(hashes@.take(i + 1).last() == hashes@[i as int]);
                lemma_count_hash_nonneg(hashes@.take(i as int), h2);
                lemma_ref_row_bounds(old(refs)@, h2);
            }
        }
        i = i + 1;
    }
    assert(hashes@.take(n as int) =~= hashes@);
}


impl JMAPStore {
    /// Drop one reference per blob the document links: each refcount falls
    /// by its number of occurrences in the document's link row.  Nothing
    /// else moves.
    fn delete_document_blobs(
        &mut self,
        account_id: AccountId,
        collection: Collection,
        document_id: DocumentId,
    )
        requires
            old(self).rows_wf(),
        ensures
            final(self).rows_wf(),
            *final(self) == (JMAPStore { blob_refs: final(self).blob_refs, ..*old(self) }),
            forall|h: u64|
                spec_ref_row(final(self).blob_refs@, h) == spec_sat_sub_n(
                    spec_ref_row(old(self).blob_refs@, h),
                    spec_count_hash(
                        crate::store::spec_link_row(
                            old(self).blob_links@,
                            (account_id, collection, document_id),
                        ),
                        h,
                    ),
                ),
    {
        let links = crate::store::link_rows_get(
            &self.blob_links,
            (account_id, collection, document_id),
        );
        drop_references(&mut self.blob_refs, &links);
    }
}

/// The eight collections in scan order, executable.
fn collection_order() -> (r: Vec<Collection>)
    ensures
        r@ == spec_collection_order(),
{
    let mut v: Vec<Collection> = Vec::new();
    v.push(Collection::Principal);
    v.push(Collection::PushSubscription);
    v.push(Collection::Mail);
    v.push(Collection::Mailbox);
    v.push(Collection::Thread);
    v.push(Collection::Identity);
    v.push(Collection::EmailSubmission);
    v.push(Collection::VacationResponse);
    assert(v@ =~= spec_collection_order());
    v
}

/// A change list is empty exactly when its actions were.
proof fn lemma_lists_nonempty(actions: Seq<LogAction>)
    ensures
        (spec_lists_inserts(actions).len() + spec_lists_updates(actions).len()
            + spec_lists_child_updates(actions).len() + spec_lists_deletes(actions).len() > 0)
            <==> actions.len() > 0,
    decreases actions.len(),
{
    if actions.len() > 0 {
        lemma_lists_nonempty(actions.drop_last());
    }
}

impl JMAPStore {
    /// Apply one write batch atomically: document field updates, the id
    /// bitmaps, one change-log entry per touched collection, and one Raft
    /// entry summarizing them.  On error nothing changes.
    #[verifier::loop_isolation(false)]
    #[verifier::spinoff_prover]
    #[verifier::rlimit(100)]
    pub fn update_documents(
        &mut self,
        account_id: AccountId,
        raft_id: RaftId,
        batch: &WriteBatch,
    ) -> (r: Result<(), StoreError>)
        requires
            old(self).wf(),
            batch.account_id == account_id,
            !(raft_id.term == u64::MAX && raft_id.index == u64::MAX) ==> (forall|i: int|
                0 <= i < old(self).raft_log@.len() ==> spec_raft_id_lt(
                    #[trigger] old(self).raft_log@[i].0,
                    raft_id,
                )) && spec_raft_id_lt(
                raft_id,
                RaftId { term: old(self).raft_term, index: old(self).raft_index },
            ),
        ensures
            final(self).raft_term == old(self).raft_term,
            final(self).raft_index == old(self).raft_index,
            (r is Err) == (!(raft_id.term == u64::MAX && raft_id.index == u64::MAX)
                && spec_counter_exhausted(
                old(self).change_counters@,
                account_id,
                batch.batches@,
            )),
            r is Err ==> *final(self) == *old(self),
            r is Ok ==> final(self).wf(),
            r is Ok ==> (if raft_id.term == u64::MAX && raft_id.index == u64::MAX {
                final(self).change_log@ == old(self).change_log@ && final(self).change_counters
                    == old(self).change_counters
            } else {
                spec_records_match(
                    final(self).change_log@.skip(old(self).change_log@.len() as int),
                    old(self).change_counters@,
                    account_id,
                    batch.batches@,
                    spec_collection_order(),
                ) && final(self).change_log@.len() >= old(self).change_log@.len() && final(self).change_log@.subrange(0, old(self).change_log@.len() as int) == old(self).change_log@
                    && (forall|k: (AccountId, Collection)|
                    spec_ctr_row(final(self).change_counters@, k) == (if k.0 == account_id && (
                    exists|q: int|
                        0 <= q < 8 && #[trigger] spec_collection_order()[q] == k.1
                            && spec_actions_for(batch.batches@, k.1).len() > 0) {
                        spec_next_change_id(old(self).change_counters@, account_id, k.1)
                    } else {
                        spec_ctr_row(old(self).change_counters@, k)
                    }))
            }),
            r is Ok ==> (if !(raft_id.term == u64::MAX && raft_id.index == u64::MAX)
                && spec_new_raft_changes(
                old(self).change_counters@,
                account_id,
                batch.batches@,
                spec_collection_order(),
            ).len() > 0 {
                final(self).raft_log@.len() == old(self).raft_log@.len() + 1 && final(self).raft_log@.subrange(0, old(self).raft_log@.len() as int) == old(self).raft_log@
                    && final(self).raft_log@.last().0 == raft_id && crate::raftlog::spec_parse_entry(
                    final(self).raft_log@.last().1@,
                ) == Some(
                    (
                        account_id,
                        spec_new_raft_changes(
                            old(self).change_counters@,
                            account_id,
                            batch.batches@,
                            spec_collection_order(),
                        ),
                    ),
                )
            } else {
                final(self).raft_log@ == old(self).raft_log@
            }),
            r is Ok ==> forall|c: Collection|
                spec_bm_row(
                    final(self).bitmaps@,
                    BitmapKey { account_id, collection: c, kind: BitmapKind::Used },
                ) == spec_bm_row(
                    old(self).bitmaps@,
                    BitmapKey { account_id, collection: c, kind: BitmapKind::Used },
                ).union(spec_insert_docs(batch.batches@, c)) && spec_bm_row(
                    final(self).bitmaps@,
                    BitmapKey { account_id, collection: c, kind: BitmapKind::Tombstoned },
                ) == spec_bm_row(
                    old(self).bitmaps@,
                    BitmapKey { account_id, collection: c, kind: BitmapKind::Tombstoned },
                ).union(spec_delete_docs(batch.batches@, c)),
    {
        let is_none_raft = raft_id.term == u64::MAX && raft_id.index == u64::MAX;

        // Check the change counters up front so a failing batch changes
        // nothing.  Batches outside replication assign no change ids and
        // cannot fail.
        let order = collection_order();
        if !is_none_raft {
            let mut oi: usize = 0;
            while oi < 8
                invariant
                    oi <= 8,
                    forall|q: int|
                        0 <= q < oi ==> spec_actions_for(
                            batch.batches@,
                            #[trigger] spec_collection_order()[q],
                        ).len() == 0 || spec_ctr_row(
                            self.change_counters@,
                            (account_id, spec_collection_order()[q]),
                        ) < u64::MAX,
                decreases 8 - oi,
            {
                let c = order[oi];
                let lists = collect_lists(&batch.batches, c);
                let ln1 = lists.inserts.len();
                let ln2 = lists.updates.len();
                let ln3 = lists.child_updates.len();
                let ln4 = lists.deletes.len();
                proof {
                    lemma_lists_nonempty(spec_actions_for(batch.batches@, c));
                }
                if ln1 > 0 || ln2 > 0 || ln3 > 0 || ln4 > 0 {
                    let ctr = crate::store::ctr_rows_get(&self.change_counters, (account_id, c));
                    if ctr == u64::MAX {
                        proof {
                            assert(spec_counter_exhausted(
                                self.change_counters@,
                                account_id,
                                batch.batches@,
                            ));
                        }
                        return Err(
                            StoreError::InternalError(
                                String::from_str("change id space exhausted"),
                            ),
                        );
                    }
                }
                oi = oi + 1;
            }
            proof {
                assert(!spec_counter_exhausted(self.change_counters@, account_id, batch.batches@));
            }
        }

        // Apply documents: id bitmaps, blob reference drops, and fields.
        self.apply_batch_documents(account_id, batch);
        let ghost pre = *self;

        // Append one change record per touched collection and gather the
        // Raft summary.
        proof {
            assert(self.wf());
        }
        if !is_none_raft {
            self.append_batch_logs(account_id, raft_id, batch);
        }
        proof {
            assert(self.wf());
        }
        Ok(())
    }
}

impl JMAPStore {
    /// Apply the document side of one batch: inserts mark the used
    /// bitmap, deletes drop blob references and mark the tombstone
    /// bitmap, and every insert or update applies its field operations.
    /// The logs and counters stay untouched.
    #[verifier::loop_isolation(false)]
    #[verifier::spinoff_prover]
    #[verifier::rlimit(100)]
    fn apply_batch_documents(&mut self, account_id: AccountId, batch: &WriteBatch)
        requires
            old(self).rows_wf(),
        ensures
            final(self).rows_wf(),
            final(self).change_log == old(self).change_log,
            final(self).raft_log == old(self).raft_log,
            final(self).change_counters == old(self).change_counters,
            final(self).raft_term == old(self).raft_term,
            final(self).raft_index == old(self).raft_index,
            forall|c: Collection|
                spec_bm_row(
                    final(self).bitmaps@,
                    BitmapKey { account_id, collection: c, kind: BitmapKind::Used },
                ) == spec_bm_row(
                    old(self).bitmaps@,
                    BitmapKey { account_id, collection: c, kind: BitmapKind::Used },
                ).union(spec_insert_docs(batch.batches@, c)),
            forall|c: Collection|
                spec_bm_row(
                    final(self).bitmaps@,
                    BitmapKey { account_id, collection: c, kind: BitmapKind::Tombstoned },
                ) == spec_bm_row(
                    old(self).bitmaps@,
                    BitmapKey { account_id, collection: c, kind: BitmapKind::Tombstoned },
                ).union(spec_delete_docs(batch.batches@, c)),
            forall|k: BitmapKey|
                (k.account_id != account_id && (k.kind == BitmapKind::Used || k.kind
                    == BitmapKind::Tombstoned)) ==> spec_bm_row(final(self).bitmaps@, k)
                    == spec_bm_row(old(self).bitmaps@, k),
    {
        let n = batch.batches.len();
        let mut i: usize = 0;
        while i < n
            invariant
                n == batch.batches@.len(),
                i <= n,
                self.rows_wf(),
                self.change_log == old(self).change_log,
                self.raft_log == old(self).raft_log,
                self.change_counters == old(self).change_counters,
                self.raft_term == old(self).raft_term,
                self.raft_index == old(self).raft_index,
                forall|c: Collection|
                    spec_bm_row(
                        self.bitmaps@,
                        BitmapKey { account_id, collection: c, kind: BitmapKind::Used },
                    ) == spec_bm_row(
                        old(self).bitmaps@,
                        BitmapKey { account_id, collection: c, kind: BitmapKind::Used },
                    ).union(spec_insert_docs(batch.batches@.take(i as int), c)),
                forall|c: Collection|
                    spec_bm_row(
                        self.bitmaps@,
                        BitmapKey { account_id, collection: c, kind: BitmapKind::Tombstoned },
                    ) == spec_bm_row(
                        old(self).bitmaps@,
                        BitmapKey { account_id, collection: c, kind: BitmapKind::Tombstoned },
                    ).union(spec_delete_docs(batch.batches@.take(i as int), c)),
                forall|k: BitmapKey|
                    (k.account_id != account_id && (k.kind == BitmapKind::Used || k.kind
                        == BitmapKind::Tombstoned)) ==> spec_bm_row(self.bitmaps@, k)
                        == spec_bm_row(old(self).bitmaps@, k),
            decreases n - i,
        {
            let b = &batch.batches[i];
            let ghost loop_pre = *self;
            match b.action {
                Some(WriteAction::Insert(document_id)) => {
                    bm_rows_apply(
                        &mut self.bitmaps,
                        BitmapKey {
                            account_id,
                            collection: b.collection,
                            kind: BitmapKind::Used,
                        },
                        document_id,
                        true,
                    );
                    self.apply_document(account_id, b.collection, document_id, &b.fields);
                    proof {
                        assert(forall|k: BitmapKey|
                            (k.kind == BitmapKind::Used || k.kind == BitmapKind::Tombstoned)
                                ==> spec_bm_row(self.bitmaps@, k) == (if k == (BitmapKey {
                                account_id,
                                collection: b.collection,
                                kind: BitmapKind::Used,
                            }) {
                                spec_bm_row(loop_pre.bitmaps@, k).insert(document_id)
                            } else {
                                spec_bm_row(loop_pre.bitmaps@, k)
                            }));
                    }
                },
                Some(WriteAction::Update(document_id)) => {
                    self.apply_document(account_id, b.collection, document_id, &b.fields);
                },
                Some(WriteAction::Delete(document_id)) => {
                    // Every blob the document references loses one count.
                    self.delete_document_blobs(account_id, b.collection, document_id);
                    bm_rows_apply(
                        &mut self.bitmaps,
                        BitmapKey {
                            account_id,
                            collection: b.collection,
                            kind: BitmapKind::Tombstoned,
                        },
                        document_id,
                        true,
                    );
                    proof {
                        assert(forall|k: BitmapKey|
                            (k.kind == BitmapKind::Used || k.kind == BitmapKind::Tombstoned)
                                ==> spec_bm_row(self.bitmaps@, k) == (if k == (BitmapKey {
                                account_id,
                                collection: b.collection,
                                kind: BitmapKind::Tombstoned,
                            }) {
                                spec_bm_row(loop_pre.bitmaps@, k).insert(document_id)
                            } else {
                                spec_bm_row(loop_pre.bitmaps@, k)
                            }));
                    }
                },
                None => {},
            }
            proof {
                lemma_docs_take_step(batch.batches@, i as int);
                assert forall|c: Collection|
                    spec_bm_row(
                        self.bitmaps@,
                        BitmapKey { account_id, collection: c, kind: BitmapKind::Used },
                    ) =~= spec_bm_row(
                        old(self).bitmaps@,
                        BitmapKey { account_id, collection: c, kind: BitmapKind::Used },
                    ).union(spec_insert_docs(batch.batches@.take(i + 1), c)) by {
                    let k = BitmapKey { account_id, collection: c, kind: BitmapKind::Used };
                    assert(spec_bm_row(loop_pre.bitmaps@, k) == spec_bm_row(
                        old(self).bitmaps@,
                        k,
                    ).union(spec_insert_docs(batch.batches@.take(i as int), c)));
                }
                assert forall|c: Collection|
                    spec_bm_row(
                        self.bitmaps@,
                        BitmapKey { account_id, collection: c, kind: BitmapKind::Tombstoned },
                    ) =~= spec_bm_row(
                        old(self).bitmaps@,
                        BitmapKey { account_id, collection: c, kind: BitmapKind::Tombstoned },
                    ).union(spec_delete_docs(batch.batches@.take(i + 1), c)) by {
                    let k = BitmapKey { account_id, collection: c, kind: BitmapKind::Tombstoned };
                    assert(spec_bm_row(loop_pre.bitmaps@, k) == spec_bm_row(
                        old(self).bitmaps@,
                        k,
                    ).union(spec_delete_docs(batch.batches@.take(i as int), c)));
                }
                assert forall|k: BitmapKey|
                    (k.account_id != account_id && (k.kind == BitmapKind::Used || k.kind
                        == BitmapKind::Tombstoned)) implies spec_bm_row(self.bitmaps@, k)
                    == spec_bm_row(old(self).bitmaps@, k) by {}
            }
            i = i + 1;
        }
        assert(batch.batches@.take(n as int) =~= batch.batches@);
    }
}

impl JMAPStore {
    /// Append the log side of one batch: one change record per touched
    /// collection under freshly assigned ids, and one Raft entry
    /// summarizing them.  The caller has checked the counters and fixed
    /// the Raft id's place.
    #[verifier::loop_isolation(false)]
    #[verifier::spinoff_prover]
    #[verifier::rlimit(100)]
    fn append_batch_logs(&mut self, account_id: AccountId, raft_id: RaftId, batch: &WriteBatch)
        requires
            old(self).wf(),
            batch.account_id == account_id,
            !(raft_id.term == u64::MAX && raft_id.index == u64::MAX),
            forall|i: int|
                0 <= i < old(self).raft_log@.len() ==> spec_raft_id_lt(
                    #[trigger] old(self).raft_log@[i].0,
                    raft_id,
                ),
            spec_raft_id_lt(
                raft_id,
                RaftId { term: old(self).raft_term, index: old(self).raft_index },
            ),
            !spec_counter_exhausted(old(self).change_counters@, account_id, batch.batches@),
        ensures
            final(self).wf(),
            final(self).raft_term == old(self).raft_term,
            final(self).raft_index == old(self).raft_index,
            final(self).bitmaps == old(self).bitmaps,
            final(self).values == old(self).values,
            final(self).indexes == old(self).indexes,
            final(self).blobs == old(self).blobs,
            final(self).blob_refs == old(self).blob_refs,
            final(self).term_indexes == old(self).term_indexes,
            final(self).blob_links == old(self).blob_links,
            spec_records_match(
                final(self).change_log@.skip(old(self).change_log@.len() as int),
                old(self).change_counters@,
                account_id,
                batch.batches@,
                spec_collection_order(),
            ),
            final(self).change_log@.len() >= old(self).change_log@.len(),
            final(self).change_log@.subrange(0, old(self).change_log@.len() as int) == old(self).change_log@,
            forall|k: (AccountId, Collection)|
                spec_ctr_row(final(self).change_counters@, k) == (if k.0 == account_id && (
                exists|q: int|
                    0 <= q < 8 && #[trigger] spec_collection_order()[q] == k.1
                        && spec_actions_for(batch.batches@, k.1).len() > 0) {
                    spec_next_change_id(old(self).change_counters@, account_id, k.1)
                } else {
                    spec_ctr_row(old(self).change_counters@, k)
                }),
            (if spec_new_raft_changes(
                old(self).change_counters@,
                account_id,
                batch.batches@,
                spec_collection_order(),
            ).len() > 0 {
                final(self).raft_log@.len() == old(self).raft_log@.len() + 1 && final(self).raft_log@.subrange(0, old(self).raft_log@.len() as int) == old(self).raft_log@
                    && final(self).raft_log@.last().0 == raft_id && crate::raftlog::spec_parse_entry(
                    final(self).raft_log@.last().1@,
                ) == Some(
                    (
                        account_id,
                        spec_new_raft_changes(
                            old(self).change_counters@,
                            account_id,
                            batch.batches@,
                            spec_collection_order(),
                        ),
                    ),
                )
            } else {
                final(self).raft_log@ == old(self).raft_log@
            }),
    {
        let is_none_raft = false;
        let order = collection_order();
        if !is_none_raft {
            let ghost counters0 = self.change_counters@;
            let ghost bm1 = self.bitmaps;
            let mut raft_changes: Vec<Change> = Vec::new();
            let ghost log0 = self.change_log@;
            assert(forall|q: int|
                0 <= q < 8 ==> spec_actions_for(
                    batch.batches@,
                    #[trigger] spec_collection_order()[q],
                ).len() == 0 || spec_ctr_row(
                    counters0,
                    (account_id, spec_collection_order()[q]),
                ) < u64::MAX);
            let mut oi2: usize = 0;
            while oi2 < 8
                invariant
                    oi2 <= 8,
                    self.rows_wf(),
                    self.raft_log == old(self).raft_log,
                    self.raft_term == old(self).raft_term,
                    self.raft_index == old(self).raft_index,
                    self.bitmaps == bm1,
                    self.values == old(self).values,
                    self.indexes == old(self).indexes,
                    self.blobs == old(self).blobs,
                    self.blob_refs == old(self).blob_refs,
                    self.term_indexes == old(self).term_indexes,
                    self.blob_links == old(self).blob_links,
                    forall|q: int|
                        0 <= q < 8 ==> spec_actions_for(
                            batch.batches@,
                            #[trigger] spec_collection_order()[q],
                        ).len() == 0 || spec_ctr_row(
                            counters0,
                            (account_id, spec_collection_order()[q]),
                        ) < u64::MAX,
                    counters0 == old(self).change_counters@,
                    log0 == old(self).change_log@,
                    // processed collections produced their records
                    spec_records_match(
                        self.change_log@.skip(log0.len() as int),
                        counters0,
                        account_id,
                        batch.batches@,
                        spec_collection_order().take(oi2 as int),
                    ),
                    self.change_log@.len() >= log0.len(),
                    self.change_log@.subrange(0, log0.len() as int) == log0,
                    raft_changes@ == spec_new_raft_changes(
                        counters0,
                        account_id,
                        batch.batches@,
                        spec_collection_order().take(oi2 as int),
                    ),
                    // counters: processed collections bumped, others kept
                    forall|k: (AccountId, Collection)|
                        spec_ctr_row(self.change_counters@, k) == (if k.0 == account_id && (
                        exists|q: int|
                            0 <= q < oi2 && #[trigger] spec_collection_order()[q] == k.1
                                && spec_actions_for(batch.batches@, k.1).len() > 0) {
                            spec_next_change_id(counters0, account_id, k.1)
                        } else {
                            spec_ctr_row(counters0, k)
                        }),
                    forall|a2: int, b2: int|
                        0 <= a2 < b2 < self.change_counters@.len() ==> (
                        #[trigger] self.change_counters@[a2].0) != (
                        #[trigger] self.change_counters@[b2].0),
                    spec_change_log_sorted(self.change_log@),
                    forall|q: int|
                        0 <= q < self.change_log@.len() ==> changelog::spec_parse_payload(
                            (#[trigger] self.change_log@[q]).payload@,
                        ) is Some,
                    forall|q: int|
                        0 <= q < self.change_log@.len()
                            ==> (#[trigger] self.change_log@[q]).change_id <= spec_ctr_row(
                            self.change_counters@,
                            (self.change_log@[q].account_id, self.change_log@[q].collection),
                        ),
                decreases 8 - oi2,
            {
                let c = order[oi2];
                let lists = collect_lists(&batch.batches, c);
                let ln1 = lists.inserts.len();
                let ln2 = lists.updates.len();
                let ln3 = lists.child_updates.len();
                let ln4 = lists.deletes.len();
                proof {
                    lemma_lists_nonempty(spec_actions_for(batch.batches@, c));
                }
                if ln1 > 0 || ln2 > 0 || ln3 > 0 || ln4 > 0 {
                    let ctr = crate::store::ctr_rows_get(&self.change_counters, (account_id, c));
                    proof {
                        assert(forall|a: int, b: int|
                            0 <= a < b < 8 ==> spec_collection_order()[a]
                                != spec_collection_order()[b]);
                        assert(spec_ctr_row(self.change_counters@, (account_id, c)) == spec_ctr_row(
                            counters0,
                            (account_id, c),
                        ));
                        assert(ctr < u64::MAX);
                    }
                    let change_id = ctr + 1;
                    let payload = lists.serialize();
                    proof {
                        changelog::lemma_payload_round_trip(
                            lists.inserts@,
                            lists.updates@,
                            lists.child_updates@,
                            lists.deletes@,
                        );
                    }
                    let ghost appended0 = self.change_log@.skip(log0.len() as int);
                    let ghost rec = ChangeRecord { account_id, collection: c, change_id, payload };
                    self.change_log.push(
                        ChangeRecord { account_id, collection: c, change_id, payload },
                    );
                    ctr_rows_set(&mut self.change_counters, (account_id, c), change_id);
                    raft_changes.push(Change { change_id, collection: c });
                    proof {
                        lemma_new_meta_snoc(
                            counters0,
                            account_id,
                            batch.batches@,
                            spec_collection_order(),
                            oi2 as int,
                        );
                        assert(self.change_log@.skip(log0.len() as int) =~= appended0.push(rec));
                        assert(self.change_log@.subrange(0, log0.len() as int) =~= log0);
                        assert(spec_new_log_meta(
                            counters0,
                            account_id,
                            batch.batches@,
                            spec_collection_order().take(oi2 + 1),
                        ) =~= spec_new_log_meta(
                            counters0,
                            account_id,
                            batch.batches@,
                            spec_collection_order().take(oi2 as int),
                        ).push((c, change_id)));
                        assert(raft_changes@ =~= spec_new_raft_changes(
                            counters0,
                            account_id,
                            batch.batches@,
                            spec_collection_order().take(oi2 + 1),
                        ));
                    }
                } else {
                    proof {
                        lemma_new_meta_snoc(
                            counters0,
                            account_id,
                            batch.batches@,
                            spec_collection_order(),
                            oi2 as int,
                        );
                        assert(spec_new_log_meta(
                            counters0,
                            account_id,
                            batch.batches@,
                            spec_collection_order().take(oi2 + 1),
                        ) =~= spec_new_log_meta(
                            counters0,
                            account_id,
                            batch.batches@,
                            spec_collection_order().take(oi2 as int),
                        ));
                        assert(raft_changes@ =~= spec_new_raft_changes(
                            counters0,
                            account_id,
                            batch.batches@,
                            spec_collection_order().take(oi2 + 1),
                        ));
                    }
                }
                oi2 = oi2 + 1;
            }
            proof {
                assert(spec_collection_order().take(8) =~= spec_collection_order());
            }

            // Append the Raft entry summarizing the batch.
            if raft_changes.len() > 0 {
                let ghost raft0 = self.raft_log@;
                let entry = Entry { raft_id, account_id, changes: raft_changes };
                let bytes = entry.serialize();
                proof {
                    crate::raftlog::lemma_entry_round_trip(account_id, entry.changes@);
                }
                self.raft_log.push((raft_id, bytes));
                proof {
                    assert(self.raft_log@.subrange(0, raft0.len() as int) =~= raft0);
                    assert(self.raft_log@.last().0 == raft_id);
                }
            }
        }
    }
}

/// Extending the scanned order by one collection appends its metadata.
proof fn lemma_new_meta_snoc(
    counters: Seq<((AccountId, Collection), ChangeId)>,
    account_id: AccountId,
    batches: Seq<DocumentBatch>,
    order: Seq<Collection>,
    i: int,
)
    requires
        0 <= i < order.len(),
    ensures
        spec_new_log_meta(counters, account_id, batches, order.take(i + 1)) == spec_new_log_meta(
            counters,
            account_id,
            batches,
            order.take(i),
        ) + (if spec_actions_for(batches, order[i]).len() > 0 {
            seq![(order[i], spec_next_change_id(counters, account_id, order[i]))]
        } else {
            Seq::<(Collection, ChangeId)>::empty()
        }),
        spec_new_raft_changes(counters, account_id, batches, order.take(i + 1))
            == spec_new_raft_changes(counters, account_id, batches, order.take(i)) + (
        if spec_actions_for(batches, order[i]).len() > 0 {
            seq![
                Change {
                    change_id: spec_next_change_id(counters, account_id, order[i]),
                    collection: order[i],
                },
            ]
        } else {
            Seq::<Change>::empty()
        }),
    decreases i,
{
    if i == 0 {
        assert(order.take(1).drop_first() =~= Seq::<Collection>::empty());
        assert(order.take(0) =~= Seq::<Collection>::empty());
        assert(spec_new_log_meta(counters, account_id, batches, order.take(1))
            =~= spec_new_log_meta(counters, account_id, batches, order.take(0)) + (
        if spec_actions_for(batches, order[0]).len() > 0 {
            seq![(order[0], spec_next_change_id(counters, account_id, order[0]))]
        } else {
            Seq::<(Collection, ChangeId)>::empty()
        }));
        assert(spec_new_raft_changes(counters, account_id, batches, order.take(1))
            =~= spec_new_raft_changes(counters, account_id, batches, order.take(0)) + (
        if spec_actions_for(batches, order[0]).len() > 0 {
            seq![
                Change {
                    change_id: spec_next_change_id(counters, account_id, order[0]),
                    collection: order[0],
                },
            ]
        } else {
            Seq::<Change>::empty()
        }));
    } else {
        lemma_new_meta_snoc(counters, account_id, batches, order.drop_first(), i - 1);
        assert(order.take(i + 1).drop_first() =~= order.drop_first().take(i));
        assert(order.take(i).drop_first() =~= order.drop_first().take(i - 1));
        assert(order.drop_first()[i - 1] == order[i]);
        assert(spec_new_log_meta(counters, account_id, batches, order.take(i + 1))
            =~= spec_new_log_meta(counters, account_id, batches, order.take(i)) + (
        if spec_actions_for(batches, order[i]).len() > 0 {
            seq![(order[i], spec_next_change_id(counters, account_id, order[i]))]
        } else {
            Seq::<(Collection, ChangeId)>::empty()
        }));
        assert(spec_new_raft_changes(counters, account_id, batches, order.take(i + 1))
            =~= spec_new_raft_changes(counters, account_id, batches, order.take(i)) + (
        if spec_actions_for(batches, order[i]).len() > 0 {
            seq![
                Change {
                    change_id: spec_next_change_id(counters, account_id, order[i]),
                    collection: order[i],
                },
            ]
        } else {
            Seq::<Change>::empty()
        }));
    }
}


/// Taking one more batch extends the insert and delete document sets by
/// exactly that batch's action.
proof fn lemma_docs_take_step(batches: Seq<DocumentBatch>, i: int)
    requires
        0 <= i < batches.len(),
    ensures
        forall|c: Collection, d: u32|
            #[trigger] spec_insert_docs(batches.take(i + 1), c).contains(d) <==> (
            spec_insert_docs(batches.take(i), c).contains(d) || (batches[i].collection == c
                && batches[i].action == Some(WriteAction::Insert(d)))),
        forall|c: Collection, d: u32|
            #[trigger] spec_delete_docs(batches.take(i + 1), c).contains(d) <==> (
            spec_delete_docs(batches.take(i), c).contains(d) || (batches[i].collection == c
                && batches[i].action == Some(WriteAction::Delete(d)))),
{
    assert forall|c: Collection, d: u32|
        #[trigger] spec_insert_docs(batches.take(i + 1), c).contains(d) <==> (
        spec_insert_docs(batches.take(i), c).contains(d) || (batches[i].collection == c
            && batches[i].action == Some(WriteAction::Insert(d)))) by {
        if spec_insert_docs(batches.take(i + 1), c).contains(d) {
            let w = choose|w: int|
                0 <= w < batches.take(i + 1).len() && (#[trigger] batches.take(i + 1)[w]).collection
                    == c && batches.take(i + 1)[w].action == Some(WriteAction::Insert(d));
            if w < i {
                assert(batches.take(i)[w] == batches.take(i + 1)[w]);
            } else {
                assert(batches.take(i + 1)[w] == batches[i]);
            }
        }
        if spec_insert_docs(batches.take(i), c).contains(d) {
            let w = choose|w: int|
                0 <= w < batches.take(i).len() && (#[trigger] batches.take(i)[w]).collection == c
                    && batches.take(i)[w].action == Some(WriteAction::Insert(d));
            assert(batches.take(i + 1)[w] == batches.take(i)[w]);
        }
        if batches[i].collection == c && batches[i].action == Some(WriteAction::Insert(d)) {
            assert(batches.take(i + 1)[i] == batches[i]);
        }
    }
    assert forall|c: Collection, d: u32|
        #[trigger] spec_delete_docs(batches.take(i + 1), c).contains(d) <==> (
        spec_delete_docs(batches.take(i), c).contains(d) || (batches[i].collection == c
            && batches[i].action == Some(WriteAction::Delete(d)))) by {
        if spec_delete_docs(batches.take(i + 1), c).contains(d) {
            let w = choose|w: int|
                0 <= w < batches.take(i + 1).len() && (#[trigger] batches.take(i + 1)[w]).collection
                    == c && batches.take(i + 1)[w].action == Some(WriteAction::Delete(d));
            if w < i {
                assert(batches.take(i)[w] == batches.take(i + 1)[w]);
            } else {
                assert(batches.take(i + 1)[w] == batches[i]);
            }
        }
        if spec_delete_docs(batches.take(i), c).contains(d) {
            let w = choose|w: int|
                0 <= w < batches.take(i).len() && (#[trigger] batches.take(i)[w]).collection == c
                    && batches.take(i)[w].action == Some(WriteAction::Delete(d));
            assert(batches.take(i + 1)[w] == batches.take(i)[w]);
        }
        if batches[i].collection == c && batches[i].action == Some(WriteAction::Delete(d)) {
            assert(batches.take(i + 1)[i] == batches[i]);
        }
    }
}


impl JMAPStore {
    /// Apply one batch under one freshly assigned Raft id: the change log
    /// gains one record per touched collection, the Raft log one entry
    /// summarizing them, and the id bitmaps the batch's inserts and
    /// deletes.  The one failure is an exhausted change id counter, which
    /// leaves everything but the burnt Raft slot untouched.
    pub fn write(&mut self, batch: &WriteBatch) -> (r: Result<RaftId, StoreError>)
        requires
            old(self).wf(),
            old(self).raft_index < u64::MAX,
        ensures
            final(self).raft_term == old(self).raft_term,
            final(self).raft_index == old(self).raft_index + 1,
            (r is Err) == spec_counter_exhausted(
                old(self).change_counters@,
                batch.account_id,
                batch.batches@,
            ),
            r is Err ==> *final(self) == (JMAPStore {
                raft_index: final(self).raft_index,
                ..*old(self)
            }),
            r matches Ok(id) ==> id == (RaftId {
                term: old(self).raft_term,
                index: old(self).raft_index,
            }),
            r is Ok ==> final(self).wf(),
            r is Ok ==> spec_records_match(
                final(self).change_log@.skip(old(self).change_log@.len() as int),
                old(self).change_counters@,
                batch.account_id,
                batch.batches@,
                spec_collection_order(),
            ) && final(self).change_log@.len() >= old(self).change_log@.len() && final(self).change_log@.subrange(0, old(self).change_log@.len() as int) == old(self).change_log@,
            r is Ok ==> (forall|k: (AccountId, Collection)|
                spec_ctr_row(final(self).change_counters@, k) == (if k.0 == batch.account_id && (
                exists|q: int|
                    0 <= q < 8 && #[trigger] spec_collection_order()[q] == k.1
                        && spec_actions_for(batch.batches@, k.1).len() > 0) {
                    spec_next_change_id(old(self).change_counters@, batch.account_id, k.1)
                } else {
                    spec_ctr_row(old(self).change_counters@, k)
                })),
            r is Ok ==> (if spec_new_raft_changes(
                old(self).change_counters@,
                batch.account_id,
                batch.batches@,
                spec_collection_order(),
            ).len() > 0 {
                final(self).raft_log@.len() == old(self).raft_log@.len() + 1 && final(self).raft_log@.subrange(0, old(self).raft_log@.len() as int) == old(self).raft_log@
                    && final(self).raft_log@.last().0 == (RaftId {
                    term: old(self).raft_term,
                    index: old(self).raft_index,
                }) && crate::raftlog::spec_parse_entry(final(self).raft_log@.last().1@) == Some(
                    (
                        batch.account_id,
                        spec_new_raft_changes(
                            old(self).change_counters@,
                            batch.account_id,
                            batch.batches@,
                            spec_collection_order(),
                        ),
                    ),
                )
            } else {
                final(self).raft_log@ == old(self).raft_log@
            }),
            r is Ok ==> forall|c: Collection|
                spec_bm_row(
                    final(self).bitmaps@,
                    BitmapKey { account_id: batch.account_id, collection: c, kind: BitmapKind::Used },
                ) == spec_bm_row(
                    old(self).bitmaps@,
                    BitmapKey { account_id: batch.account_id, collection: c, kind: BitmapKind::Used },
                ).union(spec_insert_docs(batch.batches@, c)) && spec_bm_row(
                    final(self).bitmaps@,
                    BitmapKey {
                        account_id: batch.account_id,
                        collection: c,
                        kind: BitmapKind::Tombstoned,
                    },
                ) == spec_bm_row(
                    old(self).bitmaps@,
                    BitmapKey {
                        account_id: batch.account_id,
                        collection: c,
                        kind: BitmapKind::Tombstoned,
                    },
                ).union(spec_delete_docs(batch.batches@, c)),
    {
        let account_id = batch.account_id;
        let raft_id = self.assign_raft_id();
        match self.update_documents(account_id, raft_id, batch) {
            Ok(()) => Ok(raft_id),
            Err(e) => Err(e),
        }
    }

    /// Apply one batch that touches a single document, under a caller
    /// supplied Raft id (the replication path's deterministic replay).
    pub fn update_document(
        &mut self,
        account_id: AccountId,
        raft_id: RaftId,
        batch: &WriteBatch,
    ) -> (r: Result<(), StoreError>)
        requires
            old(self).wf(),
            batch.account_id == account_id,
            !(raft_id.term == u64::MAX && raft_id.index == u64::MAX) ==> (forall|i: int|
                0 <= i < old(self).raft_log@.len() ==> spec_raft_id_lt(
                    #[trigger] old(self).raft_log@[i].0,
                    raft_id,
                )) && spec_raft_id_lt(
                raft_id,
                RaftId { term: old(self).raft_term, index: old(self).raft_index },
            ),
        ensures
            (r is Err) == (!(raft_id.term == u64::MAX && raft_id.index == u64::MAX)
                && spec_counter_exhausted(
                old(self).change_counters@,
                account_id,
                batch.batches@,
            )),
            r is Err ==> *final(self) == *old(self),
            r is Ok ==> final(self).wf(),
            r is Ok ==> (if raft_id.term == u64::MAX && raft_id.index == u64::MAX {
                final(self).change_log@ == old(self).change_log@
            } else {
                spec_records_match(
                    final(self).change_log@.skip(old(self).change_log@.len() as int),
                    old(self).change_counters@,
                    account_id,
                    batch.batches@,
                    spec_collection_order(),
                ) && final(self).change_log@.subrange(0, old(self).change_log@.len() as int)
                    == old(self).change_log@
            }),
            r is Ok ==> forall|c: Collection|
                spec_bm_row(
                    final(self).bitmaps@,
                    BitmapKey { account_id, collection: c, kind: BitmapKind::Used },
                ) == spec_bm_row(
                    old(self).bitmaps@,
                    BitmapKey { account_id, collection: c, kind: BitmapKind::Used },
                ).union(spec_insert_docs(batch.batches@, c)) && spec_bm_row(
                    final(self).bitmaps@,
                    BitmapKey { account_id, collection: c, kind: BitmapKind::Tombstoned },
                ) == spec_bm_row(
                    old(self).bitmaps@,
                    BitmapKey { account_id, collection: c, kind: BitmapKind::Tombstoned },
                ).union(spec_delete_docs(batch.batches@, c)),
    {
        self.update_documents(account_id, raft_id, batch)
    }
}

} // verus!



