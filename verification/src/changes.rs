//! The `*/changes` read path: state tokens, change-log queries, the merged
//! response handed to clients, and log compaction.

use vstd::prelude::*;

use crate::bitmap;
use crate::changelog;
use crate::store::{ChangeRecord, JMAPStore, StoreError, spec_change_log_sorted, spec_ctr_row};
use crate::types::{AccountId, ChangeId, Collection};

verus! {

use crate::changelog::{ChangeLists, MergedChanges, MergeSets, spec_apply_entry, spec_unpack};
use vstd::string::StringExecFns;

/// The client-visible state of one collection: nothing yet, a change id, or
/// a position inside a partially sent range.
#[derive(Debug, Clone, Copy, PartialEq, Eq, Hash, Structural)]
pub enum JMAPState {
    Initial,
    Exact(ChangeId),
    Intermediate { from_id: ChangeId, to_id: ChangeId, items_sent: usize },
}

/// How a change-log read selects entries.
#[derive(Debug, Clone, Copy, PartialEq, Eq, Structural)]
pub enum Query {
    All,
    Since(ChangeId),
    RangeInclusive(ChangeId, ChangeId),
}

/// The records of one account and collection, in log order.
pub open spec fn spec_account_log(
    log: Seq<ChangeRecord>,
    account_id: AccountId,
    collection: Collection,
) -> Seq<ChangeRecord>
    decreases log.len(),
{
    if log.len() == 0 {
        Seq::<ChangeRecord>::empty()
    } else {
        let head: Seq<ChangeRecord> = if log[0].account_id == account_id && log[0].collection
            == collection {
            seq![log[0]]
        } else {
            Seq::<ChangeRecord>::empty()
        };
        head + spec_account_log(log.drop_first(), account_id, collection)
    }
}

/// The records a query keeps.  A range keeps the records after its anchor
/// id up to and including its end id, matching what a `Since` read from
/// the anchor had already delivered.
pub open spec fn spec_query_keeps(q: Query, change_id: ChangeId) -> bool {
    match q {
        Query::All => true,
        Query::Since(s) => change_id > s,
        Query::RangeInclusive(from, to) => from < change_id <= to,
    }
}

pub open spec fn spec_query_select(sub: Seq<ChangeRecord>, q: Query) -> Seq<ChangeRecord>
    decreases sub.len(),
{
    if sub.len() == 0 {
        Seq::<ChangeRecord>::empty()
    } else {
        let head: Seq<ChangeRecord> = if spec_query_keeps(q, sub[0].change_id) {
            seq![sub[0]]
        } else {
            Seq::<ChangeRecord>::empty()
        };
        head + spec_query_select(sub.drop_first(), q)
    }
}

/// Whether a query's anchor id is known to the sub-log.
pub open spec fn spec_query_known(sub: Seq<ChangeRecord>, q: Query) -> bool {
    match q {
        Query::All => true,
        Query::Since(s) => exists|i: int| 0 <= i < sub.len() && (#[trigger] sub[i]).change_id == s,
        Query::RangeInclusive(from, _) => from == 0 || exists|i: int|
            0 <= i < sub.len() && (#[trigger] sub[i]).change_id == from,
    }
}

/// The lists a record's payload parses to; well-formed stores always parse.
pub open spec fn spec_parsed_lists(rec: ChangeRecord) -> (Seq<u64>, Seq<u64>, Seq<u64>, Seq<u64>) {
    match changelog::spec_parse_payload(rec.payload@) {
        Option::Some(t) => t,
        Option::None => (
            Seq::<u64>::empty(),
            Seq::<u64>::empty(),
            Seq::<u64>::empty(),
            Seq::<u64>::empty(),
        ),
    }
}

/// Fold a record range into its merged sets, oldest first.
pub open spec fn spec_merge_records(records: Seq<ChangeRecord>) -> MergeSets
    decreases records.len(),
{
    if records.len() == 0 {
        MergeSets::empty()
    } else {
        let (ins, upd, child, del) = spec_parsed_lists(records.last());
        spec_apply_entry(spec_merge_records(records.drop_last()), ins, upd, child, del)
    }
}

/// A read change-log range: its merged view and the ids it covered.
pub struct Changes {
    pub merged: MergedChanges,
    pub from_change_id: ChangeId,
    pub to_change_id: ChangeId,
}

/// One JMAP changes response.
#[derive(Debug, Clone, PartialEq, Eq)]
pub struct ChangesResponse {
    pub account_id: AccountId,
    pub total_changes: usize,
    pub has_more_changes: bool,
    pub has_children_changes: bool,
    pub old_state: JMAPState,
    pub new_state: JMAPState,
    pub created: Vec<u64>,
    pub updated: Vec<u64>,
    pub destroyed: Vec<u64>,
}

impl JMAPStore {
    /// The last change id of one account and collection, if any.
    #[verifier::loop_isolation(false)]
    pub fn get_last_change_id(&self, account_id: AccountId, collection: Collection) -> (r: Option<
        ChangeId,
    >)
        requires
            self.wf(),
        ensures
            ({
                let sub = spec_account_log(self.change_log@, account_id, collection);
                match r {
                    Some(id) => sub.len() > 0 && id == sub.last().change_id,
                    None => sub.len() == 0,
                }
            }),
    {
        let n = self.change_log.len();
        let mut last: Option<ChangeId> = None;
        let mut i: usize = 0;
        while i < n
            invariant
                i <= n,
                ({
                    let sub = spec_account_log(
                        self.change_log@.take(i as int),
                        account_id,
                        collection,
                    );
                    match last {
                        Some(id) => sub.len() > 0 && id == sub.last().change_id,
                        None => sub.len() == 0,
                    }
                }),
            decreases n - i,
        {
            proof {
                lemma_account_log_snoc(self.change_log@.take(i + 1), account_id, collection);
                assert(self.change_log@.take(i + 1).drop_last() =~= self.change_log@.take(
                    i as int,
                ));
            }
            let rec = &self.change_log[i];
            if rec.account_id == account_id && rec.collection == collection {
                last = Some(rec.change_id);
            }
            i = i + 1;
        }
        assert(self.change_log@.take(n as int) =~= self.change_log@);
        last
    }

    /// The collection's state token: its last change id, else `Initial`.
    pub fn get_state(&self, account_id: AccountId, collection: Collection) -> (r: JMAPState)
        requires
            self.wf(),
        ensures
            ({
                let sub = spec_account_log(self.change_log@, account_id, collection);
                if sub.len() > 0 {
                    r == JMAPState::Exact(sub.last().change_id)
                } else {
                    r == JMAPState::Initial
                }
            }),
    {
        match self.get_last_change_id(account_id, collection) {
            Some(id) => JMAPState::Exact(id),
            None => JMAPState::Initial,
        }
    }

    /// Read and merge a change-log range.  `None` reports an unknown anchor
    /// id.  The merged sets fold the selected records oldest first, and
    /// `from`/`to` frame what the client has now seen.
    #[verifier::loop_isolation(false)]
    pub fn get_changes(
        &self,
        account_id: AccountId,
        collection: Collection,
        query: Query,
    ) -> (r: Option<Changes>)
        requires
            self.wf(),
        ensures
            ({
                let sub = spec_account_log(self.change_log@, account_id, collection);
                match r {
                    Some(ch) => spec_query_known(sub, query) && ch.merged.sets()
                        == spec_merge_records(spec_query_select(sub, query)) && ch.merged.finite()
                        && ch.from_change_id == (match query {
                        Query::All => 0,
                        Query::Since(s) => s,
                        Query::RangeInclusive(from, _) => from,
                    }) && ch.to_change_id == (match query {
                        Query::RangeInclusive(_, to) => to,
                        _ => if sub.len() > 0 {
                            sub.last().change_id
                        } else {
                            0
                        },
                    }),
                    None => !spec_query_known(sub, query),
                }
            }),
    {
        let n = self.change_log.len();
        let mut merged = MergedChanges::new();
        let mut known = match query {
            Query::All => true,
            Query::RangeInclusive(from, _) => from == 0,
            _ => false,
        };
        let mut i: usize = 0;
        let mut last_id: ChangeId = 0;
        let mut seen_any = false;
        while i < n
            invariant
                i <= n,
                merged.finite(),
                ({
                    let sub = spec_account_log(
                        self.change_log@.take(i as int),
                        account_id,
                        collection,
                    );
                    &&& merged.sets() == spec_merge_records(spec_query_select(sub, query))
                    &&& known == spec_query_known(sub, query)
                    &&& (seen_any ==> sub.len() > 0 && last_id == sub.last().change_id)
                    &&& (!seen_any ==> sub.len() == 0)
                }),
            decreases n - i,
        {
            proof {
                lemma_account_log_snoc(self.change_log@.take(i + 1), account_id, collection);
                assert(self.change_log@.take(i + 1).drop_last() =~= self.change_log@.take(
                    i as int,
                ));
            }
            let rec = &self.change_log[i];
            let ghost sub0 = spec_account_log(
                self.change_log@.take(i as int),
                account_id,
                collection,
            );
            let ghost recg = self.change_log@[i as int];
            if rec.account_id == account_id && rec.collection == collection {
                let ghost sub1 = spec_account_log(
                    self.change_log@.take(i + 1),
                    account_id,
                    collection,
                );
                proof {
                    assert(sub1 =~= sub0.push(recg));
                    lemma_query_select_snoc(sub0, recg, query);
                    lemma_query_known_snoc(sub0, recg, query);
                    assert(sub1.last() == recg);
                }
                let keeps = match query {
                    Query::All => true,
                    Query::Since(s) => rec.change_id > s,
                    Query::RangeInclusive(from, to) => from < rec.change_id && rec.change_id
                        <= to,
                };
                if keeps {
                    let lists = match ChangeLists::deserialize(rec.payload.as_slice()) {
                        Some(l) => l,
                        None => {
                            // Well-formed stores always parse.
                            proof {
                                assert(false);
                            }
                            ChangeLists::new()
                        },
                    };
                    merged.apply_entry(&lists);
                    proof {
                        let sel0 = spec_query_select(sub0, query);
                        assert(spec_query_select(sub1, query) == spec_query_select(
                            sub0.push(recg),
                            query,
                        ));
                        assert(spec_query_select(sub0.push(recg), query) == sel0 + seq![recg]);
                        assert(sel0 + seq![recg] =~= sel0.push(recg));
                        assert(sel0.push(recg).drop_last() =~= sel0);
                        assert(sel0.push(recg).last() == recg);
                        assert(spec_merge_records(sel0.push(recg)) == spec_apply_entry(
                            spec_merge_records(sel0),
                            lists.inserts@,
                            lists.updates@,
                            lists.child_updates@,
                            lists.deletes@,
                        ));
                    }
                } else {
                    proof {
                        assert(spec_query_select(sub1, query) =~= spec_query_select(sub0, query));
                    }
                }
                let anchors = match query {
                    Query::All => false,
                    Query::Since(s) => rec.change_id == s,
                    Query::RangeInclusive(from, _) => rec.change_id == from,
                };
                if anchors {
                    known = true;
                }
                last_id = rec.change_id;
                seen_any = true;
            }
            i = i + 1;
        }
        assert(self.change_log@.take(n as int) =~= self.change_log@);
        if !known {
            return None;
        }
        let from_change_id = match query {
            Query::All => 0,
            Query::Since(s) => s,
            Query::RangeInclusive(from, _) => from,
        };
        let to_change_id = match query {
            Query::RangeInclusive(_, to) => to,
            _ => if seen_any {
                last_id
            } else {
                0
            },
        };
        Some(Changes { merged, from_change_id, to_change_id })
    }
}

/// Appending one record to a log appends it to its account's sub-log.
proof fn lemma_account_log_snoc(log: Seq<ChangeRecord>, account_id: AccountId, collection: Collection)
    requires
        log.len() > 0,
    ensures
        spec_account_log(log, account_id, collection) == spec_account_log(
            log.drop_last(),
            account_id,
            collection,
        ) + (if log.last().account_id == account_id && log.last().collection == collection {
            seq![log.last()]
        } else {
            Seq::<ChangeRecord>::empty()
        }),
    decreases log.len(),
{
    if log.len() == 1 {
        assert(log.drop_last() =~= Seq::<ChangeRecord>::empty());
        assert(log.drop_first() =~= Seq::<ChangeRecord>::empty());
        assert(spec_account_log(log, account_id, collection) =~= spec_account_log(
            log.drop_last(),
            account_id,
            collection,
        ) + (if log.last().account_id == account_id && log.last().collection == collection {
            seq![log.last()]
        } else {
            Seq::<ChangeRecord>::empty()
        }));
    } else {
        lemma_account_log_snoc(log.drop_first(), account_id, collection);
        assert(log.drop_first().drop_last() =~= log.drop_last().drop_first());
        assert(log.drop_first().last() == log.last());
        assert(log.drop_last()[0] == log[0]);
        assert(spec_account_log(log, account_id, collection) =~= spec_account_log(
            log.drop_last(),
            account_id,
            collection,
        ) + (if log.last().account_id == account_id && log.last().collection == collection {
            seq![log.last()]
        } else {
            Seq::<ChangeRecord>::empty()
        }));
    }
}

/// Appending one record to a sub-log appends it to the query's selection
/// when the query keeps it.
proof fn lemma_query_select_snoc(sub: Seq<ChangeRecord>, rec: ChangeRecord, q: Query)
    ensures
        spec_query_select(sub.push(rec), q) == spec_query_select(sub, q) + (if spec_query_keeps(
            q,
            rec.change_id,
        ) {
            seq![rec]
        } else {
            Seq::<ChangeRecord>::empty()
        }),
    decreases sub.len(),
{
    let tail: Seq<ChangeRecord> = if spec_query_keeps(q, rec.change_id) {
        seq![rec]
    } else {
        Seq::<ChangeRecord>::empty()
    };
    if sub.len() == 0 {
        assert(sub.push(rec)[0] == rec);
        assert(sub.push(rec).drop_first() =~= Seq::<ChangeRecord>::empty());
        assert(spec_query_select(sub.push(rec).drop_first(), q) == Seq::<ChangeRecord>::empty());
        assert(spec_query_select(sub, q) == Seq::<ChangeRecord>::empty());
        assert(spec_query_select(sub.push(rec), q) =~= spec_query_select(sub, q) + tail);
    } else {
        lemma_query_select_snoc(sub.drop_first(), rec, q);
        assert(sub.push(rec).drop_first() =~= sub.drop_first().push(rec));
        assert(sub.push(rec)[0] == sub[0]);
        assert(spec_query_select(sub.drop_first().push(rec), q) == spec_query_select(
            sub.drop_first(),
            q,
        ) + tail);
        let head: Seq<ChangeRecord> = if spec_query_keeps(q, sub[0].change_id) {
            seq![sub[0]]
        } else {
            Seq::<ChangeRecord>::empty()
        };
        assert(spec_query_select(sub.push(rec), q) == head + (spec_query_select(
            sub.drop_first(),
            q,
        ) + tail));
        assert(spec_query_select(sub, q) == head + spec_query_select(sub.drop_first(), q));
        assert(head + (spec_query_select(sub.drop_first(), q) + tail) =~= (head
            + spec_query_select(sub.drop_first(), q)) + tail);
    }
}

proof fn lemma_query_known_snoc(sub: Seq<ChangeRecord>, rec: ChangeRecord, q: Query)
    ensures
        spec_query_known(sub.push(rec), q) == (spec_query_known(sub, q) || (match q {
            Query::All => true,
            Query::Since(s) => rec.change_id == s,
            Query::RangeInclusive(from, _) => rec.change_id == from,
        })),
{
    match q {
        Query::All => {},
        Query::Since(s) => {
            if spec_query_known(sub, q) {
                let w = choose|w: int|
                    0 <= w < sub.len() && (#[trigger] sub[w]).change_id == s;
                assert(sub.push(rec)[w] == sub[w]);
            }
            if rec.change_id == s {
                assert(sub.push(rec)[sub.len() as int] == rec);
            }
            if spec_query_known(sub.push(rec), q) {
                let w = choose|w: int|
                    0 <= w < sub.push(rec).len() && (#[trigger] sub.push(rec)[w]).change_id == s;
                if w < sub.len() {
                    assert(sub[w] == sub.push(rec)[w]);
                }
            }
        },
        Query::RangeInclusive(from, _) => {
            if from != 0 {
                if spec_query_known(sub, q) {
                    let w = choose|w: int|
                        0 <= w < sub.len() && (#[trigger] sub[w]).change_id == from;
                    assert(sub.push(rec)[w] == sub[w]);
                }
                if rec.change_id == from {
                    assert(sub.push(rec)[sub.len() as int] == rec);
                }
                if spec_query_known(sub.push(rec), q) {
                    let w = choose|w: int|
                        0 <= w < sub.push(rec).len() && (#[trigger] sub.push(rec)[w]).change_id
                            == from;
                    if w < sub.len() {
                        assert(sub[w] == sub.push(rec)[w]);
                    }
                }
            }
        },
    }
}


/// Ids of one merged set, as JMAP ids ordered by their packed keys.
#[verifier::loop_isolation(false)]
pub(crate) fn set_to_ids(tm: &roaring::RoaringTreemap) -> (r: Vec<u64>)
    ensures
        forall|a: int, b: int|
            0 <= a < b < r@.len() ==> changelog::spec_pack(r@[a]) < changelog::spec_pack(r@[b]),
        forall|a: int|
            0 <= a < r@.len() ==> bitmap::tm(*tm).contains(changelog::spec_pack(#[trigger] r@[a])),
        forall|k: u64| bitmap::tm(*tm).contains(k) ==> r@.contains(spec_unpack(k)),
        r@.len() == bitmap::tm(*tm).len(),
{
    let packed = bitmap::tm_to_vec(tm);
    let n = packed.len();
    let mut out: Vec<u64> = Vec::new();
    let mut i: usize = 0;
    while i < n
        invariant
            i <= n,
            out@.len() == i,
            forall|a: int|
                0 <= a < i ==> out@[a] == spec_unpack(#[trigger] packed@[a]) && changelog::spec_pack(
                    out@[a],
                ) == packed@[a],
        decreases n - i,
    {
        let id = changelog::unpack_id(packed[i]);
        proof {
            changelog::lemma_unpack_pack(packed@[i as int]);
        }
        out.push(id);
        i = i + 1;
    }
    proof {
        assert forall|k: u64| bitmap::tm(*tm).contains(k) implies out@.contains(
            spec_unpack(k),
        ) by {
            assert(packed@.contains(k));
            let w = choose|w: int| 0 <= w < packed@.len() && packed@[w] == k;
            assert(out@[w] == spec_unpack(k));
        }
        assert forall|a: int, b: int|
            0 <= a < b < out@.len() implies changelog::spec_pack(out@[a]) < changelog::spec_pack(
            out@[b],
        ) by {
            assert(changelog::spec_pack(out@[a]) == packed@[a]);
            assert(changelog::spec_pack(out@[b]) == packed@[b]);
        }
        assert forall|a: int|
            0 <= a < out@.len() implies bitmap::tm(*tm).contains(
            changelog::spec_pack(out@[a]),
        ) by {
            assert(changelog::spec_pack(out@[a]) == packed@[a]);
        }
    }
    out
}

/// A clamped window of a list: elements from `lo` to `hi` of the
/// conceptual range `off .. off + len` of the concatenated rows.
#[verifier::loop_isolation(false)]
fn window_slice(v: &Vec<u64>, off: u128, lo: u128, hi: u128) -> (r: Vec<u64>)
    requires
        off <= 0x4_0000_0000_0000_0000,
        lo <= hi,
    ensures
        r@ == v@.subrange(
            spec_clampw(lo as int, off as int, v@.len() as int),
            spec_clampw(hi as int, off as int, v@.len() as int),
        ),
{
    proof {
        assert(spec_clampw(lo as int, off as int, v@.len() as int) <= spec_clampw(
            hi as int,
            off as int,
            v@.len() as int,
        ));
    }
    let n = v.len();
    let a: usize = if lo >= off + n as u128 {
        n
    } else if lo <= off {
        0
    } else {
        (lo - off) as usize
    };
    let b: usize = if hi >= off + n as u128 {
        n
    } else if hi <= off {
        0
    } else {
        (hi - off) as usize
    };
    let mut out: Vec<u64> = Vec::new();
    if a >= b {
        assert(out@ =~= v@.subrange(a as int, b as int));
        return out;
    }
    let mut i: usize = a;
    while i < b
        invariant
            a <= i <= b <= n,
            out@ == v@.subrange(a as int, i as int),
        decreases b - i,
    {
        out.push(v[i]);
        assert(out@ =~= v@.subrange(a as int, i + 1));
        i = i + 1;
    }
    out
}

impl JMAPStore {
    /// Answer a `*/changes` request: read the log range the state token
    /// points at, merge it, and page through the merged rows newest-first
    /// under `max_changes`.  An unknown state id reports
    /// `InvalidArguments`; `max_changes == 0` means unlimited.
    #[verifier::loop_isolation(false)]
    #[verifier::spinoff_prover]
    #[verifier::rlimit(100)]
    pub fn changes(
        &self,
        account_id: AccountId,
        collection: Collection,
        since_state: JMAPState,
        max_changes: usize,
    ) -> (r: Result<ChangesResponse, StoreError>)
        requires
            self.wf(),
        ensures
            ({
                let sub = spec_account_log(self.change_log@, account_id, collection);
                &&& (r is Err) == spec_changes_err(sub, since_state)
                &&& (r matches Err(e) ==> e is InvalidArguments)
                &&& (r matches Ok(resp) ==> spec_changes_response_ok(
                    sub,
                    resp,
                    account_id,
                    since_state,
                    max_changes,
                ))
            }),
    {
        let ghost sub = spec_account_log(self.change_log@, account_id, collection);
        let (items_sent, changes) = match since_state {
            JMAPState::Initial => {
                let ch = match self.get_changes(account_id, collection, Query::All) {
                    Some(ch) => ch,
                    None => {
                        proof {
                            assert(false);
                        }
                        return Err(
                            StoreError::InvalidArguments(
                                String::from_str("The specified state could not be found."),
                            ),
                        );
                    },
                };
                (0usize, ch)
            },
            JMAPState::Exact(change_id) => {
                let ch = match self.get_changes(
                    account_id,
                    collection,
                    Query::Since(change_id),
                ) {
                    Some(ch) => ch,
                    None => {
                        return Err(
                            StoreError::InvalidArguments(
                                String::from_str("The specified state could not be found."),
                            ),
                        );
                    },
                };
                (0usize, ch)
            },
            JMAPState::Intermediate { from_id, to_id, items_sent } => {
                let ch = match self.get_changes(
                    account_id,
                    collection,
                    Query::RangeInclusive(from_id, to_id),
                ) {
                    Some(ch) => ch,
                    None => {
                        return Err(
                            StoreError::InvalidArguments(
                                String::from_str("The specified state could not be found."),
                            ),
                        );
                    },
                };
                let total = bitmap::tm_len(&ch.merged.inserts) as u128 + bitmap::tm_len(
                    &ch.merged.updates,
                ) as u128 + bitmap::tm_len(&ch.merged.child_updates) as u128 + bitmap::tm_len(
                    &ch.merged.deletes,
                ) as u128;
                proof {
                    assert(total == spec_rows(
                        spec_merge_records(
                            spec_query_select(sub, Query::RangeInclusive(from_id, to_id)),
                        ),
                    ));
                }
                if items_sent as u128 >= total {
                    let ch2 = match self.get_changes(
                        account_id,
                        collection,
                        Query::Since(to_id),
                    ) {
                        Some(ch2) => ch2,
                        None => {
                            return Err(
                                StoreError::InvalidArguments(
                                    String::from_str("The specified state could not be found."),
                                ),
                            );
                        },
                    };
                    (0usize, ch2)
                } else {
                    (items_sent, ch)
                }
            },
        };

        let ghost (q_eff, items_eff) = spec_effective_query(sub, since_state);
        proof {
            assert(!spec_changes_err(sub, since_state));
            assert(changes.merged.sets() == spec_merge_records(spec_query_select(sub, q_eff)));
            assert(items_sent as int == items_eff);
            assert(changes.from_change_id == spec_query_from(q_eff));
            assert(changes.to_change_id == spec_query_to(q_eff, sub));
        }
        let resp = build_changes_response(changes, account_id, since_state, items_sent, max_changes);
        Ok(resp)
    }
}

/// Assemble the response from a merged range: page through the rows
/// newest-first under `max_changes`, dropping the `items_sent` newest rows
/// already delivered, and mint the follow-up state token.
#[verifier::spinoff_prover]
#[verifier::rlimit(100)]
fn build_changes_response(
    changes: Changes,
    account_id: AccountId,
    since_state: JMAPState,
    items_sent: usize,
    max_changes: usize,
) -> (resp: ChangesResponse)
    requires
        changes.merged.finite(),
        since_state is Initial ==> changes.from_change_id == 0,
    ensures
        ({
            let sets = changes.merged.sets();
            let rows = spec_rows(sets);
            let remaining: int = if items_sent <= rows {
                rows - items_sent
            } else {
                0
            };
            let truncated = max_changes > 0 && remaining > max_changes;
            let sum: int = resp.created@.len() + resp.updated@.len() + resp.destroyed@.len()
                as int;
            &&& resp.account_id == account_id
            &&& resp.old_state == since_state
            &&& resp.has_more_changes == truncated
            &&& (if since_state is Initial && rows == 0 {
                resp.new_state == JMAPState::Initial
            } else if truncated {
                resp.new_state == (JMAPState::Intermediate {
                    from_id: changes.from_change_id,
                    to_id: changes.to_change_id,
                    items_sent: if items_sent + max_changes <= usize::MAX {
                        (items_sent + max_changes) as usize
                    } else {
                        usize::MAX
                    },
                })
            } else {
                resp.new_state == JMAPState::Exact(changes.to_change_id)
            })
            &&& sum == (if truncated {
                max_changes as int
            } else {
                remaining
            })
            &&& resp.total_changes == (if sum > usize::MAX {
                usize::MAX as int
            } else {
                sum
            })
            &&& spec_lists_within(sets, resp.created@, resp.updated@, resp.destroyed@)
            &&& ((!truncated && items_sent == 0) ==> spec_paged_exact(
                sets,
                resp.created@,
                resp.updated@,
                resp.destroyed@,
            ))
            &&& ((!truncated && items_sent == 0) ==> resp.has_children_changes == (
            resp.updated@.len() > 0 && sets.upd.len() == 0 && resp.created@.len() == 0
                && resp.destroyed@.len() == 0))
            &&& spec_paged_window(
                sets,
                resp.created@,
                resp.updated@,
                resp.destroyed@,
                items_sent as int,
                max_changes as int,
            )
        }),
{
    let paged = page_lists(&changes.merged, items_sent, max_changes);
    if paged.total == 0 && changes.from_change_id == 0 && matches!(
        since_state,
        JMAPState::Initial,
    ) {
        proof {
            assert(paged.created@ =~= Seq::<u64>::empty());
            assert(paged.updated@ =~= Seq::<u64>::empty());
            assert(paged.destroyed@ =~= Seq::<u64>::empty());
        }
        return ChangesResponse {
            account_id,
            total_changes: 0,
            has_more_changes: false,
            has_children_changes: false,
            old_state: since_state,
            new_state: JMAPState::Initial,
            created: Vec::new(),
            updated: Vec::new(),
            destroyed: Vec::new(),
        };
    }
    let tc128: u128 = paged.created.len() as u128 + paged.updated.len() as u128
        + paged.destroyed.len() as u128;
    let total_changes: usize = if tc128 > usize::MAX as u128 {
        usize::MAX
    } else {
        tc128 as usize
    };
    let new_state = if paged.has_more_changes {
        JMAPState::Intermediate {
            from_id: changes.from_change_id,
            to_id: changes.to_change_id,
            items_sent: if items_sent <= usize::MAX - max_changes {
                items_sent + max_changes
            } else {
                usize::MAX
            },
        }
    } else {
        JMAPState::Exact(changes.to_change_id)
    };
    // The flag answers "does this response hold only child updates?"
    // (spec 4.6), so any created or destroyed id clears it.
    let has_children = paged.updated.len() > 0 && !paged.items_changed && paged.created.len() == 0
        && paged.destroyed.len() == 0;
    ChangesResponse {
        account_id,
        total_changes,
        has_more_changes: paged.has_more_changes,
        has_children_changes: has_children,
        old_state: since_state,
        new_state,
        created: paged.created,
        updated: paged.updated,
        destroyed: paged.destroyed,
    }
}

/// The paged id lists of one merged range.
struct PagedLists {
    created: Vec<u64>,
    updated: Vec<u64>,
    destroyed: Vec<u64>,
    has_more_changes: bool,
    items_changed: bool,
    total: u128,
}

/// What full (unpaged) lists enumerate: exactly the merged sets, created
/// ids ordered by document.
pub open spec fn spec_paged_exact(
    sets: MergeSets,
    created: Seq<u64>,
    updated: Seq<u64>,
    destroyed: Seq<u64>,
) -> bool {
    &&& (forall|a: int|
        0 <= a < created.len() ==> sets.ins.contains(
            changelog::spec_pack(#[trigger] created[a]),
        ))
    &&& (forall|k: u64| sets.ins.contains(k) ==> created.contains(spec_unpack(k)))
    &&& (forall|a: int|
        0 <= a < destroyed.len() ==> sets.del.contains(
            changelog::spec_pack(#[trigger] destroyed[a]),
        ))
    &&& (forall|k: u64| sets.del.contains(k) ==> destroyed.contains(spec_unpack(k)))
    &&& (forall|k: u64|
        sets.upd.contains(k) || sets.child.contains(k) ==> updated.contains(spec_unpack(k)))
    &&& (forall|a: int, b: int|
        0 <= a < b < created.len() ==> changelog::spec_pack(created[a]) < changelog::spec_pack(
            created[b],
        ))
}

/// One merged set enumerated exactly, ordered by its packed keys.
pub open spec fn spec_sorted_ids(s: Set<u64>, ids: Seq<u64>) -> bool {
    &&& ids.len() == s.len()
    &&& (forall|a: int| 0 <= a < ids.len() ==> s.contains(changelog::spec_pack(#[trigger] ids[a])))
    &&& (forall|k: u64| s.contains(k) ==> ids.contains(spec_unpack(k)))
    &&& (forall|a: int, b: int|
        0 <= a < b < ids.len() ==> changelog::spec_pack(ids[a]) < changelog::spec_pack(ids[b]))
}

/// What any page holds: with the four sets written out in their packed
/// order and concatenated (created, updated, child updates, destroyed),
/// the page is exactly the row window `[rows - items - max, rows - items)`
/// of that concatenation, clamped at the ends.  Chaining pages therefore
/// walks the concatenation newest-first without gaps or overlaps.
pub open spec fn spec_paged_window(
    sets: MergeSets,
    created: Seq<u64>,
    updated: Seq<u64>,
    destroyed: Seq<u64>,
    items: int,
    max: int,
) -> bool {
    exists|ins: Seq<u64>, upd: Seq<u64>, child: Seq<u64>, del: Seq<u64>|
        #![trigger spec_sorted_ids(sets.ins, ins), spec_sorted_ids(sets.upd, upd), spec_sorted_ids(sets.child, child), spec_sorted_ids(sets.del, del)]
        spec_sorted_ids(sets.ins, ins) && spec_sorted_ids(sets.upd, upd) && spec_sorted_ids(
            sets.child,
            child,
        ) && spec_sorted_ids(sets.del, del) && ({
            let n1 = ins.len() as int;
            let n2 = upd.len() as int;
            let n3 = child.len() as int;
            let n4 = del.len() as int;
            let rows = n1 + n2 + n3 + n4;
            let hi: int = if items <= rows {
                rows - items
            } else {
                0
            };
            let lo: int = if max > 0 && hi > max {
                hi - max
            } else {
                0
            };
            &&& created == ins.subrange(spec_clampw(lo, 0, n1), spec_clampw(hi, 0, n1))
            &&& updated == upd.subrange(spec_clampw(lo, n1, n2), spec_clampw(hi, n1, n2))
                + child.subrange(spec_clampw(lo, n1 + n2, n3), spec_clampw(hi, n1 + n2, n3))
            &&& destroyed == del.subrange(
                spec_clampw(lo, n1 + n2 + n3, n4),
                spec_clampw(hi, n1 + n2 + n3, n4),
            )
        })
}

/// Introduce the window form from the four sorted enumerations and the
/// page's subrange equalities.
proof fn lemma_paged_window_intro(
    sets: MergeSets,
    ins: Seq<u64>,
    upd: Seq<u64>,
    child: Seq<u64>,
    del: Seq<u64>,
    created: Seq<u64>,
    updated: Seq<u64>,
    destroyed: Seq<u64>,
    items: int,
    max: int,
)
    requires
        spec_sorted_ids(sets.ins, ins),
        spec_sorted_ids(sets.upd, upd),
        spec_sorted_ids(sets.child, child),
        spec_sorted_ids(sets.del, del),
        ({
            let n1 = ins.len() as int;
            let n2 = upd.len() as int;
            let n3 = child.len() as int;
            let n4 = del.len() as int;
            let rows = n1 + n2 + n3 + n4;
            let hi: int = if items <= rows {
                rows - items
            } else {
                0
            };
            let lo: int = if max > 0 && hi > max {
                hi - max
            } else {
                0
            };
            &&& created == ins.subrange(spec_clampw(lo, 0, n1), spec_clampw(hi, 0, n1))
            &&& updated == upd.subrange(spec_clampw(lo, n1, n2), spec_clampw(hi, n1, n2))
                + child.subrange(spec_clampw(lo, n1 + n2, n3), spec_clampw(hi, n1 + n2, n3))
            &&& destroyed == del.subrange(
                spec_clampw(lo, n1 + n2 + n3, n4),
                spec_clampw(hi, n1 + n2 + n3, n4),
            )
        }),
    ensures
        spec_paged_window(sets, created, updated, destroyed, items, max),
{
}

/// A coordinate clamped into one window of the concatenated rows:
/// `x` relative to the window at `off` holding `n` rows.
pub open spec fn spec_clampw(x: int, off: int, n: int) -> int {
    if x >= off + n {
        n
    } else if x <= off {
        0
    } else {
        x - off
    }
}

/// The four windows partition the concatenated rows: their clamped widths
/// add up to the clamped whole.
proof fn lemma_clampw_partition(x: int, n1: int, n2: int, n3: int, n4: int)
    requires
        x >= 0,
        n1 >= 0 && n2 >= 0 && n3 >= 0 && n4 >= 0,
    ensures
        spec_clampw(x, 0, n1) + spec_clampw(x, n1, n2) + spec_clampw(x, n1 + n2, n3)
            + spec_clampw(x, n1 + n2 + n3, n4) == (if x <= n1 + n2 + n3 + n4 {
            x
        } else {
            n1 + n2 + n3 + n4
        }),
{
}

/// Page the merged rows newest-first: drop the `items_sent` newest rows
/// already delivered, then keep the newest `max_changes` of the rest.
#[verifier::spinoff_prover]
#[verifier::rlimit(100)]
fn page_lists(merged: &MergedChanges, items_sent: usize, max_changes: usize) -> (r: PagedLists)
    requires
        merged.finite(),
    ensures
        ({
            let sets = merged.sets();
            let rows = spec_rows(sets);
            let remaining: int = if items_sent <= rows {
                rows - items_sent
            } else {
                0
            };
            let truncated = max_changes > 0 && remaining > max_changes;
            &&& r.total == rows
            &&& r.has_more_changes == truncated
            &&& r.created@.len() + r.updated@.len() + r.destroyed@.len() == (if truncated {
                max_changes as int
            } else {
                remaining
            })
            &&& spec_lists_within(sets, r.created@, r.updated@, r.destroyed@)
            &&& ((!truncated && items_sent == 0) ==> spec_paged_exact(
                sets,
                r.created@,
                r.updated@,
                r.destroyed@,
            ))
            &&& ((!truncated && items_sent == 0) ==> r.items_changed == (sets.upd.len() > 0))
            &&& spec_paged_window(
                sets,
                r.created@,
                r.updated@,
                r.destroyed@,
                items_sent as int,
                max_changes as int,
            )
        }),
{
    let created_all = set_to_ids(&merged.inserts);
    let updated_all = set_to_ids(&merged.updates);
    let child_all = set_to_ids(&merged.child_updates);
    let destroyed_all = set_to_ids(&merged.deletes);

    let n1 = created_all.len() as u128;
    let n2 = updated_all.len() as u128;
    let n3 = child_all.len() as u128;
    let n4 = destroyed_all.len() as u128;
    let total: u128 = n1 + n2 + n3 + n4;

    // Drop the rows already sent (the tail), then keep the newest
    // `max_changes` of what is left.
    let hi: u128 = if (items_sent as u128) <= total {
        total - items_sent as u128
    } else {
        0
    };
    let (lo, has_more_changes): (u128, bool) = if max_changes > 0 && hi > max_changes as u128 {
        (hi - max_changes as u128, true)
    } else {
        (0, false)
    };

    let created = window_slice(&created_all, 0, lo, hi);
    let updated_direct = window_slice(&updated_all, n1, lo, hi);
    let updated_child = window_slice(&child_all, n1 + n2, lo, hi);
    let destroyed = window_slice(&destroyed_all, n1 + n2 + n3, lo, hi);

    proof {
        lemma_clampw_partition(hi as int, n1 as int, n2 as int, n3 as int, n4 as int);
        lemma_clampw_partition(lo as int, n1 as int, n2 as int, n3 as int, n4 as int);
        assert(created@.len() == spec_clampw(hi as int, 0, n1 as int) - spec_clampw(
            lo as int,
            0,
            n1 as int,
        ));
        assert(updated_direct@.len() == spec_clampw(hi as int, n1 as int, n2 as int)
            - spec_clampw(lo as int, n1 as int, n2 as int));
        assert(updated_child@.len() == spec_clampw(hi as int, (n1 + n2) as int, n3 as int)
            - spec_clampw(lo as int, (n1 + n2) as int, n3 as int));
        assert(destroyed@.len() == spec_clampw(hi as int, (n1 + n2 + n3) as int, n4 as int)
            - spec_clampw(lo as int, (n1 + n2 + n3) as int, n4 as int));
        assert(created@.len() + updated_direct@.len() + updated_child@.len() + destroyed@.len()
            == hi - lo);
        // Window elements come from the full, in-set, sorted lists.
        assert forall|a: int| 0 <= a < created@.len() implies bitmap::tm(
            merged.inserts,
        ).contains(changelog::spec_pack(#[trigger] created@[a])) by {
            assert(created@[a] == created_all@[a + spec_clampw(lo as int, 0, n1 as int)]);
        }
        assert forall|a: int, b: int| 0 <= a < b < created@.len() implies changelog::spec_pack(
            created@[a],
        ) < changelog::spec_pack(created@[b]) by {
            let sh = spec_clampw(lo as int, 0, n1 as int);
            assert(created@[a] == created_all@[a + sh]);
            assert(created@[b] == created_all@[b + sh]);
        }
        assert forall|a: int| 0 <= a < destroyed@.len() implies bitmap::tm(
            merged.deletes,
        ).contains(changelog::spec_pack(#[trigger] destroyed@[a])) by {
            assert(destroyed@[a] == destroyed_all@[a + spec_clampw(
                lo as int,
                (n1 + n2 + n3) as int,
                n4 as int,
            )]);
        }
        assert forall|a: int, b: int| 0 <= a < b < destroyed@.len() implies changelog::spec_pack(
            destroyed@[a],
        ) < changelog::spec_pack(destroyed@[b]) by {
            let sh = spec_clampw(lo as int, (n1 + n2 + n3) as int, n4 as int);
            assert(destroyed@[a] == destroyed_all@[a + sh]);
            assert(destroyed@[b] == destroyed_all@[b + sh]);
        }
    }

    let items_changed = updated_direct.len() > 0;
    let ghost upd_dir = updated_direct@;
    let mut updated = updated_direct;
    let cn = updated_child.len();
    let mut ci: usize = 0;
    while ci < cn
        invariant
            ci <= cn,
            cn == updated_child@.len(),
            updated@ == upd_dir + updated_child@.take(ci as int),
        decreases cn - ci,
    {
        updated.push(updated_child[ci]);
        assert(updated@ =~= upd_dir + updated_child@.take(ci + 1));
        ci = ci + 1;
    }
    assert(updated_child@.take(cn as int) =~= updated_child@);

    proof {
        assert forall|a: int| 0 <= a < updated@.len() implies bitmap::tm(
            merged.updates,
        ).contains(changelog::spec_pack(#[trigger] updated@[a])) || bitmap::tm(
            merged.child_updates,
        ).contains(changelog::spec_pack(updated@[a])) by {
            if a < upd_dir.len() {
                assert(updated@[a] == upd_dir[a]);
                assert(upd_dir[a] == updated_all@[a + spec_clampw(
                    lo as int,
                    n1 as int,
                    n2 as int,
                )]);
            } else {
                assert(updated@[a] == updated_child@[a - upd_dir.len()]);
                assert(updated_child@[a - upd_dir.len()] == child_all@[(a - upd_dir.len())
                    + spec_clampw(lo as int, (n1 + n2) as int, n3 as int)]);
            }
        }
        if !has_more_changes && items_sent == 0 {
            assert(lo == 0 && hi == total);
            assert(created@ =~= created_all@);
            assert(upd_dir =~= updated_all@);
            assert(updated_child@ =~= child_all@);
            assert(destroyed@ =~= destroyed_all@);
            assert forall|k: u64|
                bitmap::tm(merged.updates).contains(k) || bitmap::tm(
                    merged.child_updates,
                ).contains(k) implies updated@.contains(spec_unpack(k)) by {
                if bitmap::tm(merged.updates).contains(k) {
                    let w = choose|w: int|
                        0 <= w < updated_all@.len() && updated_all@[w] == spec_unpack(k);
                    assert(updated@[w] == spec_unpack(k));
                } else {
                    let w = choose|w: int|
                        0 <= w < child_all@.len() && child_all@[w] == spec_unpack(k);
                    assert(updated@[updated_all@.len() + w] == spec_unpack(k));
                }
            }
        }
        // The page is exactly the `[lo, hi)` window of the concatenated
        // sorted enumerations.
        assert(spec_sorted_ids(merged.sets().ins, created_all@));
        assert(spec_sorted_ids(merged.sets().upd, updated_all@));
        assert(spec_sorted_ids(merged.sets().child, child_all@));
        assert(spec_sorted_ids(merged.sets().del, destroyed_all@));
        assert(updated@ == updated_all@.subrange(
            spec_clampw(lo as int, n1 as int, n2 as int),
            spec_clampw(hi as int, n1 as int, n2 as int),
        ) + child_all@.subrange(
            spec_clampw(lo as int, (n1 + n2) as int, n3 as int),
            spec_clampw(hi as int, (n1 + n2) as int, n3 as int),
        ));
        lemma_paged_window_intro(
            merged.sets(),
            created_all@,
            updated_all@,
            child_all@,
            destroyed_all@,
            created@,
            updated@,
            destroyed@,
            items_sent as int,
            max_changes as int,
        );
    }
    PagedLists { created, updated, destroyed, has_more_changes, items_changed, total }
}



/// The number of merged rows a range holds: its created, updated,
/// child-updated and destroyed documents together.
pub open spec fn spec_rows(sets: MergeSets) -> int {
    sets.ins.len() + sets.upd.len() + sets.child.len() + sets.del.len() as int
}

/// The last change id of a sub-log, zero when it is empty.
pub open spec fn spec_sub_last(sub: Seq<ChangeRecord>) -> ChangeId {
    if sub.len() > 0 {
        sub.last().change_id
    } else {
        0
    }
}

/// The query a state token resolves to, and how many of its merged rows
/// the client has already received.  A fully drained intermediate range
/// continues as a fresh read past its end id.
pub open spec fn spec_effective_query(sub: Seq<ChangeRecord>, since_state: JMAPState) -> (
    Query,
    int,
) {
    match since_state {
        JMAPState::Initial => (Query::All, 0int),
        JMAPState::Exact(s) => (Query::Since(s), 0int),
        JMAPState::Intermediate { from_id, to_id, items_sent } => {
            let range = Query::RangeInclusive(from_id, to_id);
            if items_sent >= spec_rows(spec_merge_records(spec_query_select(sub, range))) {
                (Query::Since(to_id), 0int)
            } else {
                (range, items_sent as int)
            }
        },
    }
}

/// When a state token is rejected: its anchor id — and, for a drained
/// intermediate range, the continuation's anchor — must be known to the
/// log.
pub open spec fn spec_changes_err(sub: Seq<ChangeRecord>, since_state: JMAPState) -> bool {
    match since_state {
        JMAPState::Initial => false,
        JMAPState::Exact(s) => !spec_query_known(sub, Query::Since(s)),
        JMAPState::Intermediate { from_id, to_id, items_sent } => {
            let range = Query::RangeInclusive(from_id, to_id);
            if !spec_query_known(sub, range) {
                true
            } else if items_sent >= spec_rows(
                spec_merge_records(spec_query_select(sub, range)),
            ) {
                !spec_query_known(sub, Query::Since(to_id))
            } else {
                false
            }
        },
    }
}

pub open spec fn spec_query_from(q: Query) -> ChangeId {
    match q {
        Query::All => 0,
        Query::Since(s) => s,
        Query::RangeInclusive(f, _) => f,
    }
}

pub open spec fn spec_query_to(q: Query, sub: Seq<ChangeRecord>) -> ChangeId {
    match q {
        Query::RangeInclusive(_, t) => t,
        _ => spec_sub_last(sub),
    }
}

/// Every listed id belongs to its merged set, and the created and
/// destroyed lists are ordered by their packed keys.
pub open spec fn spec_lists_within(
    sets: MergeSets,
    created: Seq<u64>,
    updated: Seq<u64>,
    destroyed: Seq<u64>,
) -> bool {
    &&& (forall|a: int|
        0 <= a < created.len() ==> sets.ins.contains(changelog::spec_pack(#[trigger] created[a])))
    &&& (forall|a: int|
        0 <= a < updated.len() ==> sets.upd.contains(changelog::spec_pack(#[trigger] updated[a]))
            || sets.child.contains(changelog::spec_pack(updated[a])))
    &&& (forall|a: int|
        0 <= a < destroyed.len() ==> sets.del.contains(
            changelog::spec_pack(#[trigger] destroyed[a]),
        ))
    &&& (forall|a: int, b: int|
        0 <= a < b < created.len() ==> changelog::spec_pack(created[a]) < changelog::spec_pack(
            created[b],
        ))
    &&& (forall|a: int, b: int|
        0 <= a < b < destroyed.len() ==> changelog::spec_pack(destroyed[a]) < changelog::spec_pack(
            destroyed[b],
        ))
}

/// What a successful changes response guarantees.  The state token
/// resolves to an effective query over the account's sub-log; the response
/// flags, the new state token and the list sizes are all functions of that
/// range, and an untruncated read of a fresh range lists exactly its
/// merged created, updated and destroyed documents.
pub open spec fn spec_changes_response_ok(
    sub: Seq<ChangeRecord>,
    resp: ChangesResponse,
    account_id: AccountId,
    since_state: JMAPState,
    max_changes: usize,
) -> bool {
    let (q, items) = spec_effective_query(sub, since_state);
    let sets = spec_merge_records(spec_query_select(sub, q));
    let rows = spec_rows(sets);
    let from = spec_query_from(q);
    let to = spec_query_to(q, sub);
    let remaining: int = if items <= rows {
        rows - items
    } else {
        0
    };
    let truncated = max_changes > 0 && remaining > max_changes;
    let sum: int = resp.created@.len() + resp.updated@.len() + resp.destroyed@.len() as int;
    &&& resp.account_id == account_id
    &&& resp.old_state == since_state
    &&& resp.has_more_changes == truncated
    &&& (if since_state is Initial && rows == 0 {
        resp.new_state == JMAPState::Initial
    } else if truncated {
        resp.new_state == (JMAPState::Intermediate {
            from_id: from,
            to_id: to,
            items_sent: if items + max_changes <= usize::MAX {
                (items + max_changes) as usize
            } else {
                usize::MAX
            },
        })
    } else {
        resp.new_state == JMAPState::Exact(to)
    })
    &&& sum == (if truncated {
        max_changes as int
    } else {
        remaining
    })
    &&& resp.total_changes == (if sum > usize::MAX {
        usize::MAX as int
    } else {
        sum
    })
    &&& spec_lists_within(sets, resp.created@, resp.updated@, resp.destroyed@)
    &&& ((!truncated && items == 0) ==> spec_paged_exact(
        sets,
        resp.created@,
        resp.updated@,
        resp.destroyed@,
    ))
    &&& ((!truncated && items == 0) ==> resp.has_children_changes == (resp.updated@.len() > 0
        && sets.upd.len() == 0 && resp.created@.len() == 0 && resp.destroyed@.len() == 0))
    &&& spec_paged_window(
        sets,
        resp.created@,
        resp.updated@,
        resp.destroyed@,
        items,
        max_changes as int,
    )
}


/// Four id lists enumerating the four merged sets exactly, each ordered
/// by its packed keys.
pub open spec fn spec_lists_enumerate(
    sets: MergeSets,
    ins: Seq<u64>,
    upd: Seq<u64>,
    child: Seq<u64>,
    del: Seq<u64>,
) -> bool {
    &&& (forall|a: int|
        0 <= a < ins.len() ==> sets.ins.contains(changelog::spec_pack(#[trigger] ins[a])))
    &&& (forall|k: u64| sets.ins.contains(k) ==> ins.contains(spec_unpack(k)))
    &&& (forall|a: int|
        0 <= a < upd.len() ==> sets.upd.contains(changelog::spec_pack(#[trigger] upd[a])))
    &&& (forall|k: u64| sets.upd.contains(k) ==> upd.contains(spec_unpack(k)))
    &&& (forall|a: int|
        0 <= a < child.len() ==> sets.child.contains(changelog::spec_pack(#[trigger] child[a])))
    &&& (forall|k: u64| sets.child.contains(k) ==> child.contains(spec_unpack(k)))
    &&& (forall|a: int|
        0 <= a < del.len() ==> sets.del.contains(changelog::spec_pack(#[trigger] del[a])))
    &&& (forall|k: u64| sets.del.contains(k) ==> del.contains(spec_unpack(k)))
    &&& (forall|a: int, b: int|
        0 <= a < b < ins.len() ==> changelog::spec_pack(ins[a]) < changelog::spec_pack(ins[b]))
}

/// Selecting everything keeps the sub-log unchanged.
pub proof fn lemma_select_all(sub: Seq<ChangeRecord>)
    ensures
        spec_query_select(sub, Query::All) == sub,
    decreases sub.len(),
{
    if sub.len() > 0 {
        lemma_select_all(sub.drop_first());
        assert(spec_query_select(sub, Query::All) =~= sub);
    } else {
        assert(spec_query_select(sub, Query::All) =~= sub);
    }
}

/// Fold a record range into merged sets starting from an earlier state.
pub open spec fn spec_merge_records_from(st: MergeSets, records: Seq<ChangeRecord>) -> MergeSets
    decreases records.len(),
{
    if records.len() == 0 {
        st
    } else {
        let (ins, upd, child, del) = spec_parsed_lists(records.last());
        spec_apply_entry(
            spec_merge_records_from(st, records.drop_last()),
            ins,
            upd,
            child,
            del,
        )
    }
}

/// Replay equivalence: merging a whole write history equals merging its
/// first part and folding the remaining per-step changes on top.  The
/// observable created, updated and destroyed sets of a range therefore
/// compose step by step.
pub proof fn lemma_merge_replay_equivalence(r1: Seq<ChangeRecord>, r2: Seq<ChangeRecord>)
    ensures
        spec_merge_records(r1 + r2) == spec_merge_records_from(spec_merge_records(r1), r2),
    decreases r2.len(),
{
    if r2.len() == 0 {
        assert(r1 + r2 =~= r1);
        lemma_merge_from_base(r1);
    } else {
        assert((r1 + r2).drop_last() =~= r1 + r2.drop_last());
        assert((r1 + r2).last() == r2.last());
        lemma_merge_replay_equivalence(r1, r2.drop_last());
    }
}

/// Merging a range is folding it onto the empty state.
proof fn lemma_merge_from_base(records: Seq<ChangeRecord>)
    ensures
        spec_merge_records(records) == spec_merge_records_from(
            spec_merge_records(records),
            Seq::<ChangeRecord>::empty(),
        ),
{
}

impl JMAPStore {
    /// Compact one collection's change log: its records collapse into a
    /// single record, bearing the last change id, whose lists enumerate
    /// the merged created, updated and destroyed documents.  Replaying
    /// from `Initial` observes the same sets as before.  Intermediate
    /// state ids vanish; a later read with one reports `InvalidArguments`.
    #[verifier::spinoff_prover]
    #[verifier::rlimit(100)]
    pub fn compact_log(&mut self, account_id: AccountId, collection: Collection)
        requires
            old(self).wf(),
        ensures
            final(self).wf(),
            final(self).bitmaps == old(self).bitmaps,
            final(self).values == old(self).values,
            final(self).raft_log == old(self).raft_log,
            final(self).change_counters == old(self).change_counters,
            forall|a2: AccountId, c2: Collection|
                !(a2 == account_id && c2 == collection) ==> spec_account_log(
                    final(self).change_log@,
                    a2,
                    c2,
                ) == spec_account_log(old(self).change_log@, a2, c2),
            ({
                let sub = spec_account_log(old(self).change_log@, account_id, collection);
                let newsub = spec_account_log(final(self).change_log@, account_id, collection);
                sub.len() == 0 ==> newsub =~= sub
            }),
            ({
                let sub = spec_account_log(old(self).change_log@, account_id, collection);
                let newsub = spec_account_log(final(self).change_log@, account_id, collection);
                sub.len() > 0 ==> newsub.len() == 1 && newsub[0].account_id == account_id
                    && newsub[0].collection == collection && newsub[0].change_id
                    == sub.last().change_id && (match changelog::spec_parse_payload(
                    newsub[0].payload@,
                ) {
                    Option::Some((ins, upd, child, del)) => spec_lists_enumerate(
                        spec_merge_records(sub),
                        ins,
                        upd,
                        child,
                        del,
                    ),
                    Option::None => false,
                })
            }),
    {
        let last_id = match self.get_last_change_id(account_id, collection) {
            Some(id) => id,
            None => {
                return ;
            },
        };
        let changes = match self.get_changes(account_id, collection, Query::All) {
            Some(ch) => ch,
            None => {
                proof {
                    assert(false);
                }
                return ;
            },
        };
        let payload = Self::compacted_payload_inner(&changes.merged);
        proof {
            lemma_select_all(spec_account_log(self.change_log@, account_id, collection));
        }
        let rec = ChangeRecord { account_id, collection, change_id: last_id, payload };
        proof {
            lemma_account_log_members(self.change_log@, account_id, collection);
            lemma_account_log_fields(self.change_log@, account_id, collection);
            let sub = spec_account_log(self.change_log@, account_id, collection);
            assert(sub[sub.len() - 1] == sub.last());
            let w = choose|w: int|
                0 <= w < self.change_log@.len() && self.change_log@[w] == sub[sub.len() - 1];
            assert(self.change_log@[w].change_id <= spec_ctr_row(
                self.change_counters@,
                (self.change_log@[w].account_id, self.change_log@[w].collection),
            ));
        }
        self.replace_pair_log(account_id, collection, rec);
    }

    /// Serialize the merged view of a range as one entry payload, its four
    /// lists enumerating the merged sets.
    #[verifier::spinoff_prover]
    #[verifier::rlimit(100)]
    fn compacted_payload_inner(merged: &MergedChanges) -> (r: Vec<u8>)
        requires
            merged.finite(),
        ensures
            ({
                match changelog::spec_parse_payload(r@) {
                    Option::Some((ins, upd, child, del)) => spec_lists_enumerate(
                        merged.sets(),
                        ins,
                        upd,
                        child,
                        del,
                    ),
                    Option::None => false,
                }
            }),
    {
        let lists = ChangeLists {
            inserts: set_to_ids(&merged.inserts),
            updates: set_to_ids(&merged.updates),
            child_updates: set_to_ids(&merged.child_updates),
            deletes: set_to_ids(&merged.deletes),
        };
        let _l1 = lists.inserts.len();
        let _l2 = lists.updates.len();
        let _l3 = lists.child_updates.len();
        let _l4 = lists.deletes.len();
        let payload = lists.serialize();
        proof {
            changelog::lemma_payload_round_trip(
                lists.inserts@,
                lists.updates@,
                lists.child_updates@,
                lists.deletes@,
            );
        }
        payload
    }

    /// Replace every record of one account and collection with a single
    /// record appended at the end of the log.
    #[verifier::spinoff_prover]
    #[verifier::rlimit(100)]
    fn replace_pair_log(
        &mut self,
        account_id: AccountId,
        collection: Collection,
        rec: ChangeRecord,
    )
        requires
            old(self).wf(),
            rec.account_id == account_id,
            rec.collection == collection,
            changelog::spec_parse_payload(rec.payload@) is Some,
            rec.change_id <= spec_ctr_row(old(self).change_counters@, (account_id, collection)),
        ensures
            final(self).wf(),
            final(self).bitmaps == old(self).bitmaps,
            final(self).values == old(self).values,
            final(self).raft_log == old(self).raft_log,
            final(self).change_counters == old(self).change_counters,
            forall|a2: AccountId, c2: Collection|
                !(a2 == account_id && c2 == collection) ==> spec_account_log(
                    final(self).change_log@,
                    a2,
                    c2,
                ) == spec_account_log(old(self).change_log@, a2, c2),
            spec_account_log(final(self).change_log@, account_id, collection) == seq![rec],
    {
        let ghost orig = self.change_log@;
        let mut kept: Vec<ChangeRecord> = Vec::new();
        let ghost mut i: int = 0;
        while self.change_log.len() > 0
            invariant
                0 <= i <= orig.len(),
                self.change_log@ =~= orig.skip(i),
                self.bitmaps == old(self).bitmaps,
                self.values == old(self).values,
                self.indexes == old(self).indexes,
                self.blobs == old(self).blobs,
                self.blob_refs == old(self).blob_refs,
                self.raft_log == old(self).raft_log,
                self.change_counters == old(self).change_counters,
                self.term_indexes == old(self).term_indexes,
                self.blob_links == old(self).blob_links,
                self.raft_term == old(self).raft_term,
                self.raft_index == old(self).raft_index,
                orig == old(self).change_log@,
                old(self).wf(),
                spec_account_log(kept@, account_id, collection) =~= Seq::<ChangeRecord>::empty(),
                forall|a2: AccountId, c2: Collection|
                    !(a2 == account_id && c2 == collection) ==> spec_account_log(kept@, a2, c2)
                        =~= spec_account_log(orig.take(i), a2, c2),
                spec_change_log_sorted(kept@),
                forall|q: int|
                    0 <= q < kept@.len() ==> changelog::spec_parse_payload(
                        (#[trigger] kept@[q]).payload@,
                    ) is Some,
                forall|q: int|
                    0 <= q < kept@.len() ==> !((#[trigger] kept@[q]).account_id == account_id
                        && kept@[q].collection == collection),
                forall|q: int|
                    0 <= q < kept@.len() ==> (#[trigger] kept@[q]).change_id <= spec_ctr_row(
                        old(self).change_counters@,
                        (kept@[q].account_id, kept@[q].collection),
                    ),
                forall|q: int| #![trigger kept@[q]]
                    0 <= q < kept@.len() ==> exists|w: int|
                        0 <= w < orig.take(i).len() && (#[trigger] orig.take(i)[w])
                            == kept@[q],
            decreases self.change_log@.len(),
        {
            let r0 = self.change_log.remove(0);
            let ghost kept0 = kept@;
            proof {
                assert(orig.skip(i)[0] == orig[i]);
                assert(orig.skip(i).remove(0) =~= orig.skip(i + 1));
                assert(orig.take(i + 1).drop_last() =~= orig.take(i));
                assert(orig.take(i + 1).last() == orig[i]);
            }
            if !(r0.account_id == account_id && r0.collection == collection) {
                kept.push(r0);
                proof {
                    assert(kept@.drop_last() =~= kept0);
                    lemma_account_log_snoc(kept@, account_id, collection);
                    assert forall|q: int| #![trigger kept@[q]]
                        0 <= q < kept@.len() implies exists|w: int|
                        0 <= w < orig.take(i + 1).len() && (#[trigger] orig.take(i + 1)[w])
                            == kept@[q] by {
                        if q < kept0.len() {
                            let w = choose|w: int|
                                0 <= w < orig.take(i).len() && (#[trigger] orig.take(i)[w])
                                    == kept0[q];
                            assert(orig.take(i + 1)[w] == kept@[q]);
                        } else {
                            assert(orig.take(i + 1)[i] == kept@[q]);
                        }
                    }
                    assert forall|q1: int, q2: int|
                        0 <= q1 < q2 < kept@.len() && kept@[q1].account_id == kept@[q2].account_id
                            && kept@[q1].collection == kept@[q2].collection implies kept@[q1].change_id
                        < kept@[q2].change_id by {
                        if q2 == kept@.len() - 1 {
                            let w = choose|w: int|
                                0 <= w < orig.take(i).len() && (#[trigger] orig.take(i)[w])
                                    == kept0[q1];
                            assert(orig[w] == kept@[q1]);
                            assert(orig[i] == kept@[q2]);
                        }
                    }
                    assert forall|a2: AccountId, c2: Collection|
                        !(a2 == account_id && c2 == collection) implies spec_account_log(
                        kept@,
                        a2,
                        c2,
                    ) =~= spec_account_log(orig.take(i + 1), a2, c2) by {
                        lemma_account_log_snoc(kept@, a2, c2);
                        lemma_account_log_snoc(orig.take(i + 1), a2, c2);
                        assert(kept@.drop_last() =~= kept0);
                    }
                }
            } else {
                proof {
                    assert forall|a2: AccountId, c2: Collection|
                        !(a2 == account_id && c2 == collection) implies spec_account_log(
                        kept@,
                        a2,
                        c2,
                    ) =~= spec_account_log(orig.take(i + 1), a2, c2) by {
                        lemma_account_log_snoc(orig.take(i + 1), a2, c2);
                    }
                }
            }
            proof {
                i = i + 1;
            }
        }
        proof {
            assert(orig.take(orig.len() as int) =~= orig);
        }
        let ghost keptv = kept@;
        kept.push(rec);
        proof {
            assert forall|a2: AccountId, c2: Collection|
                !(a2 == account_id && c2 == collection) implies spec_account_log(kept@, a2, c2)
                =~= spec_account_log(keptv, a2, c2) by {
                lemma_account_log_snoc(kept@, a2, c2);
                assert(kept@.drop_last() =~= keptv);
            }
            lemma_account_log_snoc(kept@, account_id, collection);
            assert(kept@.drop_last() =~= keptv);
            assert(spec_account_log(kept@, account_id, collection) =~= seq![rec]);
            lemma_account_log_members(orig, account_id, collection);
            assert(rec.change_id <= spec_ctr_row(
                self.change_counters@,
                (account_id, collection),
            ));
            assert(spec_change_log_sorted(kept@)) by {
                assert(forall|q: int|
                    0 <= q < keptv.len() ==> !((#[trigger] keptv[q]).account_id == account_id
                        && keptv[q].collection == collection));
            }
        }
        self.change_log = kept;
        proof {
            assert forall|a2: AccountId, c2: Collection|
                !(a2 == account_id && c2 == collection) implies spec_account_log(
                self.change_log@,
                a2,
                c2,
            ) == spec_account_log(orig, a2, c2) by {
                assert(spec_account_log(kept@, a2, c2) =~= spec_account_log(keptv, a2, c2));
                assert(spec_account_log(keptv, a2, c2) =~= spec_account_log(
                    orig.take(orig.len() as int),
                    a2,
                    c2,
                ));
            }
        }
    }
}

/// Every record of a sub-log carries its account and collection.
proof fn lemma_account_log_fields(log: Seq<ChangeRecord>, account_id: AccountId, collection: Collection)
    ensures
        forall|q: int|
            0 <= q < spec_account_log(log, account_id, collection).len() ==> (
            #[trigger] spec_account_log(log, account_id, collection)[q]).account_id == account_id
                && spec_account_log(log, account_id, collection)[q].collection == collection,
    decreases log.len(),
{
    if log.len() > 0 {
        lemma_account_log_fields(log.drop_first(), account_id, collection);
        let sub = spec_account_log(log, account_id, collection);
        let subr = spec_account_log(log.drop_first(), account_id, collection);
        let head_len: int = if log[0].account_id == account_id && log[0].collection == collection {
            1
        } else {
            0
        };
        assert forall|q: int| 0 <= q < sub.len() implies (#[trigger] sub[q]).account_id
            == account_id && sub[q].collection == collection by {
            if q >= head_len {
                assert(sub[q] == subr[q - head_len]);
            }
        }
    }
}

/// Every record of an account's sub-log appears in the log, so its change
/// id is bounded by the pair's counter in a well-formed store.
proof fn lemma_account_log_members(log: Seq<ChangeRecord>, account_id: AccountId, collection: Collection)
    ensures
        forall|q: int|
            0 <= q < spec_account_log(log, account_id, collection).len() ==> exists|w: int|
                0 <= w < log.len() && log[w] == #[trigger] spec_account_log(
                    log,
                    account_id,
                    collection,
                )[q],
    decreases log.len(),
{
    if log.len() > 0 {
        lemma_account_log_members(log.drop_first(), account_id, collection);
        let sub = spec_account_log(log, account_id, collection);
        let head_len: int = if log[0].account_id == account_id && log[0].collection == collection {
            1
        } else {
            0
        };
        assert forall|q: int| 0 <= q < sub.len() implies exists|w: int|
            0 <= w < log.len() && log[w] == #[trigger] sub[q] by {
            if q < head_len {
                assert(log[0] == sub[q]);
            } else {
                let subr = spec_account_log(log.drop_first(), account_id, collection);
                assert(sub[q] == subr[q - head_len]);
                let w = choose|w: int|
                    0 <= w < log.drop_first().len() && log.drop_first()[w] == subr[q - head_len];
                assert(log[w + 1] == sub[q]);
            }
        }
    }
}

} // verus!

