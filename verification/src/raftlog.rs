//! Raft log entries: term-and-index ids with their on-disk key layout, the
//! per-entry payload listing which collections changed, and the merged view
//! of pending changes used during rollback and replication.

use vstd::prelude::*;

use crate::bitmap;
use crate::leb128;
use crate::serialize;
use crate::types::{AccountId, ChangeId, Collection};

verus! {

use crate::leb128::{spec_leb128, spec_leb128_read, write_leb128, read_leb128};
use crate::serialize::{spec_be_u64, spec_be_u64_read, INTERNAL_KEY_PREFIX};

pub type TermId = u64;

pub type LogIndex = u64;

/// Identifier of a replicated log entry, ordered by term then index.
/// `(u64::MAX, u64::MAX)` is the reserved "none" sentinel.
#[derive(Debug, Clone, Copy, PartialEq, Eq, Structural)]
pub struct RaftId {
    pub term: TermId,
    pub index: LogIndex,
}

impl Default for RaftId {
    fn default() -> (r: Self)
        ensures
            r == (RaftId { term: 0, index: 0 }),
    {
        RaftId { term: 0, index: 0 }
    }
}

/// Strict `(term, index)` lexicographic order.
pub open spec fn spec_raft_id_lt(a: RaftId, b: RaftId) -> bool {
    a.term < b.term || (a.term == b.term && a.index < b.index)
}

/// Serialized key of a Raft entry: the internal prefix byte, then the term
/// and index big-endian, so byte order equals `(term, index)` order.
pub open spec fn spec_raft_key(id: RaftId) -> Seq<u8> {
    seq![INTERNAL_KEY_PREFIX] + spec_be_u64(id.term) + spec_be_u64(id.index)
}

impl RaftId {
    pub fn new(term: TermId, index: LogIndex) -> (r: Self)
        ensures
            r == (RaftId { term, index }),
    {
        Self { term, index }
    }

    /// The id of the first possible entry.
    pub fn first() -> (r: Self)
        ensures
            r == (RaftId { term: 0, index: 0 }),
    {
        Self { term: 0, index: 0 }
    }

    /// The reserved sentinel meaning "no entry".
    pub fn none() -> (r: Self)
        ensures
            r == (RaftId { term: u64::MAX, index: u64::MAX }),
    {
        Self { term: u64::MAX, index: u64::MAX }
    }

    pub fn is_none(&self) -> (r: bool)
        ensures
            r == (self.term == u64::MAX && self.index == u64::MAX),
    {
        self.term == u64::MAX && self.index == u64::MAX
    }

    /// Parse a serialized key; `None` when the bytes are too short.
    pub fn deserialize_key(bytes: &[u8]) -> (r: Option<Self>)
        ensures
            r matches Some(id) ==> bytes@.len() >= 17 && id.term == spec_be_u64_read(bytes@, 1)
                && id.index == spec_be_u64_read(bytes@, 9),
            r is None ==> bytes@.len() < 17,
    {
        if bytes.len() < 17 {
            return None;
        }
        Some(
            RaftId {
                term: serialize::read_be_u64(bytes, 1),
                index: serialize::read_be_u64(bytes, 9),
            },
        )
    }

    /// Serialized 17-byte key of this id.
    pub fn serialize_key(&self) -> (r: Vec<u8>)
        ensures
            r@ == spec_raft_key(*self),
    {
        let mut bytes: Vec<u8> = Vec::new();
        bytes.push(serialize::INTERNAL_KEY_PREFIX);
        serialize::write_be_u64(&mut bytes, self.term);
        serialize::write_be_u64(&mut bytes, self.index);
        assert(bytes@ =~= spec_raft_key(*self));
        bytes
    }
}

/// The serialized key parses back to the id it was made from.
pub proof fn lemma_raft_key_round_trip(id: RaftId)
    ensures
        spec_raft_key(id).len() == 17,
        spec_be_u64_read(spec_raft_key(id), 1) == id.term,
        spec_be_u64_read(spec_raft_key(id), 9) == id.index,
{
    serialize::lemma_be_u64_round_trip(id.term);
    serialize::lemma_be_u64_round_trip(id.index);
    let k = spec_raft_key(id);
    assert forall|j: int| 0 <= j < 8 implies k[1 + j] == spec_be_u64(id.term)[j] by {}
    assert forall|j: int| 0 <= j < 8 implies k[9 + j] == spec_be_u64(id.index)[j] by {}
}

/// One collection's change id inside a Raft entry.
#[derive(Debug, Clone, Copy, PartialEq, Eq, Structural)]
pub struct Change {
    pub change_id: ChangeId,
    pub collection: Collection,
}

/// A replicated log entry: which collections of which account changed, and
/// under which per-collection change ids.
#[derive(Debug, Clone, PartialEq, Eq)]
pub struct Entry {
    pub raft_id: RaftId,
    pub account_id: AccountId,
    pub changes: Vec<Change>,
}

/// Payload bytes of a change list: one collection tag byte, then the change
/// id, per change.
pub open spec fn spec_changes_bytes(changes: Seq<Change>) -> Seq<u8>
    decreases changes.len(),
{
    if changes.len() == 0 {
        Seq::<u8>::empty()
    } else {
        seq![crate::types::spec_collection_u8(changes[0].collection)] + spec_leb128(
            changes[0].change_id as nat,
        ) + spec_changes_bytes(changes.drop_first())
    }
}

/// Payload bytes of an entry: account id, change count, then the changes.
pub open spec fn spec_entry_bytes(account_id: AccountId, changes: Seq<Change>) -> Seq<u8> {
    spec_leb128(account_id as nat) + spec_leb128(changes.len()) + spec_changes_bytes(changes)
}

impl Entry {
    /// Serialize the payload (the raft id lives in the key, not here).
    pub fn serialize(&self) -> (r: Vec<u8>)
        ensures
            r@ == spec_entry_bytes(self.account_id, self.changes@),
    {
        let mut bytes: Vec<u8> = Vec::new();
        write_leb128(&mut bytes, self.account_id as u64);
        write_leb128(&mut bytes, self.changes.len() as u64);
        let n = self.changes.len();
        let mut k: usize = 0;
        while k < n
            invariant
                n == self.changes@.len(),
                k <= n,
                bytes@ == spec_leb128(self.account_id as nat) + spec_leb128(n as nat)
                    + spec_changes_bytes(self.changes@.take(k as int)),
            decreases n - k,
        {
            let c = self.changes[k];
            bytes.push(c.collection.to_u8());
            write_leb128(&mut bytes, c.change_id);
            proof {
                lemma_changes_bytes_snoc(self.changes@.take(k + 1));
                assert(self.changes@.take(k + 1).drop_last() =~= self.changes@.take(k as int));
                assert(self.changes@.take(k + 1).last() == c);
                assert(bytes@ =~= spec_leb128(self.account_id as nat) + spec_leb128(n as nat)
                    + spec_changes_bytes(self.changes@.take(k + 1)));
            }
            k = k + 1;
        }
        assert(self.changes@.take(n as int) =~= self.changes@);
        bytes
    }

    /// Parse a payload read from the log; `None` on truncated bytes.
    #[verifier::loop_isolation(false)]
    pub fn deserialize(value: &[u8], raft_id: RaftId) -> (r: Option<Self>)
        ensures
            r matches Some(e) ==> e.raft_id == raft_id && spec_parse_entry(value@) == Some(
                (e.account_id, e.changes@),
            ),
            r is None ==> spec_parse_entry(value@) is None,
    {
        let value_len = value.len();
        let (account_u64, mut pos) = match read_leb128(value, 0) {
            Some(p) => p,
            None => {
                return None;
            },
        };
        if account_u64 > u32::MAX as u64 {
            return None;
        }
        let account_id = account_u64 as u32;
        let ghost firstpos = pos as int;
        let (total, pos2) = match read_leb128(value, pos) {
            Some(p) => p,
            None => {
                proof {
                    if spec_leb128_read(value@, pos as int) is Some {
                        let (sv, sj) = spec_leb128_read(value@, pos as int).unwrap();
                        crate::leb128::lemma_leb128_read_advances(value@, pos as int);
                        lemma_parse_changes_needs_bytes(value@, sj, sv);
                    }
                }
                return None;
            },
        };
        pos = pos2;
        let ghost startpos = pos as int;
        let mut changes: Vec<Change> = Vec::new();
        let mut left = total;
        proof {
            lemma_parse_agrees_init(value@, startpos, total as nat);
        }
        while left > 0
            invariant
                pos <= value@.len(),
                left <= total,
                parse_rest_agrees(value@, startpos, total as nat, changes@, pos as int, left as nat),
            decreases left,
        {
            if pos >= value.len() {
                return None;
            }
            let col = crate::types::Collection::from_u8(value[pos]);
            let (cid, npos) = match read_leb128(value, pos + 1) {
                Some(p) => p,
                None => {
                    return None;
                },
            };
            proof {
                lemma_parse_agrees_step(
                    value@,
                    startpos,
                    total as nat,
                    changes@,
                    pos as int,
                    left as nat,
                );
                crate::leb128::lemma_leb128_read_advances(value@, pos + 1);
            }
            changes.push(Change { change_id: cid, collection: col });
            pos = npos;
            left = left - 1;
        }
        assert(changes@ + Seq::<Change>::empty() =~= changes@);
        Some(Entry { raft_id, account_id, changes })
    }
}

/// Parsing the whole change list from `startpos` equals the `consumed`
/// changes already read plus whatever parsing `left` more at `pos` gives.
pub open spec fn parse_rest_agrees(
    bytes: Seq<u8>,
    startpos: int,
    total: nat,
    consumed: Seq<Change>,
    pos: int,
    left: nat,
) -> bool {
    match spec_parse_changes(bytes, pos, left) {
        Option::None => spec_parse_changes(bytes, startpos, total) is None,
        Option::Some((cs, e)) => spec_parse_changes(bytes, startpos, total) == Some(
            (consumed + cs, e),
        ),
    }
}

proof fn lemma_parse_agrees_init(bytes: Seq<u8>, startpos: int, total: nat)
    ensures
        parse_rest_agrees(bytes, startpos, total, Seq::<Change>::empty(), startpos, total),
{
    match spec_parse_changes(bytes, startpos, total) {
        Option::None => {},
        Option::Some((cs, e)) => {
            assert(Seq::<Change>::empty() + cs =~= cs);
        },
    }
}

proof fn lemma_parse_agrees_step(
    bytes: Seq<u8>,
    startpos: int,
    total: nat,
    consumed: Seq<Change>,
    pos: int,
    left: nat,
)
    requires
        parse_rest_agrees(bytes, startpos, total, consumed, pos, left),
        left > 0,
        0 <= pos < bytes.len(),
        spec_leb128_read(bytes, pos + 1) matches Some((cid, _)) && cid <= u64::MAX,
    ensures
        ({
            let (cid, npos) = spec_leb128_read(bytes, pos + 1).unwrap();
            let c = Change {
                change_id: cid as u64,
                collection: crate::types::spec_collection_from_u8(bytes[pos]),
            };
            parse_rest_agrees(
                bytes,
                startpos,
                total,
                consumed.push(c),
                npos,
                (left - 1) as nat,
            )
        }),
{
    let (cid, npos) = spec_leb128_read(bytes, pos + 1).unwrap();
    let c = Change {
        change_id: cid as u64,
        collection: crate::types::spec_collection_from_u8(bytes[pos]),
    };
    match spec_parse_changes(bytes, npos, (left - 1) as nat) {
        Option::None => {
            assert(spec_parse_changes(bytes, pos, left) is None);
        },
        Option::Some((cs, e)) => {
            assert(spec_parse_changes(bytes, pos, left) == Some((seq![c] + cs, e)));
            assert(consumed + (seq![c] + cs) =~= consumed.push(c) + cs);
        },
    }
}

/// A change list of `n` entries needs at least `2 n` bytes, so a count that
/// exceeds the buffer cannot parse.
proof fn lemma_parse_changes_needs_bytes(bytes: Seq<u8>, i: int, n: nat)
    ensures
        n > 0 && spec_parse_changes(bytes, i, n) is Some ==> i + 2 * n <= bytes.len(),
    decreases n,
{
    if n > 0 && spec_parse_changes(bytes, i, n) is Some {
        let (cid, j) = spec_leb128_read(bytes, i + 1).unwrap();
        crate::leb128::lemma_leb128_read_advances(bytes, i + 1);
        lemma_parse_changes_needs_bytes(bytes, j, (n - 1) as nat);
    }
}

proof fn lemma_changes_bytes_snoc(changes: Seq<Change>)
    requires
        changes.len() > 0,
    ensures
        spec_changes_bytes(changes) == spec_changes_bytes(changes.drop_last()) + seq![
            crate::types::spec_collection_u8(changes.last().collection),
        ] + spec_leb128(changes.last().change_id as nat),
    decreases changes.len(),
{
    if changes.len() == 1 {
        assert(changes.drop_last() =~= Seq::<Change>::empty());
        assert(changes.drop_first() =~= Seq::<Change>::empty());
        assert(spec_changes_bytes(changes) =~= spec_changes_bytes(changes.drop_last()) + seq![
            crate::types::spec_collection_u8(changes.last().collection),
        ] + spec_leb128(changes.last().change_id as nat));
    } else {
        lemma_changes_bytes_snoc(changes.drop_first());
        assert(changes.drop_first().drop_last() =~= changes.drop_last().drop_first());
        assert(changes.drop_first().last() == changes.last());
        assert(changes.drop_last()[0] == changes[0]);
        assert(spec_changes_bytes(changes) =~= spec_changes_bytes(changes.drop_last()) + seq![
            crate::types::spec_collection_u8(changes.last().collection),
        ] + spec_leb128(changes.last().change_id as nat));
    }
}

/// Parse `n` changes at position `i`: tag byte then change id, each.
pub open spec fn spec_parse_changes(bytes: Seq<u8>, i: int, n: nat) -> Option<(Seq<Change>, int)>
    decreases n,
{
    if n == 0 {
        Some((Seq::<Change>::empty(), i))
    } else if 0 <= i < bytes.len() {
        let col = crate::types::spec_collection_from_u8(bytes[i]);
        match spec_leb128_read(bytes, i + 1) {
            Option::None => Option::None,
            Option::Some((cid, j)) => if cid <= u64::MAX {
                match spec_parse_changes(bytes, j, (n - 1) as nat) {
                    Option::None => Option::None,
                    Option::Some((cs, e)) => Some(
                        (seq![Change { change_id: cid as u64, collection: col }] + cs, e),
                    ),
                }
            } else {
                Option::None
            },
        }
    } else {
        Option::None
    }
}

/// Parse an entry payload: account id, change count, then that many changes,
/// so long as account id and change ids fit their types.
pub open spec fn spec_parse_entry(bytes: Seq<u8>) -> Option<(AccountId, Seq<Change>)> {
    match spec_leb128_read(bytes, 0) {
        Option::None => Option::None,
        Option::Some((acc, i)) => if acc <= u32::MAX {
            match spec_leb128_read(bytes, i) {
                Option::None => Option::None,
                Option::Some((n, j)) => match spec_parse_changes(bytes, j, n) {
                    Option::None => Option::None,
                    Option::Some((cs, _)) => Some((acc as u32, cs)),
                },
            }
        } else {
            Option::None
        },
    }
}

/// Appending an encoded change list and parsing at its start reads it back.
proof fn lemma_changes_list_round_trip(prefix: Seq<u8>, changes: Seq<Change>, suffix: Seq<u8>)
    ensures
        spec_parse_changes(
            prefix + spec_changes_bytes(changes) + suffix,
            prefix.len() as int,
            changes.len(),
        ) == Some((changes, prefix.len() + spec_changes_bytes(changes).len() as int)),
    decreases changes.len(),
{
    let bytes = prefix + spec_changes_bytes(changes) + suffix;
    if changes.len() == 0 {
        assert(changes =~= Seq::<Change>::empty());
    } else {
        let head = changes[0];
        let rest = changes.drop_first();
        let col_byte = crate::types::spec_collection_u8(head.collection);
        assert(bytes[prefix.len() as int] == col_byte);
        crate::leb128::lemma_leb128_round_trip(
            prefix + seq![col_byte],
            head.change_id as nat,
            spec_changes_bytes(rest) + suffix,
        );
        assert(prefix + spec_changes_bytes(changes) + suffix =~= (prefix + seq![col_byte])
            + spec_leb128(head.change_id as nat) + (spec_changes_bytes(rest) + suffix));
        lemma_changes_list_round_trip(
            prefix + seq![col_byte] + spec_leb128(head.change_id as nat),
            rest,
            suffix,
        );
        assert(prefix + spec_changes_bytes(changes) + suffix =~= (prefix + seq![col_byte]
            + spec_leb128(head.change_id as nat)) + spec_changes_bytes(rest) + suffix);
        crate::types::lemma_collection_u8_round_trip(head.collection);
        assert(seq![head] + rest =~= changes);
    }
}

/// A serialized entry payload parses back to its account and change list.
pub proof fn lemma_entry_round_trip(account_id: AccountId, changes: Seq<Change>)
    requires
        changes.len() <= u64::MAX,
    ensures
        spec_parse_entry(spec_entry_bytes(account_id, changes)) == Some((account_id, changes)),
{
    let bytes = spec_entry_bytes(account_id, changes);
    let c1 = spec_leb128(account_id as nat);
    let c2 = spec_leb128(changes.len());
    let body = spec_changes_bytes(changes);
    assert(bytes =~= Seq::<u8>::empty() + c1 + (c2 + body));
    crate::leb128::lemma_leb128_round_trip(Seq::<u8>::empty(), account_id as nat, c2 + body);
    assert(bytes =~= c1 + c2 + body);
    crate::leb128::lemma_leb128_round_trip(c1, changes.len(), body);
    assert(bytes =~= (c1 + c2) + body + Seq::<u8>::empty());
    lemma_changes_list_round_trip(c1 + c2, changes, Seq::<u8>::empty());
}

/// Changes of one account and collection merged across a log range, as used
/// by rollback: which documents ended up inserted, updated or deleted, and
/// which change ids the range covered.
#[derive(Debug)]
pub struct PendingChanges {
    pub account_id: AccountId,
    pub collection: Collection,
    pub inserts: roaring::RoaringBitmap,
    pub updates: roaring::RoaringBitmap,
    pub deletes: roaring::RoaringBitmap,
    pub changes: roaring::RoaringTreemap,
}

impl PendingChanges {
    pub fn new(account_id: AccountId, collection: Collection) -> (r: Self)
        ensures
            r.account_id == account_id,
            r.collection == collection,
            bitmap::bm(r.inserts) == Set::<u32>::empty(),
            bitmap::bm(r.updates) == Set::<u32>::empty(),
            bitmap::bm(r.deletes) == Set::<u32>::empty(),
            bitmap::tm(r.changes) == Set::<u64>::empty(),
    {
        Self {
            account_id,
            collection,
            inserts: bitmap::bm_new(),
            updates: bitmap::bm_new(),
            deletes: bitmap::bm_new(),
            changes: bitmap::tm_new(),
        }
    }

    pub fn is_empty(&self) -> (r: bool)
        ensures
            r == (bitmap::bm(self.inserts) =~= Set::<u32>::empty() && bitmap::bm(self.updates)
                =~= Set::<u32>::empty() && bitmap::bm(self.deletes) =~= Set::<u32>::empty()
                && bitmap::tm(self.changes) =~= Set::<u64>::empty()),
    {
        bitmap::bm_is_empty(&self.inserts) && bitmap::bm_is_empty(&self.updates)
            && bitmap::bm_is_empty(&self.deletes) && bitmap::tm_is_empty(&self.changes)
    }
}

} // verus!
