//! Per-collection change entries: the id lists one write batch logs, their
//! payload bytes, and the merge that folds a log range into the observable
//! created, updated and destroyed sets.

use vstd::prelude::*;

use crate::bitmap;
use crate::leb128;

verus! {

use crate::leb128::{spec_leb128, spec_leb128_read, write_leb128, read_leb128};

/// One logged action on a collection.  A move is recorded as the deletion of
/// the old id and the insertion of the new id in the same entry.
#[derive(Debug, Clone, Copy, PartialEq, Eq, Structural)]
pub enum LogAction {
    Insert(u64),
    Update(u64),
    Delete(u64),
    UpdateChild(u64),
    Move(u64, u64),
}

/// The id lists of one change entry, in the order a batch logged them.
#[derive(Debug, Clone, PartialEq, Eq)]
pub struct ChangeLists {
    pub inserts: Vec<u64>,
    pub updates: Vec<u64>,
    pub child_updates: Vec<u64>,
    pub deletes: Vec<u64>,
}

impl ChangeLists {
    pub fn new() -> (r: Self)
        ensures
            r.inserts@ == Seq::<u64>::empty(),
            r.updates@ == Seq::<u64>::empty(),
            r.child_updates@ == Seq::<u64>::empty(),
            r.deletes@ == Seq::<u64>::empty(),
    {
        ChangeLists {
            inserts: Vec::new(),
            updates: Vec::new(),
            child_updates: Vec::new(),
            deletes: Vec::new(),
        }
    }

    /// Fold one action into the lists.
    pub fn push_action(&mut self, action: LogAction)
        ensures
            final(self).inserts@ == old(self).inserts@ + spec_action_inserts(action),
            final(self).updates@ == old(self).updates@ + spec_action_updates(action),
            final(self).child_updates@ == old(self).child_updates@ + spec_action_child_updates(
                action,
            ),
            final(self).deletes@ == old(self).deletes@ + spec_action_deletes(action),
    {
        match action {
            LogAction::Insert(id) => self.inserts.push(id),
            LogAction::Update(id) => self.updates.push(id),
            LogAction::Delete(id) => self.deletes.push(id),
            LogAction::UpdateChild(id) => self.child_updates.push(id),
            LogAction::Move(old_id, new_id) => {
                self.deletes.push(old_id);
                self.inserts.push(new_id);
            },
        }
        proof {
            assert(self.inserts@ =~= old(self).inserts@ + spec_action_inserts(action));
            assert(self.updates@ =~= old(self).updates@ + spec_action_updates(action));
            assert(self.child_updates@ =~= old(self).child_updates@ + spec_action_child_updates(
                action,
            ));
            assert(self.deletes@ =~= old(self).deletes@ + spec_action_deletes(action));
        }
    }
}

/// Ids an action inserts.
pub open spec fn spec_action_inserts(action: LogAction) -> Seq<u64> {
    match action {
        LogAction::Insert(id) => seq![id],
        LogAction::Move(_, new_id) => seq![new_id],
        _ => Seq::<u64>::empty(),
    }
}

/// Ids an action updates.
pub open spec fn spec_action_updates(action: LogAction) -> Seq<u64> {
    match action {
        LogAction::Update(id) => seq![id],
        _ => Seq::<u64>::empty(),
    }
}

/// Ids an action marks as child updates.
pub open spec fn spec_action_child_updates(action: LogAction) -> Seq<u64> {
    match action {
        LogAction::UpdateChild(id) => seq![id],
        _ => Seq::<u64>::empty(),
    }
}

/// Ids an action deletes.
pub open spec fn spec_action_deletes(action: LogAction) -> Seq<u64> {
    match action {
        LogAction::Delete(id) => seq![id],
        LogAction::Move(old_id, _) => seq![old_id],
        _ => Seq::<u64>::empty(),
    }
}

/// The ids of a list, each LEB128 encoded.
pub open spec fn spec_id_list_bytes(ids: Seq<u64>) -> Seq<u8>
    decreases ids.len(),
{
    if ids.len() == 0 {
        Seq::<u8>::empty()
    } else {
        spec_leb128(ids[0] as nat) + spec_id_list_bytes(ids.drop_first())
    }
}

/// Payload of one change entry: the four list lengths, then the four lists.
pub open spec fn spec_payload_bytes(
    inserts: Seq<u64>,
    updates: Seq<u64>,
    child_updates: Seq<u64>,
    deletes: Seq<u64>,
) -> Seq<u8> {
    spec_leb128(inserts.len()) + spec_leb128(updates.len()) + spec_leb128(child_updates.len())
        + spec_leb128(deletes.len()) + spec_id_list_bytes(inserts) + spec_id_list_bytes(updates)
        + spec_id_list_bytes(child_updates) + spec_id_list_bytes(deletes)
}

/// Parse `n` LEB128 ids at position `i`.
pub open spec fn spec_parse_ids(bytes: Seq<u8>, i: int, n: nat) -> Option<(Seq<u64>, int)>
    decreases n,
{
    if n == 0 {
        Some((Seq::<u64>::empty(), i))
    } else {
        match spec_leb128_read(bytes, i) {
            Option::None => Option::None,
            Option::Some((v, j)) => if v <= u64::MAX {
                match spec_parse_ids(bytes, j, (n - 1) as nat) {
                    Option::None => Option::None,
                    Option::Some((ids, e)) => Some((seq![v as u64] + ids, e)),
                }
            } else {
                Option::None
            },
        }
    }
}

/// Parse a change-entry payload back into its four lists.
pub open spec fn spec_parse_payload(bytes: Seq<u8>) -> Option<
    (Seq<u64>, Seq<u64>, Seq<u64>, Seq<u64>),
> {
    match spec_leb128_read(bytes, 0) {
        Option::None => Option::None,
        Option::Some((n_ins, i1)) => match spec_leb128_read(bytes, i1) {
            Option::None => Option::None,
            Option::Some((n_upd, i2)) => match spec_leb128_read(bytes, i2) {
                Option::None => Option::None,
                Option::Some((n_child, i3)) => match spec_leb128_read(bytes, i3) {
                    Option::None => Option::None,
                    Option::Some((n_del, i4)) => match spec_parse_ids(bytes, i4, n_ins) {
                        Option::None => Option::None,
                        Option::Some((ins, j1)) => match spec_parse_ids(bytes, j1, n_upd) {
                            Option::None => Option::None,
                            Option::Some((upd, j2)) => match spec_parse_ids(bytes, j2, n_child) {
                                Option::None => Option::None,
                                Option::Some((child, j3)) => match spec_parse_ids(
                                    bytes,
                                    j3,
                                    n_del,
                                ) {
                                    Option::None => Option::None,
                                    Option::Some((del, _)) => Some((ins, upd, child, del)),
                                },
                            },
                        },
                    },
                },
            },
        },
    }
}

impl ChangeLists {
    /// Serialize this entry's payload.
    #[verifier::loop_isolation(false)]
    pub fn serialize(&self) -> (r: Vec<u8>)
        ensures
            r@ == spec_payload_bytes(
                self.inserts@,
                self.updates@,
                self.child_updates@,
                self.deletes@,
            ),
    {
        let mut bytes: Vec<u8> = Vec::new();
        write_leb128(&mut bytes, self.inserts.len() as u64);
        write_leb128(&mut bytes, self.updates.len() as u64);
        write_leb128(&mut bytes, self.child_updates.len() as u64);
        write_leb128(&mut bytes, self.deletes.len() as u64);
        write_id_list(&mut bytes, &self.inserts);
        write_id_list(&mut bytes, &self.updates);
        write_id_list(&mut bytes, &self.child_updates);
        write_id_list(&mut bytes, &self.deletes);
        assert(bytes@ =~= spec_payload_bytes(
            self.inserts@,
            self.updates@,
            self.child_updates@,
            self.deletes@,
        ));
        bytes
    }

    /// Parse a payload; `None` on truncated bytes.
    #[verifier::loop_isolation(false)]
    pub fn deserialize(value: &[u8]) -> (r: Option<Self>)
        ensures
            r matches Some(l) ==> spec_parse_payload(value@) == Some(
                (l.inserts@, l.updates@, l.child_updates@, l.deletes@),
            ),
            r is None ==> spec_parse_payload(value@) is None,
    {
        let value_len = value.len();
        let (n_ins, i1) = match read_leb128(value, 0) {
            Some(p) => p,
            None => {
                proof {
                    lemma_huge_count_fails(value@, 0);
                }
                return None;
            },
        };
        let (n_upd, i2) = match read_leb128(value, i1) {
            Some(p) => p,
            None => {
                proof {
                    lemma_huge_count_fails(value@, i1 as int);
                }
                return None;
            },
        };
        let (n_child, i3) = match read_leb128(value, i2) {
            Some(p) => p,
            None => {
                proof {
                    lemma_huge_count_fails(value@, i2 as int);
                }
                return None;
            },
        };
        let (n_del, i4) = match read_leb128(value, i3) {
            Some(p) => p,
            None => {
                proof {
                    lemma_huge_count_fails(value@, i3 as int);
                }
                return None;
            },
        };
        let (inserts, j1) = match read_id_list(value, i4, n_ins) {
            Some(p) => p,
            None => {
                return None;
            },
        };
        let (updates, j2) = match read_id_list(value, j1, n_upd) {
            Some(p) => p,
            None => {
                return None;
            },
        };
        let (child_updates, j3) = match read_id_list(value, j2, n_child) {
            Some(p) => p,
            None => {
                return None;
            },
        };
        let (deletes, _) = match read_id_list(value, j3, n_del) {
            Some(p) => p,
            None => {
                return None;
            },
        };
        Some(ChangeLists { inserts, updates, child_updates, deletes })
    }
}

fn write_id_list(out: &mut Vec<u8>, ids: &Vec<u64>)
    ensures
        final(out)@ == old(out)@ + spec_id_list_bytes(ids@),
{
    let n = ids.len();
    let mut k: usize = 0;
    while k < n
        invariant
            n == ids@.len(),
            k <= n,
            out@ == old(out)@ + spec_id_list_bytes(ids@.take(k as int)),
        decreases n - k,
    {
        write_leb128(out, ids[k]);
        proof {
            lemma_id_list_bytes_snoc(ids@.take(k + 1));
            assert(ids@.take(k + 1).drop_last() =~= ids@.take(k as int));
            assert(out@ =~= old(out)@ + spec_id_list_bytes(ids@.take(k + 1)));
        }
        k = k + 1;
    }
    assert(ids@.take(n as int) =~= ids@);
}

proof fn lemma_id_list_bytes_snoc(ids: Seq<u64>)
    requires
        ids.len() > 0,
    ensures
        spec_id_list_bytes(ids) == spec_id_list_bytes(ids.drop_last()) + spec_leb128(
            ids.last() as nat,
        ),
    decreases ids.len(),
{
    if ids.len() == 1 {
        assert(ids.drop_last() =~= Seq::<u64>::empty());
        assert(ids.drop_first() =~= Seq::<u64>::empty());
        assert(spec_id_list_bytes(ids) =~= spec_id_list_bytes(ids.drop_last()) + spec_leb128(
            ids.last() as nat,
        ));
    } else {
        lemma_id_list_bytes_snoc(ids.drop_first());
        assert(ids.drop_first().drop_last() =~= ids.drop_last().drop_first());
        assert(ids.drop_first().last() == ids.last());
        assert(ids.drop_last()[0] == ids[0]);
        assert(spec_id_list_bytes(ids) =~= spec_id_list_bytes(ids.drop_last()) + spec_leb128(
            ids.last() as nat,
        ));
    }
}

/// Parsing the id list from `startpos` equals the ids already read plus
/// whatever parsing `left` more at `pos` gives.
spec fn ids_rest_agrees(
    bytes: Seq<u8>,
    startpos: int,
    total: nat,
    consumed: Seq<u64>,
    pos: int,
    left: nat,
) -> bool {
    match spec_parse_ids(bytes, pos, left) {
        Option::None => spec_parse_ids(bytes, startpos, total) is None,
        Option::Some((ids, e)) => spec_parse_ids(bytes, startpos, total) == Some(
            (consumed + ids, e),
        ),
    }
}

#[verifier::loop_isolation(false)]
fn read_id_list(bytes: &[u8], start: usize, n: u64) -> (r: Option<(Vec<u64>, usize)>)
    requires
        start <= bytes@.len(),
    ensures
        r matches Some((ids, e)) ==> spec_parse_ids(bytes@, start as int, n as nat) == Some(
            (ids@, e as int),
        ) && e <= bytes@.len(),
        r is None ==> spec_parse_ids(bytes@, start as int, n as nat) is None,
{
    let mut ids: Vec<u64> = Vec::new();
    let mut pos = start;
    let mut left = n;
    proof {
        match spec_parse_ids(bytes@, start as int, n as nat) {
            Option::None => {},
            Option::Some((cs, e)) => {
                assert(Seq::<u64>::empty() + cs =~= cs);
            },
        }
    }
    while left > 0
        invariant
            pos <= bytes@.len(),
            ids_rest_agrees(bytes@, start as int, n as nat, ids@, pos as int, left as nat),
        decreases left,
    {
        let (v, npos) = match read_leb128(bytes, pos) {
            Some(p) => p,
            None => {
                return None;
            },
        };
        proof {
            match spec_parse_ids(bytes@, npos as int, (left - 1) as nat) {
                Option::None => {},
                Option::Some((cs, e)) => {
                    assert(ids@ + (seq![v] + cs) =~= ids@.push(v) + cs);
                },
            }
        }
        ids.push(v);
        pos = npos;
        left = left - 1;
    }
    assert(ids@ + Seq::<u64>::empty() =~= ids@);
    Some((ids, pos))
}

/// An id list of `n` entries needs at least `n` bytes, so a huge count after
/// an oversized length read cannot parse.
proof fn lemma_parse_ids_needs_bytes(bytes: Seq<u8>, i: int, n: nat)
    ensures
        n > 0 && spec_parse_ids(bytes, i, n) is Some ==> i + n <= bytes.len(),
    decreases n,
{
    if n > 0 && spec_parse_ids(bytes, i, n) is Some {
        let (v, j) = spec_leb128_read(bytes, i).unwrap();
        crate::leb128::lemma_leb128_read_advances(bytes, i);
        lemma_parse_ids_needs_bytes(bytes, j, (n - 1) as nat);
    }
}

/// When an exec length read fails because the count exceeds `u64::MAX`, no
/// id list of that count can follow within the buffer.
proof fn lemma_huge_count_fails(bytes: Seq<u8>, i: int)
    requires
        bytes.len() <= u64::MAX,
    ensures
        ({
            match spec_leb128_read(bytes, i) {
                Option::Some((sv, _)) => sv > u64::MAX ==> forall|k: int|
                    spec_parse_ids(bytes, k, sv) is None,
                Option::None => true,
            }
        }),
{
    if spec_leb128_read(bytes, i) is Some {
        let (sv, sj) = spec_leb128_read(bytes, i).unwrap();
        if sv > u64::MAX {
            assert forall|k: int| spec_parse_ids(bytes, k, sv) is None by {
                if 0 <= k && spec_parse_ids(bytes, k, sv) is Some {
                    lemma_parse_ids_needs_bytes(bytes, k, sv);
                }
            }
        }
    }
}

/// Document id of a packed JMAP id (`prefix * 2^32 + doc`).
pub open spec fn spec_id_doc(id: u64) -> u32 {
    (id % 0x1_0000_0000) as u32
}

/// Prefix of a packed JMAP id.
pub open spec fn spec_id_prefix(id: u64) -> u32 {
    (id / 0x1_0000_0000) as u32
}

/// The merge keys swap the halves of a JMAP id, so keys group by document:
/// `doc * 2^32 + prefix`.
pub open spec fn spec_pack(id: u64) -> u64 {
    (spec_id_doc(id) * 0x1_0000_0000 + spec_id_prefix(id)) as u64
}

/// Inverse of `spec_pack`.
pub open spec fn spec_unpack(k: u64) -> u64 {
    ((k % 0x1_0000_0000) * 0x1_0000_0000 + k / 0x1_0000_0000) as u64
}

/// All merge keys that belong to document `d`.
pub open spec fn doc_keys(d: u32) -> Set<u64> {
    Set::new(|k: u64| k / 0x1_0000_0000 == d)
}

/// Whether any key of document `d` is in `s`.
pub open spec fn has_doc(s: Set<u64>, d: u32) -> bool {
    exists|k: u64| s.contains(k) && k / 0x1_0000_0000 == d
}

/// `s` with every key of document `d` replaced by the single key `k`.
pub open spec fn replace_doc(s: Set<u64>, d: u32, k: u64) -> Set<u64> {
    s.difference(doc_keys(d)).insert(k)
}

/// `s` without any key of document `d`.
pub open spec fn remove_doc(s: Set<u64>, d: u32) -> Set<u64> {
    s.difference(doc_keys(d))
}

proof fn lemma_div_bound_u32(id: u64)
    ensures
        id / 0x1_0000_0000 <= 0xFFFF_FFFF,
        id % 0x1_0000_0000 <= 0xFFFF_FFFF,
{
    vstd::arithmetic::div_mod::lemma_div_is_ordered(
        id as int,
        0xFFFF_FFFF_FFFF_FFFFint,
        0x1_0000_0000,
    );
}

/// Swap the halves of an id, grouping merge keys by document.
pub fn pack_id(id: u64) -> (r: u64)
    ensures
        r == spec_pack(id),
        r / 0x1_0000_0000 == spec_id_doc(id),
{
    proof {
        lemma_div_bound_u32(id);
    }
    let doc = id % 0x1_0000_0000;
    let prefix = id / 0x1_0000_0000;
    let r = doc * 0x1_0000_0000 + prefix;
    proof {
        vstd::arithmetic::div_mod::lemma_fundamental_div_mod_converse(
            r as int,
            0x1_0000_0000,
            doc as int,
            prefix as int,
        );
    }
    r
}

/// Inverse of `pack_id`.
pub fn unpack_id(k: u64) -> (r: u64)
    ensures
        r == spec_unpack(k),
{
    proof {
        lemma_div_bound_u32(k);
    }
    (k % 0x1_0000_0000) * 0x1_0000_0000 + k / 0x1_0000_0000
}

/// Packing is undone by unpacking.
pub proof fn lemma_pack_unpack(id: u64)
    ensures
        spec_unpack(spec_pack(id)) == id,
{
    lemma_div_bound_u32(id);
    let doc = id % 0x1_0000_0000;
    let prefix = id / 0x1_0000_0000;
    let r = (doc * 0x1_0000_0000 + prefix) as u64;
    vstd::arithmetic::div_mod::lemma_fundamental_div_mod_converse(
        r as int,
        0x1_0000_0000,
        doc as int,
        prefix as int,
    );
    vstd::arithmetic::div_mod::lemma_fundamental_div_mod(id as int, 0x1_0000_0000);
}

/// Unpacking is undone by packing.
pub proof fn lemma_unpack_pack(k: u64)
    ensures
        spec_pack(spec_unpack(k)) == k,
{
    lemma_div_bound_u32(k);
    let doc = k / 0x1_0000_0000;
    let prefix = k % 0x1_0000_0000;
    let id = (prefix * 0x1_0000_0000 + doc) as u64;
    vstd::arithmetic::div_mod::lemma_fundamental_div_mod_converse(
        id as int,
        0x1_0000_0000,
        prefix as int,
        doc as int,
    );
    vstd::arithmetic::div_mod::lemma_fundamental_div_mod(k as int, 0x1_0000_0000);
}

/// Relies on `RoaringTreemap::remove_range`: removes exactly the keys of one
/// document, the range `d * 2^32 ..= d * 2^32 + 0xFFFF_FFFF`.
#[verifier::external_body]
pub fn tm_remove_doc(b: &mut roaring::RoaringTreemap, d: u32)
    ensures
        bitmap::tm(*final(b)) == bitmap::tm(*old(b)).difference(doc_keys(d)),
        bitmap::tm(*final(b)).finite(),
{
    let lo = (d as u64) << 32;
    b.remove_range(lo..=(lo | 0xFFFF_FFFF));
}

/// Relies on `RoaringTreemap::range_cardinality`: whether any key of one
/// document is held.
#[verifier::external_body]
pub fn tm_has_doc(b: &roaring::RoaringTreemap, d: u32) -> (r: bool)
    ensures
        r == has_doc(bitmap::tm(*b), d),
{
    let lo = (d as u64) << 32;
    b.range_cardinality(lo..=(lo | 0xFFFF_FFFF)) != 0
}

/// The observable result of merging a log range: which documents ended up
/// created, updated (directly or through a child), or destroyed.  Keys are
/// packed ids (`spec_pack`), so iteration groups and orders by document.
pub struct MergeSets {
    pub ins: Set<u64>,
    pub upd: Set<u64>,
    pub child: Set<u64>,
    pub del: Set<u64>,
}

impl MergeSets {
    pub open spec fn empty() -> MergeSets {
        MergeSets {
            ins: Set::<u64>::empty(),
            upd: Set::<u64>::empty(),
            child: Set::<u64>::empty(),
            del: Set::<u64>::empty(),
        }
    }
}

/// Fold the updates of one entry: an update of a document that the range
/// also created stays a creation.
pub open spec fn spec_apply_updates(st: MergeSets, upds: Seq<u64>) -> MergeSets
    decreases upds.len(),
{
    if upds.len() == 0 {
        st
    } else {
        let id = upds[0];
        let d = spec_id_doc(id);
        let st1 = if has_doc(st.ins, d) {
            st
        } else {
            MergeSets { upd: replace_doc(st.upd, d, spec_pack(id)), ..st }
        };
        spec_apply_updates(st1, upds.drop_first())
    }
}

/// Fold the child updates of one entry, alike but into their own set.
pub open spec fn spec_apply_child_updates(st: MergeSets, upds: Seq<u64>) -> MergeSets
    decreases upds.len(),
{
    if upds.len() == 0 {
        st
    } else {
        let id = upds[0];
        let d = spec_id_doc(id);
        let st1 = if has_doc(st.ins, d) {
            st
        } else {
            MergeSets { child: replace_doc(st.child, d, spec_pack(id)), ..st }
        };
        spec_apply_child_updates(st1, upds.drop_first())
    }
}

/// First position in `entry_ins` holding the same document as `id` under a
/// different prefix — a move recorded in the same entry — or `-1`.
pub open spec fn spec_move_match(entry_ins: Seq<u64>, id: u64) -> int
    decreases entry_ins.len(),
{
    if entry_ins.len() == 0 {
        -1
    } else if spec_id_doc(entry_ins[0]) == spec_id_doc(id) && spec_id_prefix(entry_ins[0])
        != spec_id_prefix(id) {
        0
    } else {
        let r = spec_move_match(entry_ins.drop_first(), id);
        if r < 0 {
            -1
        } else {
            1 + r
        }
    }
}

/// Fold the deletions of one entry.  A deletion paired with an insertion of
/// the same document under a new prefix is a move and surfaces as an update;
/// a deletion of a document the range created cancels the creation; any
/// other deletion is recorded, clearing updates for that document.
pub open spec fn spec_apply_deletes(st: MergeSets, entry_ins: Seq<u64>, dels: Seq<u64>) -> (
    MergeSets,
    Seq<u64>,
)
    decreases dels.len(),
{
    if dels.len() == 0 {
        (st, entry_ins)
    } else {
        let id = dels[0];
        let d = spec_id_doc(id);
        let m = spec_move_match(entry_ins, id);
        if m >= 0 {
            let new_id = entry_ins[m];
            let entry_ins1 = entry_ins.remove(m);
            let st1 = if has_doc(st.ins, d) {
                st
            } else {
                MergeSets { upd: replace_doc(st.upd, d, spec_pack(new_id)), ..st }
            };
            spec_apply_deletes(st1, entry_ins1, dels.drop_first())
        } else {
            let st1 = if has_doc(st.ins, d) {
                MergeSets { ins: remove_doc(st.ins, d), ..st }
            } else {
                MergeSets { del: replace_doc(st.del, d, spec_pack(id)), ..st }
            };
            let st2 = MergeSets {
                upd: remove_doc(st1.upd, d),
                child: remove_doc(st1.child, d),
                ..st1
            };
            spec_apply_deletes(st2, entry_ins, dels.drop_first())
        }
    }
}

/// Fold the insertions left over after move matching: documents enter the
/// created set, and an id can be reused after a deletion.
pub open spec fn spec_apply_inserts(st: MergeSets, inserts: Seq<u64>) -> MergeSets
    decreases inserts.len(),
{
    if inserts.len() == 0 {
        st
    } else {
        let id = inserts[0];
        let d = spec_id_doc(id);
        let st1 = MergeSets {
            ins: replace_doc(st.ins, d, spec_pack(id)),
            del: remove_doc(st.del, d),
            ..st
        };
        spec_apply_inserts(st1, inserts.drop_first())
    }
}

/// Fold one whole entry: updates, child updates, deletions (against this
/// entry's own insertions for move pairing), then the remaining insertions.
pub open spec fn spec_apply_entry(
    st: MergeSets,
    inserts: Seq<u64>,
    updates: Seq<u64>,
    child_updates: Seq<u64>,
    deletes: Seq<u64>,
) -> MergeSets {
    let st1 = spec_apply_updates(st, updates);
    let st2 = spec_apply_child_updates(st1, child_updates);
    let (st3, ins_rest) = spec_apply_deletes(st2, inserts, deletes);
    spec_apply_inserts(st3, ins_rest)
}

/// The merged view of a log range held in treemaps of packed ids.
#[derive(Debug)]
pub struct MergedChanges {
    pub inserts: roaring::RoaringTreemap,
    pub updates: roaring::RoaringTreemap,
    pub child_updates: roaring::RoaringTreemap,
    pub deletes: roaring::RoaringTreemap,
}

impl MergedChanges {
    /// The merge sets this value holds.
    pub open spec fn sets(&self) -> MergeSets {
        MergeSets {
            ins: bitmap::tm(self.inserts),
            upd: bitmap::tm(self.updates),
            child: bitmap::tm(self.child_updates),
            del: bitmap::tm(self.deletes),
        }
    }

    pub open spec fn finite(&self) -> bool {
        bitmap::tm(self.inserts).finite() && bitmap::tm(self.updates).finite() && bitmap::tm(
            self.child_updates,
        ).finite() && bitmap::tm(self.deletes).finite()
    }

    pub fn new() -> (r: Self)
        ensures
            r.sets() == MergeSets::empty(),
            r.finite(),
    {
        MergedChanges {
            inserts: bitmap::tm_new(),
            updates: bitmap::tm_new(),
            child_updates: bitmap::tm_new(),
            deletes: bitmap::tm_new(),
        }
    }

    /// Fold one parsed entry into the merged view.
    #[verifier::loop_isolation(false)]
    pub fn apply_entry(&mut self, lists: &ChangeLists)
        requires
            old(self).finite(),
        ensures
            final(self).sets() == spec_apply_entry(
                old(self).sets(),
                lists.inserts@,
                lists.updates@,
                lists.child_updates@,
                lists.deletes@,
            ),
            final(self).finite(),
    {
        let n_upd = lists.updates.len();
        let mut k: usize = 0;
        assert(lists.updates@.skip(0) =~= lists.updates@);
        while k < n_upd
            invariant
                k <= n_upd,
                spec_apply_updates(old(self).sets(), lists.updates@) == spec_apply_updates(
                    self.sets(),
                    lists.updates@.skip(k as int),
                ),
                self.finite(),
            decreases n_upd - k,
        {
            let id = lists.updates[k];
            let d = crate::types::get_document_id(id);
            assert(d == spec_id_doc(id));
            if !tm_has_doc(&self.inserts, d) {
                tm_remove_doc(&mut self.updates, d);
                bitmap::tm_insert(&mut self.updates, pack_id(id));
            }
            proof {
                assert(lists.updates@.skip(k as int).drop_first() =~= lists.updates@.skip(k + 1));
            }
            k = k + 1;
        }
        assert(lists.updates@.skip(n_upd as int) =~= Seq::<u64>::empty());

        let ghost st1 = spec_apply_updates(old(self).sets(), lists.updates@);
        let n_child = lists.child_updates.len();
        k = 0;
        assert(lists.child_updates@.skip(0) =~= lists.child_updates@);
        while k < n_child
            invariant
                k <= n_child,
                spec_apply_child_updates(st1, lists.child_updates@) == spec_apply_child_updates(
                    self.sets(),
                    lists.child_updates@.skip(k as int),
                ),
                self.finite(),
            decreases n_child - k,
        {
            let id = lists.child_updates[k];
            let d = crate::types::get_document_id(id);
            assert(d == spec_id_doc(id));
            if !tm_has_doc(&self.inserts, d) {
                tm_remove_doc(&mut self.child_updates, d);
                bitmap::tm_insert(&mut self.child_updates, pack_id(id));
            }
            proof {
                assert(lists.child_updates@.skip(k as int).drop_first() =~= lists.child_updates@.skip(
                    k + 1,
                ));
            }
            k = k + 1;
        }
        assert(lists.child_updates@.skip(n_child as int) =~= Seq::<u64>::empty());

        let ghost st2 = spec_apply_child_updates(st1, lists.child_updates@);
        let mut entry_ins: Vec<u64> = Vec::new();
        let n_ins = lists.inserts.len();
        k = 0;
        while k < n_ins
            invariant
                k <= n_ins,
                entry_ins@ == lists.inserts@.take(k as int),
            decreases n_ins - k,
        {
            entry_ins.push(lists.inserts[k]);
            assert(entry_ins@ =~= lists.inserts@.take(k + 1));
            k = k + 1;
        }
        assert(entry_ins@ =~= lists.inserts@);

        let n_del = lists.deletes.len();
        k = 0;
        assert(lists.deletes@.skip(0) =~= lists.deletes@);
        while k < n_del
            invariant
                k <= n_del,
                spec_apply_deletes(st2, lists.inserts@, lists.deletes@) == spec_apply_deletes(
                    self.sets(),
                    entry_ins@,
                    lists.deletes@.skip(k as int),
                ),
                self.finite(),
            decreases n_del - k,
        {
            let id = lists.deletes[k];
            let d = crate::types::get_document_id(id);
            let p = crate::types::get_prefix_id(id);
            assert(d == spec_id_doc(id) && p == spec_id_prefix(id));
            let m = find_move_match(&entry_ins, id);
            if let Some(mi) = m {
                let new_id = entry_ins[mi];
                entry_ins.remove(mi);
                if !tm_has_doc(&self.inserts, d) {
                    tm_remove_doc(&mut self.updates, d);
                    bitmap::tm_insert(&mut self.updates, pack_id(new_id));
                }
            } else {
                if tm_has_doc(&self.inserts, d) {
                    tm_remove_doc(&mut self.inserts, d);
                } else {
                    tm_remove_doc(&mut self.deletes, d);
                    bitmap::tm_insert(&mut self.deletes, pack_id(id));
                }
                tm_remove_doc(&mut self.updates, d);
                tm_remove_doc(&mut self.child_updates, d);
            }
            proof {
                assert(lists.deletes@.skip(k as int).drop_first() =~= lists.deletes@.skip(k + 1));
            }
            k = k + 1;
        }
        assert(lists.deletes@.skip(n_del as int) =~= Seq::<u64>::empty());

        let ghost st3ins = spec_apply_deletes(st2, lists.inserts@, lists.deletes@);
        let n_rest = entry_ins.len();
        k = 0;
        assert(entry_ins@.skip(0) =~= entry_ins@);
        while k < n_rest
            invariant
                k <= n_rest,
                spec_apply_inserts(st3ins.0, st3ins.1) == spec_apply_inserts(
                    self.sets(),
                    entry_ins@.skip(k as int),
                ),
                self.finite(),
            decreases n_rest - k,
        {
            let id = entry_ins[k];
            let d = crate::types::get_document_id(id);
            assert(d == spec_id_doc(id));
            tm_remove_doc(&mut self.inserts, d);
            bitmap::tm_insert(&mut self.inserts, pack_id(id));
            tm_remove_doc(&mut self.deletes, d);
            proof {
                assert(entry_ins@.skip(k as int).drop_first() =~= entry_ins@.skip(k + 1));
            }
            k = k + 1;
        }
        assert(entry_ins@.skip(n_rest as int) =~= Seq::<u64>::empty());
    }
}

/// First index of an id in `entry_ins` that shares the document of `id`
/// under a different prefix, or `-1`.
#[verifier::loop_isolation(false)]
fn find_move_match(entry_ins: &Vec<u64>, id: u64) -> (r: Option<usize>)
    ensures
        r matches Some(i) ==> i < entry_ins@.len() && spec_move_match(entry_ins@, id) == i,
        r is None ==> spec_move_match(entry_ins@, id) == -1,
{
    let n = entry_ins.len();
    let mut k: usize = 0;
    assert(entry_ins@.skip(0) =~= entry_ins@);
    while k < n
        invariant
            k <= n,
            spec_move_match(entry_ins@, id) == (if spec_move_match(entry_ins@.skip(k as int), id)
                >= 0 {
                k + spec_move_match(entry_ins@.skip(k as int), id)
            } else {
                -1
            }),
        decreases n - k,
    {
        let cand = entry_ins[k];
        let cd = crate::types::get_document_id(cand);
        let cp = crate::types::get_prefix_id(cand);
        let d = crate::types::get_document_id(id);
        let p = crate::types::get_prefix_id(id);
        if cd == d && cp != p {
            assert(spec_move_match(entry_ins@.skip(k as int), id) == 0);
            return Some(k);
        }
        proof {
            assert(entry_ins@.skip(k as int).drop_first() =~= entry_ins@.skip(k + 1));
        }
        k = k + 1;
    }
    assert(entry_ins@.skip(n as int) =~= Seq::<u64>::empty());
    None
}

/// Appending an encoded id list and parsing at its start reads it back.
proof fn lemma_id_list_round_trip(prefix: Seq<u8>, ids: Seq<u64>, suffix: Seq<u8>)
    ensures
        spec_parse_ids(prefix + spec_id_list_bytes(ids) + suffix, prefix.len() as int, ids.len())
            == Some((ids, prefix.len() + spec_id_list_bytes(ids).len() as int)),
    decreases ids.len(),
{
    let bytes = prefix + spec_id_list_bytes(ids) + suffix;
    if ids.len() == 0 {
        assert(spec_parse_ids(bytes, prefix.len() as int, 0) == Some(
            (Seq::<u64>::empty(), prefix.len() as int),
        ));
        assert(ids =~= Seq::<u64>::empty());
    } else {
        let head = ids[0];
        let rest = ids.drop_first();
        crate::leb128::lemma_leb128_round_trip(
            prefix,
            head as nat,
            spec_id_list_bytes(rest) + suffix,
        );
        assert(prefix + spec_id_list_bytes(ids) + suffix =~= prefix + spec_leb128(head as nat) + (
        spec_id_list_bytes(rest) + suffix));
        lemma_id_list_round_trip(prefix + spec_leb128(head as nat), rest, suffix);
        assert(prefix + spec_id_list_bytes(ids) + suffix =~= (prefix + spec_leb128(head as nat))
            + spec_id_list_bytes(rest) + suffix);
        assert(seq![head] + rest =~= ids);
    }
}

/// A serialized payload parses back to the four lists it was made from.
#[verifier::spinoff_prover]
#[verifier::rlimit(100)]
pub proof fn lemma_payload_round_trip(
    inserts: Seq<u64>,
    updates: Seq<u64>,
    child_updates: Seq<u64>,
    deletes: Seq<u64>,
)
    requires
        inserts.len() <= u64::MAX,
        updates.len() <= u64::MAX,
        child_updates.len() <= u64::MAX,
        deletes.len() <= u64::MAX,
    ensures
        spec_parse_payload(spec_payload_bytes(inserts, updates, child_updates, deletes)) == Some(
            (inserts, updates, child_updates, deletes),
        ),
{
    let bytes = spec_payload_bytes(inserts, updates, child_updates, deletes);
    let c1 = spec_leb128(inserts.len());
    let c2 = spec_leb128(updates.len());
    let c3 = spec_leb128(child_updates.len());
    let c4 = spec_leb128(deletes.len());
    let l1 = spec_id_list_bytes(inserts);
    let l2 = spec_id_list_bytes(updates);
    let l3 = spec_id_list_bytes(child_updates);
    let l4 = spec_id_list_bytes(deletes);
    assert(bytes =~= Seq::<u8>::empty() + c1 + (c2 + c3 + c4 + l1 + l2 + l3 + l4));
    crate::leb128::lemma_leb128_round_trip(
        Seq::<u8>::empty(),
        inserts.len(),
        c2 + c3 + c4 + l1 + l2 + l3 + l4,
    );
    assert(bytes =~= c1 + c2 + (c3 + c4 + l1 + l2 + l3 + l4));
    crate::leb128::lemma_leb128_round_trip(c1, updates.len(), c3 + c4 + l1 + l2 + l3 + l4);
    assert(bytes =~= (c1 + c2) + c3 + (c4 + l1 + l2 + l3 + l4));
    crate::leb128::lemma_leb128_round_trip(c1 + c2, child_updates.len(), c4 + l1 + l2 + l3 + l4);
    assert(bytes =~= (c1 + c2 + c3) + c4 + (l1 + l2 + l3 + l4));
    crate::leb128::lemma_leb128_round_trip(c1 + c2 + c3, deletes.len(), l1 + l2 + l3 + l4);
    assert(bytes =~= (c1 + c2 + c3 + c4) + l1 + (l2 + l3 + l4));
    lemma_id_list_round_trip(c1 + c2 + c3 + c4, inserts, l2 + l3 + l4);
    assert(bytes =~= (c1 + c2 + c3 + c4 + l1) + l2 + (l3 + l4));
    lemma_id_list_round_trip(c1 + c2 + c3 + c4 + l1, updates, l3 + l4);
    assert(bytes =~= (c1 + c2 + c3 + c4 + l1 + l2) + l3 + l4);
    lemma_id_list_round_trip(c1 + c2 + c3 + c4 + l1 + l2, child_updates, l4);
    assert(bytes =~= (c1 + c2 + c3 + c4 + l1 + l2 + l3) + l4 + Seq::<u8>::empty());
    lemma_id_list_round_trip(c1 + c2 + c3 + c4 + l1 + l2 + l3, deletes, Seq::<u8>::empty());
}

} // verus!

