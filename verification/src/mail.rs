//! Mail set-method rules: a message must always sit in at least one
//! existing mailbox.  Validation for creation, and the reconciliation of a
//! mailbox patch against a message's current memberships.

use vstd::prelude::*;

use crate::bitmap;

verus! {

/// Why a mail set call rejects a message.
#[derive(Debug, Clone, Copy, PartialEq, Eq, Structural)]
pub enum MailSetError {
    /// A mailbox named by the request does not exist.
    MailboxNotFound { mailbox_id: u32 },
    /// The message would be left in no mailbox.
    NoMailboxes,
}

/// Validate a message's mailbox list at creation: it must be non-empty
/// and every listed mailbox must exist.  The first missing mailbox is
/// named in the error.
#[verifier::loop_isolation(false)]
pub fn mail_set_validate(mailbox_ids: &Vec<u32>, existing: &roaring::RoaringBitmap) -> (r: Result<
    (),
    MailSetError,
>)
    ensures
        (r is Ok) == (mailbox_ids@.len() > 0 && forall|k: int|
            0 <= k < mailbox_ids@.len() ==> bitmap::bm(*existing).contains(
                #[trigger] mailbox_ids@[k],
            )),
        (r matches Err(e) && e is NoMailboxes) == (mailbox_ids@.len() == 0),
        r matches Err(e) ==> (e matches MailSetError::MailboxNotFound { mailbox_id } ==> exists|
            k: int,
        |
            0 <= k < mailbox_ids@.len() && #[trigger] mailbox_ids@[k] == mailbox_id
                && !bitmap::bm(*existing).contains(mailbox_id) && (forall|j: int|
                0 <= j < k ==> bitmap::bm(*existing).contains(#[trigger] mailbox_ids@[j]))),
        forall|k: int|
            (0 <= k < mailbox_ids@.len() && !bitmap::bm(*existing).contains(
                #[trigger] mailbox_ids@[k],
            ) && (forall|j: int|
                0 <= j < k ==> bitmap::bm(*existing).contains(#[trigger] mailbox_ids@[j])))
                ==> (r matches Err(e) && (e matches MailSetError::MailboxNotFound { mailbox_id }
                && mailbox_id == mailbox_ids@[k])),
{
    if mailbox_ids.len() == 0 {
        return Err(MailSetError::NoMailboxes);
    }
    let n = mailbox_ids.len();
    let mut i: usize = 0;
    while i < n
        invariant
            i <= n,
            n == mailbox_ids@.len(),
            forall|j: int|
                0 <= j < i ==> bitmap::bm(*existing).contains(#[trigger] mailbox_ids@[j]),
        decreases n - i,
    {
        if !bitmap::bm_contains(existing, mailbox_ids[i]) {
            return Err(MailSetError::MailboxNotFound { mailbox_id: mailbox_ids[i] });
        }
        i = i + 1;
    }
    Ok(())
}

/// What a mailbox patch says of one mailbox id: the first matching entry,
/// if any.
pub open spec fn spec_op_of(ops: Seq<(u32, bool)>, id: u32) -> Option<bool>
    decreases ops.len(),
{
    if ops.len() == 0 {
        Option::None
    } else if ops[0].0 == id {
        Some(ops[0].1)
    } else {
        spec_op_of(ops.drop_first(), id)
    }
}

/// Whether a current membership survives the patch: an explicit entry
/// decides; without one, membership survives unless the patch clears all
/// others.
pub open spec fn spec_keep(ops: Seq<(u32, bool)>, clear_others: bool, id: u32) -> bool {
    match spec_op_of(ops, id) {
        Some(b) => b,
        Option::None => !clear_others,
    }
}

/// Whether `id` is a member after the patch is applied to `current`.
pub open spec fn spec_member_after(
    current: Seq<u32>,
    ops: Seq<(u32, bool)>,
    clear_others: bool,
    id: u32,
) -> bool {
    (current.contains(id) && spec_keep(ops, clear_others, id)) || spec_op_of(ops, id) == Some(true)
}

/// A first-match lookup in a patch, executable side.
#[verifier::loop_isolation(false)]
fn op_lookup(ops: &Vec<(u32, bool)>, id: u32) -> (r: Option<bool>)
    ensures
        r == spec_op_of(ops@, id),
{
    let n = ops.len();
    proof {
        assert(ops@.skip(0) =~= ops@);
    }
    let mut i: usize = 0;
    while i < n
        invariant
            i <= n,
            n == ops@.len(),
            spec_op_of(ops@, id) == spec_op_of(ops@.skip(i as int), id),
        decreases n - i,
    {
        proof {
            assert(ops@.skip(i as int)[0] == ops@[i as int]);
            assert(ops@.skip(i as int).drop_first() =~= ops@.skip(i + 1));
        }
        if ops[i].0 == id {
            return Some(ops[i].1);
        }
        i = i + 1;
    }
    proof {
        assert(ops@.skip(n as int) =~= Seq::<(u32, bool)>::empty());
    }
    Option::None
}

/// Whether a list holds an id, executable side.
#[verifier::loop_isolation(false)]
fn list_contains(v: &Vec<u32>, id: u32) -> (r: bool)
    ensures
        r == v@.contains(id),
{
    let n = v.len();
    let mut i: usize = 0;
    while i < n
        invariant
            i <= n,
            n == v@.len(),
            forall|j: int| 0 <= j < i ==> v@[j] != id,
        decreases n - i,
    {
        if v[i] == id {
            return true;
        }
        i = i + 1;
    }
    false
}

/// Reconcile a mailbox patch against a message's current memberships.
/// Every mailbox the patch adds must exist; the result must be non-empty.
/// On success the new membership list comes with the tag actions the
/// store needs: `(id, true)` tags a new membership, `(id, false)` clears
/// a dropped one.
#[verifier::loop_isolation(false)]
#[verifier::spinoff_prover]
pub fn mail_update_mailboxes(
    current: &Vec<u32>,
    ops: &Vec<(u32, bool)>,
    clear_others: bool,
    existing: &roaring::RoaringBitmap,
) -> (r: Result<(Vec<u32>, Vec<(u32, bool)>), MailSetError>)
    requires
        forall|a: int, b: int| 0 <= a < b < current@.len() ==> current@[a] != current@[b],
        forall|a: int, b: int|
            0 <= a < b < ops@.len() ==> (#[trigger] ops@[a]).0 != (#[trigger] ops@[b]).0,
    ensures
        r matches Err(e) ==> (e matches MailSetError::MailboxNotFound { mailbox_id }
            ==> spec_op_of(ops@, mailbox_id) == Some(true) && !bitmap::bm(*existing).contains(
            mailbox_id,
        )),
        (r matches Err(e) && e is NoMailboxes) ==> (forall|id: u32|
            !spec_member_after(current@, ops@, clear_others, id)),
        (r is Ok) == ((forall|k: int|
            0 <= k < ops@.len() && (#[trigger] ops@[k]).1 ==> bitmap::bm(*existing).contains(
                ops@[k].0,
            )) && exists|id: u32| spec_member_after(current@, ops@, clear_others, id)),
        r matches Ok((new_list, actions)) ==> ({
            &&& forall|id: u32|
                #[trigger] new_list@.contains(id) == spec_member_after(
                    current@,
                    ops@,
                    clear_others,
                    id,
                )
            &&& forall|a: int, b: int| 0 <= a < b < new_list@.len() ==> new_list@[a] != new_list@[b]
            &&& forall|id: u32|
                #[trigger] actions@.contains((id, true)) == (spec_op_of(ops@, id) == Some(true)
                    && !current@.contains(id))
            &&& forall|id: u32|
                #[trigger] actions@.contains((id, false)) == (current@.contains(id) && !spec_keep(
                    ops@,
                    clear_others,
                    id,
                ))
        }),
{
    // Every mailbox the patch tags must exist.
    let n_ops = ops.len();
    let mut i: usize = 0;
    while i < n_ops
        invariant
            i <= n_ops,
            n_ops == ops@.len(),
            forall|k: int|
                0 <= k < i && (#[trigger] ops@[k]).1 ==> bitmap::bm(*existing).contains(ops@[k].0),
        decreases n_ops - i,
    {
        if ops[i].1 && !bitmap::bm_contains(existing, ops[i].0) {
            proof {
                assert(spec_op_of(ops@, ops@[i as int].0) == Some(true)) by {
                    lemma_op_of_at(ops@, i as int);
                }
            }
            return Err(MailSetError::MailboxNotFound { mailbox_id: ops[i].0 });
        }
        i = i + 1;
    }
    let mut new_list: Vec<u32> = Vec::new();
    let mut actions: Vec<(u32, bool)> = Vec::new();
    let n_cur = current.len();
    let mut c: usize = 0;
    while c < n_cur
        invariant
            c <= n_cur,
            n_cur == current@.len(),
            forall|id: u32|
                #[trigger] new_list@.contains(id) == (exists|k: int|
                    0 <= k < c && #[trigger] current@[k] == id && spec_keep(
                        ops@,
                        clear_others,
                        id,
                    )),
            forall|a: int, b: int| 0 <= a < b < new_list@.len() ==> new_list@[a] != new_list@[b],
            forall|id: u32|
                #[trigger] actions@.contains((id, false)) == (exists|k: int|
                    0 <= k < c && #[trigger] current@[k] == id && !spec_keep(
                        ops@,
                        clear_others,
                        id,
                    )),
            forall|id: u32| !actions@.contains((id, true)),
            forall|t: int| 0 <= t < new_list@.len() ==> current@.contains(#[trigger] new_list@[t]),
        decreases n_cur - c,
    {
        let id = current[c];
        let keep = match op_lookup(ops, id) {
            Some(b) => b,
            Option::None => !clear_others,
        };
        if keep {
            let ghost new0 = new_list@;
            new_list.push(id);
            proof {
                assert(!new0.contains(id)) by {
                    if new0.contains(id) {
                        let k = choose|k: int|
                            0 <= k < c && #[trigger] current@[k] == id && spec_keep(
                                ops@,
                                clear_others,
                                id,
                            );
                        assert(current@[k] != current@[c as int]);
                    }
                }
                assert forall|x: u32| #[trigger] new_list@.contains(x) == (new0.contains(x) || x
                    == id) by {
                    if new0.contains(x) {
                        let t = choose|t: int| 0 <= t < new0.len() && new0[t] == x;
                        assert(new_list@[t] == x);
                    }
                    if x == id {
                        assert(new_list@[new_list@.len() - 1] == x);
                    }
                    if new_list@.contains(x) {
                        let t = choose|t: int| 0 <= t < new_list@.len() && new_list@[t] == x;
                        if t < new0.len() {
                            assert(new0[t] == x);
                        }
                    }
                }
            }
        } else {
            let ghost act0 = actions@;
            actions.push((id, false));
            proof {
                assert forall|x: u32, fl: bool|
                    #[trigger] actions@.contains((x, fl)) == (act0.contains((x, fl)) || (x == id
                        && fl == false)) by {
                    if act0.contains((x, fl)) {
                        let t = choose|t: int| 0 <= t < act0.len() && act0[t] == (x, fl);
                        assert(actions@[t] == (x, fl));
                    }
                    if x == id && fl == false {
                        assert(actions@[actions@.len() - 1] == (x, fl));
                    }
                    if actions@.contains((x, fl)) {
                        let t = choose|t: int| 0 <= t < actions@.len() && actions@[t] == (x, fl);
                        if t < act0.len() {
                            assert(act0[t] == (x, fl));
                        }
                    }
                }
            }
        }
        c = c + 1;
    }
    let ghost kept = new_list@;
    let mut j: usize = 0;
    while j < n_ops
        invariant
            j <= n_ops,
            n_ops == ops@.len(),
            forall|id: u32|
                #[trigger] new_list@.contains(id) == ((current@.contains(id) && spec_keep(
                    ops@,
                    clear_others,
                    id,
                )) || (exists|k: int|
                    0 <= k < j && (#[trigger] ops@[k]).0 == id && ops@[k].1 && !current@.contains(
                        id,
                    ))),
            forall|a: int, b: int| 0 <= a < b < new_list@.len() ==> new_list@[a] != new_list@[b],
            forall|id: u32|
                #[trigger] actions@.contains((id, false)) == (current@.contains(id) && !spec_keep(
                    ops@,
                    clear_others,
                    id,
                )),
            forall|id: u32|
                #[trigger] actions@.contains((id, true)) == (exists|k: int|
                    0 <= k < j && (#[trigger] ops@[k]).0 == id && ops@[k].1 && !current@.contains(
                        id,
                    )),
        decreases n_ops - j,
    {
        let (m, tag) = (ops[j].0, ops[j].1);
        if tag && !list_contains(current, m) {
            proof {
                lemma_op_of_at(ops@, j as int);
            }
            let ghost new0 = new_list@;
            let ghost act0 = actions@;
            new_list.push(m);
            actions.push((m, true));
            proof {
                assert forall|x: u32| #[trigger] new_list@.contains(x) == (new0.contains(x) || x
                    == m) by {
                    if new0.contains(x) {
                        let t = choose|t: int| 0 <= t < new0.len() && new0[t] == x;
                        assert(new_list@[t] == x);
                    }
                    if x == m {
                        assert(new_list@[new_list@.len() - 1] == x);
                    }
                    if new_list@.contains(x) {
                        let t = choose|t: int| 0 <= t < new_list@.len() && new_list@[t] == x;
                        if t < new0.len() {
                            assert(new0[t] == x);
                        }
                    }
                }
                assert forall|x: u32, fl: bool|
                    #[trigger] actions@.contains((x, fl)) == (act0.contains((x, fl)) || (x == m
                        && fl == true)) by {
                    if act0.contains((x, fl)) {
                        let t = choose|t: int| 0 <= t < act0.len() && act0[t] == (x, fl);
                        assert(actions@[t] == (x, fl));
                    }
                    if x == m && fl == true {
                        assert(actions@[actions@.len() - 1] == (x, fl));
                    }
                    if actions@.contains((x, fl)) {
                        let t = choose|t: int| 0 <= t < actions@.len() && actions@[t] == (x, fl);
                        if t < act0.len() {
                            assert(act0[t] == (x, fl));
                        }
                    }
                }
                assert(!new0.contains(m));
            }
        }
        j = j + 1;
    }
    proof {
        assert forall|id: u32| #[trigger] new_list@.contains(id) == spec_member_after(
            current@,
            ops@,
            clear_others,
            id,
        ) by {
            if spec_op_of(ops@, id) == Some(true) {
                lemma_op_of_member(ops@, id);
            }
            if exists|k: int|
                0 <= k < ops@.len() && (#[trigger] ops@[k]).0 == id && ops@[k].1 {
                let k = choose|k: int|
                    0 <= k < ops@.len() && (#[trigger] ops@[k]).0 == id && ops@[k].1;
                lemma_op_of_at(ops@, k);
            }
        }
        assert forall|id: u32| #[trigger] actions@.contains((id, true)) == (spec_op_of(ops@, id)
            == Some(true) && !current@.contains(id)) by {
            if spec_op_of(ops@, id) == Some(true) {
                lemma_op_of_member(ops@, id);
            }
            if exists|k: int|
                0 <= k < ops@.len() && (#[trigger] ops@[k]).0 == id && ops@[k].1 {
                let k = choose|k: int|
                    0 <= k < ops@.len() && (#[trigger] ops@[k]).0 == id && ops@[k].1;
                lemma_op_of_at(ops@, k);
            }
        }
    }
    if new_list.len() == 0 {
        proof {
            assert forall|id: u32| !spec_member_after(current@, ops@, clear_others, id) by {
                assert(!new_list@.contains(id));
            }
        }
        return Err(MailSetError::NoMailboxes);
    }
    proof {
        assert(new_list@.contains(new_list@[0]));
    }
    Ok((new_list, actions))
}

/// With unique patch keys, the entry at one index is the first match.
proof fn lemma_op_of_at(ops: Seq<(u32, bool)>, i: int)
    requires
        0 <= i < ops.len(),
        forall|a: int, b: int|
            0 <= a < b < ops.len() ==> (#[trigger] ops[a]).0 != (#[trigger] ops[b]).0,
    ensures
        spec_op_of(ops, ops[i].0) == Some(ops[i].1),
    decreases i,
{
    if i > 0 {
        assert(ops[0].0 != ops[i].0);
        assert(ops.drop_first()[i - 1] == ops[i]);
        lemma_op_of_at(ops.drop_first(), i - 1);
    }
}

/// A decided lookup points at some entry of the patch.
proof fn lemma_op_of_member(ops: Seq<(u32, bool)>, id: u32)
    requires
        spec_op_of(ops, id) is Some,
    ensures
        exists|k: int|
            0 <= k < ops.len() && (#[trigger] ops[k]).0 == id && ops[k].1 == spec_op_of(
                ops,
                id,
            )->Some_0,
    decreases ops.len(),
{
    if ops.len() > 0 && ops[0].0 != id {
        lemma_op_of_member(ops.drop_first(), id);
        let k = choose|k: int|
            0 <= k < ops.drop_first().len() && (#[trigger] ops.drop_first()[k]).0 == id
                && ops.drop_first()[k].1 == spec_op_of(ops.drop_first(), id)->Some_0;
        assert(ops[k + 1] == ops.drop_first()[k]);
    }
}

} // verus!
