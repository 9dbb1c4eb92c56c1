//! An executable exercise of the change log: applies a fixed write history
//! to a store and checks every `*/changes` response, from every captured
//! state and under every page size, against what the log semantics owe.

use vstd::prelude::*;

use crate::changelog::LogAction;
use crate::changes::{spec_account_log, JMAPState};
use crate::store::JMAPStore;
use crate::types::{AccountId, Collection};
use crate::update::WriteBatch;

verus! {

/// Whether two id lists hold the same ids in the same order.
#[verifier::loop_isolation(false)]
fn ids_equal(a: &Vec<u64>, b: &Vec<u64>) -> (r: bool)
    ensures
        r == (a@ =~= b@),
{
    if a.len() != b.len() {
        return false;
    }
    let n = a.len();
    let mut i: usize = 0;
    while i < n
        invariant
            i <= n,
            n == a@.len() == b@.len(),
            forall|j: int| 0 <= j < i ==> a@[j] == b@[j],
        decreases n - i,
    {
        if a[i] != b[i] {
            return false;
        }
        i = i + 1;
    }
    assert(a@ =~= b@);
    true
}

/// Remove one occurrence of an id; whether it was present.
fn remove_id(v: &mut Vec<u64>, id: u64) -> (r: bool)
{
    let n = v.len();
    let mut i: usize = 0;
    while i < n
        invariant
            i <= n,
            n == v@.len(),
        decreases n - i,
    {
        if v[i] == id {
            v.remove(i);
            return true;
        }
        i = i + 1;
    }
    false
}

/// Drain one response's ids from the outstanding expectations.
fn drain_expected(resp_ids: &Vec<u64>, expected: &mut Vec<u64>) -> (r: bool)
{
    let n = resp_ids.len();
    let mut ok = true;
    let mut i: usize = 0;
    while i < n
        decreases n - i,
    {
        if i < resp_ids.len() {
            if !remove_id(expected, resp_ids[i]) {
                ok = false;
            }
        }
        i = i + 1;
    }
    ok
}

fn copy_ids(v: &Vec<u64>) -> (r: Vec<u64>)
    ensures
        r@ == v@,
{
    let mut out: Vec<u64> = Vec::new();
    let n = v.len();
    let mut i: usize = 0;
    while i < n
        invariant
            i <= n,
            n == v@.len(),
            out@ == v@.take(i as int),
        decreases n - i,
    {
        out.push(v[i]);
        assert(out@ =~= v@.take(i + 1));
        i = i + 1;
    }
    assert(out@ =~= v@);
    out
}

/// Check one captured state: the unpaged response lists the expected ids,
/// and chaining pages of every size from one to eight delivers exactly the
/// same ids once each.
#[verifier::loop_isolation(false)]
fn check_state(
    store: &JMAPStore,
    account_id: AccountId,
    state: JMAPState,
    created: &Vec<u64>,
    updated: &Vec<u64>,
    destroyed: &Vec<u64>,
) -> (r: bool)
    requires
        store.wf(),
{
    let resp = match store.changes(account_id, Collection::Mail, state, 0) {
        Ok(resp) => resp,
        Err(_) => {
            return false;
        },
    };
    let mut ok = ids_equal(&resp.created, created) && ids_equal(&resp.updated, updated)
        && ids_equal(&resp.destroyed, destroyed);

    let mut max_changes: usize = 1;
    while max_changes <= 8
        invariant
            store.wf(),
        decreases 9 - max_changes,
    {
        let mut want_created = copy_ids(created);
        let mut want_updated = copy_ids(updated);
        let mut want_destroyed = copy_ids(destroyed);
        let mut int_state = state;
        let mut rounds: usize = 0;
        while rounds < 100
            invariant
                store.wf(),
            decreases 100 - rounds,
        {
            let page = match store.changes(account_id, Collection::Mail, int_state, max_changes) {
                Ok(page) => page,
                Err(_) => {
                    return false;
                },
            };
            if page.total_changes > max_changes {
                ok = false;
            }
            if !drain_expected(&page.created, &mut want_created) {
                ok = false;
            }
            if !drain_expected(&page.updated, &mut want_updated) {
                ok = false;
            }
            if !drain_expected(&page.destroyed, &mut want_destroyed) {
                ok = false;
            }
            int_state = page.new_state;
            if !page.has_more_changes {
                break ;
            }
            rounds = rounds + 1;
        }
        if want_created.len() != 0 || want_updated.len() != 0 || want_destroyed.len() != 0 {
            ok = false;
        }
        max_changes = max_changes + 1;
    }
    ok
}

/// Apply one stage of log actions as a batch.
fn apply_stage(store: &mut JMAPStore, account_id: AccountId, actions: &Vec<LogAction>) -> (r: bool)
    requires
        old(store).wf(),
    ensures
        r ==> final(store).wf(),
{
    if store.raft_index == u64::MAX {
        return false;
    }
    let mut batch = WriteBatch::new(account_id);
    let n = actions.len();
    let mut i: usize = 0;
    while i < n
        invariant
            i <= n,
            n == actions@.len(),
            batch.account_id == account_id,
        decreases n - i,
    {
        batch.log_action(Collection::Mail, actions[i]);
        i = i + 1;
    }
    match store.write(&batch) {
        Ok(_) => true,
        Err(_) => false,
    }
}

/// Drive the change log through the reference write history: documents
/// created, moved, updated and deleted across eight stages, with ids
/// reused; after every stage every captured state must observe exactly
/// the right created, updated and destroyed ids, unpaged and under every
/// page size; finally the log is compacted and the history must still
/// replay from the initial state.
#[verifier::loop_isolation(false)]
#[verifier::spinoff_prover]
#[verifier::rlimit(100)]
pub fn jmap_changes(store: &mut JMAPStore, account_id: AccountId) -> (r: bool)
    requires
        old(store).wf(),
    ensures
        r ==> final(store).wf(),
        r ==> spec_account_log(final(store).change_log@, account_id, Collection::Mail).len() == 1,
        r ==> ({
            let sub = spec_account_log(final(store).change_log@, account_id, Collection::Mail);
            &&& !crate::changes::spec_changes_err(sub, JMAPState::Initial)
            &&& exists|resp: crate::changes::ChangesResponse|
                #[trigger] crate::changes::spec_changes_response_ok(
                    sub,
                    resp,
                    account_id,
                    JMAPState::Initial,
                    0,
                ) && resp.created@ == seq![2u64, 3, 11, 12] && resp.updated@.len() == 0
                    && resp.destroyed@.len() == 0
        }),
{
    let mut ok = true;
    let mut states: Vec<JMAPState> = Vec::new();
    states.push(JMAPState::Initial);

    let stages: Vec<Vec<LogAction>> = vec![
        vec![LogAction::Insert(0), LogAction::Insert(1), LogAction::Insert(2)],
        vec![
            LogAction::Move(0, 3),
            LogAction::Insert(4),
            LogAction::Insert(5),
            LogAction::Update(1),
            LogAction::Update(2),
        ],
        vec![
            LogAction::Delete(1),
            LogAction::Insert(6),
            LogAction::Insert(7),
            LogAction::Update(2),
        ],
        vec![
            LogAction::Update(4),
            LogAction::Update(5),
            LogAction::Update(6),
            LogAction::Update(7),
        ],
        vec![
            LogAction::Delete(4),
            LogAction::Delete(5),
            LogAction::Delete(6),
            LogAction::Delete(7),
        ],
        vec![
            LogAction::Insert(8),
            LogAction::Insert(9),
            LogAction::Insert(10),
            LogAction::Update(3),
        ],
        vec![LogAction::Update(2), LogAction::Update(8)],
        vec![LogAction::Move(9, 11), LogAction::Move(10, 12), LogAction::Delete(8)],
    ];
    let expectations: Vec<Vec<(Vec<u64>, Vec<u64>, Vec<u64>)>> = vec![
        vec![(vec![0u64, 1, 2], vec![], vec![])],
        vec![
            (vec![1u64, 2, 3, 4, 5], vec![], vec![]),
            (vec![3u64, 4, 5], vec![1u64, 2], vec![0u64]),
        ],
        vec![
            (vec![2u64, 3, 4, 5, 6, 7], vec![], vec![]),
            (vec![3u64, 4, 5, 6, 7], vec![2u64], vec![0u64, 1]),
            (vec![6u64, 7], vec![2u64], vec![1u64]),
        ],
        vec![
            (vec![2u64, 3, 4, 5, 6, 7], vec![], vec![]),
            (vec![3u64, 4, 5, 6, 7], vec![2u64], vec![0u64, 1]),
            (vec![6u64, 7], vec![2u64, 4, 5], vec![1u64]),
            (vec![], vec![4u64, 5, 6, 7], vec![]),
        ],
        vec![
            (vec![2u64, 3], vec![], vec![]),
            (vec![3u64], vec![2u64], vec![0u64, 1]),
            (vec![], vec![2u64], vec![1u64, 4, 5]),
            (vec![], vec![], vec![4u64, 5, 6, 7]),
            (vec![], vec![], vec![4u64, 5, 6, 7]),
        ],
        vec![
            (vec![2u64, 3, 8, 9, 10], vec![], vec![]),
            (vec![3u64, 8, 9, 10], vec![2u64], vec![0u64, 1]),
            (vec![8u64, 9, 10], vec![2u64, 3], vec![1u64, 4, 5]),
            (vec![8u64, 9, 10], vec![3u64], vec![4u64, 5, 6, 7]),
            (vec![8u64, 9, 10], vec![3u64], vec![4u64, 5, 6, 7]),
            (vec![8u64, 9, 10], vec![3u64], vec![]),
        ],
        vec![
            (vec![2u64, 3, 8, 9, 10], vec![], vec![]),
            (vec![3u64, 8, 9, 10], vec![2u64], vec![0u64, 1]),
            (vec![8u64, 9, 10], vec![2u64, 3], vec![1u64, 4, 5]),
            (vec![8u64, 9, 10], vec![2u64, 3], vec![4u64, 5, 6, 7]),
            (vec![8u64, 9, 10], vec![2u64, 3], vec![4u64, 5, 6, 7]),
            (vec![8u64, 9, 10], vec![2u64, 3], vec![]),
            (vec![], vec![2u64, 8], vec![]),
        ],
        vec![
            (vec![2u64, 3, 11, 12], vec![], vec![]),
            (vec![3u64, 11, 12], vec![2u64], vec![0u64, 1]),
            (vec![11u64, 12], vec![2u64, 3], vec![1u64, 4, 5]),
            (vec![11u64, 12], vec![2u64, 3], vec![4u64, 5, 6, 7]),
            (vec![11u64, 12], vec![2u64, 3], vec![4u64, 5, 6, 7]),
            (vec![11u64, 12], vec![2u64, 3], vec![]),
            (vec![11u64, 12], vec![2u64], vec![8u64, 9, 10]),
            (vec![11u64, 12], vec![], vec![8u64, 9, 10]),
        ],
    ];

    if stages.len() != expectations.len() {
        return false;
    }
    let n_stages = stages.len();
    let mut si: usize = 0;
    while si < n_stages
        invariant
            si <= n_stages,
            n_stages == stages@.len() == expectations@.len(),
            store.wf(),
        decreases n_stages - si,
    {
        if !apply_stage(store, account_id, &stages[si]) {
            return false;
        }
        if !check_stage(store, account_id, &states, &expectations[si]) {
            ok = false;
        }
        states.push(store.get_state(account_id, Collection::Mail));
        si = si + 1;
    }

    // Compact and replay from the initial state.
    store.compact_log(account_id, Collection::Mail);
    let resp = match store.changes(account_id, Collection::Mail, JMAPState::Initial, 0) {
        Ok(resp) => resp,
        Err(_) => {
            return false;
        },
    };
    let want: Vec<u64> = vec![2u64, 3, 11, 12];
    ok = ok && ids_equal(&resp.created, &want) && resp.updated.len() == 0
        && resp.destroyed.len() == 0;
    proof {
        if ok {
            assert(want@ =~= seq![2u64, 3, 11, 12]);
            assert(resp.created@ =~= seq![2u64, 3, 11, 12]);
            let sub = spec_account_log(store.change_log@, account_id, Collection::Mail);
            assert(crate::changes::spec_changes_response_ok(
                sub,
                resp,
                account_id,
                JMAPState::Initial,
                0,
            ) && resp.created@ == seq![2u64, 3, 11, 12] && resp.updated@.len() == 0
                && resp.destroyed@.len() == 0);
        }
    }
    ok
}



/// Check every captured state of one stage.
#[verifier::loop_isolation(false)]
fn check_stage(
    store: &JMAPStore,
    account_id: AccountId,
    states: &Vec<JMAPState>,
    expected: &Vec<(Vec<u64>, Vec<u64>, Vec<u64>)>,
) -> (r: bool)
    requires
        store.wf(),
{
    if states.len() != expected.len() {
        return false;
    }
    let n = states.len();
    let mut ok = true;
    let mut i: usize = 0;
    while i < n
        invariant
            i <= n,
            n == states@.len() == expected@.len(),
            store.wf(),
        decreases n - i,
    {
        let e = &expected[i];
        if !check_state(store, account_id, states[i], &e.0, &e.1, &e.2) {
            ok = false;
        }
        i = i + 1;
    }
    ok
}

} // verus!
