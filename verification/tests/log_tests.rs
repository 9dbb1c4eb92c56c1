use jmap_core::changelog::LogAction;
use jmap_core::changes::JMAPState;
use jmap_core::logcheck::jmap_changes;
use jmap_core::store::JMAPStore;
use jmap_core::types::Collection;
use jmap_core::update::WriteBatch;
use jmap_core::raftlog::{Change, Entry, RaftId};

fn apply(store: &mut JMAPStore, account: u32, actions: &[LogAction]) {
    let mut batch = WriteBatch::new(account);
    for a in actions {
        batch.log_action(Collection::Mail, *a);
    }
    store.write(&batch).unwrap();
}

#[test]
fn change_log_history() {
    let mut store = JMAPStore::new();
    assert!(jmap_changes(&mut store, 1));
}

#[test]
fn moves_and_pages() {
    let mut store = JMAPStore::new();
    apply(
        &mut store,
        7,
        &[LogAction::Insert(0), LogAction::Insert(1), LogAction::Insert(2)],
    );
    let s1 = store.get_state(7, Collection::Mail);
    apply(
        &mut store,
        7,
        &[
            LogAction::Move(0, 3),
            LogAction::Insert(4),
            LogAction::Insert(5),
            LogAction::Update(1),
            LogAction::Update(2),
        ],
    );

    // From the initial state everything merges into creations.
    let all = store.changes(7, Collection::Mail, JMAPState::Initial, 0).unwrap();
    assert_eq!(all.created, vec![1, 2, 3, 4, 5]);
    assert_eq!(all.updated, Vec::<u64>::new());
    assert_eq!(all.destroyed, Vec::<u64>::new());

    // From the captured state the move surfaces as a destroy and a create.
    let since = store.changes(7, Collection::Mail, s1, 0).unwrap();
    assert_eq!(since.created, vec![3, 4, 5]);
    assert_eq!(since.updated, vec![1, 2]);
    assert_eq!(since.destroyed, vec![0]);
}

#[test]
fn compaction_cancels_deleted_creations() {
    let mut store = JMAPStore::new();
    apply(
        &mut store,
        3,
        &[
            LogAction::Insert(4),
            LogAction::Insert(5),
            LogAction::Insert(6),
            LogAction::Insert(7),
        ],
    );
    apply(
        &mut store,
        3,
        &[
            LogAction::Delete(4),
            LogAction::Delete(5),
            LogAction::Delete(6),
            LogAction::Delete(7),
        ],
    );
    store.compact_log(3, Collection::Mail);
    let resp = store.changes(3, Collection::Mail, JMAPState::Initial, 0).unwrap();
    assert_eq!(resp.created, Vec::<u64>::new());
    assert_eq!(resp.updated, Vec::<u64>::new());
    assert_eq!(resp.destroyed, Vec::<u64>::new());
}

#[test]
fn unknown_state_is_invalid_arguments() {
    let mut store = JMAPStore::new();
    apply(&mut store, 9, &[LogAction::Insert(0)]);
    let r = store.changes(9, Collection::Mail, JMAPState::Exact(999), 0);
    assert!(matches!(r, Err(jmap_core::store::StoreError::InvalidArguments(_))));
}

#[test]
fn empty_log_initial_state() {
    let store = JMAPStore::new();
    let resp = store.changes(2, Collection::Mail, JMAPState::Initial, 0).unwrap();
    assert_eq!(resp.total_changes, 0);
    assert!(!resp.has_more_changes);
    assert_eq!(resp.new_state, JMAPState::Initial);
}

#[test]
fn raft_log_entries() {
    let mut store = JMAPStore::new();
    apply(&mut store, 1, &[LogAction::Insert(0)]);
    apply(&mut store, 1, &[LogAction::Insert(1)]);

    let last = store.get_prev_raft_id(RaftId::new(u64::MAX, u64::MAX)).unwrap().unwrap();
    assert_eq!(last, RaftId::new(0, 1));
    let first = store.get_next_raft_id(RaftId::new(0, 0)).unwrap().unwrap();
    assert_eq!(first, RaftId::new(0, 0));
    assert!(store.get_prev_raft_id(RaftId::new(0, 0)).unwrap() == Some(RaftId::new(0, 0)));
}

#[test]
fn raft_key_round_trip() {
    let id = RaftId::new(7, 0x0102_0304_0506_0708);
    let key = id.serialize_key();
    assert_eq!(key.len(), 17);
    assert_eq!(RaftId::deserialize_key(&key), Some(id));
    assert!(RaftId::deserialize_key(&key[0..10]).is_none());
}

#[test]
fn raft_entry_round_trip() {
    let entry = Entry {
        raft_id: RaftId::new(2, 9),
        account_id: 77,
        changes: vec![
            Change { change_id: 1, collection: Collection::Mail },
            Change { change_id: 300, collection: Collection::Mailbox },
        ],
    };
    let bytes = entry.serialize();
    let back = Entry::deserialize(&bytes, RaftId::new(2, 9)).unwrap();
    assert_eq!(back.account_id, 77);
    assert_eq!(back.changes.len(), 2);
    assert_eq!(back.changes[0].change_id, 1);
    assert_eq!(back.changes[1].change_id, 300);
    assert_eq!(back.changes[1].collection, Collection::Mailbox);
    assert!(Entry::deserialize(&bytes[0..2], RaftId::new(2, 9)).is_none());
}

#[test]
fn raft_entries_read_and_replicate() {
    let mut leader = JMAPStore::new();
    apply(&mut leader, 1, &[LogAction::Insert(0)]);
    apply(&mut leader, 1, &[LogAction::Insert(1), LogAction::Insert(2)]);

    // Read everything from the start, then only what follows the first id.
    let all = leader.get_raft_entries(RaftId::new(u64::MAX, u64::MAX), 10).unwrap();
    assert_eq!(all.len(), 2);
    assert_eq!(all[0].raft_id, RaftId::new(0, 0));
    assert_eq!(all[1].raft_id, RaftId::new(0, 1));
    assert_eq!(all[0].account_id, 1);
    let tail = leader.get_raft_entries(RaftId::new(0, 0), 10).unwrap();
    assert_eq!(tail.len(), 1);
    assert_eq!(tail[0].raft_id, RaftId::new(0, 1));
    let page = leader.get_raft_entries(RaftId::new(u64::MAX, u64::MAX), 1).unwrap();
    assert_eq!(page.len(), 1);

    // A follower adopts the leader's entries and counters.
    let mut follower = JMAPStore::new();
    follower.insert_raft_entries(&all).unwrap();
    assert_eq!(follower.raft_log.len(), 2);
    assert_eq!(follower.raft_index, 2);
    let copied = follower.get_raft_entries(RaftId::new(u64::MAX, u64::MAX), 10).unwrap();
    assert_eq!(copied.len(), 2);
    assert_eq!(copied[1].changes.len(), 1);
    assert_eq!(copied[1].changes[0].collection, Collection::Mail);
}
