use jmap_core::cluster::{append_entries_decision, AppendDecision, Cluster, Peer, State, VoteReply, ELECTION_TIMEOUT};
use jmap_core::raftlog::RaftId;

fn peer(id: u32, term: u64, index: u64) -> Peer {
    Peer {
        peer_id: id,
        shard_id: 0,
        vote_granted: false,
        offline: false,
        commit_index: 0,
        last_log_term: term,
        last_log_index: index,
    }
}

fn node(id: u32, term: u64, last: RaftId, peers: Vec<Peer>) -> Cluster {
    Cluster {
        peer_id: id,
        shard_id: 0,
        term,
        state: State::Wait { election_due: 0 },
        last_log: last,
        uncommitted_index: last.index,
        peers,
    }
}

#[test]
fn three_peer_election() {
    // Three-peer shard; the old leader is gone.  The peer with the longest
    // log runs, collects both votes, and leads; the timer respects the
    // election timeout plus jitter.
    let mut a = node(1, 1, RaftId::new(1, 5), vec![peer(2, 1, 4), peer(3, 1, 3)]);
    assert!(a.has_election_quorum());
    assert!(!a.log_is_behind(1, 4));
    assert!(!a.log_is_behind(1, 5));
    assert!(a.log_is_behind(2, 0));

    let now = 1_000_000u64;
    a.run_for_election(false, now);
    assert!(a.is_candidate());
    assert_eq!(a.term, 2);
    let due = a.time_to_next_election(now).unwrap();
    assert!(due >= ELECTION_TIMEOUT + 150 && due < ELECTION_TIMEOUT + 300);

    // With its own vote and one grant the candidate holds two of three.
    let won = a.count_vote(2);
    assert!(won);
    assert!(a.count_vote(3));
    a.become_leader();
    assert!(a.is_leading());
    assert_eq!(a.leader_peer_id(), Some(1));
}

#[test]
fn vote_granted_once_per_term() {
    let mut b = node(2, 2, RaftId::new(1, 4), vec![peer(1, 1, 5), peer(3, 1, 3)]);
    assert!(b.can_grant_vote(1));
    b.vote_for(1, 5_000);
    assert!(b.can_grant_vote(1));
    assert!(!b.can_grant_vote(3));
}

#[test]
fn step_down_on_higher_term() {
    let mut c = node(3, 1, RaftId::new(1, 3), vec![peer(1, 1, 5), peer(2, 1, 4)]);
    c.become_leader();
    assert!(c.is_leading());
    c.step_down(4, 10_000);
    assert_eq!(c.term, 4);
    assert!(!c.is_leading());
    assert!(matches!(c.state, State::Wait { .. }));
}

#[test]
fn no_quorum_without_healthy_peers() {
    let mut down1 = peer(2, 1, 0);
    down1.offline = true;
    let mut down2 = peer(3, 1, 0);
    down2.offline = true;
    let a = node(1, 1, RaftId::new(1, 1), vec![down1, down2]);
    assert!(!a.has_election_quorum());
}

#[test]
fn follower_and_vote_bookkeeping() {
    let mut a = node(1, 3, RaftId::new(2, 9), vec![peer(2, 2, 9), peer(3, 2, 8)]);
    a.follow_leader(2);
    assert!(a.is_following());
    assert_eq!(a.leader_peer_id(), Some(2));
    assert!(a.is_election_due(u64::MAX));
    a.start_election_timer(true, 7_000);
    assert!(matches!(a.state, State::Wait { .. }));
    for p in &a.peers {
        assert!(!p.vote_granted);
    }
}

#[test]
fn sentinel_index_ranks_lowest() {
    // An empty log (the u64::MAX sentinel) must compare below every real
    // index, so a node with any entry is ahead of an empty one.
    let empty = node(1, 1, RaftId::new(1, u64::MAX), vec![peer(2, 1, 0)]);
    assert!(empty.log_is_behind(1, 0));
    assert!(empty.log_is_behind_or_eq(1, u64::MAX));
    assert!(!empty.log_is_behind(1, u64::MAX));

    let ahead = node(2, 1, RaftId::new(1, 0), vec![peer(1, 1, u64::MAX)]);
    assert!(!ahead.log_is_behind_or_eq(1, u64::MAX));
}

#[test]
fn quorum_needs_a_shard_majority() {
    // Three in-shard peers: together with this node the shard holds four,
    // so at least two healthy peers are needed.
    let mut p1 = peer(2, 1, 0);
    let mut p2 = peer(3, 1, 0);
    let p3 = peer(4, 1, 0);
    p1.offline = true;
    p2.offline = true;
    let one_healthy = node(1, 1, RaftId::new(1, 1), vec![p1, p2, p3]);
    assert!(!one_healthy.has_election_quorum());

    let mut q1 = peer(2, 1, 0);
    q1.offline = true;
    let two_healthy = node(1, 1, RaftId::new(1, 1), vec![q1, peer(3, 1, 0), peer(4, 1, 0)]);
    assert!(two_healthy.has_election_quorum());
}

#[test]
fn vote_request_round() {
    // A waiting node grants a vote to an up-to-date known candidate and
    // adopts its term; an unknown peer is refused; a stale log is denied.
    let mut b = node(2, 1, RaftId::new(1, 4), vec![peer(1, 1, 5), peer(3, 1, 3)]);
    let reply = b.handle_vote_request(1, 2, RaftId::new(1, 5), 1_000);
    assert_eq!(reply, VoteReply::Vote { term: 2, vote_granted: true });
    assert_eq!(b.term, 2);

    let again = b.handle_vote_request(3, 2, RaftId::new(1, 5), 1_000);
    assert_eq!(again, VoteReply::Vote { term: 2, vote_granted: false });

    let unknown = b.handle_vote_request(9, 3, RaftId::new(1, 5), 1_000);
    assert_eq!(unknown, VoteReply::UnregisteredPeer);

    let mut c = node(3, 1, RaftId::new(2, 7), vec![peer(1, 1, 5), peer(2, 1, 4)]);
    let stale = c.handle_vote_request(1, 2, RaftId::new(1, 5), 1_000);
    assert_eq!(stale, VoteReply::Vote { term: 2, vote_granted: false });
}

#[test]
fn vote_responses_elect_a_leader() {
    let mut a = node(1, 1, RaftId::new(1, 5), vec![peer(2, 1, 4), peer(3, 1, 3)]);
    a.run_for_election(true, 500);
    assert_eq!(a.term, 2);
    let led = a.handle_vote_response(2, 2, true, 600);
    assert!(led);
    assert!(a.is_leading());

    // A higher term in a reply forces a step down.
    let mut b = node(2, 1, RaftId::new(1, 4), vec![peer(1, 1, 5), peer(3, 1, 3)]);
    b.run_for_election(true, 500);
    assert!(!b.handle_vote_response(1, 9, false, 600));
    assert_eq!(b.term, 9);
    assert!(!b.is_candidate());
}

#[test]
fn commit_index_advances_to_the_median() {
    // Leader with two in-shard followers: the median of the commit ranks
    // moves the commit point to what a majority holds.
    let mut l = node(1, 2, RaftId::new(2, 0), vec![peer(2, 2, 9), peer(3, 2, 9)]);
    l.uncommitted_index = 9;
    l.last_log = RaftId::new(2, u64::MAX);
    let first = l.advance_commit_index(2, 5);
    assert_eq!(first, Some(5));
    assert_eq!(l.last_log.index, 5);

    // The second follower catching up to 9 lifts the median to 9.
    let second = l.advance_commit_index(3, 9);
    assert_eq!(second, Some(9));
    assert_eq!(l.last_log.index, 9);

    // A stale acknowledgement moves nothing.
    assert_eq!(l.advance_commit_index(2, 5), None);
}

#[test]
fn append_entries_matches_or_rejects() {
    let log: Vec<(RaftId, Vec<u8>)> = vec![
        (RaftId::new(1, 1), vec![0]),
        (RaftId::new(1, 2), vec![0]),
        (RaftId::new(2, 3), vec![0]),
    ];
    let last = RaftId::new(2, 3);

    // A stale leader term is refused outright.
    assert_eq!(
        append_entries_decision(3, last, &log, 2, RaftId::new(2, 3)),
        AppendDecision::Stale
    );
    // The log origin always matches.
    assert_eq!(
        append_entries_decision(2, last, &log, 2, RaftId::new(0, 0)),
        AppendDecision::Found { match_index: 0 }
    );
    // A held entry matches at its index.
    assert_eq!(
        append_entries_decision(2, last, &log, 3, RaftId::new(1, 2)),
        AppendDecision::Found { match_index: 2 }
    );
    // A missing entry asks the leader to back off to this node's last id.
    assert_eq!(
        append_entries_decision(2, last, &log, 2, RaftId::new(2, 2)),
        AppendDecision::Gap { hint: last }
    );
}
