//! The Raft node: election timing, vote bookkeeping, log comparison, and
//! the state transitions of one peer, as pure decisions over plain values.
//! Network sends and timer waits stay with the caller, which performs the
//! actions these decisions return.

use vstd::prelude::*;

use crate::raftlog::{LogIndex, RaftId, TermId};

verus! {

pub type PeerId = u32;

/// Election timing: the base timeout plus a uniform random jitter.
pub const ELECTION_TIMEOUT: u64 = 1000;

pub const ELECTION_TIMEOUT_RAND_FROM: u64 = 150;

pub const ELECTION_TIMEOUT_RAND_TO: u64 = 300;

/// Relies on `rand::Rng::gen_range` over `thread_rng`: a value drawn
/// uniformly from the half-open range.
#[verifier::external_body]
fn random_jitter() -> (r: u64)
    ensures
        ELECTION_TIMEOUT_RAND_FROM <= r < ELECTION_TIMEOUT_RAND_TO,
{
    <rand::rngs::ThreadRng as rand::Rng>::gen_range(
        &mut rand::thread_rng(),
        ELECTION_TIMEOUT_RAND_FROM..ELECTION_TIMEOUT_RAND_TO,
    )
}

/// When the next election becomes due, in milliseconds from `now_ms`:
/// immediately-due elections skip the base timeout but keep the jitter.
pub fn election_timeout(immediate: bool, now_ms: u64) -> (r: u64)
    requires
        now_ms < 0xFFFF_FFFF_FFFF_0000,
    ensures
        !immediate ==> now_ms + ELECTION_TIMEOUT + ELECTION_TIMEOUT_RAND_FROM <= r < now_ms
            + ELECTION_TIMEOUT + ELECTION_TIMEOUT_RAND_TO,
        immediate ==> now_ms + ELECTION_TIMEOUT_RAND_FROM <= r < now_ms
            + ELECTION_TIMEOUT_RAND_TO,
{
    let base: u64 = if immediate {
        0
    } else {
        ELECTION_TIMEOUT
    };
    now_ms + base + random_jitter()
}

/// The replication role of one node.
#[derive(Debug, Clone, Copy, PartialEq, Eq, Structural)]
pub enum State {
    Leader,
    Wait { election_due: u64 },
    Candidate { election_due: u64 },
    VotedFor { peer_id: PeerId, election_due: u64 },
    Follower { peer_id: PeerId },
}

/// One known peer, as the node sees it.
#[derive(Debug, Clone, Copy, PartialEq, Eq, Structural)]
pub struct Peer {
    pub peer_id: PeerId,
    pub shard_id: u32,
    pub vote_granted: bool,
    pub offline: bool,
    pub commit_index: LogIndex,
    pub last_log_term: TermId,
    pub last_log_index: LogIndex,
}

/// The election deadline windows a fresh timer may land in: the random
/// jitter, plus the base timeout unless the election is immediately due.
pub open spec fn spec_due_window(due: u64, immediate: bool, now_ms: u64) -> bool {
    if immediate {
        now_ms + ELECTION_TIMEOUT_RAND_FROM <= due < now_ms + ELECTION_TIMEOUT_RAND_TO
    } else {
        now_ms + ELECTION_TIMEOUT + ELECTION_TIMEOUT_RAND_FROM <= due < now_ms + ELECTION_TIMEOUT
            + ELECTION_TIMEOUT_RAND_TO
    }
}

/// The election deadline of a waiting state, where one is running and
/// already overdue.
pub open spec fn spec_overdue(state: State, now_ms: u64) -> Option<u64> {
    match state {
        State::Wait { election_due } => if election_due < now_ms {
            Some(election_due)
        } else {
            Option::None
        },
        State::Candidate { election_due } => if election_due < now_ms {
            Some(election_due)
        } else {
            Option::None
        },
        State::VotedFor { election_due, .. } => if election_due < now_ms {
            Some(election_due)
        } else {
            Option::None
        },
        _ => Option::None,
    }
}

/// The rank of a log index in vote comparisons: the `u64::MAX` sentinel,
/// meaning an empty log, ranks below every real index.
pub open spec fn spec_index_rank(i: u64) -> int {
    if i == u64::MAX {
        -1
    } else {
        i as int
    }
}

/// Adding one with wraparound turns an index into its rank plus one.
proof fn lemma_index_rank(i: u64)
    ensures
        i.wrapping_add(1) == spec_index_rank(i) + 1,
{
}

/// The Raft bookkeeping of one node.
#[derive(Debug, Clone, PartialEq, Eq)]
pub struct Cluster {
    pub peer_id: PeerId,
    pub shard_id: u32,
    pub term: TermId,
    pub state: State,
    pub last_log: RaftId,
    pub uncommitted_index: LogIndex,
    pub peers: Vec<Peer>,
}

/// Peers of this node's shard.
pub open spec fn spec_shard_peer_count(peers: Seq<Peer>, shard_id: u32) -> int
    decreases peers.len(),
{
    if peers.len() == 0 {
        0
    } else {
        (if peers[0].shard_id == shard_id {
            1int
        } else {
            0
        }) + spec_shard_peer_count(peers.drop_first(), shard_id)
    }
}

/// Healthy (not offline) peers of the shard.
pub open spec fn spec_healthy_count(peers: Seq<Peer>, shard_id: u32) -> int
    decreases peers.len(),
{
    if peers.len() == 0 {
        0
    } else {
        (if peers[0].shard_id == shard_id && !peers[0].offline {
            1int
        } else {
            0
        }) + spec_healthy_count(peers.drop_first(), shard_id)
    }
}

/// Granted votes among the shard, this node's own vote included.
pub open spec fn spec_vote_count(peers: Seq<Peer>, shard_id: u32) -> int
    decreases peers.len(),
{
    if peers.len() == 0 {
        1
    } else {
        (if peers[0].shard_id == shard_id && peers[0].vote_granted {
            1int
        } else {
            0
        }) + spec_vote_count(peers.drop_first(), shard_id)
    }
}

impl Cluster {
    /// Whether enough shard peers are healthy to hold an election: the
    /// healthy in-shard peers, together with this node, must reach a
    /// majority of the shard.
    #[verifier::loop_isolation(false)]
    pub fn has_election_quorum(&self) -> (r: bool)
        requires
            self.peers@.len() < 0x1000_0000,
        ensures
            r == (spec_healthy_count(self.peers@, self.shard_id) >= (spec_shard_peer_count(
                self.peers@,
                self.shard_id,
            ) + 1) / 2),
    {
        let n = self.peers.len();
        let mut total: u64 = 0;
        let mut healthy: u64 = 0;
        let mut i: usize = 0;
        while i < n
            invariant
                i <= n,
                total == spec_shard_peer_count(self.peers@.take(i as int), self.shard_id),
                healthy == spec_healthy_count(self.peers@.take(i as int), self.shard_id),
                total <= i && healthy <= i,
            decreases n - i,
        {
            proof {
                lemma_counts_snoc(self.peers@.take(i + 1), self.shard_id);
                assert(self.peers@.take(i + 1).drop_last() =~= self.peers@.take(i as int));
            }
            let p = &self.peers[i];
            if p.shard_id == self.shard_id {
                total = total + 1;
                if !p.offline {
                    healthy = healthy + 1;
                }
            }
            i = i + 1;
        }
        assert(self.peers@.take(n as int) =~= self.peers@);
        healthy >= (total + 1) / 2
    }

    /// An election is due when the node is not leading or following and
    /// its election timer has passed.
    pub fn is_election_due(&self, now_ms: u64) -> (r: bool)
        ensures
            r == (match self.state {
                State::Candidate { election_due } => election_due < now_ms,
                State::Wait { election_due } => election_due < now_ms,
                State::VotedFor { election_due, .. } => election_due < now_ms,
                _ => true,
            }),
    {
        match self.state {
            State::Candidate { election_due } | State::Wait { election_due }
            | State::VotedFor { election_due, .. } => election_due < now_ms,
            _ => true,
        }
    }

    /// Milliseconds until the election timer fires, when one is running.
    pub fn time_to_next_election(&self, now_ms: u64) -> (r: Option<u64>)
        ensures
            r == (match self.state {
                State::Candidate { election_due } => Some(
                    if election_due > now_ms {
                        (election_due - now_ms) as u64
                    } else {
                        0u64
                    },
                ),
                State::Wait { election_due } => Some(
                    if election_due > now_ms {
                        (election_due - now_ms) as u64
                    } else {
                        0u64
                    },
                ),
                State::VotedFor { election_due, .. } => Some(
                    if election_due > now_ms {
                        (election_due - now_ms) as u64
                    } else {
                        0u64
                    },
                ),
                _ => Option::<u64>::None,
            }),
    {
        match self.state {
            State::Candidate { election_due } | State::Wait { election_due }
            | State::VotedFor { election_due, .. } => Some(
                if election_due > now_ms {
                    election_due - now_ms
                } else {
                    0
                },
            ),
            _ => None,
        }
    }

    /// Whether a candidate's log is at least as advanced as ours: a later
    /// last term dominates, a tie falls to the last index, where the
    /// `u64::MAX` none-sentinel ranks below every real index.
    pub fn log_is_behind_or_eq(&self, last_log_term: TermId, last_log_index: LogIndex) -> (r: bool)
        ensures
            r == (last_log_term > self.last_log.term || (last_log_term == self.last_log.term
                && spec_index_rank(last_log_index) >= spec_index_rank(self.last_log.index))),
    {
        proof {
            lemma_index_rank(last_log_index);
            lemma_index_rank(self.last_log.index);
        }
        last_log_term > self.last_log.term || (last_log_term == self.last_log.term
            && last_log_index.wrapping_add(1) >= self.last_log.index.wrapping_add(1))
    }

    /// Whether a peer's log is strictly more advanced than ours, the
    /// none-sentinel again lowest.
    pub fn log_is_behind(&self, last_log_term: TermId, last_log_index: LogIndex) -> (r: bool)
        ensures
            r == (last_log_term > self.last_log.term || (last_log_term == self.last_log.term
                && spec_index_rank(last_log_index) > spec_index_rank(self.last_log.index))),
    {
        proof {
            lemma_index_rank(last_log_index);
            lemma_index_rank(self.last_log.index);
        }
        last_log_term > self.last_log.term || (last_log_term == self.last_log.term
            && last_log_index.wrapping_add(1) > self.last_log.index.wrapping_add(1))
    }

    /// A vote can go to a candidate only while waiting, or again to the
    /// same peer already voted for this term.
    pub fn can_grant_vote(&self, candidate_peer_id: PeerId) -> (r: bool)
        ensures
            r == (match self.state {
                State::Wait { .. } => true,
                State::VotedFor { peer_id, .. } => candidate_peer_id == peer_id,
                _ => false,
            }),
    {
        match self.state {
            State::Wait { .. } => true,
            State::VotedFor { peer_id, .. } => candidate_peer_id == peer_id,
            _ => false,
        }
    }

    /// The leader this node recognizes: itself when leading, the followed
    /// peer when following.
    pub fn leader_peer_id(&self) -> (r: Option<PeerId>)
        ensures
            r == (match self.state {
                State::Leader => Some(self.peer_id),
                State::Follower { peer_id } => Some(peer_id),
                _ => Option::<PeerId>::None,
            }),
    {
        match self.state {
            State::Leader => Some(self.peer_id),
            State::Follower { peer_id } => Some(peer_id),
            _ => None,
        }
    }

    pub fn is_leading(&self) -> (r: bool)
        ensures
            r == (self.state is Leader),
    {
        matches!(self.state, State::Leader)
    }

    pub fn is_candidate(&self) -> (r: bool)
        ensures
            r == (self.state is Candidate),
    {
        matches!(self.state, State::Candidate { .. })
    }

    pub fn is_following(&self) -> (r: bool)
        ensures
            r == (self.state is Follower),
    {
        matches!(self.state, State::Follower { .. })
    }

    /// Restart the election timer and wait.
    pub fn start_election_timer(&mut self, immediate: bool, now_ms: u64)
        requires
            now_ms < 0xFFFF_FFFF_FFFF_0000,
        ensures
            final(self).state matches State::Wait { election_due } && spec_due_window(
                election_due,
                immediate,
                now_ms,
            ),
            final(self).term == old(self).term,
            final(self).peers@.len() == old(self).peers@.len(),
            forall|i: int|
                0 <= i < final(self).peers@.len() ==> (#[trigger] final(self).peers@[i]) == (Peer {
                    vote_granted: false,
                    ..old(self).peers@[i]
                }),
            final(self).peer_id == old(self).peer_id,
            final(self).shard_id == old(self).shard_id,
            final(self).last_log == old(self).last_log,
            final(self).uncommitted_index == old(self).uncommitted_index,
    {
        let due = election_timeout(immediate, now_ms);
        self.state = State::Wait { election_due: due };
        self.reset_votes();
    }

    /// Adopt a higher term observed in a message and fall back to waiting.
    pub fn step_down(&mut self, term: TermId, now_ms: u64)
        requires
            now_ms < 0xFFFF_FFFF_FFFF_0000,
        ensures
            final(self).term == term,
            final(self).state matches State::Wait { election_due } && (match spec_overdue(
                old(self).state,
                now_ms,
            ) {
                Some(due) => election_due == due,
                Option::None => spec_due_window(election_due, false, now_ms),
            }),
            final(self).peer_id == old(self).peer_id,
            final(self).shard_id == old(self).shard_id,
            final(self).last_log == old(self).last_log,
            final(self).uncommitted_index == old(self).uncommitted_index,
            forall|i: int|
                0 <= i < final(self).peers@.len() ==> (#[trigger] final(self).peers@[i]) == (Peer {
                    vote_granted: false,
                    ..old(self).peers@[i]
                }),
            final(self).peers@.len() == old(self).peers@.len(),
    {
        self.reset_votes();
        self.term = term;
        let overdue = match self.state {
            State::Wait { election_due } | State::Candidate { election_due }
            | State::VotedFor { election_due, .. } => if election_due < now_ms {
                Some(election_due)
            } else {
                None
            },
            _ => None,
        };
        let due = match overdue {
            Some(d) => d,
            None => election_timeout(false, now_ms),
        };
        self.state = State::Wait { election_due: due };
    }

    /// Record a vote for a candidate this term.
    pub fn vote_for(&mut self, peer_id: PeerId, now_ms: u64)
        requires
            now_ms < 0xFFFF_FFFF_FFFF_0000,
        ensures
            final(self).state matches State::VotedFor { peer_id: p, election_due } && p == peer_id
                && spec_due_window(election_due, false, now_ms),
            final(self).term == old(self).term,
            forall|i: int|
                0 <= i < final(self).peers@.len() ==> (#[trigger] final(self).peers@[i]) == (Peer {
                    vote_granted: false,
                    ..old(self).peers@[i]
                }),
            final(self).peer_id == old(self).peer_id,
            final(self).shard_id == old(self).shard_id,
            final(self).last_log == old(self).last_log,
            final(self).peers@.len() == old(self).peers@.len(),
    {
        let due = election_timeout(false, now_ms);
        self.state = State::VotedFor { peer_id, election_due: due };
        self.reset_votes();
    }

    /// Begin a new term as candidate.
    pub fn run_for_election(&mut self, immediate: bool, now_ms: u64)
        requires
            now_ms < 0xFFFF_FFFF_FFFF_0000,
            old(self).term < u64::MAX,
        ensures
            final(self).state matches State::Candidate { election_due } && spec_due_window(
                election_due,
                immediate,
                now_ms,
            ),
            final(self).term == old(self).term + 1,
            final(self).peer_id == old(self).peer_id,
            final(self).shard_id == old(self).shard_id,
            final(self).last_log == old(self).last_log,
            final(self).peers@.len() == old(self).peers@.len(),
            forall|i: int|
                0 <= i < final(self).peers@.len() ==> (#[trigger] final(self).peers@[i]) == (Peer {
                    vote_granted: false,
                    ..old(self).peers@[i]
                }),
    {
        let due = election_timeout(immediate, now_ms);
        self.state = State::Candidate { election_due: due };
        self.term = self.term + 1;
        self.reset_votes();
    }

    /// Become leader after winning; followers are spawned by the caller.
    pub fn become_leader(&mut self)
        ensures
            final(self).state is Leader,
            final(self).term == old(self).term,
            final(self).uncommitted_index == old(self).uncommitted_index,
            final(self).last_log == old(self).last_log,
            final(self).peers@.len() == old(self).peers@.len(),
            forall|i: int|
                0 <= i < final(self).peers@.len() ==> (#[trigger] final(self).peers@[i]) == (Peer {
                    vote_granted: false,
                    ..old(self).peers@[i]
                }),
            final(self).peer_id == old(self).peer_id,
            final(self).shard_id == old(self).shard_id,
    {
        self.state = State::Leader;
        self.reset_votes();
    }

    /// Follow a leader for this term.
    pub fn follow_leader(&mut self, peer_id: PeerId)
        ensures
            final(self).state == (State::Follower { peer_id }),
            final(self).term == old(self).term,
            final(self).peers@.len() == old(self).peers@.len(),
    {
        self.state = State::Follower { peer_id };
        self.reset_votes();
    }

    /// Forget all granted votes.
    #[verifier::loop_isolation(false)]
    pub fn reset_votes(&mut self)
        ensures
            final(self).peers@.len() == old(self).peers@.len(),
            forall|i: int|
                0 <= i < final(self).peers@.len() ==> (#[trigger] final(self).peers@[i]) == (Peer {
                    vote_granted: false,
                    ..old(self).peers@[i]
                }),
            final(self).peer_id == old(self).peer_id,
            final(self).shard_id == old(self).shard_id,
            final(self).term == old(self).term,
            final(self).state == old(self).state,
            final(self).last_log == old(self).last_log,
            final(self).uncommitted_index == old(self).uncommitted_index,
    {
        let n = self.peers.len();
        let mut i: usize = 0;
        while i < n
            invariant
                i <= n,
                n == self.peers@.len(),
                forall|j: int|
                    0 <= j < i ==> (#[trigger] self.peers@[j]) == (Peer {
                        vote_granted: false,
                        ..old(self).peers@[j]
                    }),
                forall|j: int| i <= j < n ==> (#[trigger] self.peers@[j]) == old(self).peers@[j],
                self.peer_id == old(self).peer_id,
                self.shard_id == old(self).shard_id,
                self.term == old(self).term,
                self.state == old(self).state,
                self.last_log == old(self).last_log,
                self.uncommitted_index == old(self).uncommitted_index,
            decreases n - i,
        {
            let p = self.peers[i];
            let cleared = Peer { vote_granted: false, ..p };
            self.peers.set(i, cleared);
            i = i + 1;
        }
    }

    /// Count a newly granted vote; whether the votes now reach a majority
    /// of the shard, this node's own vote included.
    #[verifier::loop_isolation(false)]
    pub fn count_vote(&mut self, peer_id: PeerId) -> (r: bool)
        requires
            old(self).peers@.len() < 0x1000_0000,
        ensures
            final(self).peers@.len() == old(self).peers@.len(),
            forall|j: int|
                0 <= j < final(self).peers@.len() ==> (#[trigger] final(self).peers@[j]) == (
                if old(self).peers@[j].peer_id == peer_id && old(self).peers@[j].shard_id == old(
                    self,
                ).shard_id {
                    Peer { vote_granted: true, ..old(self).peers@[j] }
                } else {
                    old(self).peers@[j]
                }),
            r == (spec_vote_count(final(self).peers@, final(self).shard_id) * 2
                > spec_shard_peer_count(final(self).peers@, final(self).shard_id) + 1),
            final(self).term == old(self).term,
            final(self).state == old(self).state,
            final(self).shard_id == old(self).shard_id,
            final(self).peer_id == old(self).peer_id,
            final(self).last_log == old(self).last_log,
    {
        let n = self.peers.len();
        let mut i: usize = 0;
        // Mark the vote.
        while i < n
            invariant
                i <= n,
                n == self.peers@.len(),
                self.term == old(self).term,
                self.state == old(self).state,
                self.shard_id == old(self).shard_id,
                self.peer_id == old(self).peer_id,
                self.last_log == old(self).last_log,
                forall|j: int|
                    0 <= j < n && !(0 <= j < i && old(self).peers@[j].peer_id == peer_id
                        && old(self).peers@[j].shard_id == old(self).shard_id) ==> (
                    #[trigger] self.peers@[j]) == old(self).peers@[j],
                forall|j: int|
                    0 <= j < i && old(self).peers@[j].peer_id == peer_id
                        && old(self).peers@[j].shard_id == old(self).shard_id ==> (
                    #[trigger] self.peers@[j]) == (Peer {
                        vote_granted: true,
                        ..old(self).peers@[j]
                    }),
            decreases n - i,
        {
            let p = self.peers[i];
            if p.shard_id == self.shard_id && p.peer_id == peer_id {
                self.peers.set(i, Peer { vote_granted: true, ..p });
            }
            i = i + 1;
        }
        // Tally.
        let mut total: u64 = 0;
        let mut votes: u64 = 1;
        let mut k: usize = 0;
        while k < n
            invariant
                k <= n,
                n == self.peers@.len(),
                total == spec_shard_peer_count(self.peers@.take(k as int), self.shard_id),
                votes == spec_vote_count(self.peers@.take(k as int), self.shard_id),
                total <= k && votes <= k + 1,
            decreases n - k,
        {
            proof {
                lemma_counts_snoc(self.peers@.take(k + 1), self.shard_id);
                assert(self.peers@.take(k + 1).drop_last() =~= self.peers@.take(k as int));
            }
            let p = &self.peers[k];
            if p.shard_id == self.shard_id {
                total = total + 1;
                if p.vote_granted {
                    votes = votes + 1;
                }
            }
            k = k + 1;
        }
        assert(self.peers@.take(n as int) =~= self.peers@);
        votes * 2 > total + 1
    }
}

/// Counting one more peer adds its contribution.
proof fn lemma_counts_snoc(peers: Seq<Peer>, shard_id: u32)
    requires
        peers.len() > 0,
    ensures
        spec_shard_peer_count(peers, shard_id) == spec_shard_peer_count(peers.drop_last(), shard_id)
            + (if peers.last().shard_id == shard_id {
            1int
        } else {
            0
        }),
        spec_healthy_count(peers, shard_id) == spec_healthy_count(peers.drop_last(), shard_id) + (
        if peers.last().shard_id == shard_id && !peers.last().offline {
            1int
        } else {
            0
        }),
        spec_vote_count(peers, shard_id) == spec_vote_count(peers.drop_last(), shard_id) + (
        if peers.last().shard_id == shard_id && peers.last().vote_granted {
            1int
        } else {
            0
        }),
    decreases peers.len(),
{
    if peers.len() > 1 {
        lemma_counts_snoc(peers.drop_first(), shard_id);
        assert(peers.drop_first().drop_last() =~= peers.drop_last().drop_first());
        assert(peers.drop_first().last() == peers.last());
        assert(peers.drop_last()[0] == peers[0]);
    } else {
        assert(peers.drop_last() =~= Seq::<Peer>::empty());
        assert(peers.drop_first() =~= Seq::<Peer>::empty());
    }
}

/// Election safety within one term: a node grants at most one vote per
/// term, so two disjoint majorities of one shard cannot both form — any
/// two vote sets that each exceed half of the shard share a voter.  No
/// two leaders can therefore be elected for the same term.
pub proof fn lemma_no_two_majorities(shard: Set<PeerId>, votes_a: Set<PeerId>, votes_b: Set<PeerId>)
    requires
        shard.finite(),
        votes_a.subset_of(shard),
        votes_b.subset_of(shard),
        votes_a.len() * 2 > shard.len(),
        votes_b.len() * 2 > shard.len(),
    ensures
        exists|p: PeerId| votes_a.contains(p) && votes_b.contains(p),
{
    if votes_a.disjoint(votes_b) {
        vstd::set_lib::lemma_set_disjoint_lens(votes_a, votes_b);
        vstd::set_lib::lemma_len_subset(votes_a.union(votes_b), shard);
        assert(false);
    }
    assert(exists|p: PeerId| votes_a.contains(p) && votes_b.contains(p)) by {
        let p = choose|p: PeerId| votes_a.contains(p) && votes_b.contains(p);
    }
}


/// The reply to a vote request.
#[derive(Debug, Clone, Copy, PartialEq, Eq, Structural)]
pub enum VoteReply {
    Vote { term: TermId, vote_granted: bool },
    UnregisteredPeer,
}

/// Whether a peer id belongs to a known peer.
pub open spec fn spec_known_peer(peers: Seq<Peer>, peer_id: PeerId) -> bool {
    exists|i: int| 0 <= i < peers.len() && (#[trigger] peers[i]).peer_id == peer_id
}

impl Cluster {
    /// Whether a peer id belongs to a known peer.
    #[verifier::loop_isolation(false)]
    pub fn is_known_peer(&self, peer_id: PeerId) -> (r: bool)
        ensures
            r == spec_known_peer(self.peers@, peer_id),
    {
        let n = self.peers.len();
        let mut i: usize = 0;
        while i < n
            invariant
                i <= n,
                forall|j: int| 0 <= j < i ==> (#[trigger] self.peers@[j]).peer_id != peer_id,
            decreases n - i,
        {
            if self.peers[i].peer_id == peer_id {
                return true;
            }
            i = i + 1;
        }
        false
    }

    /// Answer a vote request: an unknown peer is refused; a higher term
    /// makes the node step down first; the vote goes out exactly when the
    /// terms match, this node may still vote this term, and the
    /// candidate's log is at least as advanced.
    pub fn handle_vote_request(
        &mut self,
        peer_id: PeerId,
        term: TermId,
        last: RaftId,
        now_ms: u64,
    ) -> (r: VoteReply)
        requires
            now_ms < 0xFFFF_FFFF_FFFF_0000,
        ensures
            !spec_known_peer(old(self).peers@, peer_id) ==> r == VoteReply::UnregisteredPeer
                && *final(self) == *old(self),
            spec_known_peer(old(self).peers@, peer_id) ==> ({
                let new_term = if old(self).term < term {
                    term
                } else {
                    old(self).term
                };
                let can = if old(self).term < term {
                    true
                } else {
                    match old(self).state {
                        State::Wait { .. } => true,
                        State::VotedFor { peer_id: p, .. } => peer_id == p,
                        _ => false,
                    }
                };
                let log_ok = last.term > old(self).last_log.term || (last.term
                    == old(self).last_log.term && spec_index_rank(last.index) >= spec_index_rank(
                    old(self).last_log.index,
                ));
                let granted = new_term == term && can && log_ok;
                &&& r == (VoteReply::Vote { term: new_term, vote_granted: granted })
                &&& final(self).term == new_term
                &&& (granted ==> (final(self).state matches State::VotedFor { peer_id: p, .. }
                    && p == peer_id))
                &&& final(self).last_log == old(self).last_log
            }),
    {
        if !self.is_known_peer(peer_id) {
            return VoteReply::UnregisteredPeer;
        }
        if self.term < term {
            self.step_down(term, now_ms);
        }
        let vote_granted = if self.term == term && self.can_grant_vote(peer_id)
            && self.log_is_behind_or_eq(last.term, last.index) {
            self.vote_for(peer_id, now_ms);
            true
        } else {
            false
        };
        VoteReply::Vote { term: self.term, vote_granted }
    }

    /// Take in a vote reply: a higher term makes the node step down; a
    /// grant for the current term while campaigning is recorded, and the
    /// node leads once the recorded votes reach a shard majority.
    pub fn handle_vote_response(
        &mut self,
        peer_id: PeerId,
        term: TermId,
        vote_granted: bool,
        now_ms: u64,
    ) -> (became_leader: bool)
        requires
            now_ms < 0xFFFF_FFFF_FFFF_0000,
            old(self).peers@.len() < 0x1000_0000,
        ensures
            old(self).term < term ==> !became_leader && final(self).term == term
                && final(self).state is Wait,
            old(self).term >= term && !(old(self).state is Candidate && vote_granted && term
                == old(self).term) ==> !became_leader && *final(self) == *old(self),
            old(self).term >= term && (old(self).state is Candidate && vote_granted && term
                == old(self).term) ==> ({
                &&& (forall|j: int|
                    0 <= j < final(self).peers@.len() ==> (#[trigger] final(self).peers@[j]).peer_id
                        == old(self).peers@[j].peer_id && final(self).peers@[j].shard_id
                        == old(self).peers@[j].shard_id)
                &&& became_leader == (spec_vote_count(
                    spec_grant_vote(old(self).peers@, old(self).shard_id, peer_id),
                    old(self).shard_id,
                ) * 2 > spec_shard_peer_count(old(self).peers@, old(self).shard_id) + 1)
                &&& (became_leader ==> final(self).state is Leader)
                &&& final(self).term == old(self).term
            }),
    {
        if self.term < term {
            self.step_down(term, now_ms);
            return false;
        }
        if !self.is_candidate() || !vote_granted || term != self.term {
            return false;
        }
        let ghost pre = *self;
        let won = self.count_vote(peer_id);
        proof {
            assert(self.peers@ =~= spec_grant_vote(pre.peers@, pre.shard_id, peer_id));
            lemma_shard_count_congruent(self.peers@, pre.peers@, pre.shard_id);
        }
        if won {
            self.become_leader();
            true
        } else {
            false
        }
    }
}

/// The peers with one in-shard peer's vote recorded.
pub open spec fn spec_grant_vote(peers: Seq<Peer>, shard_id: u32, peer_id: PeerId) -> Seq<Peer> {
    peers.map_values(
        |p: Peer|
            if p.peer_id == peer_id && p.shard_id == shard_id {
                Peer { vote_granted: true, ..p }
            } else {
                p
            },
    )
}

/// Shard membership counts ignore the vote flags.
proof fn lemma_shard_count_congruent(a: Seq<Peer>, b: Seq<Peer>, shard_id: u32)
    requires
        a.len() == b.len(),
        forall|i: int|
            0 <= i < a.len() ==> (#[trigger] a[i]).shard_id == b[i].shard_id,
    ensures
        spec_shard_peer_count(a, shard_id) == spec_shard_peer_count(b, shard_id),
    decreases a.len(),
{
    if a.len() > 0 {
        assert(forall|i: int|
            0 <= i < a.drop_first().len() ==> (#[trigger] a.drop_first()[i]).shard_id
                == b.drop_first()[i].shard_id && a.drop_first()[i] == a[i + 1]);
        lemma_shard_count_congruent(a.drop_first(), b.drop_first(), shard_id);
    }
}

/// The commit ranks the leader gathers: each in-shard peer's acknowledged
/// commit index as a rank plus one (the none sentinel mapping to zero),
/// in peer order, with this node's own uncommitted rank appended.
pub open spec fn spec_peer_commit_ranks(peers: Seq<Peer>, shard_id: u32) -> Seq<u64>
    decreases peers.len(),
{
    if peers.len() == 0 {
        Seq::<u64>::empty()
    } else {
        let head: Seq<u64> = if peers[0].shard_id == shard_id {
            seq![((spec_index_rank(peers[0].commit_index) + 1) as u64)]
        } else {
            Seq::<u64>::empty()
        };
        head + spec_peer_commit_ranks(peers.drop_first(), shard_id)
    }
}

pub open spec fn spec_commit_ranks(peers: Seq<Peer>, shard_id: u32, uncommitted: u64) -> Seq<
    u64,
> {
    spec_peer_commit_ranks(peers, shard_id).push(((spec_index_rank(uncommitted) + 1) as u64))
}

proof fn lemma_peer_ranks_snoc(peers: Seq<Peer>, shard_id: u32)
    requires
        peers.len() > 0,
    ensures
        spec_peer_commit_ranks(peers, shard_id) == spec_peer_commit_ranks(
            peers.drop_last(),
            shard_id,
        ) + (if peers.last().shard_id == shard_id {
            seq![((spec_index_rank(peers.last().commit_index) + 1) as u64)]
        } else {
            Seq::<u64>::empty()
        }),
    decreases peers.len(),
{
    if peers.len() > 1 {
        lemma_peer_ranks_snoc(peers.drop_first(), shard_id);
        assert(peers.drop_first().drop_last() =~= peers.drop_last().drop_first());
        assert(peers.drop_first().last() == peers.last());
        assert(peers.drop_last()[0] == peers[0]);
        assert(spec_peer_commit_ranks(peers, shard_id) =~= spec_peer_commit_ranks(
            peers.drop_last(),
            shard_id,
        ) + (if peers.last().shard_id == shard_id {
            seq![((spec_index_rank(peers.last().commit_index) + 1) as u64)]
        } else {
            Seq::<u64>::empty()
        }));
    } else {
        assert(peers.drop_last() =~= Seq::<Peer>::empty());
        assert(peers.drop_first() =~= Seq::<Peer>::empty());
        assert(spec_peer_commit_ranks(peers, shard_id) =~= spec_peer_commit_ranks(
            peers.drop_last(),
            shard_id,
        ) + (if peers.last().shard_id == shard_id {
            seq![((spec_index_rank(peers.last().commit_index) + 1) as u64)]
        } else {
            Seq::<u64>::empty()
        }));
    }
}

/// How many entries of a list are below, or at most, a bound.
pub open spec fn spec_count_lt(s: Seq<u64>, x: u64) -> int
    decreases s.len(),
{
    if s.len() == 0 {
        0
    } else {
        (if s[0] < x {
            1int
        } else {
            0
        }) + spec_count_lt(s.drop_first(), x)
    }
}

pub open spec fn spec_count_le(s: Seq<u64>, x: u64) -> int
    decreases s.len(),
{
    if s.len() == 0 {
        0
    } else {
        (if s[0] <= x {
            1int
        } else {
            0
        }) + spec_count_le(s.drop_first(), x)
    }
}

#[verifier::loop_isolation(false)]
fn count_lt(v: &Vec<u64>, x: u64) -> (r: usize)
    ensures
        r == spec_count_lt(v@, x),
{
    let n = v.len();
    let mut c: usize = 0;
    let mut i: usize = 0;
    while i < n
        invariant
            i <= n,
            c <= i,
            c == spec_count_lt(v@.take(i as int), x),
        decreases n - i,
    {
        proof {
            lemma_counts_lt_snoc(v@.take(i + 1), x);
            assert(v@.take(i + 1).drop_last() =~= v@.take(i as int));
        }
        if v[i] < x {
            c = c + 1;
        }
        i = i + 1;
    }
    assert(v@.take(n as int) =~= v@);
    c
}

#[verifier::loop_isolation(false)]
fn count_le(v: &Vec<u64>, x: u64) -> (r: usize)
    ensures
        r == spec_count_le(v@, x),
{
    let n = v.len();
    let mut c: usize = 0;
    let mut i: usize = 0;
    while i < n
        invariant
            i <= n,
            c <= i,
            c == spec_count_le(v@.take(i as int), x),
        decreases n - i,
    {
        proof {
            lemma_counts_lt_snoc(v@.take(i + 1), x);
            assert(v@.take(i + 1).drop_last() =~= v@.take(i as int));
        }
        if v[i] <= x {
            c = c + 1;
        }
        i = i + 1;
    }
    assert(v@.take(n as int) =~= v@);
    c
}

proof fn lemma_counts_lt_snoc(s: Seq<u64>, x: u64)
    requires
        s.len() > 0,
    ensures
        spec_count_lt(s, x) == spec_count_lt(s.drop_last(), x) + (if s.last() < x {
            1int
        } else {
            0
        }),
        spec_count_le(s, x) == spec_count_le(s.drop_last(), x) + (if s.last() <= x {
            1int
        } else {
            0
        }),
    decreases s.len(),
{
    if s.len() > 1 {
        lemma_counts_lt_snoc(s.drop_first(), x);
        assert(s.drop_first().drop_last() =~= s.drop_last().drop_first());
        assert(s.drop_first().last() == s.last());
        assert(s.drop_last()[0] == s[0]);
    } else {
        assert(s.drop_last() =~= Seq::<u64>::empty());
        assert(s.drop_first() =~= Seq::<u64>::empty());
    }
}

/// The `k`-th order statistic of a list: the value a sorted copy holds at
/// position `k`, characterized by its rank counts.
pub open spec fn spec_is_kth(s: Seq<u64>, k: int, x: u64) -> bool {
    spec_count_lt(s, x) <= k && spec_count_le(s, x) > k
}

/// The value a sorted copy of `v` holds at position `k`.
#[verifier::loop_isolation(false)]
fn kth_smallest(v: &Vec<u64>, k: usize) -> (r: Option<u64>)
    requires
        k < v@.len(),
    ensures
        r matches Some(x) ==> v@.contains(x) && spec_is_kth(v@, k as int, x),
        r is None ==> forall|m: u64| !spec_is_kth(v@, k as int, m),
{
    let n = v.len();
    let mut i: usize = 0;
    while i < n
        invariant
            i <= n,
            forall|j: int| 0 <= j < i ==> !spec_is_kth(v@, k as int, #[trigger] v@[j]),
        decreases n - i,
    {
        let x = v[i];
        let lt = count_lt(v, x);
        let le = count_le(v, x);
        if lt <= k && le > k {
            return Some(x);
        }
        i = i + 1;
    }
    proof {
        assert forall|m: u64| !spec_is_kth(v@, k as int, m) by {
            if spec_is_kth(v@, k as int, m) {
                lemma_is_kth_member(v@, k as int, m);
                let w = choose|w: int| 0 <= w < v@.len() && v@[w] == m;
                assert(!spec_is_kth(v@, k as int, v@[w]));
            }
        }
    }
    None
}

/// A value with more entries at most it than below it occurs in the list.
proof fn lemma_is_kth_member(s: Seq<u64>, k: int, m: u64)
    requires
        spec_is_kth(s, k, m),
    ensures
        s.contains(m),
    decreases s.len(),
{
    if s.len() == 0 {
    } else if s[0] == m {
    } else {
        assert(spec_count_lt(s, m) == (if s[0] < m {
            1int
        } else {
            0
        }) + spec_count_lt(s.drop_first(), m));
        assert(spec_count_le(s, m) == (if s[0] <= m {
            1int
        } else {
            0
        }) + spec_count_le(s.drop_first(), m));
        if s[0] < m {
            lemma_is_kth_member(s.drop_first(), k - 1, m);
        } else {
            lemma_is_kth_member(s.drop_first(), k, m);
        }
        let w = choose|w: int| 0 <= w < s.drop_first().len() && s.drop_first()[w] == m;
        assert(s[w + 1] == m);
    }
}

/// At most one value is the `k`-th order statistic: everything at most a
/// smaller value lies below a larger one.
proof fn lemma_counts_monotone(s: Seq<u64>, m1: u64, m2: u64)
    requires
        m1 < m2,
    ensures
        spec_count_le(s, m1) <= spec_count_lt(s, m2),
    decreases s.len(),
{
    if s.len() > 0 {
        lemma_counts_monotone(s.drop_first(), m1, m2);
    }
}

proof fn lemma_is_kth_unique(s: Seq<u64>, k: int, m1: u64, m2: u64)
    requires
        spec_is_kth(s, k, m1),
        spec_is_kth(s, k, m2),
    ensures
        m1 == m2,
{
    if m1 < m2 {
        lemma_counts_monotone(s, m1, m2);
    } else if m2 < m1 {
        lemma_counts_monotone(s, m2, m1);
    }
}

impl Cluster {
    /// Record a follower's acknowledged commit index and advance the
    /// leader's commit point to the shard median of all known commit
    /// ranks (the none-sentinel lowest), this node's uncommitted index
    /// included; committed entries are then applied by the caller.
    /// Returns the new commit index when it moved forward.
    #[verifier::loop_isolation(false)]
    pub fn advance_commit_index(&mut self, peer_id: PeerId, commit_index: LogIndex) -> (r: Option<
        LogIndex,
    >)
        requires
            old(self).peers@.len() < 0x1000_0000,
        ensures
            final(self).peers@.len() == old(self).peers@.len(),
            forall|j: int|
                0 <= j < final(self).peers@.len() ==> (#[trigger] final(self).peers@[j]) == (
                if old(self).peers@[j].peer_id == peer_id && old(self).peers@[j].shard_id
                    == old(self).shard_id {
                    Peer { commit_index, ..old(self).peers@[j] }
                } else {
                    old(self).peers@[j]
                }),
            r matches Some(idx) ==> final(self).last_log == (RaftId {
                term: old(self).last_log.term,
                index: idx,
            }) && spec_index_rank(idx) > spec_index_rank(old(self).last_log.index)
                && spec_is_kth(
                spec_commit_ranks(
                    final(self).peers@,
                    old(self).shard_id,
                    old(self).uncommitted_index,
                ),
                spec_commit_ranks(
                    final(self).peers@,
                    old(self).shard_id,
                    old(self).uncommitted_index,
                ).len() as int / 2,
                ((spec_index_rank(idx) + 1) as u64),
            ),
            r is None ==> final(self).last_log == old(self).last_log && (forall|m: u64| #![trigger
                spec_is_kth(
                    spec_commit_ranks(
                        final(self).peers@,
                        old(self).shard_id,
                        old(self).uncommitted_index,
                    ),
                    spec_commit_ranks(
                        final(self).peers@,
                        old(self).shard_id,
                        old(self).uncommitted_index,
                    ).len() as int / 2,
                    m,
                )]
                spec_is_kth(
                    spec_commit_ranks(
                        final(self).peers@,
                        old(self).shard_id,
                        old(self).uncommitted_index,
                    ),
                    spec_commit_ranks(
                        final(self).peers@,
                        old(self).shard_id,
                        old(self).uncommitted_index,
                    ).len() as int / 2,
                    m,
                ) ==> m <= spec_index_rank(old(self).last_log.index) + 1),
            final(self).term == old(self).term,
            final(self).state == old(self).state,
            final(self).uncommitted_index == old(self).uncommitted_index,
    {
        let n = self.peers.len();
        let mut ranks: Vec<u64> = Vec::new();
        let mut i: usize = 0;
        // Record the acknowledgement and gather the shard's commit ranks.
        while i < n
            invariant
                i <= n,
                n == self.peers@.len(),
                self.term == old(self).term,
                self.state == old(self).state,
                self.last_log == old(self).last_log,
                self.uncommitted_index == old(self).uncommitted_index,
                self.shard_id == old(self).shard_id,
                self.peer_id == old(self).peer_id,
                forall|j: int|
                    0 <= j < n && !(0 <= j < i && old(self).peers@[j].peer_id == peer_id
                        && old(self).peers@[j].shard_id == old(self).shard_id) ==> (
                    #[trigger] self.peers@[j]) == old(self).peers@[j],
                forall|j: int|
                    0 <= j < i && old(self).peers@[j].peer_id == peer_id
                        && old(self).peers@[j].shard_id == old(self).shard_id ==> (
                    #[trigger] self.peers@[j]) == (Peer { commit_index, ..old(self).peers@[j] }),
            decreases n - i,
        {
            let p = self.peers[i];
            if p.shard_id == self.shard_id && p.peer_id == peer_id {
                self.peers.set(i, Peer { commit_index, ..p });
            }
            i = i + 1;
        }
        let mut k: usize = 0;
        while k < n
            invariant
                k <= n,
                n == self.peers@.len(),
                ranks@.len() <= k,
                ranks@ == spec_peer_commit_ranks(self.peers@.take(k as int), self.shard_id),
            decreases n - k,
        {
            let p = self.peers[k];
            proof {
                lemma_peer_ranks_snoc(self.peers@.take(k + 1), self.shard_id);
                assert(self.peers@.take(k + 1).drop_last() =~= self.peers@.take(k as int));
            }
            if p.shard_id == self.shard_id {
                proof {
                    lemma_index_rank(p.commit_index);
                }
                ranks.push(p.commit_index.wrapping_add(1));
                assert(ranks@ =~= spec_peer_commit_ranks(
                    self.peers@.take(k + 1),
                    self.shard_id,
                ));
            } else {
                assert(ranks@ =~= spec_peer_commit_ranks(
                    self.peers@.take(k + 1),
                    self.shard_id,
                ));
            }
            k = k + 1;
        }
        proof {
            lemma_index_rank(self.uncommitted_index);
            assert(self.peers@.take(n as int) =~= self.peers@);
        }
        ranks.push(self.uncommitted_index.wrapping_add(1));
        proof {
            assert(ranks@ =~= spec_commit_ranks(
                self.peers@,
                self.shard_id,
                self.uncommitted_index,
            ));
        }

        let median_rank = match kth_smallest(&ranks, ranks.len() / 2) {
            Some(m) => m,
            None => {
                proof {
                    assert forall|m: u64| #![trigger spec_is_kth(
                        spec_commit_ranks(self.peers@, self.shard_id, self.uncommitted_index),
                        spec_commit_ranks(
                            self.peers@,
                            self.shard_id,
                            self.uncommitted_index,
                        ).len() as int / 2,
                        m,
                    )]
                        spec_is_kth(
                            spec_commit_ranks(
                                self.peers@,
                                self.shard_id,
                                self.uncommitted_index,
                            ),
                            spec_commit_ranks(
                                self.peers@,
                                self.shard_id,
                                self.uncommitted_index,
                            ).len() as int / 2,
                            m,
                        ) implies m <= spec_index_rank(self.last_log.index) + 1 by {
                        assert(!spec_is_kth(ranks@, ranks@.len() as int / 2, m));
                    }
                }
                return None;
            },
        };
        proof {
            lemma_index_rank(self.last_log.index);
        }
        if median_rank > self.last_log.index.wrapping_add(1) {
            let new_index = median_rank - 1;
            proof {
                lemma_index_rank(new_index);
            }
            self.last_log = RaftId { term: self.last_log.term, index: new_index };
            Some(new_index)
        } else {
            proof {
                assert forall|m: u64| #![trigger spec_is_kth(
                    spec_commit_ranks(self.peers@, self.shard_id, self.uncommitted_index),
                    spec_commit_ranks(
                        self.peers@,
                        self.shard_id,
                        self.uncommitted_index,
                    ).len() as int / 2,
                    m,
                )]
                    spec_is_kth(
                        spec_commit_ranks(self.peers@, self.shard_id, self.uncommitted_index),
                        spec_commit_ranks(
                            self.peers@,
                            self.shard_id,
                            self.uncommitted_index,
                        ).len() as int / 2,
                        m,
                    ) implies m <= spec_index_rank(self.last_log.index) + 1 by {
                    lemma_is_kth_unique(ranks@, ranks@.len() as int / 2, m, median_rank);
                }
            }
            None
        }
    }
}

/// A follower's answer to an append-entries call: acknowledge up to the
/// matched index, or reject with the reason and this node's last log id
/// as the leader's back-off hint.
#[derive(Debug, Clone, Copy, PartialEq, Eq, Structural)]
pub enum AppendDecision {
    /// The leader's term is behind this node's.
    Stale,
    /// The log has no entry at the leader's previous id.
    Gap { hint: RaftId },
    /// The previous id matches; entries may be appended after it.
    Found { match_index: LogIndex },
}

/// Decide an append-entries call: a stale term is refused outright; then
/// the leader's previous id must be the log's origin or an entry this
/// node holds, else the leader must back off to `last` and retry.
#[verifier::loop_isolation(false)]
pub fn append_entries_decision(
    current_term: TermId,
    last: RaftId,
    log: &Vec<(RaftId, Vec<u8>)>,
    req_term: TermId,
    prev: RaftId,
) -> (r: AppendDecision)
    ensures
        (r is Stale) == (req_term < current_term),
        r matches AppendDecision::Found { match_index } ==> (match_index == prev.index && req_term
            >= current_term && ((prev.term == 0 && prev.index == 0) || exists|i: int|
            0 <= i < log@.len() && (#[trigger] log@[i]).0 == prev)),
        r matches AppendDecision::Gap { hint } ==> (hint == last && req_term >= current_term && !(
        prev.term == 0 && prev.index == 0) && (forall|i: int|
            0 <= i < log@.len() ==> (#[trigger] log@[i]).0 != prev)),
        (req_term >= current_term && ((prev.term == 0 && prev.index == 0) || exists|i: int|
            0 <= i < log@.len() && (#[trigger] log@[i]).0 == prev)) ==> (r
            matches AppendDecision::Found { match_index } && match_index == prev.index),
{
    if req_term < current_term {
        return AppendDecision::Stale;
    }
    if prev.term == 0 && prev.index == 0 {
        return AppendDecision::Found { match_index: prev.index };
    }
    let n = log.len();
    let mut i: usize = 0;
    while i < n
        invariant
            i <= n,
            n == log@.len(),
            forall|j: int| 0 <= j < i ==> (#[trigger] log@[j]).0 != prev,
        decreases n - i,
    {
        if log[i].0.term == prev.term && log[i].0.index == prev.index {
            proof {
                assert(log@[i as int].0 == prev);
            }
            return AppendDecision::Found { match_index: prev.index };
        }
        i = i + 1;
    }
    AppendDecision::Gap { hint: last }
}

} // verus!
