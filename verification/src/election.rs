//! How a peer comes to lead.
use vstd::prelude::*;

use crate::handle::RaftHandle;
use crate::message::{
    requests_of, AppendEntriesArgs, AppendRequest, RequestVoteArgs, RequestVoteReply, VoteResult,
};
use crate::raft::Raft;
use crate::state::{other_peers, Election, Role};

verus! {

impl Raft {
    /// All peers but this one, in order.
    pub fn other_peers(&self) -> (peers: Vec<usize>)
        ensures
            peers@ == other_peers(self.num_peers, self.me),
    {
        let mut peers: Vec<usize> = Vec::new();
        for i in 0..self.num_peers
            invariant
                peers.len() == if i <= self.me {
                    i as int
                } else {
                    i - 1
                },
                forall|k: int|
                    0 <= k < peers.len() ==> #[trigger] peers@[k] == if k < self.me {
                        k
                    } else {
                        k + 1
                    },
        {
            if i != self.me {
                peers.push(i);
            }
        }
        assert(peers@ =~= other_peers(self.num_peers, self.me));
        peers
    }

    /// Starts to lead.
    fn lead(&mut self)
        requires
            old(self)@.inv(),
            old(self).me < old(self).num_peers,
        ensures
            final(self)@ == old(self)@.lead(),
            final(self)@.inv(),
    {
        self.role = Role::Leader;
        self.next_index = vec![self.log.len(); self.num_peers];
        let mut match_index: Vec<usize> = vec![0; self.num_peers];
        match_index.set(self.me, self.log.len() - 1);
        self.match_index = match_index;
        assert(self@.next_index =~= old(self)@.lead().next_index);
        assert(self@.match_index =~= old(self)@.lead().match_index);
    }
}

impl RaftHandle {
    /// Looks, after a peer has waited in `initial_role`, whether an election is due, and if so
    /// becomes a candidate. It then gives the votes so far and what to ask every other peer.
    pub fn follower_task(&mut self, initial_role: Role) -> (res: Option<
        (Election, RequestVoteArgs),
    >)
        requires
            old(self).inv(),
            old(self)@.campaigns(initial_role) ==> old(self)@.current_term < u64::MAX,
        ensures
            final(self)@ == old(self)@.time_out(initial_role),
            match res {
                Some((tally, args)) => {
                    &&& old(self)@.campaigns(initial_role)
                    &&& tally == (Election { num_granted: 1, num_voted: 1 })
                    &&& args == final(self)@.vote_request()
                },
                None => !old(self)@.campaigns(initial_role),
            },
            final(self).inv(),
    {
        if self.inner.received_valid_rpc {
            self.inner.received_valid_rpc = false;
            self.inner.role = Role::Follower;
            return None;
        }
        if self.inner.role != initial_role {
            return None;
        }
        self.inner.role = Role::Candidate;
        self.inner.current_term = self.inner.current_term + 1;
        self.inner.voted_for = Some(self.inner.me);
        let last: usize = self.inner.log.len() - 1;
        assert(self@.log.last() == self.inner.log@[last as int]@);
        let args = self.begin_election(self.inner.current_term, last, self.inner.log[last].term);
        Some((Election { num_granted: 1, num_voted: 1 }, args))
    }

    /// What this peer asks every other peer in an election.
    pub fn begin_election(&self, term: u64, last_log_index: usize, last_log_term: u64) -> (args:
        RequestVoteArgs)
        ensures
            args == (RequestVoteArgs {
                term,
                candidate_id: self@.me,
                last_log_index,
                last_log_term,
            }),
    {
        RequestVoteArgs { term, candidate_id: self.inner.me, last_log_index, last_log_term }
    }

    /// What this peer, which asked for votes in `term`, makes of one answer, or of its absence.
    pub fn vote_result(&self, term: u64, reply: Option<RequestVoteReply>) -> (res: Option<
        VoteResult,
    >)
        ensures
            res == self@.vote_result(term, reply),
    {
        match reply {
            Some(reply) => {
                if reply.term > self.inner.current_term {
                    Some(VoteResult::HigherTerm(reply.term))
                } else if term == self.inner.current_term && reply.vote_granted {
                    Some(VoteResult::Granted)
                } else {
                    Some(VoteResult::Denied)
                }
            },
            None => {
                if term == self.inner.current_term {
                    Some(VoteResult::Denied)
                } else {
                    None
                }
            },
        }
    }

    /// Counts one vote. Says whether the election is over, and what to send to whom: a peer that
    /// has won makes itself known to all others.
    pub fn count_vote(&mut self, tally: &mut Election, result: VoteResult) -> (res: (
        bool,
        Vec<(usize, AppendEntriesArgs)>,
    ))
        requires
            old(self).inv(),
            old(tally).open_among(old(self)@.num_peers),
            old(self)@.wins(*old(tally), result) ==> old(self)@.me < old(self)@.num_peers,
        ensures
            final(self)@ == old(self)@.count_vote(*old(tally), result),
            *final(tally) == old(tally).count(result, old(self)@.num_peers),
            res.0 == old(self)@.ends_election(*old(tally), result),
            !res.0 ==> final(tally).open_among(final(self)@.num_peers),
            requests_of(res.1@) == if old(self)@.wins(*old(tally), result) {
                final(self)@.broadcast()
            } else {
                Seq::<(usize, AppendRequest)>::empty()
            },
            final(self).inv(),
    {
        let mut msgs: Vec<(usize, AppendEntriesArgs)> = Vec::new();
        assert(requests_of(msgs@) =~= Seq::<(usize, AppendRequest)>::empty());
        match result {
            VoteResult::HigherTerm(term) => {
                tally.num_granted = 0;
                tally.num_voted = self.inner.num_peers;
                self.inner.observe_term(term);
                self.inner.role = Role::Follower;
            },
            VoteResult::Granted => {
                tally.num_granted = tally.num_granted + 1;
                tally.num_voted = tally.num_voted + 1;
            },
            VoteResult::Denied => {
                tally.num_voted = tally.num_voted + 1;
            },
        }
        if self.inner.received_valid_rpc {
            self.inner.received_valid_rpc = false;
            self.inner.role = Role::Follower;
            return (true, msgs);
        }
        if self.inner.role != Role::Candidate {
            return (true, msgs);
        }
        if tally.num_granted >= self.num_half_vote {
            self.inner.lead();
            msgs = self.inner.broadcast();
            return (true, msgs);
        }
        (tally.num_voted >= self.inner.num_peers, msgs)
    }
}

} // verus!
