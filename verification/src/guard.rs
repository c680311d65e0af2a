//! What a caller that is not verified itself has to test before it calls a peer.
use vstd::prelude::*;

use crate::entry::last_of_term;
use crate::handle::RaftHandle;
use crate::message::{AppendEntriesArgs, AppendEntriesReply, VoteResult};
use crate::state::{Election, Role};

verus! {

impl RaftHandle {
    /// Whether [`RaftHandle::start`] can be called.
    pub fn can_start(&self) -> (res: bool)
        requires
            self.inv(),
        ensures
            res == self@.can_start(),
    {
        if self.inner.role == Role::Leader {
            self.inner.log.len() < usize::MAX && self.inner.next_index[self.inner.me] < usize::MAX
        } else {
            self.inner.me < usize::MAX && self.inner.num_peers > 0
        }
    }

    /// Whether [`RaftHandle::append_entries`] can be called with `args`: they do not replace a
    /// committed entry, nor take the commit index back.
    pub fn can_append(&self, args: &AppendEntriesArgs) -> (res: bool)
        requires
            self.inv(),
        ensures
            res == self@.can_append(args@),
    {
        let prev: usize = args.prev_log_index;
        if args.term < self.inner.current_term || prev >= self.inner.log.len() {
            return true;
        }
        assert(self@.log[prev as int] == self.inner.log@[prev as int]@);
        if self.inner.log[prev].term != args.prev_log_term {
            return true;
        }
        let commit: usize = self.inner.commit_index;
        let mut i: usize = 0;
        while i < args.entries.len() && prev + i < commit
            invariant
                self.inv(),
                self@.accepts(args@),
                prev == args.prev_log_index,
                prev < self.inner.log.len(),
                commit == self.inner.commit_index,
                i <= args.entries.len(),
                i == 0 || prev + i <= commit,
                forall|j: int|
                    0 <= j < i ==> (#[trigger] args@.entries[j]).term == self@.log[prev + 1
                        + j].term,
            decreases args.entries.len() - i,
        {
            assert(self@.log[prev + 1 + i] == self.inner.log@[prev + 1 + i]@);
            assert(args@.entries[i as int] == args.entries@[i as int]@);
            if self.inner.log[prev + i + 1].term != args.entries[i].term {
                return false;
            }
            i += 1;
        }
        if args.leader_commit <= commit || prev >= commit {
            return true;
        }
        args.entries.len() >= commit - prev
    }

    /// Whether [`RaftHandle::follower_task`] can be called with `initial_role`: there is a term
    /// left to stand for.
    pub fn can_time_out(&self, initial_role: Role) -> (res: bool)
        ensures
            res == (self@.campaigns(initial_role) ==> self@.current_term < u64::MAX),
    {
        self.inner.received_valid_rpc || self.inner.role != initial_role || self.inner.current_term
            < u64::MAX
    }

    /// Whether [`RaftHandle::count_vote`] can be called with `tally` and `result`: the election
    /// is going on, and the peer that wins it is one of its peers.
    pub fn can_count_vote(&self, tally: &Election, result: VoteResult) -> (res: bool)
        requires
            self.inv(),
        ensures
            res == {
                &&& tally.open_among(self@.num_peers)
                &&& self@.wins(*tally, result) ==> self@.me < self@.num_peers
            },
    {
        if !(1 <= tally.num_granted && tally.num_granted <= tally.num_voted && (tally.num_voted == 1
            || tally.num_voted < self.inner.num_peers)) {
            return false;
        }
        let num_granted: usize = match result {
            VoteResult::HigherTerm(_) => return true,
            VoteResult::Granted => tally.num_granted + 1,
            VoteResult::Denied => tally.num_granted,
        };
        self.inner.received_valid_rpc || self.inner.role != Role::Candidate || num_granted
            < self.num_half_vote || self.inner.me < self.inner.num_peers
    }

    /// Whether [`RaftHandle::leader_task`] can be called: a peer that leads takes no other log to
    /// be longer than its own.
    pub fn can_lead(&self) -> (res: bool)
        requires
            self.inv(),
        ensures
            res == (self@.still_leads() ==> self@.can_broadcast()),
    {
        if self.inner.received_valid_rpc || self.inner.role != Role::Leader {
            return true;
        }
        for i in 0..self.inner.num_peers
            invariant
                self.inv(),
                self@.still_leads(),
                forall|j: int|
                    0 <= j < i && j != self@.me ==> #[trigger] self@.next_index[j]
                        <= self@.log.len(),
        {
            if i != self.inner.me && self.inner.next_index[i] > self.inner.log.len() {
                assert(self@.next_index[i as int] > self@.log.len());
                return false;
            }
        }
        true
    }

    /// Whether [`RaftHandle::take_reply`] can be called with the answer of `peer` to `sent`.
    pub fn can_take_reply(
        &self,
        peer: usize,
        sent: &AppendEntriesArgs,
        reply: &AppendEntriesReply,
    ) -> (res: bool)
        requires
            self.inv(),
        ensures
            res == self@.can_take_reply(peer, sent@, *reply),
    {
        if reply.success {
            if peer >= self.inner.match_index.len() || sent.entries.len() > usize::MAX
                - sent.prev_log_index {
                return false;
            }
            let new_match_index: usize = sent.prev_log_index + sent.entries.len();
            new_match_index <= self.inner.match_index[peer] || new_match_index < usize::MAX
        } else if reply.term == sent.term {
            peer < self.inner.next_index.len() && (reply.xindex.is_some() || match reply.xterm {
                Some(x_term) => self.inner.last_of_term(x_term).is_some(),
                None => false,
            })
        } else {
            true
        }
    }
}

} // verus!
