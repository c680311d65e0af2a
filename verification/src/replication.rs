//! How a leader brings its log to its peers, and finds out what is committed.
use vstd::prelude::*;

use crate::entry::{entries_of, last_of_term, lemma_last_of_term, LogEntry};
use crate::handle::RaftHandle;
use crate::message::{requests_of, AppendEntriesArgs, AppendEntriesReply, AppendRequest};
use crate::raft::Raft;
use crate::state::{half_vote, lemma_peers_at, other_peers, peers_at, Role};

verus! {

impl Raft {
    /// What to send to a peer whose log is taken to be `next` long.
    pub fn append_request(&self, next: usize) -> (args: AppendEntriesArgs)
        requires
            1 <= next <= self@.log.len(),
        ensures
            args@ == self@.append_request(next as int),
    {
        let mut entries: Vec<LogEntry> = Vec::new();
        let rest = vstd::slice::slice_subrange(self.log.as_slice(), next, self.log.len());
        entries.extend_from_slice(rest);
        assert(entries_of(entries@) =~= self@.log.skip(next as int));
        AppendEntriesArgs {
            term: self.current_term,
            leader_id: self.me,
            prev_log_index: next - 1,
            prev_log_term: self.log[next - 1].term,
            entries,
            leader_commit: self.commit_index,
        }
    }

    /// What to send, and to whom: one request to every other peer.
    pub fn broadcast(&self) -> (msgs: Vec<(usize, AppendEntriesArgs)>)
        requires
            self@.inv(),
            self@.role is Leader,
            self@.can_broadcast(),
        ensures
            requests_of(msgs@) == self@.broadcast(),
    {
        let peers: Vec<usize> = self.other_peers();
        let mut msgs: Vec<(usize, AppendEntriesArgs)> = Vec::new();
        for k in 0..peers.len()
            invariant
                self@.inv(),
                self@.role is Leader,
                self@.can_broadcast(),
                peers@ == other_peers(self.num_peers, self.me),
                msgs.len() == k,
                requests_of(msgs@) == self@.broadcast().take(k as int),
        {
            let peer: usize = peers[k];
            assert(peer < self.num_peers && peer != self.me);
            let next: usize = self.next_index[peer];
            assert(1 <= self@.next_index[peer as int] <= self@.log.len());
            msgs.push((peer, self.append_request(next)));
            assert(requests_of(msgs@) =~= self@.broadcast().take(k + 1));
        }
        assert(requests_of(msgs@) =~= self@.broadcast());
        msgs
    }

    /// How many peers are known to hold the leader's log up to position `n`.
    fn count_at(&self, n: usize) -> (count: usize)
        ensures
            count == peers_at(self.match_index@, n as int).len(),
    {
        let mut count: usize = 0;
        proof {
            lemma_peers_at(self.match_index@, n as int, 0);
        }
        for k in 0..self.match_index.len()
            invariant
                count <= k,
                count == peers_at(self.match_index@.take(k as int), n as int).len(),
        {
            proof {
                lemma_peers_at(self.match_index@, n as int, k as int);
            }
            if self.match_index[k] >= n {
                count = count + 1;
            }
        }
        assert(self.match_index@.take(self.match_index.len() as int) =~= self.match_index@);
        count
    }
}

impl RaftHandle {
    /// One round of leading: counts as committed what enough peers hold, and sends every other
    /// peer what it is taken to lack. A peer that has heard of another leader stops to lead.
    pub fn leader_task(&mut self) -> (msgs: Vec<(usize, AppendEntriesArgs)>)
        requires
            old(self).inv(),
            old(self)@.still_leads() ==> old(self)@.can_broadcast(),
        ensures
            final(self)@ == old(self)@.leader_task(),
            requests_of(msgs@) == old(self)@.leader_task_sends(),
            final(self).inv(),
    {
        let ghost s = self@;
        let mut msgs: Vec<(usize, AppendEntriesArgs)> = Vec::new();
        assert(requests_of(msgs@) =~= Seq::<(usize, AppendRequest)>::empty());
        if self.inner.received_valid_rpc {
            self.inner.received_valid_rpc = false;
            self.inner.role = Role::Follower;
            return msgs;
        }
        if self.inner.role != Role::Leader {
            return msgs;
        }
        let mut new_commit_index: usize = self.inner.commit_index;
        let first: usize = self.inner.commit_index + 1;
        for n in first..self.inner.log.len()
            invariant
                *self == *old(self),
                s == self@,
                s.inv(),
                self.num_half_vote == half_vote(s.num_peers),
                first == s.commit_index + 1,
                s.commit_index <= new_commit_index < n,
                new_commit_index == s.new_commit_index(n - 1),
        {
            assert(s.log[n as int] == self.inner.log@[n as int]@);
            if self.inner.log[n].term == self.inner.current_term {
                if self.inner.count_at(n) >= self.num_half_vote {
                    new_commit_index = n;
                }
            }
        }
        self.inner.commit_index = new_commit_index;
        msgs = self.inner.broadcast();
        msgs
    }

    /// Makes use of the answer of `peer` to `sent`; nothing where there is none. The value is to
    /// be put on stable storage.
    pub fn take_reply(
        &mut self,
        peer: usize,
        sent: &AppendEntriesArgs,
        reply: Option<AppendEntriesReply>,
    ) -> (bytes: Vec<u8>)
        requires
            old(self).inv(),
            reply matches Some(r) ==> old(self)@.can_take_reply(peer, sent@, r),
        ensures
            final(self)@ == match reply {
                Some(r) => old(self)@.take_reply(peer, sent@, r),
                None => old(self)@,
            },
            bytes@ == crate::codec::stored_bytes(final(self)@.stored()),
            final(self).inv(),
    {
        match reply {
            Some(r) => self.inner.take_reply(peer, sent, r),
            None => {},
        }
        self.persist()
    }
}

impl Raft {
    /// The last position, but for position zero, at which the log holds an entry of `term`.
    pub(crate) fn last_of_term(&self, term: u64) -> (res: Option<usize>)
        ensures
            match res {
                Some(j) => last_of_term(self@.log, term, self@.log.len() as int) == Some(j as int),
                None => last_of_term(self@.log, term, self@.log.len() as int) is None,
            },
    {
        let mut end: usize = self.log.len();
        while end > 1
            invariant
                end <= self.log.len(),
                last_of_term(self@.log, term, self@.log.len() as int) == last_of_term(
                    self@.log,
                    term,
                    end as int,
                ),
            decreases end,
        {
            assert(self@.log[end - 1] == self.log@[end - 1]@);
            if self.log[end - 1].term == term {
                return Some(end - 1);
            }
            end = end - 1;
        }
        None
    }

    /// Makes use of the answer of `peer` to `sent`.
    fn take_reply(&mut self, peer: usize, sent: &AppendEntriesArgs, reply: AppendEntriesReply)
        requires
            old(self)@.inv(),
            old(self)@.can_take_reply(peer, sent@, reply),
        ensures
            final(self)@ == old(self)@.take_reply(peer, sent@, reply),
            final(self)@.inv(),
    {
        self.observe_term(reply.term);
        if reply.success {
            let new_match_index: usize = sent.prev_log_index + sent.entries.len();
            if new_match_index > self.match_index[peer] {
                self.next_index.set(peer, new_match_index + 1);
                self.match_index.set(peer, new_match_index);
            }
        } else if reply.term == sent.term {
            proof {
                if reply.xterm is Some {
                    lemma_last_of_term(self@.log, reply.xterm->0, self@.log.len() as int);
                }
            }
            let found: Option<usize> = match reply.xterm {
                // The peer's log is too short: go on at its end.
                None => None,
                // The peer holds entries of another term: go on behind the own ones of that term.
                Some(x_term) => self.last_of_term(x_term),
            };
            let retry: usize = match found {
                Some(j) => j + 1,
                None => reply.xindex.unwrap(),
            };
            self.next_index.set(peer, if retry < 1 {
                1
            } else {
                retry
            });
        }
        assert(self@ =~= old(self)@.take_reply(peer, sent@, reply));
    }
}

} // verus!
