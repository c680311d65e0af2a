//! The state machine of one peer.
use vstd::prelude::*;

use crate::codec::{Malformed, MyEntry};
use crate::entry::{entries_of, lemma_matched, lemma_merged, matched, merged, run_start, LogEntry};
use crate::message::{
    deliveries_of, AppendEntriesArgs, AppendEntriesReply, ApplyMsg, Delivery, Error,
    RequestVoteArgs, RequestVoteReply, Start,
};
use crate::state::{lemma_committed_kept, lemma_stuck_at, RaftState, Role};

verus! {

/// One peer.
pub struct Raft {
    pub num_peers: usize,
    pub me: usize,
    // persistent state on all servers
    pub current_term: u64,
    pub voted_for: Option<usize>,
    pub log: Vec<LogEntry>,
    // volatile state on all servers
    pub commit_index: usize,
    pub last_applied: usize,
    pub role: Role,
    pub received_valid_rpc: bool,
    // volatile state on leaders
    pub next_index: Vec<usize>,
    pub match_index: Vec<usize>,
}

impl View for Raft {
    type V = RaftState;

    open spec fn view(&self) -> RaftState {
        RaftState {
            num_peers: self.num_peers,
            me: self.me,
            current_term: self.current_term,
            voted_for: self.voted_for,
            log: entries_of(self.log@),
            commit_index: self.commit_index,
            last_applied: self.last_applied,
            role: self.role,
            received_valid_rpc: self.received_valid_rpc,
            next_index: self.next_index@,
            match_index: self.match_index@,
        }
    }
}

impl Raft {
    /// A peer that has never run: a follower in term zero, whose log holds nothing but an entry
    /// that no command stands in.
    pub fn new(num_peers: usize, me: usize) -> (raft: Raft)
        ensures
            raft@ == RaftState::initial(num_peers, me),
            raft@.inv(),
    {
        let mut log: Vec<LogEntry> = Vec::new();
        log.push(LogEntry { term: 0, command: Vec::new() });
        let raft = Raft {
            num_peers,
            me,
            current_term: 0,
            voted_for: None,
            log,
            commit_index: 0,
            last_applied: 0,
            role: Role::Follower,
            received_valid_rpc: false,
            next_index: Vec::new(),
            match_index: Vec::new(),
        };
        assert(raft@ =~= RaftState::initial(num_peers, me));
        raft
    }

    /// Takes a command in, if this peer is the leader. There is no guarantee that the command
    /// will ever be committed.
    pub fn start(&mut self, data: &[u8]) -> (res: Result<Start, Error>)
        requires
            old(self)@.inv(),
            old(self)@.can_start(),
        ensures
            final(self)@ == old(self)@.start(data@),
            match res {
                Ok(start) => {
                    &&& old(self)@.role is Leader
                    &&& start.index == old(self)@.log.len()
                    &&& start.term == old(self)@.current_term
                },
                Err(e) => {
                    &&& !(old(self)@.role is Leader)
                    &&& e matches Error::NotLeader(leader) && leader == old(self)@.next_leader()
                },
            },
            final(self)@.inv(),
    {
        if self.role != Role::Leader {
            let leader: usize = (self.me + 1) % self.num_peers;
            return Err(Error::NotLeader(leader));
        }
        let command: Vec<u8> = vstd::slice::slice_to_vec(data);
        self.log.push(LogEntry { term: self.current_term, command });
        let last: usize = self.log.len() - 1;
        let next: usize = self.next_index[self.me];
        self.next_index.set(self.me, next + 1);
        self.match_index.set(self.me, last);
        assert(self@ =~= old(self)@.start(data@));
        Ok(Start { index: last as u64, term: self.current_term })
    }

    /// Makes the message that hands the command at `index`, an entry of the service, to it.
    pub fn apply(&self, data: Vec<u8>, index: u64) -> (msg: ApplyMsg)
        requires
            data@.len() >= 8,
        ensures
            msg@ == (Delivery::Command { data: data@, index }),
    {
        ApplyMsg::Command { data, index }
    }

    /// Hands every entry that is committed and not yet applied to the service, in order; stops
    /// with an error behind the first that is no entry of the service.
    pub fn commit_entries(&mut self) -> (res: (Vec<ApplyMsg>, Result<(), Malformed>))
        requires
            old(self)@.inv(),
        ensures
            final(self)@ == old(self)@.commit_entries(),
            deliveries_of(res.0@) == old(self)@.applicable(),
            res.1 is Err <==> old(self)@.stuck_at(old(self)@.last_applied + 1) is Some,
            final(self)@.inv(),
    {
        let ghost s = self@;
        let mut msgs: Vec<ApplyMsg> = Vec::new();
        proof {
            lemma_stuck_at(s, s.last_applied + 1);
        }
        while self.commit_index > self.last_applied
            invariant
                s.inv(),
                s == old(self)@,
                self@ == (RaftState { last_applied: self.last_applied, ..s }),
                s.last_applied <= self.last_applied <= s.commit_index,
                s.stuck_at(s.last_applied + 1) == s.stuck_at(self.last_applied + 1),
                msgs.len() == self.last_applied - s.last_applied,
                forall|i: int|
                    0 <= i < msgs.len() ==> (#[trigger] msgs@[i])@ == (Delivery::Command {
                        data: s.log[s.last_applied + 1 + i].command,
                        index: (s.last_applied + 1 + i) as u64,
                    }),
            decreases self.commit_index - self.last_applied,
        {
            self.last_applied = self.last_applied + 1;
            let data: Vec<u8> = self.log[self.last_applied].command.clone();
            assert(data@ =~= self.log@[self.last_applied as int].command@);
            assert(s.log[self.last_applied as int] == self.log@[self.last_applied as int]@);
            match MyEntry::decode(data.as_slice()) {
                Ok(_) => msgs.push(self.apply(data, self.last_applied as u64)),
                Err(e) => {
                    assert(deliveries_of(msgs@) =~= s.applicable());
                    return (msgs, Err(e));
                },
            }
        }
        assert(deliveries_of(msgs@) =~= s.applicable());
        (msgs, Ok(()))
    }

    /// Takes notice of `term`: if it is a higher one, this peer becomes a follower in it.
    pub(crate) fn observe_term(&mut self, term: u64)
        ensures
            final(self)@ == old(self)@.observe_term(term),
            final(self).log == old(self).log,
    {
        if term > self.current_term {
            self.current_term = term;
            self.role = Role::Follower;
            self.voted_for = None;
        }
    }

    /// Answers a candidate.
    pub fn request_vote(&mut self, args: RequestVoteArgs) -> (reply: RequestVoteReply)
        requires
            old(self)@.inv(),
        ensures
            final(self)@ == old(self)@.request_vote(args),
            reply == old(self)@.request_vote_reply(args),
            final(self)@.inv(),
    {
        self.observe_term(args.term);
        if args.term < self.current_term {
            return RequestVoteReply { term: self.current_term, vote_granted: false };
        }
        let last: usize = self.log.len() - 1;
        let last_term: u64 = self.log[last].term;
        assert(self@.log.last() == self.log@[last as int]@);
        let candidate_up_to_date = if args.last_log_term != last_term {
            args.last_log_term >= last_term
        } else {
            args.last_log_index >= last
        };
        let free = match self.voted_for {
            None => true,
            Some(id) => id == args.candidate_id,
        };
        if free && candidate_up_to_date {
            self.voted_for = Some(args.candidate_id);
            self.received_valid_rpc = true;
            return RequestVoteReply { term: self.current_term, vote_granted: true };
        }
        RequestVoteReply { term: self.current_term, vote_granted: false }
    }

    /// Lays `entries` over the log from position `start` on.
    fn merge(&mut self, start: usize, entries: &Vec<LogEntry>)
        requires
            1 <= start <= old(self)@.log.len(),
        ensures
            final(self)@ == (RaftState {
                log: merged(old(self)@.log, start as int, entries_of(entries@)),
                ..old(self)@
            }),
    {
        let ghost log = self@.log;
        let ghost new = entries_of(entries@);
        let mut i: usize = 0;
        while i < entries.len() && start + i < self.log.len() && self.log[start + i].term
            == entries[i].term
            invariant
                *self == *old(self),
                log == entries_of(self.log@),
                new == entries_of(entries@),
                i <= entries.len(),
                1 <= start,
                start + i <= self.log.len(),
                matched(log, start as int, new, 0) == matched(log, start as int, new, i as int),
            decreases entries.len() - i,
        {
            i += 1;
        }
        proof {
            lemma_matched(log, start as int, new, i as int);
        }
        if i < entries.len() {
            self.log.truncate(start + i);
            let rest = vstd::slice::slice_subrange(entries.as_slice(), i, entries.len());
            self.log.extend_from_slice(rest);
            assert(entries_of(self.log@) =~= log.take(start + i) + new.skip(i as int));
        }
    }

    /// Answers a leader, and takes its entries in where they join on to the log.
    pub fn append_entries(&mut self, args: AppendEntriesArgs) -> (reply: AppendEntriesReply)
        requires
            old(self)@.inv(),
            old(self)@.can_append(args@),
        ensures
            final(self)@ == old(self)@.append_entries(args@),
            reply == old(self)@.append_entries_reply(args@),
            final(self)@.inv(),
    {
        self.observe_term(args.term);
        if args.term < self.current_term {
            return AppendEntriesReply {
                term: self.current_term,
                success: false,
                xindex: None,
                xterm: None,
            };
        }
        // Any leader of the current term keeps an election from starting, even where the log
        // check below fails: else elections would go on while the leader steps back.
        self.received_valid_rpc = true;
        if args.prev_log_index >= self.log.len() {
            return AppendEntriesReply {
                term: self.current_term,
                success: false,
                xindex: Some(self.log.len()),
                xterm: None,
            };
        }
        assert(self@.log[args.prev_log_index as int] == self.log@[args.prev_log_index as int]@);
        if self.log[args.prev_log_index].term != args.prev_log_term {
            let x_term: u64 = self.log[args.prev_log_index].term;
            let mut x_index: usize = args.prev_log_index;
            while x_index > 0 && self.log[x_index - 1].term == x_term
                invariant
                    x_index <= args.prev_log_index < self.log.len(),
                    self.log@[x_index as int].term == x_term,
                    run_start(entries_of(self.log@), args.prev_log_index as int) == run_start(
                        entries_of(self.log@),
                        x_index as int,
                    ),
                decreases x_index,
            {
                x_index -= 1;
            }
            return AppendEntriesReply {
                term: self.current_term,
                success: false,
                xterm: Some(x_term),
                xindex: Some(x_index),
            };
        }
        proof {
            lemma_merged(self@.log, args.prev_log_index + 1, args@.entries);
            lemma_committed_kept(old(self)@, args@);
        }
        self.merge(args.prev_log_index + 1, &args.entries);
        assert(self.log.len() >= args.prev_log_index + 1 + args.entries.len());
        if args.leader_commit > self.commit_index {
            let last_new_entry_index: usize = args.prev_log_index + args.entries.len();
            self.commit_index = if args.leader_commit <= last_new_entry_index {
                args.leader_commit
            } else {
                last_new_entry_index
            };
        }
        AppendEntriesReply { term: self.current_term, success: true, xindex: None, xterm: None }
    }
}

} // verus!
