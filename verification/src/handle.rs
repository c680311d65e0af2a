//! A peer together with what it keeps on stable storage.
use vstd::prelude::*;

use crate::codec::{read_back, stored_bytes, Malformed, Persist};
use crate::entry::LogEntry;
use crate::message::{
    deliveries_of, AppendEntriesArgs, AppendEntriesReply, ApplyMsg, Error, RequestVoteArgs,
    RequestVoteReply, Start,
};
use crate::raft::Raft;
use crate::state::{half_vote, RaftState, Role};

verus! {

/// How long a leader waits between two rounds, in milliseconds.
pub const HEARTBEAT_MILLIS: u64 = 150;

/// A peer that does not lead waits at least this long for news of a leader, in milliseconds.
pub const ELECTION_MIN_MILLIS: u64 = 450;

/// And less than this long. Each wait is drawn anew, so that peers do not stand at the same time.
pub const ELECTION_MAX_MILLIS: u64 = 900;

/// A peer waits at least this long for the answer to a request, in milliseconds.
pub const REPLY_MIN_MILLIS: u64 = 150;

/// And less than this long. Each wait is drawn anew.
pub const REPLY_MAX_MILLIS: u64 = 300;

/// How long to wait between two looks at what has been committed, in milliseconds.
pub const COMMIT_MILLIS: u64 = 300;

/// What a peer does next.
#[derive(Debug, Clone, Copy, PartialEq, Eq)]
pub enum Task {
    /// Wait for a random time, then see whether an election is due.
    Follow { initial_role: Role },
    /// Wait, then go on leading.
    Lead { millis: u64 },
}

/// A peer.
pub struct RaftHandle {
    pub inner: Raft,
    /// How many votes, and how many copies of an entry, are enough.
    pub num_half_vote: usize,
}

impl View for RaftHandle {
    type V = RaftState;

    open spec fn view(&self) -> RaftState {
        self.inner@
    }
}

impl RaftHandle {
    /// What holds of a peer between any two calls.
    pub open spec fn inv(self) -> bool {
        &&& self@.inv()
        &&& self.num_half_vote == half_vote(self@.num_peers)
    }

    /// A peer that goes on from `stored`, if it has stored anything before. It fails where that
    /// is no stored state.
    pub fn new(num_peers: usize, me: usize, stored: Option<&[u8]>) -> (res: Result<
        RaftHandle,
        Malformed,
    >)
        requires
            num_peers < usize::MAX,
        ensures
            res is Err <==> (stored matches Some(bytes) && read_back(bytes@) is None),
            res matches Ok(handle) ==> {
                &&& handle@ == match stored {
                    None => RaftState::initial(num_peers, me),
                    Some(bytes) => RaftState::initial(num_peers, me).restore(
                        read_back(bytes@)->0,
                    ),
                }
                &&& handle.num_half_vote == half_vote(num_peers)
                &&& handle@.log.len() > 0 ==> handle.inv()
            },
    {
        let mut handle = RaftHandle {
            inner: Raft::new(num_peers, me),
            num_half_vote: (num_peers + 1) / 2,
        };
        match handle.restore(stored) {
            Ok(_) => {
                assert(handle.inner.log.len() <= usize::MAX);
                Ok(handle)
            },
            Err(e) => Err(e),
        }
    }

    /// Takes a command in, if this peer is the leader. Where it does, the second value is to be
    /// on stable storage before the first one is given out.
    pub fn start(&mut self, cmd: &[u8]) -> (res: (Result<Start, Error>, Option<Vec<u8>>))
        requires
            old(self).inv(),
            old(self)@.can_start(),
        ensures
            final(self)@ == old(self)@.start(cmd@),
            match res.0 {
                Ok(start) => {
                    &&& old(self)@.role is Leader
                    &&& start.index == old(self)@.log.len()
                    &&& start.term == old(self)@.current_term
                    &&& res.1 matches Some(bytes) && bytes@ == stored_bytes(final(self)@.stored())
                },
                Err(e) => {
                    &&& !(old(self)@.role is Leader)
                    &&& e matches Error::NotLeader(leader) && leader == old(self)@.next_leader()
                    &&& res.1 is None
                },
            },
            final(self).inv(),
    {
        let result = self.inner.start(cmd);
        let stored = if result.is_ok() {
            Some(self.persist())
        } else {
            None
        };
        (result, stored)
    }

    /// The current term of this peer.
    pub fn term(&self) -> (term: u64)
        ensures
            term == self@.current_term,
    {
        self.inner.current_term
    }

    /// Whether this peer believes it is the leader.
    pub fn is_leader(&self) -> (leader: bool)
        ensures
            leader == (self@.role is Leader),
    {
        self.inner.role == Role::Leader
    }

    /// What this peer has to find again after a crash, as bytes.
    pub fn persist(&self) -> (bytes: Vec<u8>)
        ensures
            bytes@ == stored_bytes(self@.stored()),
    {
        let log: Vec<LogEntry> = self.inner.log.clone();
        let persist = Persist {
            current_term: self.inner.current_term,
            voted_for: self.inner.voted_for,
            log,
        };
        assert(persist@ =~= self@.stored());
        persist.encode()
    }

    /// Takes over what was stored, if anything was. It fails, and leaves the peer as it is, where
    /// that is no stored state.
    pub fn restore(&mut self, stored: Option<&[u8]>) -> (res: Result<(), Malformed>)
        ensures
            res is Err <==> (stored matches Some(bytes) && read_back(bytes@) is None),
            final(self)@ == match stored {
                None => old(self)@,
                Some(bytes) => match read_back(bytes@) {
                    Some(p) => old(self)@.restore(p),
                    None => old(self)@,
                },
            },
            final(self).num_half_vote == old(self).num_half_vote,
    {
        match stored {
            Some(bytes) => match Persist::decode(bytes) {
                Ok(persist) => {
                    self.inner.current_term = persist.current_term;
                    self.inner.voted_for = persist.voted_for;
                    self.inner.log = persist.log;
                    Ok(())
                },
                Err(e) => Err(e),
            },
            None => Ok(()),
        }
    }

    /// Answers a candidate. The second value is to be on stable storage before the answer is
    /// given out.
    pub fn request_vote(&mut self, args: RequestVoteArgs) -> (res: (RequestVoteReply, Vec<u8>))
        requires
            old(self).inv(),
        ensures
            final(self)@ == old(self)@.request_vote(args),
            res.0 == old(self)@.request_vote_reply(args),
            res.1@ == stored_bytes(final(self)@.stored()),
            final(self).inv(),
    {
        let reply = self.inner.request_vote(args);
        (reply, self.persist())
    }

    /// Answers a leader. The second value is to be on stable storage before the answer is given
    /// out.
    pub fn append_entries(&mut self, args: AppendEntriesArgs) -> (res: (
        AppendEntriesReply,
        Vec<u8>,
    ))
        requires
            old(self).inv(),
            old(self)@.can_append(args@),
        ensures
            final(self)@ == old(self)@.append_entries(args@),
            res.0 == old(self)@.append_entries_reply(args@),
            res.1@ == stored_bytes(final(self)@.stored()),
            final(self).inv(),
    {
        let reply = self.inner.append_entries(args);
        (reply, self.persist())
    }

    /// Hands every entry that is committed and not yet applied to the service, in order; stops
    /// with an error behind the first that is no entry of the service.
    pub fn commit_entries(&mut self) -> (res: (Vec<ApplyMsg>, Result<(), Malformed>))
        requires
            old(self).inv(),
        ensures
            final(self)@ == old(self)@.commit_entries(),
            deliveries_of(res.0@) == old(self)@.applicable(),
            res.1 is Err <==> old(self)@.stuck_at(old(self)@.last_applied + 1) is Some,
            final(self).inv(),
    {
        self.inner.commit_entries()
    }

    /// What this peer does next.
    pub fn background(&self) -> (task: Task)
        ensures
            task == (match self@.role {
                Role::Leader => Task::Lead { millis: HEARTBEAT_MILLIS },
                role => Task::Follow { initial_role: role },
            }),
    {
        match self.inner.role {
            Role::Follower => Task::Follow { initial_role: Role::Follower },
            Role::Candidate => Task::Follow { initial_role: Role::Candidate },
            Role::Leader => Task::Lead { millis: HEARTBEAT_MILLIS },
        }
    }
}

} // verus!
