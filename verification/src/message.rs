//! The messages that peers exchange, and what the library tells the service above it.
use vstd::prelude::*;

use crate::entry::{entries_of, Entry, LogEntry};

verus! {

/// A candidate asks for a vote.
#[derive(Debug, Clone, Copy)]
pub struct RequestVoteArgs {
    pub term: u64,
    pub candidate_id: usize,
    pub last_log_index: usize,
    pub last_log_term: u64,
}

/// The answer to a [`RequestVoteArgs`].
#[derive(Debug, Clone, Copy, PartialEq, Eq)]
pub struct RequestVoteReply {
    pub term: u64,
    pub vote_granted: bool,
}

/// A leader hands over entries; without any, it is a heartbeat.
pub struct AppendEntriesArgs {
    pub term: u64,
    pub leader_id: usize,
    pub prev_log_index: usize,
    pub prev_log_term: u64,
    pub entries: Vec<LogEntry>,
    pub leader_commit: usize,
}

/// An [`AppendEntriesArgs`] as a mathematical value.
#[verifier::ext_equal]
pub struct AppendRequest {
    pub term: u64,
    pub leader_id: usize,
    pub prev_log_index: usize,
    pub prev_log_term: u64,
    pub entries: Seq<Entry>,
    pub leader_commit: usize,
}

impl View for AppendEntriesArgs {
    type V = AppendRequest;

    open spec fn view(&self) -> AppendRequest {
        AppendRequest {
            term: self.term,
            leader_id: self.leader_id,
            prev_log_index: self.prev_log_index,
            prev_log_term: self.prev_log_term,
            entries: entries_of(self.entries@),
            leader_commit: self.leader_commit,
        }
    }
}

impl AppendRequest {
    /// The position of the last entry that the receiver and the sender share once the request
    /// was accepted.
    pub open spec fn last_new_index(self) -> int {
        self.prev_log_index + self.entries.len()
    }
}

/// Requests with the peers they go to, each as a mathematical value.
pub open spec fn requests_of(msgs: Seq<(usize, AppendEntriesArgs)>) -> Seq<(usize, AppendRequest)> {
    msgs.map_values(|m: (usize, AppendEntriesArgs)| (m.0, m.1@))
}

/// The answer to an [`AppendEntriesArgs`].
#[derive(Debug, Clone, Copy, PartialEq, Eq)]
pub struct AppendEntriesReply {
    pub term: u64,
    pub success: bool,
    /// The term of the entry that stands in the way, if there is one.
    pub xterm: Option<u64>,
    /// Where the run of that term starts, or how long the log is where it is too short.
    pub xindex: Option<usize>,
}

/// What a candidate makes of one peer's answer.
#[derive(Debug, Clone, Copy, PartialEq, Eq)]
pub enum VoteResult {
    Granted,
    Denied,
    HigherTerm(u64),
}

/// What the service is handed on each peer, in the order of the log.
pub enum ApplyMsg {
    /// A command that is committed at `index`.
    Command { data: Vec<u8>, index: u64 },
    /// A snapshot that stands for the log up to `index`.
    Snapshot { data: Vec<u8>, term: u64, index: u64 },
}

/// An [`ApplyMsg`] as a mathematical value.
#[verifier::ext_equal]
pub enum Delivery {
    Command { data: Seq<u8>, index: u64 },
    Snapshot { data: Seq<u8>, term: u64, index: u64 },
}

impl View for ApplyMsg {
    type V = Delivery;

    open spec fn view(&self) -> Delivery {
        match *self {
            ApplyMsg::Command { data, index } => Delivery::Command { data: data@, index },
            ApplyMsg::Snapshot { data, term, index } => Delivery::Snapshot {
                data: data@,
                term,
                index,
            },
        }
    }
}

/// Messages to the service, each as a mathematical value.
pub open spec fn deliveries_of(msgs: Seq<ApplyMsg>) -> Seq<Delivery> {
    msgs.map_values(|m: ApplyMsg| m@)
}

/// Where a command was taken in.
#[derive(Debug, Clone, Copy, PartialEq, Eq)]
pub struct Start {
    /// The index that the command will appear at if it's ever committed.
    pub index: u64,
    /// The current term.
    pub term: u64,
}

/// An input or output error of the system. Nothing is said of it.
#[verifier::external_type_specification]
#[verifier::external_body]
pub struct ExIoError(std::io::Error);

/// Why a request to a peer failed.
#[derive(Debug)]
pub enum Error {
    /// This peer is not the leader; the number names one to try next.
    NotLeader(usize),
    /// The peer could not reach its stable storage.
    IO(std::io::Error),
}

impl From<std::io::Error> for Error {
    fn from(e: std::io::Error) -> (res: Self) {
        Error::IO(e)
    }
}

impl vstd::std_specs::convert::FromSpecImpl<std::io::Error> for Error {
    open spec fn obeys_from_spec() -> bool {
        true
    }

    open spec fn from_spec(e: std::io::Error) -> Self {
        Error::IO(e)
    }
}

} // verus!
