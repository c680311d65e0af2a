//! The state of one peer as a mathematical value, and what each event makes of it.
use vstd::prelude::*;

use crate::entry::{last_of_term, lemma_matched, lemma_merged, matched, merged, run_start, Entry};
use crate::codec::StoredState;
use crate::message::{
    AppendEntriesReply, AppendRequest, Delivery, RequestVoteArgs, RequestVoteReply, VoteResult,
};

verus! {

/// What a peer takes itself to be.
#[derive(Debug, Clone, Copy, PartialEq, Eq, Structural)]
pub enum Role {
    Follower,
    Candidate,
    Leader,
}

impl Default for Role {
    fn default() -> (role: Self)
        ensures
            role is Follower,
    {
        Role::Follower
    }
}

/// The state of one peer.
#[verifier::ext_equal]
pub struct RaftState {
    pub num_peers: usize,
    pub me: usize,
    pub current_term: u64,
    pub voted_for: Option<usize>,
    pub log: Seq<Entry>,
    pub commit_index: usize,
    pub last_applied: usize,
    pub role: Role,
    pub received_valid_rpc: bool,
    pub next_index: Seq<usize>,
    pub match_index: Seq<usize>,
}

/// How many votes, and how many copies of an entry, are enough.
pub open spec fn half_vote(num_peers: usize) -> int {
    (num_peers + 1) / 2
}

/// All peers but `me`, in order.
pub open spec fn other_peers(num_peers: usize, me: usize) -> Seq<usize> {
    Seq::new(
        if me < num_peers {
            (num_peers - 1) as nat
        } else {
            num_peers as nat
        },
        |k: int|
            if k < me {
                k as usize
            } else {
                (k + 1) as usize
            },
    )
}

/// The votes of one election.
#[derive(Debug, Clone, Copy, PartialEq, Eq)]
pub struct Election {
    /// How many peers have granted their vote, with the candidate itself.
    pub num_granted: usize,
    /// How many peers have answered, with the candidate itself.
    pub num_voted: usize,
}

impl Election {
    /// Whether the election can still be going on among `num_peers` peers.
    pub open spec fn open_among(self, num_peers: usize) -> bool {
        &&& 1 <= self.num_granted <= self.num_voted
        &&& self.num_voted == 1 || self.num_voted < num_peers
    }

    /// The votes after one more answer.
    pub open spec fn count(self, result: VoteResult, num_peers: usize) -> Election {
        match result {
            VoteResult::Granted => Election {
                num_granted: (self.num_granted + 1) as usize,
                num_voted: (self.num_voted + 1) as usize,
            },
            VoteResult::Denied => Election {
                num_voted: (self.num_voted + 1) as usize,
                ..self
            },
            VoteResult::HigherTerm(_) => Election { num_granted: 0, num_voted: num_peers },
        }
    }
}

/// The peers whose log is known to agree with the leader's up to position `n`.
pub open spec fn peers_at(match_index: Seq<usize>, n: int) -> Set<int> {
    Set::new(|i: int| 0 <= i < match_index.len() && match_index[i] >= n)
}

impl RaftState {
    /// What holds of a peer between any two events.
    pub open spec fn inv(self) -> bool {
        &&& self.last_applied <= self.commit_index < self.log.len() <= usize::MAX
        &&& self.next_index.len() == self.match_index.len()
        &&& self.role is Leader ==> self.me < self.num_peers && self.next_index.len()
            == self.num_peers
        &&& forall|i: int| 0 <= i < self.next_index.len() ==> #[trigger] self.next_index[i] >= 1
    }

    /// A higher term makes any peer a follower without a vote in that term.
    pub open spec fn observe_term(self, term: u64) -> RaftState {
        if term > self.current_term {
            RaftState { current_term: term, role: Role::Follower, voted_for: None, ..self }
        } else {
            self
        }
    }

    /// Whether a candidate whose log ends as `args` says is not behind this peer: its last entry
    /// is of a later term, or of the same term and at no lower position.
    pub open spec fn candidate_up_to_date(self, args: RequestVoteArgs) -> bool {
        let last_term = self.log.last().term;
        args.last_log_term > last_term || (args.last_log_term == last_term && args.last_log_index
            >= self.log.len() - 1)
    }

    /// Whether the vote goes to the candidate that asks by `args`.
    pub open spec fn grants_vote(self, args: RequestVoteArgs) -> bool {
        let vote = self.observe_term(args.term).voted_for;
        &&& args.term >= self.current_term
        &&& vote is None || vote == Some(args.candidate_id)
        &&& self.candidate_up_to_date(args)
    }

    /// The peer after it has answered `args`.
    pub open spec fn request_vote(self, args: RequestVoteArgs) -> RaftState {
        let s = self.observe_term(args.term);
        if self.grants_vote(args) {
            RaftState { voted_for: Some(args.candidate_id), received_valid_rpc: true, ..s }
        } else {
            s
        }
    }

    /// The answer to `args`.
    pub open spec fn request_vote_reply(self, args: RequestVoteArgs) -> RequestVoteReply {
        RequestVoteReply {
            term: self.request_vote(args).current_term,
            vote_granted: self.grants_vote(args),
        }
    }

    /// Whether `args` comes from a leader that is not outdated and joins on to this peer's log.
    pub open spec fn accepts(self, args: AppendRequest) -> bool {
        &&& args.term >= self.current_term
        &&& args.prev_log_index < self.log.len()
        &&& self.log[args.prev_log_index as int].term == args.prev_log_term
    }

    /// Whether `args`, once accepted, leaves what is committed alone: no entry of another term
    /// falls on a committed one, and the commit index does not go back.
    pub open spec fn keeps_committed(self, args: AppendRequest) -> bool {
        &&& forall|i: int|
            0 <= i < args.entries.len() && args.prev_log_index + 1 + i <= self.commit_index
                ==> (#[trigger] args.entries[i]).term == self.log[args.prev_log_index + 1 + i].term
        &&& args.leader_commit > self.commit_index ==> args.last_new_index() >= self.commit_index
    }

    /// Whether this peer can take `args` at all.
    pub open spec fn can_append(self, args: AppendRequest) -> bool {
        self.accepts(args) ==> self.keeps_committed(args)
    }

    /// The peer after it has answered `args`.
    pub open spec fn append_entries(self, args: AppendRequest) -> RaftState {
        let s = self.observe_term(args.term);
        if args.term < self.current_term {
            s
        } else if !self.accepts(args) {
            RaftState { received_valid_rpc: true, ..s }
        } else {
            RaftState {
                received_valid_rpc: true,
                log: merged(self.log, args.prev_log_index + 1, args.entries),
                commit_index: if args.leader_commit <= self.commit_index {
                    self.commit_index
                } else if args.leader_commit <= args.last_new_index() {
                    args.leader_commit
                } else {
                    args.last_new_index() as usize
                },
                ..s
            }
        }
    }

    /// The answer to `args`. A refusal of a current leader says where to try next: at the end of
    /// the log where that is too short, else at the start of the run of the term in the way.
    pub open spec fn append_entries_reply(self, args: AppendRequest) -> AppendEntriesReply {
        let prev = args.prev_log_index as int;
        let term = self.observe_term(args.term).current_term;
        if args.term < self.current_term {
            AppendEntriesReply { term, success: false, xterm: None, xindex: None }
        } else if prev >= self.log.len() {
            AppendEntriesReply {
                term,
                success: false,
                xterm: None,
                xindex: Some(self.log.len() as usize),
            }
        } else if self.log[prev].term != args.prev_log_term {
            AppendEntriesReply {
                term,
                success: false,
                xterm: Some(self.log[prev].term),
                xindex: Some(run_start(self.log, prev) as usize),
            }
        } else {
            AppendEntriesReply { term, success: true, xterm: None, xindex: None }
        }
    }

    /// The peer that a service is sent on to by one that is not the leader.
    pub open spec fn next_leader(self) -> int {
        (self.me + 1) % (self.num_peers as int)
    }

    /// Whether this peer can be asked to take a command in: as a leader it has room for one more
    /// entry, else there is a peer to send the service on to.
    pub open spec fn can_start(self) -> bool {
        if self.role is Leader {
            self.log.len() < usize::MAX && self.next_index[self.me as int] < usize::MAX
        } else {
            self.me < usize::MAX && self.num_peers > 0
        }
    }

    /// The peer after it was asked to take `command` in.
    pub open spec fn start(self, command: Seq<u8>) -> RaftState {
        if self.role is Leader {
            let me = self.me as int;
            RaftState {
                log: self.log.push(Entry { term: self.current_term, command }),
                next_index: self.next_index.update(me, (self.next_index[me] + 1) as usize),
                match_index: self.match_index.update(me, self.log.len() as usize),
                ..self
            }
        } else {
            self
        }
    }

    /// The first position from `from` on that is committed but whose command is no entry of the
    /// service.
    pub open spec fn stuck_at(self, from: int) -> Option<int>
        decreases self.commit_index + 1 - from,
    {
        if from > self.commit_index {
            None
        } else if self.log[from].command.len() < 8 {
            Some(from)
        } else {
            self.stuck_at(from + 1)
        }
    }

    /// How many entries are next handed to the service: all that are committed and not applied,
    /// up to the first that is no entry of the service.
    pub open spec fn num_applicable(self) -> int {
        match self.stuck_at(self.last_applied + 1) {
            Some(i) => i - self.last_applied - 1,
            None => self.commit_index - self.last_applied,
        }
    }

    /// The messages in which those entries are handed over.
    pub open spec fn applicable(self) -> Seq<Delivery> {
        Seq::new(
            self.num_applicable() as nat,
            |i: int|
                Delivery::Command {
                    data: self.log[self.last_applied + 1 + i].command,
                    index: (self.last_applied + 1 + i) as u64,
                },
        )
    }

    /// The peer after it has handed them over. One that is no entry of the service counts as
    /// applied, but stops the rest.
    pub open spec fn commit_entries(self) -> RaftState {
        RaftState {
            last_applied: match self.stuck_at(self.last_applied + 1) {
                Some(i) => i as usize,
                None => self.commit_index,
            },
            ..self
        }
    }

    /// Whether a peer that was in `initial_role` when it began to wait starts an election now.
    pub open spec fn campaigns(self, initial_role: Role) -> bool {
        !self.received_valid_rpc && self.role == initial_role
    }

    /// The peer after it has waited in vain in `initial_role`, or not.
    pub open spec fn time_out(self, initial_role: Role) -> RaftState {
        if self.received_valid_rpc {
            RaftState { received_valid_rpc: false, role: Role::Follower, ..self }
        } else if self.role == initial_role {
            RaftState {
                role: Role::Candidate,
                current_term: (self.current_term + 1) as u64,
                voted_for: Some(self.me),
                ..self
            }
        } else {
            self
        }
    }

    /// What a candidate asks its peers.
    pub open spec fn vote_request(self) -> RequestVoteArgs {
        RequestVoteArgs {
            term: self.current_term,
            candidate_id: self.me,
            last_log_index: (self.log.len() - 1) as usize,
            last_log_term: self.log.last().term,
        }
    }

    /// What a peer that asked for votes in `term` makes of an answer, or of its absence.
    pub open spec fn vote_result(self, term: u64, reply: Option<RequestVoteReply>) -> Option<
        VoteResult,
    > {
        match reply {
            Some(r) => Some(
                if r.term > self.current_term {
                    VoteResult::HigherTerm(r.term)
                } else if term == self.current_term && r.vote_granted {
                    VoteResult::Granted
                } else {
                    VoteResult::Denied
                },
            ),
            None => if term == self.current_term {
                Some(VoteResult::Denied)
            } else {
                None
            },
        }
    }

    /// The peer after it has heard of `result`, before it draws its conclusions.
    pub open spec fn hear(self, result: VoteResult) -> RaftState {
        match result {
            VoteResult::HigherTerm(term) => RaftState {
                role: Role::Follower,
                ..self.observe_term(term)
            },
            _ => self,
        }
    }

    /// Whether a candidate that has counted `result` in `tally` has won.
    pub open spec fn wins(self, tally: Election, result: VoteResult) -> bool {
        let s = self.hear(result);
        &&& !s.received_valid_rpc
        &&& s.role is Candidate
        &&& tally.count(result, self.num_peers).num_granted >= half_vote(self.num_peers)
    }

    /// Whether there is nothing left to wait for.
    pub open spec fn ends_election(self, tally: Election, result: VoteResult) -> bool {
        let s = self.hear(result);
        ||| s.received_valid_rpc
        ||| !(s.role is Candidate)
        ||| self.wins(tally, result)
        ||| tally.count(result, self.num_peers).num_voted >= self.num_peers
    }

    /// The peer as a leader at the start of its term: it takes every log to be as long as its
    /// own, and knows of none but its own what it holds.
    pub open spec fn lead(self) -> RaftState {
        RaftState {
            role: Role::Leader,
            next_index: Seq::new(self.num_peers as nat, |i: int| self.log.len() as usize),
            match_index: Seq::new(
                self.num_peers as nat,
                |i: int|
                    if i == self.me {
                        (self.log.len() - 1) as usize
                    } else {
                        0usize
                    },
            ),
            ..self
        }
    }

    /// The peer after it has counted `result`.
    pub open spec fn count_vote(self, tally: Election, result: VoteResult) -> RaftState {
        let s = self.hear(result);
        if s.received_valid_rpc {
            RaftState { received_valid_rpc: false, role: Role::Follower, ..s }
        } else if self.wins(tally, result) {
            s.lead()
        } else {
            s
        }
    }

    /// What the leader sends to a peer whose log it takes to be `next` long: all from there on.
    pub open spec fn append_request(self, next: int) -> AppendRequest {
        AppendRequest {
            term: self.current_term,
            leader_id: self.me,
            prev_log_index: (next - 1) as usize,
            prev_log_term: self.log[next - 1].term,
            entries: self.log.skip(next),
            leader_commit: self.commit_index,
        }
    }

    /// What the leader sends, and to whom: one request to every other peer.
    pub open spec fn broadcast(self) -> Seq<(usize, AppendRequest)> {
        other_peers(self.num_peers, self.me).map_values(
            |peer: usize| (peer, self.append_request(self.next_index[peer as int] as int)),
        )
    }

    /// Whether the entry at position `n` can be counted as committed: it is of the current term,
    /// and enough peers are known to hold it.
    pub open spec fn committable(self, n: int) -> bool {
        &&& self.log[n].term == self.current_term
        &&& peers_at(self.match_index, n).len() >= half_vote(self.num_peers)
    }

    /// The last position up to `n` that can be counted as committed; at least the commit index.
    pub open spec fn new_commit_index(self, n: int) -> int
        decreases n,
    {
        if n <= self.commit_index {
            self.commit_index as int
        } else if self.committable(n) {
            n
        } else {
            self.new_commit_index(n - 1)
        }
    }

    /// Whether a peer that led when it began to wait goes on to lead.
    pub open spec fn still_leads(self) -> bool {
        !self.received_valid_rpc && self.role is Leader
    }

    /// Whether the leader takes no other log to be longer than its own.
    pub open spec fn can_broadcast(self) -> bool {
        forall|i: int|
            0 <= i < self.num_peers && i != self.me ==> #[trigger] self.next_index[i]
                <= self.log.len()
    }

    /// The peer after one round of leading.
    pub open spec fn leader_task(self) -> RaftState {
        if self.received_valid_rpc {
            RaftState { received_valid_rpc: false, role: Role::Follower, ..self }
        } else if self.role is Leader {
            RaftState {
                commit_index: self.new_commit_index(self.log.len() - 1) as usize,
                ..self
            }
        } else {
            self
        }
    }

    /// What it sends in that round.
    pub open spec fn leader_task_sends(self) -> Seq<(usize, AppendRequest)> {
        if self.still_leads() {
            self.leader_task().broadcast()
        } else {
            Seq::empty()
        }
    }

    /// Where a refusal tells the leader to go on: behind its own last entry of the term in the
    /// way where it has one, else where the peer points to.
    pub open spec fn retry_index(self, reply: AppendEntriesReply) -> Option<int> {
        let pointed = match reply.xindex {
            Some(i) => Some(i as int),
            None => None,
        };
        match reply.xterm {
            None => pointed,
            Some(term) => match last_of_term(self.log, term, self.log.len() as int) {
                Some(j) => Some(j + 1),
                None => pointed,
            },
        }
    }

    /// Whether this peer can make use of `reply`, the answer of `peer` to `sent`.
    pub open spec fn can_take_reply(
        self,
        peer: usize,
        sent: AppendRequest,
        reply: AppendEntriesReply,
    ) -> bool {
        &&& reply.success ==> {
            &&& peer < self.match_index.len()
            &&& sent.last_new_index() <= usize::MAX
            &&& sent.last_new_index() > self.match_index[peer as int] ==> sent.last_new_index()
                < usize::MAX
        }
        &&& !reply.success && reply.term == sent.term ==> {
            &&& peer < self.next_index.len()
            &&& self.retry_index(reply) is Some
        }
    }

    /// The peer after it has heard `reply` from `peer` to `sent`.
    pub open spec fn take_reply(
        self,
        peer: usize,
        sent: AppendRequest,
        reply: AppendEntriesReply,
    ) -> RaftState {
        let s = self.observe_term(reply.term);
        let p = peer as int;
        if reply.success {
            let new_match = sent.last_new_index();
            if new_match > self.match_index[p] {
                RaftState {
                    next_index: self.next_index.update(p, (new_match + 1) as usize),
                    match_index: self.match_index.update(p, new_match as usize),
                    ..s
                }
            } else {
                s
            }
        } else if reply.term == sent.term {
            let retry = self.retry_index(reply)->0;
            RaftState {
                next_index: self.next_index.update(
                    p,
                    if retry < 1 {
                        1usize
                    } else {
                        retry as usize
                    },
                ),
                ..s
            }
        } else {
            s
        }
    }

    /// What is kept over a crash.
    pub open spec fn stored(self) -> StoredState {
        StoredState {
            current_term: self.current_term,
            voted_for: self.voted_for,
            log: self.log,
        }
    }

    /// The peer after it took over what was kept.
    pub open spec fn restore(self, stored: StoredState) -> RaftState {
        RaftState {
            current_term: stored.current_term,
            voted_for: stored.voted_for,
            log: stored.log,
            ..self
        }
    }

    /// A peer that has never run.
    pub open spec fn initial(num_peers: usize, me: usize) -> RaftState {
        RaftState {
            num_peers,
            me,
            current_term: 0,
            voted_for: None,
            log: seq![Entry { term: 0, command: Seq::empty() }],
            commit_index: 0,
            last_applied: 0,
            role: Role::Follower,
            received_valid_rpc: false,
            next_index: Seq::empty(),
            match_index: Seq::empty(),
        }
    }
}

/// What `new_commit_index` finds: the last position up to `n` that can be counted as committed,
/// or the commit index where there is none.
pub proof fn lemma_new_commit_index(s: RaftState, n: int)
    ensures
        ({
            let c = s.new_commit_index(n);
            &&& s.commit_index <= c
            &&& c == s.commit_index || (c <= n && s.committable(c))
            &&& forall|m: int| c < m <= n ==> !(#[trigger] s.committable(m))
        }),
    decreases n,
{
    if n > s.commit_index && !s.committable(n) {
        lemma_new_commit_index(s, n - 1);
    }
}

/// How the peers at `n` among the first `k + 1` follow from those among the first `k`.
pub proof fn lemma_peers_at(match_index: Seq<usize>, n: int, k: int)
    requires
        0 <= k <= match_index.len(),
    ensures
        peers_at(match_index.take(k), n).finite(),
        peers_at(match_index.take(0), n).len() == 0,
        k < match_index.len() ==> peers_at(match_index.take(k + 1), n).len() == peers_at(
            match_index.take(k),
            n,
        ).len() + if match_index[k] >= n {
            1int
        } else {
            0int
        },
    decreases k,
{
    if k == 0 {
        assert(peers_at(match_index.take(0), n) =~= Set::empty());
    } else {
        lemma_peers_at(match_index, n, k - 1);
        let below = peers_at(match_index.take(k - 1), n);
        if match_index[k - 1] >= n {
            assert(peers_at(match_index.take(k), n) =~= below.insert(k - 1));
        } else {
            assert(peers_at(match_index.take(k), n) =~= below);
        }
    }
    if k < match_index.len() {
        let below = peers_at(match_index.take(k), n);
        if match_index[k] >= n {
            assert(peers_at(match_index.take(k + 1), n) =~= below.insert(k));
        } else {
            assert(peers_at(match_index.take(k + 1), n) =~= below);
        }
    }
}

/// What `stuck_at` finds: a committed position at which the log holds no entry of the service,
/// with none before it, or nothing at all.
pub proof fn lemma_stuck_at(s: RaftState, from: int)
    ensures
        match s.stuck_at(from) {
            Some(i) => {
                &&& from <= i <= s.commit_index
                &&& s.log[i].command.len() < 8
                &&& forall|j: int| from <= j < i ==> (#[trigger] s.log[j]).command.len() >= 8
            },
            None => forall|j: int|
                from <= j <= s.commit_index ==> (#[trigger] s.log[j]).command.len() >= 8,
        },
    decreases s.commit_index + 1 - from,
{
    if from <= s.commit_index && s.log[from].command.len() >= 8 {
        lemma_stuck_at(s, from + 1);
    }
}

/// Entries that are accepted leave the committed part of the log as it is.
pub proof fn lemma_committed_kept(s: RaftState, args: AppendRequest)
    requires
        s.inv(),
        s.accepts(args),
        s.keeps_committed(args),
    ensures
        s.append_entries(args).log.len() > s.commit_index,
        s.append_entries(args).log.take(s.commit_index + 1) == s.log.take(s.commit_index + 1),
{
    let start = args.prev_log_index + 1;
    let m = matched(s.log, start, args.entries, 0);
    lemma_matched(s.log, start, args.entries, 0);
    lemma_merged(s.log, start, args.entries);
    let log = merged(s.log, start, args.entries);
    if m < args.entries.len() {
        assert(start + m > s.commit_index) by {
            if start + m <= s.commit_index {
                assert(args.entries[m].term == s.log[start + m].term);
            }
        }
        assert(log.take(s.commit_index + 1) =~= log.take(start + m).take(s.commit_index + 1));
        assert(s.log.take(s.commit_index + 1) =~= s.log.take(start + m).take(s.commit_index + 1));
    }
}

} // verus!
