//! A whole cluster, with what its peers have said so far.
//!
//! Messages may be lost, delayed, doubled and reordered, but not made up. A peer that crashes
//! starts again from what it had stored: what it has sent rests on nothing else, and a crash
//! before it has stored anything new is as if what it was about to answer had never reached it.
//! A candidate asks every other peer once in an election, and what it counts there are answers to
//! what it has asked there.
use vstd::prelude::*;

use crate::entry::Entry;
use crate::message::{
    AppendEntriesReply, AppendRequest, RequestVoteArgs, RequestVoteReply, VoteResult,
};
use crate::run::Event;
use crate::state::{Election, RaftState, Role};

verus! {

/// What a term in which a peer was elected has brought.
#[verifier::ext_equal]
pub struct Leadership {
    /// The peer that was elected.
    pub leader: int,
    /// The peers that have elected it.
    pub voters: Set<int>,
    /// Its log when it was elected.
    pub base: Seq<Entry>,
    /// Its log now, or when it ceased to lead.
    pub log: Seq<Entry>,
}

/// A vote.
#[verifier::ext_equal]
pub struct Grant {
    /// The candidate it went to.
    pub candidate: int,
    /// The log of the peer that gave it, at the time.
    pub log: Seq<Entry>,
}

/// A cluster and its history.
#[verifier::ext_equal]
pub struct Cluster {
    pub peers: Seq<RaftState>,
    /// The election that each peer counts, or has counted last.
    pub elections: Seq<Election>,
    /// The term in which it stands in that election.
    pub stood: Seq<u64>,
    /// What it has made of the answers in that election, by who has given them.
    pub answers: Seq<Map<int, VoteResult>>,
    /// The peers whose answers it has counted, itself among them.
    pub counted: Seq<Set<int>>,
    /// Those of them that it has counted as votes for it.
    pub supporters: Seq<Set<int>>,
    /// The log with which a peer has stood for election in a term.
    pub candidacies: Map<(int, u64), Seq<Entry>>,
    /// The vote of a peer in a term.
    pub grants: Map<(int, u64), Grant>,
    /// The terms in which a peer was elected.
    pub terms: Map<u64, Leadership>,
    /// What was answered to candidates: by whom, to whom, and in which term it was asked.
    pub vote_replies: Set<(int, int, u64, RequestVoteReply)>,
    /// What leaders have sent, and to whom.
    pub requests: Set<(int, AppendRequest)>,
    /// What was answered to leaders: by whom and to what.
    pub replies: Set<(int, AppendRequest, AppendEntriesReply)>,
    /// A peer has told the leader of a term that it holds its entry of that term at a position.
    pub acks: Set<(int, u64, int)>,
    /// The longest log that was ever counted as committed.
    pub agreed: Seq<Entry>,
}

/// A step of a cluster: something happens to the peer `p`.
pub enum Step {
    Start { p: int, command: Seq<u8> },
    RequestVote { p: int, candidate: int, term: u64 },
    AppendEntries { p: int, args: AppendRequest },
    CommitEntries { p: int },
    TimeOut { p: int, initial_role: Role },
    /// The answer of `voter` reaches a candidate, or it has waited for it in vain.
    HearVote { p: int, voter: int, answer: Option<RequestVoteReply> },
    /// The candidate counts what it has made of that.
    CountVote { p: int, voter: int, result: VoteResult },
    LeaderTask { p: int },
    TakeReply { p: int, peer: int, sent: AppendRequest, reply: AppendEntriesReply },
    Restart { p: int },
}

/// What a candidate with `log` asks for in `term`.
pub open spec fn ballot(candidate: int, term: u64, log: Seq<Entry>) -> RequestVoteArgs {
    RequestVoteArgs {
        term,
        candidate_id: candidate as usize,
        last_log_index: (log.len() - 1) as usize,
        last_log_term: log.last().term,
    }
}

/// Whether a leader in state `s` sends the request `r.1` to the peer `r.0`.
pub open spec fn sends(s: RaftState, r: (int, AppendRequest)) -> bool {
    &&& 0 <= r.0 < s.num_peers
    &&& r.0 != s.me
    &&& r.1 == s.append_request(s.next_index[r.0] as int)
}

impl Step {
    /// The peer to which something happens.
    pub open spec fn peer(self) -> int {
        match self {
            Step::Start { p, command } => p,
            Step::RequestVote { p, candidate, term } => p,
            Step::AppendEntries { p, args } => p,
            Step::CommitEntries { p } => p,
            Step::TimeOut { p, initial_role } => p,
            Step::HearVote { p, voter, answer } => p,
            Step::CountVote { p, voter, result } => p,
            Step::LeaderTask { p } => p,
            Step::TakeReply { p, peer, sent, reply } => p,
            Step::Restart { p } => p,
        }
    }
}

impl Cluster {
    /// How many peers there are.
    pub open spec fn num_peers(self) -> int {
        self.peers.len() as int
    }

    /// What `step` means for the peer to which it happens.
    pub open spec fn event(self, step: Step) -> Event {
        match step {
            Step::Start { p, command } => Event::Start { command },
            Step::RequestVote { p, candidate, term } => Event::RequestVote {
                ballot: ballot(candidate, term, self.candidacies[(candidate, term)]),
            },
            Step::AppendEntries { p, args } => Event::AppendEntries { args },
            Step::CommitEntries { p } => Event::CommitEntries,
            Step::TimeOut { p, initial_role } => Event::TimeOut { initial_role },
            Step::HearVote { p, voter, answer } => Event::HearVote { term: self.stood[p], answer },
            Step::CountVote { p, voter, result } => Event::CountVote {
                tally: self.elections[p],
                result,
            },
            Step::LeaderTask { p } => Event::LeaderTask,
            Step::TakeReply { p, peer, sent, reply } => Event::TakeReply {
                peer: peer as usize,
                sent,
                reply,
            },
            Step::Restart { p } => Event::Restart,
        }
    }

    /// Whether `step` can come next: whatever reaches a peer was sent to it, an answer to a
    /// candidate comes in once and is counted once, an answer to a leader comes in unless it has
    /// crashed since, and no number grows beyond what the machine can hold.
    pub open spec fn enabled(self, step: Step) -> bool {
        &&& 0 <= step.peer() < self.num_peers()
        &&& match step {
            Step::Start { p, command } => self.peers[p].can_start(),
            Step::RequestVote { p, candidate, term } => self.candidacies.contains_key(
                (candidate, term),
            ),
            Step::AppendEntries { p, args } => {
                &&& self.requests.contains((p, args))
                &&& self.peers[p].append_entries(args).log.len() < usize::MAX
            },
            Step::CommitEntries { p } => true,
            Step::TimeOut { p, initial_role } => self.peers[p].campaigns(initial_role)
                ==> self.peers[p].current_term < u64::MAX,
            Step::HearVote { p, voter, answer } => {
                &&& 0 <= voter < self.num_peers()
                &&& voter != p
                &&& !self.answers[p].contains_key(voter)
                &&& answer matches Some(r) ==> self.vote_replies.contains(
                    (voter, p, self.stood[p], r),
                )
            },
            Step::CountVote { p, voter, result } => {
                &&& self.elections[p].open_among(self.num_peers() as usize)
                &&& self.answers[p].contains_key(voter)
                &&& self.answers[p][voter] == result
                &&& !self.counted[p].contains(voter)
            },
            Step::LeaderTask { p } => true,
            Step::TakeReply { p, peer, sent, reply } => {
                &&& self.replies.contains((peer, sent, reply))
                &&& sent.leader_id == p
                &&& self.peers[p].next_index.len() == self.num_peers()
            },
            Step::Restart { p } => true,
        }
    }

    /// Whether the peer to which `step` happens can handle it. One that cannot stops short.
    pub open spec fn admitted(self, step: Step) -> bool {
        self.peers[step.peer()].admits(self.event(step))
    }

    /// Whether `step` comes in time: a leader takes no success that answers what it has sent in an
    /// earlier term.
    pub open spec fn timely(self, step: Step) -> bool {
        step matches Step::TakeReply { p, peer, sent, reply } ==> (self.peers[p].role is Leader
            && reply.success ==> sent.term == self.peers[p].current_term)
    }

    /// Whether `step` comes promptly: a leader takes no answer at all to what it has sent in an
    /// earlier term, but for what that says of a higher term.
    pub open spec fn prompt(self, step: Step) -> bool {
        &&& self.timely(step)
        &&& step matches Step::TakeReply { p, peer, sent, reply } ==> (self.peers[p].role is Leader
            && reply.term == sent.term ==> sent.term == self.peers[p].current_term)
    }

    /// The peers whose votes the candidate `p` has counted once it has counted the answer of
    /// `voter`.
    pub open spec fn supporters_with(self, p: int, voter: int, result: VoteResult) -> Set<int> {
        if result is Granted {
            self.supporters[p].insert(voter)
        } else {
            self.supporters[p]
        }
    }

    /// The cluster after `step`.
    pub open spec fn after(self, step: Step) -> Cluster {
        let p = step.peer();
        let s = self.peers[p];
        let t = s.after(self.event(step));
        let c = Cluster { peers: self.peers.update(p, t), ..self };
        match step {
            Step::Start { .. } => if s.role is Leader {
                let term = s.current_term;
                Cluster {
                    terms: self.terms.insert(term, Leadership { log: t.log, ..self.terms[term] }),
                    acks: self.acks.insert((p, term, s.log.len() as int)),
                    ..c
                }
            } else {
                c
            },
            Step::RequestVote { candidate, term, .. } => {
                let asked = ballot(candidate, term, self.candidacies[(candidate, term)]);
                Cluster {
                    vote_replies: self.vote_replies.insert(
                        (p, candidate, term, s.request_vote_reply(asked)),
                    ),
                    grants: if s.grants_vote(asked) && !self.grants.contains_key((p, term)) {
                        self.grants.insert((p, term), Grant { candidate, log: s.log })
                    } else {
                        self.grants
                    },
                    ..c
                }
            },
            Step::AppendEntries { args, .. } => {
                let reply = s.append_entries_reply(args);
                Cluster {
                    replies: self.replies.insert((p, args, reply)),
                    acks: if reply.success {
                        self.acks.union(
                            Set::new(
                                |a: (int, u64, int)|
                                    a.0 == p && a.1 == args.term
                                        && self.terms[args.term].base.len() <= a.2
                                        <= args.last_new_index(),
                            ),
                        )
                    } else {
                        self.acks
                    },
                    ..c
                }
            },
            Step::TimeOut { initial_role, .. } => if s.campaigns(initial_role) {
                Cluster {
                    elections: self.elections.update(p, Election { num_granted: 1, num_voted: 1 }),
                    stood: self.stood.update(p, t.current_term),
                    answers: self.answers.update(p, Map::empty()),
                    counted: self.counted.update(p, set![p]),
                    supporters: self.supporters.update(p, set![p]),
                    candidacies: self.candidacies.insert((p, t.current_term), s.log),
                    grants: self.grants.insert(
                        (p, t.current_term),
                        Grant { candidate: p, log: s.log },
                    ),
                    ..c
                }
            } else {
                c
            },
            Step::HearVote { voter, answer, .. } => match s.vote_result(self.stood[p], answer) {
                Some(result) => Cluster {
                    answers: self.answers.update(p, self.answers[p].insert(voter, result)),
                    ..c
                },
                None => c,
            },
            Step::CountVote { voter, result, .. } => {
                let supporters = self.supporters_with(p, voter, result);
                let d = Cluster {
                    elections: self.elections.update(
                        p,
                        self.elections[p].count(result, s.num_peers),
                    ),
                    counted: self.counted.update(p, self.counted[p].insert(voter)),
                    supporters: self.supporters.update(p, supporters),
                    ..c
                };
                if s.wins(self.elections[p], result) {
                    Cluster {
                        terms: self.terms.insert(
                            s.current_term,
                            Leadership { leader: p, voters: supporters, base: s.log, log: s.log },
                        ),
                        requests: self.requests.union(
                            Set::new(|r: (int, AppendRequest)| sends(t, r)),
                        ),
                        ..d
                    }
                } else {
                    d
                }
            },
            Step::LeaderTask { .. } => if s.still_leads() {
                Cluster {
                    requests: self.requests.union(Set::new(|r: (int, AppendRequest)| sends(t, r))),
                    agreed: if t.commit_index >= self.agreed.len() {
                        t.log.take(t.commit_index + 1)
                    } else {
                        self.agreed
                    },
                    ..c
                }
            } else {
                c
            },
            _ => c,
        }
    }

    /// A cluster of peers that have never run.
    pub open spec fn initial(num_peers: usize) -> Cluster {
        let log = seq![Entry { term: 0, command: Seq::empty() }];
        Cluster {
            peers: Seq::new(
                num_peers as nat,
                |p: int| RaftState::initial(num_peers, p as usize),
            ),
            elections: Seq::new(
                num_peers as nat,
                |p: int| Election { num_granted: 1, num_voted: 1 },
            ),
            stood: Seq::new(num_peers as nat, |p: int| 0u64),
            answers: Seq::new(num_peers as nat, |p: int| Map::<int, VoteResult>::empty()),
            counted: Seq::new(num_peers as nat, |p: int| Set::<int>::empty()),
            supporters: Seq::new(num_peers as nat, |p: int| Set::<int>::empty()),
            candidacies: Map::empty(),
            grants: Map::empty(),
            terms: Map::empty().insert(
                0,
                Leadership { leader: -1, voters: Set::empty(), base: Seq::empty(), log },
            ),
            vote_replies: Set::empty(),
            requests: Set::empty(),
            replies: Set::empty(),
            acks: Set::new(|a: (int, u64, int)| 0 <= a.0 < num_peers && a.1 == 0 && a.2 == 0),
            agreed: log,
        }
    }

    /// Whether `steps` can come one after the other, and every peer can handle what happens to
    /// it.
    pub open spec fn runs(self, steps: Seq<Step>) -> bool
        decreases steps.len(),
    {
        steps.len() == 0 || (self.enabled(steps[0]) && self.admitted(steps[0]) && self.after(
            steps[0],
        ).runs(steps.skip(1)))
    }

    /// Whether `steps` can come one after the other, all of them in time, and every peer can handle
    /// what happens to it.
    pub open spec fn runs_in_time(self, steps: Seq<Step>) -> bool
        decreases steps.len(),
    {
        steps.len() == 0 || (self.enabled(steps[0]) && self.admitted(steps[0]) && self.timely(
            steps[0],
        ) && self.after(steps[0]).runs_in_time(steps.skip(1)))
    }

    /// Whether `steps` can come one after the other, all of them promptly.
    pub open spec fn runs_promptly(self, steps: Seq<Step>) -> bool
        decreases steps.len(),
    {
        steps.len() == 0 || (self.enabled(steps[0]) && self.prompt(steps[0]) && self.after(
            steps[0],
        ).runs_promptly(steps.skip(1)))
    }

    /// The cluster after `steps`.
    pub open spec fn after_all(self, steps: Seq<Step>) -> Cluster
        decreases steps.len(),
    {
        if steps.len() == 0 {
            self
        } else {
            self.after(steps[0]).after_all(steps.skip(1))
        }
    }
}

} // verus!
