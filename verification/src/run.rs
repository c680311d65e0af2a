//! What a peer may go through, and what never changes on the way.
use vstd::prelude::*;

use crate::codec::{lemma_read_back, read_back, stored_bytes};
use crate::entry::{lemma_last_of_term, lemma_merged};
use crate::message::{
    AppendEntriesReply, AppendRequest, Delivery, RequestVoteArgs, RequestVoteReply, VoteResult,
};
use crate::state::{
    half_vote, lemma_committed_kept, lemma_new_commit_index, lemma_stuck_at, Election, RaftState,
    Role,
};

verus! {

/// Something that happens to a peer.
pub enum Event {
    /// The service hands it a command.
    Start { command: Seq<u8> },
    /// A candidate asks for its vote.
    RequestVote { ballot: RequestVoteArgs },
    /// A leader sends it entries.
    AppendEntries { args: AppendRequest },
    /// It hands what is committed to the service.
    CommitEntries,
    /// It has waited in a role for news of a leader.
    TimeOut { initial_role: Role },
    /// An answer to what it has asked as a candidate in `term` comes in, or fails to. It changes
    /// nothing before it is counted.
    HearVote { term: u64, answer: Option<RequestVoteReply> },
    /// It counts what it has made of an answer.
    CountVote { tally: Election, result: VoteResult },
    /// It goes through one round of leading.
    LeaderTask,
    /// A peer answers what it has sent.
    TakeReply { peer: usize, sent: AppendRequest, reply: AppendEntriesReply },
    /// It crashes, and starts again from what it has stored.
    Restart,
}

impl RaftState {
    /// Whether `e` can happen to a peer in this state.
    pub open spec fn admits(self, e: Event) -> bool {
        match e {
            Event::Start { command } => self.can_start(),
            Event::RequestVote { ballot } => true,
            Event::AppendEntries { args } => {
                &&& self.can_append(args)
                &&& self.append_entries(args).log.len() <= usize::MAX
            },
            Event::CommitEntries => true,
            Event::TimeOut { initial_role } => self.campaigns(initial_role) ==> self.current_term
                < u64::MAX,
            Event::HearVote { term, answer } => true,
            Event::CountVote { tally, result } => {
                &&& tally.open_among(self.num_peers)
                &&& self.wins(tally, result) ==> self.me < self.num_peers
            },
            Event::LeaderTask => self.still_leads() ==> self.can_broadcast(),
            Event::TakeReply { peer, sent, reply } => self.can_take_reply(peer, sent, reply),
            Event::Restart => true,
        }
    }

    /// The peer after `e`.
    pub open spec fn after(self, e: Event) -> RaftState {
        match e {
            Event::Start { command } => self.start(command),
            Event::RequestVote { ballot } => self.request_vote(ballot),
            Event::AppendEntries { args } => self.append_entries(args),
            Event::CommitEntries => self.commit_entries(),
            Event::TimeOut { initial_role } => self.time_out(initial_role),
            Event::HearVote { term, answer } => self,
            Event::CountVote { tally, result } => self.count_vote(tally, result),
            Event::LeaderTask => self.leader_task(),
            Event::TakeReply { peer, sent, reply } => self.take_reply(peer, sent, reply),
            Event::Restart => RaftState::initial(self.num_peers, self.me).restore(self.stored()),
        }
    }

    /// Whether `events` can happen to a peer in this state, one after the other.
    pub open spec fn admits_all(self, events: Seq<Event>) -> bool
        decreases events.len(),
    {
        events.len() == 0 || (self.admits(events[0]) && self.after(events[0]).admits_all(
            events.skip(1),
        ))
    }

    /// The peer after `events`.
    pub open spec fn after_all(self, events: Seq<Event>) -> RaftState
        decreases events.len(),
    {
        if events.len() == 0 {
            self
        } else {
            self.after(events[0]).after_all(events.skip(1))
        }
    }

    /// What the service is handed in the course of `events`.
    pub open spec fn delivered(self, events: Seq<Event>) -> Seq<Delivery>
        decreases events.len(),
    {
        if events.len() == 0 {
            Seq::empty()
        } else {
            let now = if events[0] is CommitEntries {
                self.applicable()
            } else {
                Seq::empty()
            };
            now + self.after(events[0]).delivered(events.skip(1))
        }
    }
}

/// Whether a peer goes through `events` without a crash.
pub open spec fn no_restart(events: Seq<Event>) -> bool {
    forall|i: int| 0 <= i < events.len() ==> !(#[trigger] events[i] is Restart)
}

/// Whatever happens to a peer, its invariant is kept, and it stays the same peer.
pub proof fn law_invariant_kept(s: RaftState, e: Event)
    requires
        s.inv(),
        s.admits(e),
    ensures
        s.after(e).inv(),
        s.after(e).me == s.me,
        s.after(e).num_peers == s.num_peers,
{
    match e {
        Event::AppendEntries { args } => {
            if s.accepts(args) {
                lemma_committed_kept(s, args);
                lemma_merged(s.log, args.prev_log_index + 1, args.entries);
                assert(args.last_new_index() < s.append_entries(args).log.len() <= usize::MAX);
            }
        },
        Event::CommitEntries => {
            lemma_stuck_at(s, s.last_applied + 1);
        },
        Event::LeaderTask => {
            lemma_new_commit_index(s, s.log.len() - 1);
        },
        Event::TakeReply { peer, sent, reply } => {
            if reply.xterm is Some {
                lemma_last_of_term(s.log, reply.xterm->0, s.log.len() as int);
            }
        },
        _ => {},
    }
}

/// The term of a peer never goes back.
pub proof fn law_term_never_goes_back(s: RaftState, e: Event)
    requires
        s.admits(e),
    ensures
        s.after(e).current_term >= s.current_term,
{
}

/// Within a term a peer does not take its vote back, nor give it to another candidate.
pub proof fn law_vote_kept_within_term(s: RaftState, e: Event)
    requires
        s.admits(e),
        s.voted_for is Some,
        s.after(e).current_term == s.current_term,
    ensures
        s.after(e).voted_for == s.voted_for,
{
}

/// Short of a crash, the commit index never goes back, what is committed stays as it is, what is
/// applied stays applied, and nothing is applied that is not committed.
pub proof fn law_committed_is_kept(s: RaftState, e: Event)
    requires
        s.inv(),
        s.admits(e),
        !(e is Restart),
    ensures
        s.after(e).commit_index >= s.commit_index,
        s.after(e).log.take(s.commit_index + 1) == s.log.take(s.commit_index + 1),
        s.last_applied <= s.after(e).last_applied <= s.after(e).commit_index,
{
    law_invariant_kept(s, e);
    match e {
        Event::Start { command } => {
            assert(s.start(command).log.take(s.commit_index + 1) =~= s.log.take(
                s.commit_index + 1,
            ));
        },
        Event::AppendEntries { args } => {
            if s.accepts(args) {
                lemma_committed_kept(s, args);
            }
        },
        Event::CommitEntries => {
            lemma_stuck_at(s, s.last_applied + 1);
        },
        Event::LeaderTask => {
            lemma_new_commit_index(s, s.log.len() - 1);
        },
        _ => {},
    }
}

/// Only what a leader sends replaces entries of a log; all else at most appends to it.
pub proof fn law_only_a_leader_replaces_entries(s: RaftState, e: Event)
    requires
        s.admits(e),
        !(e is AppendEntries),
    ensures
        s.after(e).log.len() >= s.log.len(),
        s.after(e).log.take(s.log.len() as int) == s.log,
{
    assert(s.after(e).log.take(s.log.len() as int) =~= s.log);
}

/// A peer comes to lead only as a candidate that has counted enough votes.
pub proof fn law_only_the_elected_lead(s: RaftState, e: Event)
    requires
        s.admits(e),
        !(s.role is Leader),
        s.after(e).role is Leader,
    ensures
        s.role is Candidate,
        e matches Event::CountVote { tally, result } && tally.count(
            result,
            s.num_peers,
        ).num_granted >= half_vote(s.num_peers),
{
}

/// What a run of events keeps: the invariant, the identity of the peer, and the order of terms.
pub proof fn law_run_keeps_invariant(s: RaftState, events: Seq<Event>)
    requires
        s.inv(),
        s.admits_all(events),
    ensures
        s.after_all(events).inv(),
        s.after_all(events).me == s.me,
        s.after_all(events).num_peers == s.num_peers,
        s.after_all(events).current_term >= s.current_term,
    decreases events.len(),
{
    if events.len() > 0 {
        law_invariant_kept(s, events[0]);
        law_term_never_goes_back(s, events[0]);
        law_run_keeps_invariant(s.after(events[0]), events.skip(1));
    }
}

/// A vote that was given in a term stands for as long as the term lasts, over crashes too.
pub proof fn law_run_keeps_vote(s: RaftState, events: Seq<Event>)
    requires
        s.inv(),
        s.admits_all(events),
        s.voted_for is Some,
        s.after_all(events).current_term == s.current_term,
    ensures
        s.after_all(events).voted_for == s.voted_for,
    decreases events.len(),
{
    if events.len() > 0 {
        law_invariant_kept(s, events[0]);
        law_term_never_goes_back(s, events[0]);
        law_run_keeps_invariant(s.after(events[0]), events.skip(1));
        law_vote_kept_within_term(s, events[0]);
        law_run_keeps_vote(s.after(events[0]), events.skip(1));
    }
}

/// A peer grants its vote to one candidate per term at most, whatever happens between two
/// requests.
pub proof fn law_one_vote_per_term(
    s: RaftState,
    first: RequestVoteArgs,
    events: Seq<Event>,
    second: RequestVoteArgs,
)
    requires
        s.inv(),
        s.grants_vote(first),
        s.request_vote(first).admits_all(events),
        s.request_vote(first).after_all(events).grants_vote(second),
        first.term == second.term,
    ensures
        first.candidate_id == second.candidate_id,
{
    let t = s.request_vote(first);
    law_invariant_kept(s, Event::RequestVote { ballot: first });
    law_run_keeps_invariant(t, events);
    law_run_keeps_vote(t, events);
}

/// Short of a crash, what was committed once is there, unchanged, ever after.
pub proof fn law_run_keeps_committed(s: RaftState, events: Seq<Event>)
    requires
        s.inv(),
        s.admits_all(events),
        no_restart(events),
    ensures
        s.after_all(events).commit_index >= s.commit_index,
        s.after_all(events).log.take(s.commit_index + 1) == s.log.take(s.commit_index + 1),
        s.after_all(events).last_applied >= s.last_applied,
    decreases events.len(),
{
    if events.len() > 0 {
        let e = events[0];
        let t = s.after(e);
        law_invariant_kept(s, e);
        law_committed_is_kept(s, e);
        assert(no_restart(events.skip(1)));
        law_run_keeps_committed(t, events.skip(1));
        let f = t.after_all(events.skip(1));
        law_run_keeps_invariant(t, events.skip(1));
        assert(f.log.take(s.commit_index + 1) =~= f.log.take(t.commit_index + 1).take(
            s.commit_index + 1,
        ));
        assert(t.log.take(s.commit_index + 1) =~= t.log.take(t.commit_index + 1).take(
            s.commit_index + 1,
        ));
    }
}

/// Short of a crash, the service is handed every command of the log that gets applied, once each,
/// in the order of the log, without a gap, and under the index at which it stands in the log for
/// good; provided that all of them are entries of the service.
pub proof fn law_commands_delivered_in_order(s: RaftState, events: Seq<Event>)
    requires
        s.inv(),
        s.admits_all(events),
        no_restart(events),
        forall|i: int|
            s.last_applied < i <= s.after_all(events).last_applied ==> (
            #[trigger] s.after_all(events).log[i]).command.len() >= 8,
    ensures
        s.delivered(events) == Seq::new(
            (s.after_all(events).last_applied - s.last_applied) as nat,
            |i: int|
                Delivery::Command {
                    data: s.after_all(events).log[s.last_applied + 1 + i].command,
                    index: (s.last_applied + 1 + i) as u64,
                },
        ),
    decreases events.len(),
{
    let f = s.after_all(events);
    let all = Seq::new(
        (f.last_applied - s.last_applied) as nat,
        |i: int|
            Delivery::Command {
                data: f.log[s.last_applied + 1 + i].command,
                index: (s.last_applied + 1 + i) as u64,
            },
    );
    if events.len() == 0 {
        assert(s.delivered(events) =~= all);
    } else {
        let e = events[0];
        let t = s.after(e);
        law_invariant_kept(s, e);
        law_committed_is_kept(s, e);
        assert(no_restart(events.skip(1)));
        law_run_keeps_committed(t, events.skip(1));
        law_run_keeps_committed(s, events);
        law_run_keeps_invariant(s, events);
        assert(f == t.after_all(events.skip(1)));
        assert forall|i: int| 0 <= i <= s.commit_index implies f.log[i] == s.log[i] by {
            assert(f.log.take(s.commit_index + 1)[i] == s.log.take(s.commit_index + 1)[i]);
        }
        law_commands_delivered_in_order(t, events.skip(1));
        if e is CommitEntries {
            lemma_stuck_at(s, s.last_applied + 1);
            if s.stuck_at(s.last_applied + 1) is Some {
                let i = s.stuck_at(s.last_applied + 1)->0;
                assert(f.log[i].command.len() >= 8);
            }
            assert(s.applicable().len() == t.last_applied - s.last_applied);
        } else {
            assert(t.last_applied == s.last_applied);
        }
        assert(s.delivered(events) =~= all);
    }
}

/// A peer that starts again finds its term, its vote and its log as it has stored them.
pub proof fn law_restart_recovers(s: RaftState, rest: Seq<u8>)
    requires
        s.inv(),
        s.stored().fits(),
    ensures
        read_back(stored_bytes(s.stored()) + rest) == Some(s.stored()),
        s.after(Event::Restart).stored() == s.stored(),
        s.after(Event::Restart).inv(),
{
    let bytes = stored_bytes(s.stored()) + rest;
    assert(bytes.take(stored_bytes(s.stored()).len() as int) =~= stored_bytes(s.stored()));
    lemma_read_back(bytes, s.stored());
}

} // verus!
