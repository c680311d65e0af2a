//! What a cluster promises, whatever happens to it.
//!
//! All of it is for clusters of an odd number of peers: in one of an even number, two halves
//! would each be enough to elect a leader. Who leads, which logs match, and where a command that
//! was taken in appears, does not depend on when answers come in. What is committed does: there a
//! leader must take no success that answers what it has sent in an earlier term. A refusal that
//! comes as late does no harm to that, but may leave a leader without anything to send.
use vstd::prelude::*;
use vstd::set_lib::{lemma_int_range, set_int_range};

use crate::agreement::{Cluster, Step};
use crate::cluster::{law_first_position_is_accepted, law_refusal_steps_back, logs_match};
use crate::durability::{
    lemma_agreed_grows, lemma_keeps_acks, lemma_keeps_commit, lemma_keeps_promises,
    lemma_keeps_replies,
};
use crate::entry::Entry;
use crate::history::{lemma_covered_is_held, lemma_first_entry, lemma_rooted_match};
use crate::knowledge::{lemma_admitted, lemma_keeps_knowledge, lemma_keeps_ready};
use crate::message::{RequestVoteReply, VoteResult};
use crate::preservation::{
    lemma_grows, lemma_keeps_candidacies, lemma_keeps_candidates, lemma_keeps_elected,
    lemma_keeps_grants, lemma_keeps_leaders, lemma_keeps_logs, lemma_keeps_requests,
    lemma_keeps_terms, lemma_keeps_votes,
};

verus! {

/// A cluster of peers that have never run is in order.
pub proof fn law_cluster_starts_in_order(num_peers: usize)
    requires
        num_peers < usize::MAX,
        num_peers % 2 == 1,
    ensures
        Cluster::initial(num_peers).inv(),
        Cluster::initial(num_peers).inv_ready(),
{
    let c = Cluster::initial(num_peers);
    let log = c.line(0);
    assert(c.rooted(log)) by {
        assert forall|i: int| 0 <= i < log.len() implies c.rooted_at(
            log,
            #[trigger] log[i].term,
            i,
        ) by {}
    }
    assert(log.take(0) =~= Seq::empty());
    assert(c.ackers(0, 0) =~= set_int_range(0, num_peers as int));
    lemma_int_range(0, num_peers as int);
    assert(c.chosen(0, 0));
    assert(c.covers(log, 0, 0, 0, 0));
    assert(c.covers(c.agreed, c.agreed.len() - 1, u64::MAX, 0, 0));
    assert(c.inv_shape());
    assert(c.inv_terms());
    assert(c.inv_logs());
    assert(c.inv_acks()) by {
        assert forall|v: int, t: u64, j: int| #[trigger] c.acks.contains((v, t, j)) implies c.ack_ok(
            v,
            t,
            j,
        ) by {
            assert(c.peers[v].log =~= log);
        }
    }
    assert forall|p: int| 0 <= p < c.num_peers() implies #[trigger] c.commit_ok(p) by {
        assert(c.peers[p].log == log);
    }
}

/// Whatever happens next, and however late, who has led and where the logs come from stays in
/// order.
pub proof fn law_lines_stay_in_order(c: Cluster, step: Step)
    requires
        c.inv_lines(),
        c.enabled(step),
        c.admitted(step),
    ensures
        c.after(step).inv_lines(),
{
    lemma_grows(c, step);
    lemma_keeps_terms(c, step);
    lemma_keeps_logs(c, step);
    lemma_keeps_leaders(c, step);
    lemma_keeps_candidates(c, step);
    lemma_keeps_candidacies(c, step);
    lemma_keeps_grants(c, step);
    lemma_keeps_votes(c, step);
    lemma_keeps_elected(c, step);
    lemma_keeps_requests(c, step);
}

/// Whatever happens next in time, a cluster that is in order stays so.
pub proof fn law_cluster_stays_in_order(c: Cluster, step: Step)
    requires
        c.inv(),
        c.enabled(step),
        c.admitted(step),
        c.timely(step),
    ensures
        c.after(step).inv(),
{
    law_lines_stay_in_order(c, step);
    lemma_keeps_knowledge(c, step);
    lemma_keeps_replies(c, step);
    lemma_keeps_acks(c, step);
    lemma_keeps_commit(c, step);
    lemma_keeps_promises(c, step);
}

/// Whatever happens next and promptly finds its peer ready, and the next step will do so too.
pub proof fn law_cluster_stays_ready(c: Cluster, step: Step)
    requires
        c.inv(),
        c.inv_ready(),
        c.enabled(step),
        c.prompt(step),
    ensures
        c.admitted(step),
        c.after(step).inv(),
        c.after(step).inv_ready(),
{
    lemma_admitted(c, step);
    law_cluster_stays_in_order(c, step);
    lemma_keeps_ready(c, step);
}

/// In the long run too, and however late answers come, who has led and where the logs come from
/// stays in order, and a term keeps its leader, whose log only grows.
pub proof fn law_leaders_are_not_taken_back(c: Cluster, steps: Seq<Step>)
    requires
        c.inv_lines(),
        c.runs(steps),
    ensures
        c.after_all(steps).inv_lines(),
        c.after_all(steps).num_peers() == c.num_peers(),
        forall|t: u64| #[trigger]
            c.terms.contains_key(t) ==> c.term_grows_to(c.after_all(steps), t),
    decreases steps.len(),
{
    if steps.len() == 0 {
        assert forall|t: u64| #[trigger] c.terms.contains_key(t) implies c.term_grows_to(c, t) by {
            assert(c.line(t).take(c.line(t).len() as int) =~= c.line(t));
        }
    } else {
        let d = c.after(steps[0]);
        let f = d.after_all(steps.skip(1));
        law_lines_stay_in_order(c, steps[0]);
        lemma_grows(c, steps[0]);
        law_leaders_are_not_taken_back(d, steps.skip(1));
        assert forall|t: u64| #[trigger] c.terms.contains_key(t) implies c.term_grows_to(f, t) by {
            assert(c.term_grows_to(d, t));
            assert(d.term_grows_to(f, t));
            assert(f.line(t).take(c.line(t).len() as int) =~= f.line(t).take(
                d.line(t).len() as int,
            ).take(c.line(t).len() as int));
        }
    }
}

/// A cluster that is in order stays so in the long run, and what was agreed on is not taken back.
pub proof fn law_agreement_is_not_taken_back(c: Cluster, steps: Seq<Step>)
    requires
        c.inv(),
        c.runs_in_time(steps),
    ensures
        c.runs(steps),
        c.after_all(steps).inv(),
        c.after_all(steps).num_peers() == c.num_peers(),
        c.agreed.len() <= c.after_all(steps).agreed.len(),
        c.after_all(steps).agreed.take(c.agreed.len() as int) == c.agreed,
    decreases steps.len(),
{
    if steps.len() == 0 {
        assert(c.agreed.take(c.agreed.len() as int) =~= c.agreed);
    } else {
        let d = c.after(steps[0]);
        let f = d.after_all(steps.skip(1));
        law_cluster_stays_in_order(c, steps[0]);
        lemma_agreed_grows(c, steps[0]);
        law_agreement_is_not_taken_back(d, steps.skip(1));
        assert(f.agreed.take(c.agreed.len() as int) =~= f.agreed.take(d.agreed.len() as int).take(
            c.agreed.len() as int,
        ));
    }
}

/// Where all answers come promptly, every peer can handle whatever happens to it, in the long run
/// too.
pub proof fn law_prompt_runs_are_handled(c: Cluster, steps: Seq<Step>)
    requires
        c.inv(),
        c.inv_ready(),
        c.runs_promptly(steps),
    ensures
        c.runs_in_time(steps),
        c.runs(steps),
        c.after_all(steps).inv(),
        c.after_all(steps).inv_ready(),
        c.after_all(steps).num_peers() == c.num_peers(),
    decreases steps.len(),
{
    if steps.len() > 0 {
        law_cluster_stays_ready(c, steps[0]);
        law_prompt_runs_are_handled(c.after(steps[0]), steps.skip(1));
    }
}

/// Where all answers come promptly, nothing that a peer could not handle ever reaches it: no
/// committed entry is replaced, no commit index goes back, no answer is of no use, no leader takes
/// another log to be longer than its own.
pub proof fn law_nothing_unmanageable_happens(num_peers: usize, steps: Seq<Step>, step: Step)
    requires
        num_peers < usize::MAX,
        num_peers % 2 == 1,
        Cluster::initial(num_peers).runs_promptly(steps),
        Cluster::initial(num_peers).after_all(steps).enabled(step),
    ensures
        Cluster::initial(num_peers).runs_in_time(steps),
        Cluster::initial(num_peers).runs(steps),
        Cluster::initial(num_peers).after_all(steps).admitted(step),
        ({
            let s = Cluster::initial(num_peers).after_all(steps).peers[step.peer()];
            s.inv() && (s.role is Leader ==> s.can_broadcast())
        }),
{
    let c = Cluster::initial(num_peers).after_all(steps);
    law_cluster_starts_in_order(num_peers);
    law_prompt_runs_are_handled(Cluster::initial(num_peers), steps);
    lemma_admitted(c, step);
}

/// Where only successes come in time, nothing but a leader's own round can be beyond a peer: then
/// the leader takes another log to be longer than its own.
pub proof fn law_only_a_round_is_unmanageable(num_peers: usize, steps: Seq<Step>, step: Step)
    requires
        num_peers < usize::MAX,
        num_peers % 2 == 1,
        Cluster::initial(num_peers).runs_in_time(steps),
        Cluster::initial(num_peers).after_all(steps).enabled(step),
    ensures
        ({
            let c = Cluster::initial(num_peers).after_all(steps);
            let s = c.peers[step.peer()];
            c.admitted(step) || (step is LeaderTask && s.still_leads() && !s.can_broadcast())
        }),
{
    let c = Cluster::initial(num_peers).after_all(steps);
    law_cluster_starts_in_order(num_peers);
    law_agreement_is_not_taken_back(Cluster::initial(num_peers), steps);
    if !(step is LeaderTask && c.peers[step.peer()].still_leads()) {
        lemma_admitted(c, step);
    }
}

/// A vote that a candidate is about to count was given to it, in the term in which it stands, and
/// it has not counted it before.
pub proof fn law_counted_vote_was_given(num_peers: usize, steps: Seq<Step>, p: int, voter: int)
    requires
        num_peers < usize::MAX,
        num_peers % 2 == 1,
        Cluster::initial(num_peers).runs(steps),
        Cluster::initial(num_peers).after_all(steps).enabled(
            Step::CountVote { p, voter, result: VoteResult::Granted },
        ),
    ensures
        ({
            let c = Cluster::initial(num_peers).after_all(steps);
            &&& c.given(voter, c.stood[p], p)
            &&& c.peers[p].role is Candidate ==> {
                &&& c.stood[p] == c.peers[p].current_term
                &&& !c.supporters[p].contains(voter)
            }
        }),
{
    let c = Cluster::initial(num_peers).after_all(steps);
    law_cluster_starts_in_order(num_peers);
    law_leaders_are_not_taken_back(Cluster::initial(num_peers), steps);
    assert(c.answer_ok(p, voter));
    assert(c.candidate_ok(p));
}

/// A candidate whose log goes on from that of a peer it asks gets its vote, however far ahead it
/// is; if it stands in a later term than that peer has seen, or in the same one and that peer has
/// given no vote in it.
pub proof fn law_candidate_that_is_ahead_gets_the_vote(
    num_peers: usize,
    steps: Seq<Step>,
    p: int,
    candidate: int,
    term: u64,
)
    requires
        num_peers < usize::MAX,
        num_peers % 2 == 1,
        Cluster::initial(num_peers).runs(steps),
        ({
            let c = Cluster::initial(num_peers).after_all(steps);
            let s = c.peers[p];
            let log = c.candidacies[(candidate, term)];
            &&& c.enabled(Step::RequestVote { p, candidate, term })
            &&& s.current_term < term || (s.current_term == term && s.voted_for is None)
            &&& s.log.len() <= log.len()
            &&& log.take(s.log.len() as int) == s.log
        }),
    ensures
        ({
            let c = Cluster::initial(num_peers).after_all(steps);
            let d = c.after(Step::RequestVote { p, candidate, term });
            let reply = RequestVoteReply { term, vote_granted: true };
            &&& d.given(p, term, candidate)
            &&& d.vote_replies.contains((p, candidate, term, reply))
            &&& d.peers[p].voted_for == Some(candidate as usize)
        }),
{
    let c = Cluster::initial(num_peers).after_all(steps);
    let s = c.peers[p];
    let log = c.candidacies[(candidate, term)];
    law_cluster_starts_in_order(num_peers);
    law_leaders_are_not_taken_back(Cluster::initial(num_peers), steps);
    assert(s.inv());
    assert(c.candidacy_ok(candidate, term));
    if c.grants.contains_key((p, term)) {
        assert(c.grant_ok(p, term));
    }
    // The terms of the candidate's log are in order, as those of the leader it comes from.
    let last = log.len() - 1;
    let n = s.log.len() - 1;
    let line = c.line(log[last].term);
    assert(c.rooted_at(log, log[last].term, last));
    assert(c.term_ok(log[last].term));
    assert(log[last] == log.take(last + 1)[last] && line[last] == line.take(last + 1)[last]);
    assert(log[n] == log.take(last + 1)[n] && line[n] == line.take(last + 1)[n]);
    assert(line[n].term <= line[last].term);
    assert(s.log[n] == log.take(s.log.len() as int)[n]);
    assert(s.log.last() == s.log[n] && log.last() == log[last]);
}

/// There is one leader per term at most: where `p` leads at some time, and `q` leads at that time
/// or later and in the same term, they are the same peer.
pub proof fn law_one_leader_per_term(
    num_peers: usize,
    steps: Seq<Step>,
    more: Seq<Step>,
    p: int,
    q: int,
)
    requires
        num_peers < usize::MAX,
        num_peers % 2 == 1,
        Cluster::initial(num_peers).runs(steps),
        Cluster::initial(num_peers).after_all(steps).runs(more),
        0 <= p < num_peers,
        0 <= q < num_peers,
        Cluster::initial(num_peers).after_all(steps).peers[p].role is Leader,
        Cluster::initial(num_peers).after_all(steps).after_all(more).peers[q].role is Leader,
        Cluster::initial(num_peers).after_all(steps).peers[p].current_term == Cluster::initial(
            num_peers,
        ).after_all(steps).after_all(more).peers[q].current_term,
    ensures
        p == q,
{
    let c = Cluster::initial(num_peers).after_all(steps);
    law_cluster_starts_in_order(num_peers);
    law_leaders_are_not_taken_back(Cluster::initial(num_peers), steps);
    law_leaders_are_not_taken_back(c, more);
    assert(c.leader_ok(p));
    assert(c.after_all(more).leader_ok(q));
    assert(c.terms.contains_key(c.peers[p].current_term));
}

/// Two logs that hold an entry of the same term at the same position are the same up to it.
pub proof fn law_logs_match(num_peers: usize, steps: Seq<Step>, p: int, q: int)
    requires
        num_peers < usize::MAX,
        num_peers % 2 == 1,
        Cluster::initial(num_peers).runs(steps),
        0 <= p < num_peers,
        0 <= q < num_peers,
    ensures
        ({
            let c = Cluster::initial(num_peers).after_all(steps);
            logs_match(c.peers[p].log, c.peers[q].log)
        }),
{
    let c = Cluster::initial(num_peers).after_all(steps);
    law_cluster_starts_in_order(num_peers);
    law_leaders_are_not_taken_back(Cluster::initial(num_peers), steps);
    assert(c.rooted(c.peers[p].log));
    assert(c.rooted(c.peers[q].log));
    lemma_rooted_match(c, c.peers[p].log, c.peers[q].log);
}

/// A command that a leader has taken in appears at the index that it was given, if it appears at
/// all: where, at that time or later, the log of any peer holds an entry of the leader's term at
/// that index, it is the command, and all before it is as the leader had it.
pub proof fn law_started_command_keeps_its_index(
    num_peers: usize,
    steps: Seq<Step>,
    more: Seq<Step>,
    leader: int,
    command: Seq<u8>,
    q: int,
)
    requires
        num_peers < usize::MAX,
        num_peers % 2 == 1,
        Cluster::initial(num_peers).runs(steps),
        ({
            let c = Cluster::initial(num_peers).after_all(steps);
            let start = Step::Start { p: leader, command };
            let s = c.peers[leader];
            let t = c.after(start).after_all(more).peers[q];
            &&& c.enabled(start)
            &&& s.role is Leader
            &&& c.after(start).runs(more)
            &&& 0 <= q < num_peers
            &&& t.log.len() > s.log.len()
            &&& t.log[s.log.len() as int].term == s.current_term
        }),
    ensures
        ({
            let c = Cluster::initial(num_peers).after_all(steps);
            let start = Step::Start { p: leader, command };
            let s = c.peers[leader];
            let t = c.after(start).after_all(more).peers[q];
            &&& t.log[s.log.len() as int] == (Entry { term: s.current_term, command })
            &&& t.log.take(s.log.len() as int) == s.log
        }),
{
    let c = Cluster::initial(num_peers).after_all(steps);
    let start = Step::Start { p: leader, command };
    let d = c.after(start);
    let f = d.after_all(more);
    let s = c.peers[leader];
    let log = f.peers[q].log;
    let i = s.log.len() as int;
    let term = s.current_term;
    law_cluster_starts_in_order(num_peers);
    law_leaders_are_not_taken_back(Cluster::initial(num_peers), steps);
    law_lines_stay_in_order(c, start);
    law_leaders_are_not_taken_back(d, more);
    assert(c.leader_ok(leader));
    assert(d.terms.contains_key(term));
    assert(d.line(term) == s.start(command).log);
    assert(d.term_grows_to(f, term));
    assert(f.rooted(f.peers[q].log));
    assert(f.rooted_at(log, log[i].term, i));
    assert(log.take(i + 1) == d.line(term));
    assert(log[i] == log.take(i + 1)[i]);
    assert(log.take(i) =~= log.take(i + 1).take(i));
    assert(d.line(term).take(i) =~= s.log);
}

/// A leader that a follower refuses goes back: it next tries a lower position. It cannot go back
/// for ever, so at some position it is accepted. A leader that has come to take the other log to
/// be longer than its own has nothing to send there, and is left out.
pub proof fn law_refused_leader_steps_back(
    num_peers: usize,
    steps: Seq<Step>,
    leader: int,
    follower: int,
)
    requires
        num_peers < usize::MAX,
        num_peers % 2 == 1,
        Cluster::initial(num_peers).runs(steps),
        0 <= leader < num_peers,
        0 <= follower < num_peers,
        leader != follower,
        ({
            let c = Cluster::initial(num_peers).after_all(steps);
            let s = c.peers[leader];
            &&& s.role is Leader
            &&& s.next_index[follower] <= s.log.len()
            &&& c.peers[follower].current_term <= s.current_term
            &&& !c.peers[follower].accepts(s.append_request(s.next_index[follower] as int))
        }),
    ensures
        ({
            let c = Cluster::initial(num_peers).after_all(steps);
            let s = c.peers[leader];
            let sent = s.append_request(s.next_index[follower] as int);
            let reply = c.peers[follower].append_entries_reply(sent);
            1 <= s.take_reply(follower as usize, sent, reply).next_index[follower]
                < s.next_index[follower]
        }),
{
    let c = Cluster::initial(num_peers).after_all(steps);
    let s = c.peers[leader];
    let f = c.peers[follower];
    let next = s.next_index[follower] as int;
    law_cluster_starts_in_order(num_peers);
    law_leaders_are_not_taken_back(Cluster::initial(num_peers), steps);
    assert(s.inv() && f.inv());
    assert(c.leader_ok(leader));
    assert(c.rooted(s.log) && c.rooted(f.log));
    lemma_first_entry(c, s.log);
    lemma_first_entry(c, f.log);
    if next == 1 {
        law_first_position_is_accepted(s, f);
    }
    if next - 1 < f.log.len() {
        let term = f.log[next - 1].term;
        // The term in the way had one leader, and the two logs part before its entries.
        assert forall|j: int| next <= j < s.log.len() implies (#[trigger] s.log[j]).term != term by {
            if s.log[j].term == term {
                assert(c.rooted_at(s.log, s.log[j].term, j));
                assert(c.rooted_at(f.log, f.log[next - 1].term, next - 1));
                assert(s.log[next - 1] == s.log.take(j + 1)[next - 1]);
                assert(f.log[next - 1] == f.log.take(next)[next - 1]);
                assert(c.line(term)[next - 1] == c.line(term).take(j + 1)[next - 1]);
                assert(c.line(term)[next - 1] == c.line(term).take(next)[next - 1]);
            }
        }
    }
    law_refusal_steps_back(s, f, follower as usize, next);
}

/// A leader holds whatever a peer that is in no later term counts as committed.
pub proof fn law_leader_holds_what_is_committed(
    num_peers: usize,
    steps: Seq<Step>,
    leader: int,
    p: int,
)
    requires
        num_peers < usize::MAX,
        num_peers % 2 == 1,
        Cluster::initial(num_peers).runs_in_time(steps),
        0 <= leader < num_peers,
        0 <= p < num_peers,
        ({
            let c = Cluster::initial(num_peers).after_all(steps);
            &&& c.peers[leader].role is Leader
            &&& c.peers[p].current_term <= c.peers[leader].current_term
        }),
    ensures
        ({
            let c = Cluster::initial(num_peers).after_all(steps);
            let k = c.peers[p].commit_index + 1;
            &&& c.peers[leader].log.len() >= k
            &&& c.peers[leader].log.take(k) == c.peers[p].log.take(k)
        }),
{
    let c = Cluster::initial(num_peers).after_all(steps);
    let s = c.peers[p];
    law_cluster_starts_in_order(num_peers);
    law_agreement_is_not_taken_back(Cluster::initial(num_peers), steps);
    assert(c.leader_ok(leader));
    assert(c.commit_ok(p));
    lemma_covered_is_held(
        c,
        s.log,
        s.commit_index as int,
        s.current_term,
        c.peers[leader].current_term,
    );
}

/// No two peers ever disagree on what is committed: where `p` counts a position as committed at
/// some time, and `q` counts it as committed at that time or later, over crashes too, they hold
/// the same entries up to it. What they apply there is the same, for nothing is applied before it
/// is committed.
pub proof fn law_committed_logs_agree(
    num_peers: usize,
    steps: Seq<Step>,
    more: Seq<Step>,
    p: int,
    q: int,
    k: int,
)
    requires
        num_peers < usize::MAX,
        num_peers % 2 == 1,
        Cluster::initial(num_peers).runs_in_time(steps),
        Cluster::initial(num_peers).after_all(steps).runs_in_time(more),
        0 <= p < num_peers,
        0 <= q < num_peers,
        0 <= k <= Cluster::initial(num_peers).after_all(steps).peers[p].commit_index,
        k <= Cluster::initial(num_peers).after_all(steps).after_all(more).peers[q].commit_index,
    ensures
        ({
            let s = Cluster::initial(num_peers).after_all(steps).peers[p];
            let t = Cluster::initial(num_peers).after_all(steps).after_all(more).peers[q];
            &&& s.log.take(k + 1) == t.log.take(k + 1)
            &&& s.last_applied <= s.commit_index
            &&& t.last_applied <= t.commit_index
        }),
{
    let c = Cluster::initial(num_peers).after_all(steps);
    let d = c.after_all(more);
    let s = c.peers[p];
    let t = d.peers[q];
    law_cluster_starts_in_order(num_peers);
    law_agreement_is_not_taken_back(Cluster::initial(num_peers), steps);
    law_agreement_is_not_taken_back(c, more);
    assert(c.commit_ok(p) && s.inv());
    assert(d.commit_ok(q) && t.inv());
    assert(s.log.take(k + 1) =~= s.log.take(s.commit_index + 1).take(k + 1));
    assert(t.log.take(k + 1) =~= t.log.take(t.commit_index + 1).take(k + 1));
    assert(c.agreed.take(k + 1) =~= c.agreed.take(s.commit_index + 1).take(k + 1));
    assert(d.agreed.take(k + 1) =~= d.agreed.take(t.commit_index + 1).take(k + 1));
    assert(c.agreed.take(k + 1) =~= d.agreed.take(c.agreed.len() as int).take(k + 1));
}

} // verus!
