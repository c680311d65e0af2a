//! Every step of a cluster keeps what holds of it however late answers come.
use vstd::prelude::*;
use vstd::set_lib::set_int_range;

use crate::agreement::{sends, Cluster, Step};
use crate::cluster::{law_new_leader_can_broadcast, law_two_quorums_meet, terms_in_order};
use crate::entry::Entry;
use crate::history::{carried, lemma_append, lemma_rooted_grows};
use crate::message::{AppendRequest, RequestVoteReply, VoteResult};
use crate::run::{law_invariant_kept, law_term_never_goes_back, law_vote_kept_within_term};
use crate::state::{half_vote, RaftState};

verus! {

/// The state of the peer to which `step` happens, after it.
pub open spec fn moved(c: Cluster, step: Step) -> RaftState {
    c.peers[step.peer()].after(c.event(step))
}

/// A peer that wins an election is the first to win one in its term, and has enough votes.
pub proof fn lemma_win(c: Cluster, p: int, voter: int, result: VoteResult)
    requires
        c.inv_lines(),
        c.enabled(Step::CountVote { p, voter, result }),
        c.peers[p].wins(c.elections[p], result),
    ensures
        !c.terms.contains_key(c.peers[p].current_term),
        ({
            let t = c.peers[p].current_term;
            let voters = c.supporters_with(p, voter, result);
            &&& t > 0
            &&& voters.subset_of(set_int_range(0, c.num_peers()))
            &&& voters.len() >= half_vote(c.num_peers() as usize)
            &&& forall|v: int| #[trigger] voters.contains(v) ==> c.given(v, t, p)
            &&& c.candidacies.contains_key((p, t))
            &&& c.peers[p].log == c.candidacies[(p, t)]
        }),
{
    let s = c.peers[p];
    let t = s.current_term;
    assert(s.inv());
    assert(c.candidate_ok(p));
    assert(c.candidacy_ok(p, t));
    let voters = c.supporters_with(p, voter, result);
    assert(c.answer_ok(p, voter));
    assert forall|v: int| #[trigger] voters.contains(v) implies c.given(v, t, p) && 0 <= v
        < c.num_peers() by {
        assert(c.supporters[p].contains(v) || v == voter);
        assert(c.given(v, t, p));
        assert(c.grant_ok(v, t));
    }
    assert(voters.subset_of(set_int_range(0, c.num_peers())));
    if c.terms.contains_key(t) {
        assert(c.elected_ok(t));
        let l = c.terms[t];
        law_two_quorums_meet(c.num_peers() as usize, voters, l.voters);
        let v = choose|i: int|
            0 <= i < c.num_peers() && #[trigger] voters.contains(i) && l.voters.contains(i);
        assert(c.given(v, t, p) && c.given(v, t, l.leader));
        assert(false);
    }
}

/// A step takes nothing back.
pub proof fn lemma_grows(c: Cluster, step: Step)
    requires
        c.inv_lines(),
        c.enabled(step),
        c.admitted(step),
    ensures
        c.grows_to(c.after(step)),
        c.after(step).inv_shape(),
        moved(c, step).current_term >= c.peers[step.peer()].current_term,
{
    let d = c.after(step);
    let p = step.peer();
    let s = c.peers[p];
    assert(s.inv());
    law_invariant_kept(s, c.event(step));
    law_term_never_goes_back(s, c.event(step));
    match step {
        Step::CountVote { voter, result, .. } => {
            if s.wins(c.elections[p], result) {
                lemma_win(c, p, voter, result);
            }
        },
        Step::Start { .. } => {
            assert(c.leader_ok(p));
        },
        Step::TimeOut { .. } => {
            lemma_new_term(c, p);
        },
        _ => {},
    }
    assert forall|t: u64| #[trigger] c.terms.contains_key(t) implies c.term_grows_to(d, t) by {
        assert(c.line(t).take(c.line(t).len() as int) =~= c.line(t));
        match step {
            Step::Start { command, .. } => {
                if s.role is Leader && t == s.current_term {
                    assert(d.line(t).take(c.line(t).len() as int) =~= c.line(t));
                }
            },
            _ => {},
        }
    }
}

/// A candidate has not voted, nor stood, in its new term before.
proof fn lemma_new_term(c: Cluster, p: int)
    requires
        c.inv_lines(),
        0 <= p < c.num_peers(),
    ensures
        forall|t: u64|
            t > c.peers[p].current_term ==> !(#[trigger] c.grants.contains_key((p, t))),
        forall|t: u64|
            t > c.peers[p].current_term ==> !(#[trigger] c.candidacies.contains_key((p, t))),
{
    assert forall|t: u64| t > c.peers[p].current_term implies !(#[trigger] c.grants.contains_key(
        (p, t),
    )) by {
        if c.grants.contains_key((p, t)) {
            assert(c.grant_ok(p, t));
        }
    }
    assert forall|t: u64| t > c.peers[p].current_term implies !(
    #[trigger] c.candidacies.contains_key((p, t))) by {
        if c.candidacies.contains_key((p, t)) {
            assert(c.candidacy_ok(p, t));
        }
    }
}

/// What a later log goes on from is rooted if that is.
proof fn lemma_rooted_prefix(c: Cluster, log: Seq<Entry>, k: int)
    requires
        c.rooted(log),
        0 < k <= log.len(),
    ensures
        c.rooted(log.take(k)),
{
    let head = log.take(k);
    assert forall|i: int| 0 <= i < head.len() implies c.rooted_at(
        head,
        #[trigger] head[i].term,
        i,
    ) by {
        assert(c.rooted_at(log, log[i].term, i));
        assert(head.take(i + 1) =~= log.take(i + 1));
    }
}

/// A term in which nothing changes stays in order.
proof fn lemma_term_unmoved(c: Cluster, d: Cluster, t: u64)
    requires
        c.grows_to(d),
        c.terms.contains_key(t),
        c.term_ok(t),
        d.terms[t] == c.terms[t],
    ensures
        d.term_ok(t),
{
    lemma_rooted_grows(c, d, c.line(t));
}

/// The term of a leader that takes a command in stays in order.
proof fn lemma_term_starts(c: Cluster, d: Cluster, s: RaftState, command: Seq<u8>)
    requires
        c.grows_to(d),
        c.terms.contains_key(s.current_term),
        c.term_ok(s.current_term),
        s.role is Leader,
        s.log == c.line(s.current_term),
        d.line(s.current_term) == s.start(command).log,
    ensures
        d.term_ok(s.current_term),
{
    let t = s.current_term;
    let line = d.line(t);
    assert(c.term_grows_to(d, t));
    lemma_rooted_grows(c, d, s.log);
    assert(line == s.log.push(Entry { term: t, command }));
    assert forall|i: int| 0 <= i < line.len() implies d.rooted_at(
        line,
        #[trigger] line[i].term,
        i,
    ) by {
        if i < s.log.len() {
            assert(d.rooted_at(s.log, s.log[i].term, i));
            assert(s.log.take(i + 1) =~= line.take(i + 1));
        }
    }
    assert(line.take(d.base(t).len() as int) =~= s.log.take(d.base(t).len() as int));
}

/// The term of a peer that has just won is in order.
proof fn lemma_term_won(c: Cluster, d: Cluster, p: int)
    requires
        c.inv_shape(),
        c.grows_to(d),
        0 <= p < c.num_peers(),
        c.candidacy_ok(p, c.peers[p].current_term),
        c.peers[p].log == c.candidacies[(p, c.peers[p].current_term)],
        d.terms.contains_key(c.peers[p].current_term),
        d.line(c.peers[p].current_term) == c.peers[p].log,
        d.base(c.peers[p].current_term) == c.peers[p].log,
        terms_in_order(c.peers[p].log, c.peers[p].current_term),
    ensures
        d.term_ok(c.peers[p].current_term),
{
    let s = c.peers[p];
    lemma_rooted_grows(c, d, s.log);
    assert(s.log.take(s.log.len() as int) =~= s.log);
}

/// A step keeps `inv_terms`.
pub proof fn lemma_keeps_terms(c: Cluster, step: Step)
    requires
        c.inv_lines(),
        c.enabled(step),
        c.admitted(step),
    ensures
        c.after(step).inv_terms(),
{
    let d = c.after(step);
    let p = step.peer();
    let s = c.peers[p];
    lemma_grows(c, step);
    assert(s.inv());
    assert(c.leader_ok(p));
    assert(c.term_grows_to(d, 0));
    match step {
        Step::Start { command, .. } => {
            if s.role is Leader {
                assert(c.term_ok(s.current_term));
                lemma_term_starts(c, d, s, command);
            }
        },
        Step::CountVote { voter, result, .. } => {
            if s.wins(c.elections[p], result) {
                lemma_win(c, p, voter, result);
                assert(c.candidacy_ok(p, s.current_term));
                lemma_term_won(c, d, p);
            }
        },
        _ => {},
    }
    assert forall|t: u64| #[trigger] d.terms.contains_key(t) implies d.term_ok(t) by {
        if c.terms.contains_key(t) && d.terms[t] == c.terms[t] {
            assert(c.term_ok(t));
            lemma_term_unmoved(c, d, t);
        } else {
            assert(t == s.current_term);
        }
    }
}

/// A step keeps `inv_logs`.
pub proof fn lemma_keeps_logs(c: Cluster, step: Step)
    requires
        c.inv_lines(),
        c.enabled(step),
        c.admitted(step),
    ensures
        c.after(step).inv_logs(),
{
    let d = c.after(step);
    let p = step.peer();
    let s = c.peers[p];
    let m = moved(c, step);
    lemma_grows(c, step);
    lemma_keeps_terms(c, step);
    assert(s.inv());
    assert forall|q: int| 0 <= q < d.num_peers() implies {
        &&& d.rooted((#[trigger] d.peers[q]).log)
        &&& terms_in_order(d.peers[q].log, d.peers[q].current_term)
    } by {
        assert(c.rooted(c.peers[q].log));
        lemma_rooted_grows(c, d, c.peers[q].log);
        if q == p {
            match step {
                Step::Start { .. } => {
                    assert(c.leader_ok(p));
                    if s.role is Leader {
                        assert(d.terms.contains_key(s.current_term));
                        assert(d.term_ok(s.current_term));
                    }
                },
                Step::AppendEntries { args, .. } => {
                    assert(c.request_ok(p, args));
                    assert(c.term_ok(args.term));
                    if s.accepts(args) && m.log != s.log {
                        lemma_append(c, p, args);
                        lemma_rooted_prefix(c, c.line(args.term), args.last_new_index() + 1);
                        lemma_rooted_grows(c, d, carried(c, args));
                    }
                },
                _ => {
                    assert(m.log == s.log);
                },
            }
        }
    }
}

/// What happens to a peer leaves all other leaders in order.
proof fn lemma_leader_left_alone(c: Cluster, step: Step, q: int)
    requires
        c.inv_lines(),
        c.enabled(step),
        0 <= q < c.num_peers(),
        q != step.peer(),
    ensures
        c.after(step).leader_ok(q),
{
    let p = step.peer();
    let s = c.peers[p];
    assert(c.leader_ok(q));
    assert(c.leader_ok(p));
    match step {
        Step::CountVote { voter, result, .. } => {
            if s.wins(c.elections[p], result) {
                lemma_win(c, p, voter, result);
            }
        },
        _ => {},
    }
}

/// A peer that leads after a step is the one that was elected in its term.
proof fn lemma_leader_moved(c: Cluster, step: Step)
    requires
        c.inv_lines(),
        c.enabled(step),
    ensures
        c.after(step).leader_ok(step.peer()),
{
    let p = step.peer();
    let s = c.peers[p];
    let m = moved(c, step);
    assert(c.leader_ok(p));
    match step {
        Step::CountVote { voter, result, .. } => {
            if s.wins(c.elections[p], result) {
                lemma_win(c, p, voter, result);
            }
        },
        Step::AppendEntries { args, .. } => {
            // No leader sends to itself, and it is the only one in its term.
            assert(c.request_ok(p, args));
        },
        Step::Start { .. } => {},
        _ => {
            assert(m.log == s.log);
        },
    }
}

/// A step keeps `inv_leaders`.
pub proof fn lemma_keeps_leaders(c: Cluster, step: Step)
    requires
        c.inv_lines(),
        c.enabled(step),
    ensures
        c.after(step).inv_leaders(),
{
    let d = c.after(step);
    let p = step.peer();
    assert(d.num_peers() == c.num_peers());
    assert forall|q: int| 0 <= q < d.num_peers() implies #[trigger] d.leader_ok(q) by {
        if q == p {
            lemma_leader_moved(c, step);
        } else {
            lemma_leader_left_alone(c, step, q);
        }
    }
}

/// A step keeps `inv_candidates`.
pub proof fn lemma_keeps_candidates(c: Cluster, step: Step)
    requires
        c.inv_lines(),
        c.enabled(step),
        c.admitted(step),
    ensures
        c.after(step).inv_candidates(),
{
    let d = c.after(step);
    let p = step.peer();
    let s = c.peers[p];
    lemma_grows(c, step);
    assert(s.inv());
    assert forall|q: int| 0 <= q < d.num_peers() implies #[trigger] d.candidate_ok(q) by {
        assert(c.candidate_ok(q));
        assert(c.peers[q].inv());
        let t = d.peers[q].current_term;
        if d.peers[q].role is Candidate {
            match step {
                Step::TimeOut { .. } => {
                    lemma_new_term(c, p);
                    assert(set![p].len() == 1);
                },
                Step::CountVote { voter, .. } => {
                    assert(c.answer_ok(p, voter));
                },
                _ => {},
            }
            assert forall|v: int| #[trigger] d.supporters[q].contains(v) implies d.given(
                v,
                t,
                q,
            ) by {
                if c.peers[q].role is Candidate && t == c.peers[q].current_term
                    && c.supporters[q].contains(v) {
                    assert(c.given(v, t, q));
                }
            }
        }
    }
}

/// A step keeps `inv_votes`.
pub proof fn lemma_keeps_votes(c: Cluster, step: Step)
    requires
        c.inv_lines(),
        c.enabled(step),
        c.admitted(step),
    ensures
        c.after(step).inv_votes(),
{
    let d = c.after(step);
    let p = step.peer();
    let s = c.peers[p];
    lemma_grows(c, step);
    assert forall|v: int, q: int, t: u64, r: RequestVoteReply| #[trigger]
        d.vote_replies.contains((v, q, t, r)) implies d.vote_reply_ok(v, q, t, r) by {
        if c.vote_replies.contains((v, q, t, r)) {
            assert(c.vote_reply_ok(v, q, t, r));
        } else {
            assert(c.candidacy_ok(q, t));
            if c.grants.contains_key((p, t)) {
                assert(c.grant_ok(p, t));
            }
        }
    }
    assert forall|q: int, v: int|
        0 <= q < d.num_peers() && #[trigger] d.answers[q].contains_key(v) implies d.answer_ok(
        q,
        v,
    ) by {
        if c.answers[q].contains_key(v) {
            assert(c.answer_ok(q, v));
        } else {
            match step {
                Step::HearVote { voter, answer: Some(r), .. } => {
                    assert(c.vote_reply_ok(voter, p, c.stood[p], r));
                },
                _ => {},
            }
        }
    }
}

/// A step keeps `inv_candidacies`.
pub proof fn lemma_keeps_candidacies(c: Cluster, step: Step)
    requires
        c.inv_lines(),
        c.enabled(step),
        c.admitted(step),
    ensures
        c.after(step).inv_candidacies(),
{
    let d = c.after(step);
    let p = step.peer();
    let s = c.peers[p];
    lemma_grows(c, step);
    assert(s.inv());
    assert forall|q: int, t: u64| #[trigger]
        d.candidacies.contains_key((q, t)) implies d.candidacy_ok(q, t) by {
        if c.candidacies.contains_key((q, t)) {
            assert(c.candidacy_ok(q, t));
            lemma_rooted_grows(c, d, c.candidacies[(q, t)]);
        } else {
            lemma_rooted_grows(c, d, s.log);
            assert(terms_in_order(s.log, s.current_term));
        }
    }
}

/// A step keeps `inv_grants`.
pub proof fn lemma_keeps_grants(c: Cluster, step: Step)
    requires
        c.inv_lines(),
        c.enabled(step),
        c.admitted(step),
    ensures
        c.after(step).inv_grants(),
{
    let d = c.after(step);
    let p = step.peer();
    let s = c.peers[p];
    let m = moved(c, step);
    lemma_grows(c, step);
    assert(s.inv());
    assert forall|v: int, t: u64| #[trigger] d.grants.contains_key((v, t)) implies d.grant_ok(
        v,
        t,
    ) by {
        if c.grants.contains_key((v, t)) {
            assert(c.grant_ok(v, t));
            let g = c.grants[(v, t)];
            lemma_rooted_grows(c, d, g.log);
            match step {
                Step::TimeOut { initial_role, .. } => {
                    assert(c.candidacy_ok(g.candidate, t));
                },
                _ => {},
            }
            assert(d.grants[(v, t)] == g);
            assert(d.candidacies[(g.candidate, t)] == c.candidacies[(g.candidate, t)]);
            if v == p && m.current_term == t {
                law_vote_kept_within_term(s, c.event(step));
            }
        } else {
            lemma_rooted_grows(c, d, s.log);
            match step {
                Step::RequestVote { candidate, term, .. } => {
                    assert(c.candidacy_ok(candidate, term));
                },
                _ => {},
            }
        }
    }
}

/// A step keeps `inv_elected`.
pub proof fn lemma_keeps_elected(c: Cluster, step: Step)
    requires
        c.inv_lines(),
        c.enabled(step),
        c.admitted(step),
    ensures
        c.after(step).inv_elected(),
{
    let d = c.after(step);
    let p = step.peer();
    let s = c.peers[p];
    let m = moved(c, step);
    lemma_grows(c, step);
    assert(s.inv());
    assert forall|t: u64| #[trigger] d.terms.contains_key(t) implies d.elected_ok(t) by {
        if c.terms.contains_key(t) {
            assert(c.elected_ok(t));
            assert(c.term_grows_to(d, t));
            let l = c.terms[t];
            if t > 0 {
                assert(c.candidacy_ok(l.leader, t));
                assert(d.candidacies.contains_key((l.leader, t)));
                assert(d.candidacies[(l.leader, t)] == c.candidacies[(l.leader, t)]);
                assert forall|v: int| #[trigger] d.terms[t].voters.contains(v) implies d.given(
                    v,
                    t,
                    l.leader,
                ) by {
                    assert(c.given(v, t, l.leader));
                }
                if l.leader == p && m.current_term == t {
                    assert(s.current_term == t);
                    assert(!(s.role is Candidate));
                    assert(!(m.role is Candidate));
                }
            }
        } else {
            match step {
                Step::CountVote { voter, result, .. } => {
                    lemma_win(c, p, voter, result);
                    let voters = c.supporters_with(p, voter, result);
                    assert forall|v: int| #[trigger] d.terms[t].voters.contains(v) implies d.given(
                        v,
                        t,
                        p,
                    ) by {
                        assert(voters.contains(v));
                    }
                },
                Step::Start { .. } => {
                    assert(c.leader_ok(p));
                },
                _ => {},
            }
        }
    }
}

/// What a leader sends is a piece of its log when it does so.
proof fn lemma_new_request(d: Cluster, p: int, r: (int, AppendRequest))
    requires
        d.inv_shape(),
        d.inv_terms(),
        0 <= p < d.num_peers(),
        d.leader_ok(p),
        d.peers[p].role is Leader,
        d.peers[p].can_broadcast(),
        sends(d.peers[p], r),
    ensures
        d.request_ok(r.0, r.1),
{
    let s = d.peers[p];
    assert(s.inv());
    assert(d.term_ok(s.current_term));
    let next = s.next_index[r.0] as int;
    assert(1 <= next <= s.log.len());
    assert(s.log.skip(next) =~= s.log.subrange(next, s.log.len() as int));
}

/// What a leader has sent stays a piece of its log.
proof fn lemma_request_kept(c: Cluster, d: Cluster, to: int, a: AppendRequest)
    requires
        c.grows_to(d),
        c.request_ok(to, a),
        c.term_ok(a.term),
    ensures
        d.request_ok(to, a),
{
    let k = a.last_new_index() + 1;
    assert(c.term_grows_to(d, a.term));
    let old_line = c.line(a.term);
    let line = d.line(a.term);
    let len = old_line.len() as int;
    assert(line[a.prev_log_index as int] == line.take(len)[a.prev_log_index as int]);
    assert(line.subrange(a.prev_log_index + 1, k) =~= old_line.subrange(a.prev_log_index + 1, k));
}

/// A step keeps `inv_requests`.
pub proof fn lemma_keeps_requests(c: Cluster, step: Step)
    requires
        c.inv_lines(),
        c.enabled(step),
        c.admitted(step),
    ensures
        c.after(step).inv_requests(),
{
    let d = c.after(step);
    let p = step.peer();
    let s = c.peers[p];
    lemma_grows(c, step);
    lemma_keeps_terms(c, step);
    lemma_keeps_leaders(c, step);
    assert(s.inv());
    assert(d.leader_ok(p));
    assert forall|to: int, a: AppendRequest| #[trigger] d.requests.contains(
        (to, a),
    ) implies d.request_ok(to, a) by {
        if c.requests.contains((to, a)) {
            assert(c.request_ok(to, a));
            assert(c.term_ok(a.term));
            lemma_request_kept(c, d, to, a);
        } else {
            if step is CountVote {
                law_new_leader_can_broadcast(s, Seq::empty());
            }
            lemma_new_request(d, p, (to, a));
        }
    }
}

} // verus!
