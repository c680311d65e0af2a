//! What holds of a cluster at any time.
use vstd::prelude::*;
use vstd::set_lib::{lemma_int_range, lemma_len_subset, lemma_set_subset_finite, set_int_range};

use crate::agreement::Cluster;
use crate::cluster::{
    law_accepted_log_is_the_leaders, law_two_quorums_meet, logs_match, terms_in_order,
};
use crate::entry::{lemma_matched, matched, Entry};
use crate::message::{AppendEntriesReply, AppendRequest, RequestVoteReply};
use crate::state::{half_vote, RaftState, Role};

verus! {

/// Whether a log that ends in `a` is not behind one that ends in `b`.
pub open spec fn up_to_date(a: Seq<Entry>, b: Seq<Entry>) -> bool {
    a.last().term > b.last().term || (a.last().term == b.last().term && a.len() >= b.len())
}

impl Cluster {
    /// The log of the leader of a term.
    pub open spec fn line(self, term: u64) -> Seq<Entry> {
        self.terms[term].log
    }

    /// The log of the leader of a term when it was elected.
    pub open spec fn base(self, term: u64) -> Seq<Entry> {
        self.terms[term].base
    }

    /// Whether every entry of `log`, with all before it, comes from the leader of its term.
    pub open spec fn rooted(self, log: Seq<Entry>) -> bool {
        &&& log.len() > 0
        &&& forall|i: int| 0 <= i < log.len() ==> self.rooted_at(log, #[trigger] log[i].term, i)
    }

    /// Whether the leader of `term` has had what `log` holds up to position `i`.
    pub open spec fn rooted_at(self, log: Seq<Entry>, term: u64, i: int) -> bool {
        &&& self.terms.contains_key(term)
        &&& i < self.line(term).len()
        &&& self.line(term).take(i + 1) == log.take(i + 1)
    }

    /// Whether `log` holds what the leader of `term` had up to position `n`.
    pub open spec fn holds(self, log: Seq<Entry>, term: u64, n: int) -> bool {
        log.len() > n && log.take(n + 1) == self.line(term).take(n + 1)
    }

    /// Whether a peer was elected, after `term` and before `bound`, that did not hold what the
    /// leader of `term` had up to position `n`.
    pub open spec fn lost(self, term: u64, n: int, bound: int) -> bool {
        exists|u: u64|
            #[trigger] self.terms.contains_key(u) && term < u < bound && !self.holds(
                self.base(u),
                term,
                n,
            )
    }

    /// The peers that have told the leader of `term` that they hold its entry at `n`.
    pub open spec fn ackers(self, term: u64, n: int) -> Set<int> {
        Set::new(|v: int| 0 <= v < self.num_peers() && self.acks.contains((v, term, n)))
    }

    /// Whether enough peers have told the leader of `term` that they hold its own entry at `n`.
    pub open spec fn chosen(self, term: u64, n: int) -> bool {
        &&& self.terms.contains_key(term)
        &&& 0 <= n < self.line(term).len()
        &&& self.line(term)[n].term == term
        &&& self.ackers(term, n).len() >= half_vote(self.num_peers() as usize)
    }

    /// Whether `log` up to position `k` is part of something that was chosen up to `term`.
    pub open spec fn covered(self, log: Seq<Entry>, k: int, term: u64) -> bool {
        exists|t: u64, n: int| #[trigger] self.covers(log, k, term, t, n)
    }

    /// Whether what was chosen in term `t` up to `n` covers `log` up to position `k`.
    pub open spec fn covers(self, log: Seq<Entry>, k: int, term: u64, t: u64, n: int) -> bool {
        &&& self.chosen(t, n)
        &&& t <= term
        &&& k <= n
        &&& k < log.len()
        &&& log.take(k + 1) == self.line(t).take(k + 1)
    }

    /// Whether `voter` has given its vote in `term` to `candidate`.
    pub open spec fn given(self, voter: int, term: u64, candidate: int) -> bool {
        &&& self.grants.contains_key((voter, term))
        &&& self.grants[(voter, term)].candidate == candidate
    }

    /// Whether `d` comes later: no leader has lost an entry, and nothing said is taken back.
    pub open spec fn grows_to(self, d: Cluster) -> bool {
        &&& d.num_peers() == self.num_peers()
        &&& forall|t: u64| #[trigger] self.terms.contains_key(t) ==> self.term_grows_to(d, t)
        &&& self.acks.subset_of(d.acks)
        &&& forall|v: int, t: u64| #[trigger] self.grants.contains_key((v, t)) ==> {
            &&& d.grants.contains_key((v, t))
            &&& d.grants[(v, t)] == self.grants[(v, t)]
        }
    }

    /// Whether `d` has the same leader in term `t`, and its log goes on from what it was.
    pub open spec fn term_grows_to(self, d: Cluster, t: u64) -> bool {
        &&& d.terms.contains_key(t)
        &&& d.terms[t].leader == self.terms[t].leader
        &&& d.terms[t].voters == self.terms[t].voters
        &&& d.base(t) == self.base(t)
        &&& self.line(t).len() <= d.line(t).len()
        &&& d.line(t).take(self.line(t).len() as int) == self.line(t)
    }

    /// There are as many peers as each peer believes, an odd number, and each is in order.
    pub open spec fn inv_shape(self) -> bool {
        &&& self.num_peers() < usize::MAX
        &&& self.num_peers() % 2 == 1
        &&& self.elections.len() == self.num_peers()
        &&& self.stood.len() == self.num_peers()
        &&& self.answers.len() == self.num_peers()
        &&& self.counted.len() == self.num_peers()
        &&& self.supporters.len() == self.num_peers()
        &&& forall|p: int|
            0 <= p < self.num_peers() ==> {
                &&& (#[trigger] self.peers[p]).inv()
                &&& self.peers[p].me == p
                &&& self.peers[p].num_peers == self.num_peers()
            }
    }

    /// The log of the leader of a term goes on from what it was at the election, by entries of its
    /// own term, and its terms are in order.
    pub open spec fn term_ok(self, t: u64) -> bool {
        let line = self.line(t);
        let base = self.base(t);
        &&& self.rooted(line)
        &&& terms_in_order(line, t)
        &&& base.len() <= line.len()
        &&& line.take(base.len() as int) == base
        &&& forall|i: int| base.len() <= i < line.len() ==> (#[trigger] line[i]).term == t
        &&& t > 0 ==> base.len() > 0
        &&& forall|i: int| 0 <= i < base.len() ==> (#[trigger] base[i]).term < t
    }

    /// All terms with a leader are in order; the zeroth stands for what was there from the first.
    pub open spec fn inv_terms(self) -> bool {
        &&& self.terms.contains_key(0)
        &&& self.base(0).len() == 0
        &&& self.line(0).len() == 1
        &&& forall|t: u64| #[trigger] self.terms.contains_key(t) ==> self.term_ok(t)
    }

    /// The log of every peer comes from leaders, and its terms are in order.
    pub open spec fn inv_logs(self) -> bool {
        forall|p: int|
            0 <= p < self.num_peers() ==> {
                &&& self.rooted((#[trigger] self.peers[p]).log)
                &&& terms_in_order(self.peers[p].log, self.peers[p].current_term)
            }
    }

    /// A leader is the one that was elected in its term.
    pub open spec fn leader_ok(self, p: int) -> bool {
        let s = self.peers[p];
        let t = s.current_term;
        s.role is Leader ==> {
            &&& t > 0
            &&& self.terms.contains_key(t)
            &&& self.terms[t].leader == p
            &&& s.log == self.line(t)
        }
    }

    /// All leaders are in order.
    pub open spec fn inv_leaders(self) -> bool {
        forall|p: int| 0 <= p < self.num_peers() ==> #[trigger] self.leader_ok(p)
    }

    /// A candidate has its log still, unless it has heard of a leader, stands in its own term, and
    /// has counted real votes, each of them once.
    pub open spec fn candidate_ok(self, p: int) -> bool {
        let s = self.peers[p];
        let t = s.current_term;
        s.role is Candidate ==> {
            &&& self.candidacies.contains_key((p, t))
            &&& !s.received_valid_rpc ==> s.log == self.candidacies[(p, t)]
            &&& self.stood[p] == t
            &&& self.supporters[p].finite()
            &&& self.supporters[p].len() == self.elections[p].num_granted
            &&& self.supporters[p].subset_of(self.counted[p])
            &&& forall|v: int| #[trigger] self.supporters[p].contains(v) ==> self.given(v, t, p)
        }
    }

    /// All candidates are in order.
    pub open spec fn inv_candidates(self) -> bool {
        forall|p: int| 0 <= p < self.num_peers() ==> #[trigger] self.candidate_ok(p)
    }

    /// A peer has stood for election in `t` with a log of earlier terms.
    pub open spec fn candidacy_ok(self, p: int, t: u64) -> bool {
        let log = self.candidacies[(p, t)];
        &&& 0 <= p < self.num_peers()
        &&& t > 0
        &&& self.peers[p].current_term >= t
        &&& self.rooted(log)
        &&& log.len() <= usize::MAX
        &&& forall|i: int| 0 <= i < log.len() ==> (#[trigger] log[i]).term < t
    }

    /// All candidacies are in order.
    pub open spec fn inv_candidacies(self) -> bool {
        forall|p: int, t: u64| #[trigger] self.candidacies.contains_key((p, t))
            ==> self.candidacy_ok(p, t)
    }

    /// A vote went to a candidate whose log was not behind, and is remembered as long as its term
    /// lasts.
    pub open spec fn grant_ok(self, v: int, t: u64) -> bool {
        let g = self.grants[(v, t)];
        &&& 0 <= v < self.num_peers()
        &&& 0 <= g.candidate < self.num_peers()
        &&& self.peers[v].current_term >= t
        &&& self.peers[v].current_term == t ==> self.peers[v].voted_for == Some(
            g.candidate as usize,
        )
        &&& self.candidacies.contains_key((g.candidate, t))
        &&& up_to_date(self.candidacies[(g.candidate, t)], g.log)
        &&& self.rooted(g.log)
    }

    /// All votes are in order.
    pub open spec fn inv_grants(self) -> bool {
        forall|v: int, t: u64| #[trigger] self.grants.contains_key((v, t)) ==> self.grant_ok(v, t)
    }

    /// A peer that has said so has given its vote.
    pub open spec fn vote_reply_ok(self, v: int, q: int, t: u64, r: RequestVoteReply) -> bool {
        r.vote_granted ==> self.given(v, t, q)
    }

    /// What a candidate takes for a vote was given to it, in the term in which it stands.
    pub open spec fn answer_ok(self, p: int, v: int) -> bool {
        self.answers[p][v] is Granted ==> self.given(v, self.stood[p], p)
    }

    /// All answers to candidates are in order, and what they make of them.
    pub open spec fn inv_votes(self) -> bool {
        &&& forall|v: int, q: int, t: u64, r: RequestVoteReply| #[trigger]
            self.vote_replies.contains((v, q, t, r)) ==> self.vote_reply_ok(v, q, t, r)
        &&& forall|p: int, v: int|
            0 <= p < self.num_peers() && #[trigger] self.answers[p].contains_key(v)
                ==> self.answer_ok(p, v)
    }

    /// The leader of a term has stood in it, and enough peers have voted for it.
    pub open spec fn elected_ok(self, t: u64) -> bool {
        let l = self.terms[t];
        t > 0 ==> {
            &&& 0 <= l.leader < self.num_peers()
            &&& self.candidacies.contains_key((l.leader, t))
            &&& l.base == self.candidacies[(l.leader, t)]
            &&& l.voters.subset_of(set_int_range(0, self.num_peers()))
            &&& l.voters.len() >= half_vote(self.num_peers() as usize)
            &&& forall|v: int| #[trigger] l.voters.contains(v) ==> self.given(v, t, l.leader)
            &&& self.peers[l.leader].current_term == t ==> !(self.peers[l.leader].role is Candidate)
        }
    }

    /// All leaders were elected.
    pub open spec fn inv_elected(self) -> bool {
        forall|t: u64| #[trigger] self.terms.contains_key(t) ==> self.elected_ok(t)
    }

    /// What a leader has sent is a piece of its log.
    pub open spec fn request_ok(self, to: int, a: AppendRequest) -> bool {
        let line = self.line(a.term);
        let k = a.last_new_index() + 1;
        &&& 0 <= to < self.num_peers()
        &&& a.term > 0
        &&& self.terms.contains_key(a.term)
        &&& a.leader_id == self.terms[a.term].leader
        &&& to != a.leader_id
        &&& self.base(a.term).len() <= k <= line.len()
        &&& k <= usize::MAX
        &&& a.prev_log_term == line[a.prev_log_index as int].term
        &&& a.entries == line.subrange(a.prev_log_index + 1, k)
        &&& a.leader_commit < k
    }

    /// All requests are in order.
    pub open spec fn inv_requests(self) -> bool {
        forall|to: int, a: AppendRequest| #[trigger] self.requests.contains((to, a))
            ==> self.request_ok(to, a)
    }

    /// What holds of a cluster at any time, however late answers come: who has led, and where the
    /// logs come from.
    pub open spec fn inv_lines(self) -> bool {
        &&& self.inv_shape()
        &&& self.inv_terms()
        &&& self.inv_logs()
        &&& self.inv_leaders()
        &&& self.inv_candidates()
        &&& self.inv_candidacies()
        &&& self.inv_grants()
        &&& self.inv_votes()
        &&& self.inv_elected()
        &&& self.inv_requests()
    }

    /// What a leader knows of other logs was told to it.
    pub open spec fn knowledge_ok(self, p: int) -> bool {
        let s = self.peers[p];
        let t = s.current_term;
        s.role is Leader ==> {
            &&& s.match_index[p] == s.log.len() - 1
            &&& forall|i: int, n: int|
                0 <= i < self.num_peers() && self.base(t).len() <= n <= s.match_index[i]
                    ==> #[trigger] self.acks.contains((i, t, n))
        }
    }

    /// All that leaders know is in order.
    pub open spec fn inv_knowledge(self) -> bool {
        forall|p: int| 0 <= p < self.num_peers() ==> #[trigger] self.knowledge_ok(p)
    }

    /// What a leader has called committed is covered, and is what was agreed on.
    pub open spec fn promise_ok(self, a: AppendRequest) -> bool {
        let line = self.line(a.term);
        &&& self.covered(line, a.leader_commit as int, a.term)
        &&& a.leader_commit < self.agreed.len()
        &&& line.take(a.leader_commit + 1) == self.agreed.take(a.leader_commit + 1)
    }

    /// All that leaders have called committed is in order.
    pub open spec fn inv_promises(self) -> bool {
        forall|to: int, a: AppendRequest| #[trigger] self.requests.contains((to, a))
            ==> self.promise_ok(a)
    }

    /// A success acknowledges all that was sent, and a refusal says where to go on.
    pub open spec fn reply_ok(self, f: int, a: AppendRequest, r: AppendEntriesReply) -> bool {
        &&& self.requests.contains((f, a))
        &&& r.success ==> r.term == a.term
        &&& r.success ==> forall|j: int|
            self.base(a.term).len() <= j <= a.last_new_index() ==> #[trigger] self.acks.contains(
                (f, a.term, j),
            )
        &&& !r.success && r.term == a.term ==> (r.xindex matches Some(x) && x
            <= a.prev_log_index)
    }

    /// All answers are in order.
    pub open spec fn inv_replies(self) -> bool {
        forall|f: int, a: AppendRequest, r: AppendEntriesReply| #[trigger]
            self.replies.contains((f, a, r)) ==> self.reply_ok(f, a, r)
    }

    /// A peer that has acknowledged an entry of the leader of `t` holds it, and held it whenever it
    /// has voted later; unless a later leader was elected that did not hold it.
    pub open spec fn ack_ok(self, v: int, t: u64, j: int) -> bool {
        &&& 0 <= v < self.num_peers()
        &&& self.terms.contains_key(t)
        &&& self.base(t).len() <= j < self.line(t).len()
        &&& self.peers[v].current_term >= t
        &&& self.holds(self.peers[v].log, t, j) || self.lost(
            t,
            j,
            self.peers[v].current_term + 1,
        )
        &&& forall|u: u64| #[trigger] self.grants.contains_key((v, u)) && u > t && (
        !self.terms.contains_key(u) || self.terms[u].voters.contains(v)) ==> self.holds(
            self.grants[(v, u)].log,
            t,
            j,
        ) || self.lost(t, j, u as int)
    }

    /// All acknowledgements are in order.
    pub open spec fn inv_acks(self) -> bool {
        forall|v: int, t: u64, j: int| #[trigger] self.acks.contains((v, t, j)) ==> self.ack_ok(
            v,
            t,
            j,
        )
    }

    /// What a peer counts as committed is covered, and is what was agreed on.
    pub open spec fn commit_ok(self, p: int) -> bool {
        let s = self.peers[p];
        &&& self.covered(s.log, s.commit_index as int, s.current_term)
        &&& s.commit_index < self.agreed.len()
        &&& s.log.take(s.commit_index + 1) == self.agreed.take(s.commit_index + 1)
    }

    /// All that is counted as committed is in order.
    pub open spec fn inv_commit(self) -> bool {
        &&& self.chosen(0, 0)
        &&& self.agreed.len() > 0
        &&& self.covered(self.agreed, self.agreed.len() - 1, u64::MAX)
        &&& forall|p: int| 0 <= p < self.num_peers() ==> #[trigger] self.commit_ok(p)
    }

    /// The part of what holds of a cluster on which it rests that what was chosen stays.
    pub open spec fn inv_choices(self) -> bool {
        &&& self.inv_shape()
        &&& self.inv_terms()
        &&& self.inv_candidacies()
        &&& self.inv_grants()
        &&& self.inv_elected()
        &&& self.inv_acks()
    }

    /// What holds of a cluster at any time, if successes come in time.
    pub open spec fn inv(self) -> bool {
        &&& self.inv_lines()
        &&& self.inv_knowledge()
        &&& self.inv_promises()
        &&& self.inv_replies()
        &&& self.inv_acks()
        &&& self.inv_commit()
    }

    /// No leader takes another log to be longer than its own.
    pub open spec fn inv_ready(self) -> bool {
        forall|p: int|
            0 <= p < self.num_peers() && (#[trigger] self.peers[p]).role is Leader
                ==> self.peers[p].can_broadcast()
    }
}

/// Two logs whose entries come from the leaders of their terms match.
pub proof fn lemma_rooted_match(c: Cluster, a: Seq<Entry>, b: Seq<Entry>)
    requires
        c.rooted(a),
        c.rooted(b),
    ensures
        logs_match(a, b),
{
    assert forall|i: int|
        0 <= i < a.len() && i < b.len() && (#[trigger] a[i]).term == (
        #[trigger] b[i]).term implies a.take(i + 1) == b.take(i + 1) by {
        assert(c.rooted_at(a, a[i].term, i));
        assert(c.rooted_at(b, b[i].term, i));
    }
}

/// A log whose entries come from the leaders of their terms starts with what was there from the
/// first.
pub proof fn lemma_first_entry(c: Cluster, log: Seq<Entry>)
    requires
        c.inv_terms(),
        c.rooted(log),
    ensures
        log[0] == c.line(0)[0],
{
    let t = log[0].term;
    let base = c.base(t);
    assert(c.rooted_at(log, t, 0));
    assert(c.term_ok(t));
    assert(log[0] == log.take(1)[0]);
    assert(c.line(t)[0] == c.line(t).take(1)[0]);
    if t > 0 {
        assert(c.line(t)[0] == c.line(t).take(base.len() as int)[0]);
        assert(base[0].term < t);
    }
}

/// What was chosen is held by the leader of every later term, from its election on.
pub proof fn lemma_leader_completeness(c: Cluster, t: u64, n: int, u: u64)
    requires
        c.inv_choices(),
        c.chosen(t, n),
        c.terms.contains_key(u),
        t < u,
    ensures
        c.holds(c.base(u), t, n),
        c.holds(c.line(u), t, n),
    decreases u,
{
    // Every leader in between holds it.
    assert forall|w: u64| #[trigger] c.terms.contains_key(w) && t < w < u implies c.holds(
        c.base(w),
        t,
        n,
    ) by {
        lemma_leader_completeness(c, t, n, w);
    }
    assert(!c.lost(t, n, u as int));
    assert(c.elected_ok(u));
    assert(c.term_ok(u));
    assert(c.term_ok(t));
    let num = c.num_peers() as usize;
    let leader = c.terms[u].leader;
    let clog = c.candidacies[(leader, u)];
    // Some peer has told the leader of `t` that it holds it, and has voted for the leader of `u`.
    law_two_quorums_meet(num, c.ackers(t, n), c.terms[u].voters);
    let v = choose|i: int|
        0 <= i < num && #[trigger] c.ackers(t, n).contains(i) && c.terms[u].voters.contains(i);
    assert(c.acks.contains((v, t, n)));
    assert(c.ack_ok(v, t, n));
    assert(c.grants.contains_key((v, u)));
    let vlog = c.grants[(v, u)].log;
    assert(c.holds(vlog, t, n));
    assert(c.grant_ok(v, u));
    assert(c.candidacy_ok(leader, u));
    assert(up_to_date(clog, vlog));
    // Its last entry is of term `t` or later.
    let vt = vlog.last().term;
    let ct = clog.last().term;
    assert(vlog[n] == vlog.take(n + 1)[n]);
    assert(c.line(t)[n] == c.line(t).take(n + 1)[n]);
    assert(vlog[n].term == t);
    assert(c.rooted_at(vlog, vt, vlog.len() - 1));
    assert(c.rooted_at(clog, ct, clog.len() - 1));
    assert(vlog.take(vlog.len() as int) =~= vlog);
    assert(clog.take(clog.len() as int) =~= clog);
    assert(c.term_ok(vt));
    assert(c.line(vt)[n] == c.line(vt).take(vlog.len() as int)[n]);
    assert(c.line(vt)[vlog.len() - 1] == c.line(vt).take(vlog.len() as int)[vlog.len() - 1]);
    assert(t <= vt);
    assert(c.holds(clog, t, n)) by {
        if ct > vt {
            lemma_leader_completeness(c, t, n, ct);
            assert(c.term_ok(ct));
            let i = clog.len() - 1;
            assert(c.line(ct)[i] == c.line(ct).take(i + 1)[i]);
            assert(c.line(ct)[n] == c.line(ct).take(n + 1)[n]);
            assert(i > n) by {
                if i <= n {
                    assert(c.line(ct)[i].term <= c.line(ct)[n].term);
                }
            }
            assert(clog.take(n + 1) =~= c.line(ct).take(i + 1).take(n + 1));
            assert(c.line(ct).take(n + 1) =~= c.line(ct).take(i + 1).take(n + 1));
        } else {
            assert(vlog.take(n + 1) =~= c.line(vt).take(vlog.len() as int).take(n + 1));
            assert(clog.take(n + 1) =~= c.line(vt).take(clog.len() as int).take(n + 1));
            assert(c.line(vt).take(n + 1) =~= c.line(vt).take(vlog.len() as int).take(n + 1));
            assert(c.line(vt).take(n + 1) =~= c.line(vt).take(clog.len() as int).take(n + 1));
        }
    }
    assert(c.line(u).take(n + 1) =~= c.base(u).take(n + 1)) by {
        assert(c.base(u) == c.line(u).take(c.base(u).len() as int));
    }
}

/// A leader has lost no entry.
proof fn lemma_line_grows(c: Cluster, d: Cluster, t: u64, k: int)
    requires
        c.grows_to(d),
        c.terms.contains_key(t),
        0 <= k <= c.line(t).len(),
    ensures
        d.line(t).take(k) == c.line(t).take(k),
{
    assert(c.term_grows_to(d, t));
    assert(d.line(t).take(k) =~= d.line(t).take(c.line(t).len() as int).take(k));
}

/// A log that comes from leaders goes on to do so.
pub proof fn lemma_rooted_grows(c: Cluster, d: Cluster, log: Seq<Entry>)
    requires
        c.grows_to(d),
        c.rooted(log),
    ensures
        d.rooted(log),
{
    assert forall|i: int| 0 <= i < log.len() implies d.rooted_at(
        log,
        #[trigger] log[i].term,
        i,
    ) by {
        assert(c.rooted_at(log, log[i].term, i));
        assert(c.term_grows_to(d, log[i].term));
        lemma_line_grows(c, d, log[i].term, i + 1);
    }
}

/// Whether a log holds what a leader has had does not change.
pub proof fn lemma_holds_grows(c: Cluster, d: Cluster, log: Seq<Entry>, t: u64, n: int)
    requires
        c.grows_to(d),
        c.terms.contains_key(t),
        0 <= n < c.line(t).len(),
    ensures
        c.holds(log, t, n) == d.holds(log, t, n),
{
    lemma_line_grows(c, d, t, n + 1);
}

/// A leader that did not hold something stays in the history.
pub proof fn lemma_lost_grows(c: Cluster, d: Cluster, t: u64, n: int, bound: int, later: int)
    requires
        c.grows_to(d),
        c.terms.contains_key(t),
        0 <= n < c.line(t).len(),
        c.lost(t, n, bound),
        bound <= later,
    ensures
        d.lost(t, n, later),
{
    let u = choose|u: u64|
        #[trigger] c.terms.contains_key(u) && t < u < bound && !c.holds(c.base(u), t, n);
    assert(c.term_grows_to(d, u));
    lemma_holds_grows(c, d, c.base(u), t, n);
    assert(d.terms.contains_key(u));
}

/// What was chosen stays chosen.
pub proof fn lemma_chosen_grows(c: Cluster, d: Cluster, t: u64, n: int)
    requires
        c.grows_to(d),
        c.chosen(t, n),
    ensures
        d.chosen(t, n),
{
    assert(c.term_grows_to(d, t));
    lemma_line_grows(c, d, t, n + 1);
    assert(d.line(t)[n] == d.line(t).take(n + 1)[n]);
    assert(c.line(t)[n] == c.line(t).take(n + 1)[n]);
    lemma_int_range(0, d.num_peers());
    let all = set_int_range(0, d.num_peers());
    assert(d.ackers(t, n).subset_of(all));
    lemma_set_subset_finite(all, d.ackers(t, n));
    assert(c.ackers(t, n).subset_of(d.ackers(t, n)));
    lemma_len_subset(c.ackers(t, n), d.ackers(t, n));
}

/// What was covered stays covered.
pub proof fn lemma_covered_grows(
    c: Cluster,
    d: Cluster,
    log: Seq<Entry>,
    k: int,
    t: u64,
    later: u64,
)
    requires
        c.grows_to(d),
        c.covered(log, k, t),
        0 <= k,
        t <= later,
    ensures
        d.covered(log, k, later),
{
    let (u, n) = choose|u: u64, n: int| #[trigger] c.covers(log, k, t, u, n);
    lemma_chosen_grows(c, d, u, n);
    lemma_line_grows(c, d, u, k + 1);
    assert(d.covers(log, k, later, u, n));
}

/// What is covered depends on nothing but the covered part of a log.
pub proof fn lemma_covered_prefix(
    c: Cluster,
    a: Seq<Entry>,
    b: Seq<Entry>,
    k: int,
    t: u64,
)
    requires
        c.covered(a, k, t),
        0 <= k < b.len(),
        a.take(k + 1) == b.take(k + 1),
    ensures
        c.covered(b, k, t),
{
    let (u, n) = choose|u: u64, n: int| #[trigger] c.covers(a, k, t, u, n);
    assert(c.covers(b, k, t, u, n));
}

/// What is covered up to a term is held by the leader of that term, and of every later one.
pub proof fn lemma_covered_is_held(c: Cluster, log: Seq<Entry>, k: int, t: u64, u: u64)
    requires
        c.inv(),
        c.covered(log, k, t),
        0 <= k,
        t <= u,
        c.terms.contains_key(u),
    ensures
        c.line(u).len() > k,
        c.line(u).take(k + 1) == log.take(k + 1),
{
    let (w, n) = choose|w: u64, n: int| #[trigger] c.covers(log, k, t, w, n);
    if w < u {
        lemma_leader_completeness(c, w, n, u);
        assert(c.line(u).take(k + 1) =~= c.line(u).take(n + 1).take(k + 1));
        assert(c.line(w).take(k + 1) =~= c.line(w).take(n + 1).take(k + 1));
    }
}

/// What of the log of a leader a request carries, with what it builds on.
pub open spec fn carried(c: Cluster, args: AppendRequest) -> Seq<Entry> {
    c.line(args.term).take(args.last_new_index() + 1)
}

/// What a request that was sent makes of the log of its receiver: if it is accepted, the log
/// starts with what the request carries, and has changed only if it did not do so before.
pub proof fn lemma_append(c: Cluster, p: int, args: AppendRequest)
    requires
        c.inv_shape(),
        c.inv_terms(),
        c.inv_logs(),
        c.inv_requests(),
        0 <= p < c.num_peers(),
        c.requests.contains((p, args)),
        c.peers[p].accepts(args),
    ensures
        ({
            let s = c.peers[p];
            let log = s.append_entries(args).log;
            let carried = carried(c, args);
            &&& log.len() >= carried.len()
            &&& log.take(carried.len() as int) == carried
            &&& log == s.log || log == carried
            &&& s.log.len() >= carried.len() && s.log.take(carried.len() as int) == carried
                ==> log == s.log
        }),
{
    let s = c.peers[p];
    let line = c.line(args.term);
    let carried = carried(c, args);
    let k = args.last_new_index() + 1;
    let next = args.prev_log_index + 1;
    assert(c.request_ok(p, args));
    assert(c.term_ok(args.term));
    assert(s.inv());
    let leader = RaftState {
        num_peers: s.num_peers,
        me: args.leader_id,
        current_term: args.term,
        voted_for: None,
        log: carried,
        commit_index: args.leader_commit,
        last_applied: 0,
        role: Role::Follower,
        received_valid_rpc: false,
        next_index: Seq::empty(),
        match_index: Seq::empty(),
    };
    assert(carried.skip(next) =~= line.subrange(next, k));
    assert(leader.append_request(next) =~= args);
    assert(c.rooted(carried)) by {
        assert forall|i: int| 0 <= i < carried.len() implies c.rooted_at(
            carried,
            #[trigger] carried[i].term,
            i,
        ) by {
            assert(c.rooted_at(line, line[i].term, i));
            assert(carried.take(i + 1) =~= line.take(i + 1));
        }
    }
    lemma_rooted_match(c, carried, s.log);
    law_accepted_log_is_the_leaders(leader, s, next);
    if s.log.len() >= carried.len() && s.log.take(carried.len() as int) == carried {
        lemma_matched(s.log, next, args.entries, 0);
        let m = matched(s.log, next, args.entries, 0);
        if m < args.entries.len() {
            assert(args.entries[m] == carried[next + m]);
            assert(s.log.take(carried.len() as int)[next + m] == s.log[next + m]);
        }
    }
}

/// A request that was sent touches nothing that is committed.
pub proof fn lemma_can_append(c: Cluster, p: int, args: AppendRequest)
    requires
        c.inv(),
        0 <= p < c.num_peers(),
        c.requests.contains((p, args)),
    ensures
        c.peers[p].can_append(args),
{
    let s = c.peers[p];
    let line = c.line(args.term);
    assert(c.request_ok(p, args));
    assert(c.term_ok(args.term));
    assert(c.commit_ok(p));
    assert(s.inv());
    if s.accepts(args) {
        lemma_covered_is_held(c, s.log, s.commit_index as int, s.current_term, args.term);
        assert forall|i: int|
            0 <= i < args.entries.len() && args.prev_log_index + 1 + i <= s.commit_index implies (
        #[trigger] args.entries[i]).term == s.log[args.prev_log_index + 1 + i].term by {
            let j = args.prev_log_index + 1 + i;
            assert(args.entries[i] == line[j]);
            assert(line.take(s.commit_index + 1)[j] == s.log.take(s.commit_index + 1)[j]);
        }
    }
}

} // verus!
