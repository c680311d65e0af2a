//! Every step of a cluster keeps what its peers have said true, and what they have agreed on.
use vstd::prelude::*;
use vstd::set_lib::{lemma_int_range, lemma_len_subset, lemma_set_subset_finite, set_int_range};

use crate::agreement::{Cluster, Step};
use crate::entry::{lemma_run_start, Entry};
use crate::history::{
    carried, lemma_append, lemma_chosen_grows, lemma_covered_grows, lemma_covered_prefix,
    lemma_holds_grows, lemma_leader_completeness, lemma_lost_grows,
};
use crate::message::{AppendEntriesReply, AppendRequest};
use crate::preservation::{lemma_grows, moved};
use crate::run::{law_committed_is_kept, law_invariant_kept};
use crate::state::{lemma_new_commit_index, peers_at};

verus! {

/// A step keeps `inv_replies`.
pub proof fn lemma_keeps_replies(c: Cluster, step: Step)
    requires
        c.inv(),
        c.enabled(step),
        c.admitted(step),
    ensures
        c.after(step).inv_replies(),
{
    let d = c.after(step);
    let p = step.peer();
    let s = c.peers[p];
    lemma_grows(c, step);
    assert(c.requests.subset_of(d.requests));
    assert forall|f: int, a: AppendRequest, r: AppendEntriesReply| #[trigger]
        d.replies.contains((f, a, r)) implies d.reply_ok(f, a, r) by {
        if c.replies.contains((f, a, r)) {
            assert(c.reply_ok(f, a, r));
            assert(c.request_ok(f, a));
            assert(c.term_grows_to(d, a.term));
            assert forall|j: int|
                r.success && d.base(a.term).len() <= j <= a.last_new_index() implies #[trigger]
            d.acks.contains((f, a.term, j)) by {
                assert(c.acks.contains((f, a.term, j)));
            }
        } else {
            match step {
                Step::AppendEntries { args, .. } => {
                    assert(c.request_ok(p, args));
                    assert(c.term_grows_to(d, args.term));
                    if args.prev_log_index < s.log.len() {
                        lemma_run_start(s.log, args.prev_log_index as int);
                    }
                },
                _ => {},
            }
        }
    }
}

/// A peer that has told a leader what it holds, still holds it after `step`, or has come to know
/// of a later leader that does not.
proof fn lemma_ack_kept_in_log(c: Cluster, step: Step, v: int, t: u64, j: int)
    requires
        c.inv(),
        c.enabled(step),
        c.admitted(step),
        c.acks.contains((v, t, j)),
    ensures
        ({
            let d = c.after(step);
            d.holds(d.peers[v].log, t, j) || d.lost(t, j, d.peers[v].current_term + 1)
        }),
{
    let d = c.after(step);
    let p = step.peer();
    let s = c.peers[p];
    let m = moved(c, step);
    lemma_grows(c, step);
    assert(c.ack_ok(v, t, j));
    lemma_holds_grows(c, d, c.peers[v].log, t, j);
    if c.lost(t, j, c.peers[v].current_term + 1) {
        lemma_lost_grows(
            c,
            d,
            t,
            j,
            c.peers[v].current_term + 1,
            d.peers[v].current_term + 1,
        );
    } else if v == p && m.log != s.log {
        match step {
            Step::Start { .. } => {
                assert(m.log.take(j + 1) =~= s.log.take(j + 1));
            },
            Step::AppendEntries { args, .. } => {
                assert(s.accepts(args));
                lemma_append(c, p, args);
                assert(c.request_ok(p, args));
                assert(c.term_ok(args.term));
                let log = carried(c, args);
                assert(m.log == log);
                assert(m.current_term == args.term);
                if args.term == t {
                    if j < log.len() {
                        assert(log.take(j + 1) =~= c.line(t).take(j + 1));
                        lemma_holds_grows(c, d, log, t, j);
                    } else {
                        assert(s.log.take(log.len() as int) =~= s.log.take(j + 1).take(
                            log.len() as int,
                        ));
                        assert(log =~= c.line(t).take(j + 1).take(log.len() as int));
                    }
                } else {
                    let base = c.base(args.term);
                    assert(c.term_grows_to(d, args.term));
                    lemma_holds_grows(c, d, base, t, j);
                    lemma_holds_grows(c, d, log, t, j);
                    if c.holds(base, t, j) {
                        assert(base == c.line(args.term).take(base.len() as int));
                        assert(log.take(j + 1) =~= base.take(j + 1));
                    } else {
                        assert(d.terms.contains_key(args.term));
                    }
                }
            },
            _ => {},
        }
    }
}

/// A peer that has told a leader what it holds, has given later votes only while it held it, or
/// knew of a later leader that did not; as far as such a vote has had, or can have, any effect.
proof fn lemma_ack_kept_in_votes(c: Cluster, step: Step, v: int, t: u64, j: int, u: u64)
    requires
        c.inv(),
        c.enabled(step),
        c.admitted(step),
        c.acks.contains((v, t, j)),
        c.after(step).grants.contains_key((v, u)),
        u > t,
        !c.after(step).terms.contains_key(u) || c.after(step).terms[u].voters.contains(v),
    ensures
        ({
            let d = c.after(step);
            d.holds(d.grants[(v, u)].log, t, j) || d.lost(t, j, u as int)
        }),
{
    let d = c.after(step);
    let p = step.peer();
    let s = c.peers[p];
    let m = moved(c, step);
    lemma_grows(c, step);
    assert(c.ack_ok(v, t, j));
    if c.grants.contains_key((v, u)) {
        let g = c.grants[(v, u)];
        assert(c.grant_ok(v, u));
        assert(d.grants[(v, u)] == g);
        if c.terms.contains_key(u) {
            assert(c.term_grows_to(d, u));
        }
        lemma_holds_grows(c, d, g.log, t, j);
        if c.lost(t, j, u as int) {
            lemma_lost_grows(c, d, t, j, u as int, u as int);
        }
    } else {
        // The vote was given in this step, with the log that the peer has.
        assert(v == p);
        assert(d.grants[(v, u)].log == s.log);
        lemma_holds_grows(c, d, s.log, t, j);
        if c.lost(t, j, s.current_term + 1) {
            if s.current_term < u {
                lemma_lost_grows(c, d, t, j, s.current_term + 1, u as int);
            } else {
                assert(s.current_term == u);
                let w = choose|w: u64|
                    #[trigger] c.terms.contains_key(w) && t < w < s.current_term + 1 && !c.holds(
                        c.base(w),
                        t,
                        j,
                    );
                if w == u {
                    // The votes of that term had been counted without it.
                    assert(c.elected_ok(u));
                    assert(c.term_grows_to(d, u));
                } else {
                    assert(c.lost(t, j, u as int));
                    lemma_lost_grows(c, d, t, j, u as int, u as int);
                }
            }
        }
    }
}

/// A step keeps `inv_acks`.
pub proof fn lemma_keeps_acks(c: Cluster, step: Step)
    requires
        c.inv(),
        c.enabled(step),
        c.admitted(step),
    ensures
        c.after(step).inv_acks(),
{
    let d = c.after(step);
    let p = step.peer();
    let s = c.peers[p];
    let m = moved(c, step);
    lemma_grows(c, step);
    assert(s.inv());
    assert(c.leader_ok(p) && c.knowledge_ok(p));
    assert forall|v: int, t: u64, j: int| #[trigger] d.acks.contains((v, t, j)) implies d.ack_ok(
        v,
        t,
        j,
    ) by {
        if c.acks.contains((v, t, j)) {
            assert(c.ack_ok(v, t, j));
            assert(c.term_grows_to(d, t));
            lemma_ack_kept_in_log(c, step, v, t, j);
            assert forall|u: u64| #[trigger]
                d.grants.contains_key((v, u)) && u > t && (!d.terms.contains_key(u)
                    || d.terms[u].voters.contains(v)) implies d.holds(
                d.grants[(v, u)].log,
                t,
                j,
            ) || d.lost(t, j, u as int) by {
                lemma_ack_kept_in_votes(c, step, v, t, j, u);
            }
        } else {
            lemma_new_ack(c, step, v, t, j);
        }
    }
}

/// What a peer tells a leader is true when it does so.
proof fn lemma_new_ack(c: Cluster, step: Step, v: int, t: u64, j: int)
    requires
        c.inv(),
        c.enabled(step),
        c.admitted(step),
        c.after(step).acks.contains((v, t, j)),
        !c.acks.contains((v, t, j)),
    ensures
        c.after(step).ack_ok(v, t, j),
{
    let d = c.after(step);
    let p = step.peer();
    let s = c.peers[p];
    let m = moved(c, step);
    lemma_grows(c, step);
    assert(s.inv());
    assert(c.leader_ok(p) && c.knowledge_ok(p));
    match step {
        Step::Start { .. } => {
            assert(c.term_grows_to(d, t));
            assert(c.term_ok(t));
            assert(m.log == d.line(t));
        },
        Step::AppendEntries { args, .. } => {
            lemma_append(c, p, args);
            assert(c.request_ok(p, args));
            assert(c.term_grows_to(d, t));
            let log = carried(c, args);
            assert(m.log.take(j + 1) =~= m.log.take(log.len() as int).take(j + 1));
            assert(c.line(t).take(j + 1) =~= log.take(j + 1));
        },
        _ => {},
    }
    assert(v == p && m.current_term == t && d.grants == c.grants);
    assert(d.holds(m.log, t, j));
    assert forall|u: u64| #[trigger] d.grants.contains_key((v, u)) implies u <= t by {
        assert(c.grant_ok(v, u));
    }
}

/// Any two things that were chosen agree as far as both go.
pub proof fn lemma_chosen_agree(c: Cluster, t: u64, n: int, u: u64, m: int, k: int)
    requires
        c.inv_choices(),
        c.chosen(t, n),
        c.chosen(u, m),
        0 <= k <= n,
        k <= m,
    ensures
        c.line(t).take(k + 1) == c.line(u).take(k + 1),
{
    if t < u {
        lemma_leader_completeness(c, t, n, u);
        assert(c.line(u).take(k + 1) =~= c.line(u).take(n + 1).take(k + 1));
        assert(c.line(t).take(k + 1) =~= c.line(t).take(n + 1).take(k + 1));
    } else if u < t {
        lemma_leader_completeness(c, u, m, t);
        assert(c.line(t).take(k + 1) =~= c.line(t).take(m + 1).take(k + 1));
        assert(c.line(u).take(k + 1) =~= c.line(u).take(m + 1).take(k + 1));
    }
}

/// Any two logs agree as far as both are covered.
pub proof fn lemma_covered_agree(
    c: Cluster,
    a: Seq<Entry>,
    i: int,
    t: u64,
    b: Seq<Entry>,
    j: int,
    u: u64,
    k: int,
)
    requires
        c.inv_choices(),
        c.covered(a, i, t),
        c.covered(b, j, u),
        0 <= k <= i,
        k <= j,
    ensures
        a.take(k + 1) == b.take(k + 1),
{
    let (ta, na) = choose|x: u64, n: int| #[trigger] c.covers(a, i, t, x, n);
    let (tb, nb) = choose|x: u64, n: int| #[trigger] c.covers(b, j, u, x, n);
    lemma_chosen_agree(c, ta, na, tb, nb, k);
    assert(a.take(k + 1) =~= a.take(i + 1).take(k + 1));
    assert(b.take(k + 1) =~= b.take(j + 1).take(k + 1));
    assert(c.line(ta).take(k + 1) =~= c.line(ta).take(i + 1).take(k + 1));
    assert(c.line(tb).take(k + 1) =~= c.line(tb).take(j + 1).take(k + 1));
}

/// What a leader newly counts as committed was chosen.
proof fn lemma_counted_is_chosen(c: Cluster, p: int, n: int)
    requires
        c.inv(),
        0 <= p < c.num_peers(),
        c.peers[p].role is Leader,
        0 <= n < c.peers[p].log.len(),
        c.peers[p].committable(n),
    ensures
        c.chosen(c.peers[p].current_term, n),
        c.covered(c.peers[p].log, n, c.peers[p].current_term),
{
    let s = c.peers[p];
    let t = s.current_term;
    assert(s.inv());
    assert(c.leader_ok(p) && c.knowledge_ok(p));
    assert(c.term_ok(t));
    assert(c.base(t).len() <= n) by {
        if n < c.base(t).len() {
            assert(c.line(t).take(c.base(t).len() as int)[n] == c.base(t)[n]);
        }
    }
    let all = set_int_range(0, c.num_peers());
    lemma_int_range(0, c.num_peers());
    assert(c.ackers(t, n).subset_of(all));
    lemma_set_subset_finite(all, c.ackers(t, n));
    assert forall|i: int| peers_at(s.match_index, n).contains(i) implies #[trigger] c.ackers(
        t,
        n,
    ).contains(i) by {
        assert(c.acks.contains((i, t, n)));
    }
    lemma_len_subset(peers_at(s.match_index, n), c.ackers(t, n));
    assert(c.covers(s.log, n, t, t, n));
}

/// What was agreed on stays agreed on.
pub proof fn lemma_agreed_grows(c: Cluster, step: Step)
    requires
        c.inv(),
        c.enabled(step),
        c.admitted(step),
    ensures
        c.agreed.len() <= c.after(step).agreed.len(),
        c.after(step).agreed.take(c.agreed.len() as int) == c.agreed,
        c.after(step).covered(
            c.after(step).agreed,
            c.after(step).agreed.len() - 1,
            u64::MAX,
        ),
{
    let d = c.after(step);
    let p = step.peer();
    let s = c.peers[p];
    let m = moved(c, step);
    lemma_grows(c, step);
    assert(s.inv());
    assert(c.commit_ok(p));
    let last = c.agreed.len() - 1;
    assert(c.covered(c.agreed, last, u64::MAX));
    assert(c.agreed.take(c.agreed.len() as int) =~= c.agreed);
    match step {
        Step::LeaderTask { .. } if s.still_leads() && m.commit_index >= c.agreed.len() => {
            let n = m.commit_index as int;
            lemma_new_commit_index(s, s.log.len() - 1);
            lemma_counted_is_chosen(c, p, n);
            lemma_covered_agree(
                c,
                s.log,
                n,
                s.current_term,
                c.agreed,
                last,
                u64::MAX,
                last,
            );
            assert(d.agreed.take(last + 1) =~= s.log.take(last + 1));
            assert(d.agreed.take(n + 1) =~= s.log.take(n + 1));
            lemma_covered_prefix(c, s.log, d.agreed, n, s.current_term);
            lemma_covered_grows(c, d, d.agreed, n, s.current_term, u64::MAX);
        },
        _ => {
            assert(d.agreed == c.agreed);
            lemma_covered_grows(c, d, c.agreed, last, u64::MAX, u64::MAX);
        },
    }
}

/// The peer to which something happens counts as committed only what is covered.
proof fn lemma_moved_is_covered(c: Cluster, step: Step)
    requires
        c.inv(),
        c.enabled(step),
        c.admitted(step),
    ensures
        ({
            let d = c.after(step);
            let m = moved(c, step);
            &&& d.covered(m.log, m.commit_index as int, m.current_term)
            &&& m.commit_index < d.agreed.len()
        }),
{
    let d = c.after(step);
    let p = step.peer();
    let s = c.peers[p];
    let m = moved(c, step);
    lemma_grows(c, step);
    lemma_agreed_grows(c, step);
    assert(s.inv());
    assert(m.inv()) by {
        law_invariant_kept(s, c.event(step));
    }
    assert(c.commit_ok(p));
    if step is Restart {
        // All logs start with the entry that was there from the first.
        assert(c.covers(c.line(0), 0, 0, 0, 0));
        lemma_covered_agree(
            c,
            s.log,
            s.commit_index as int,
            s.current_term,
            c.line(0),
            0,
            0,
            0,
        );
        lemma_covered_prefix(c, c.line(0), m.log, 0, 0);
        lemma_covered_grows(c, d, m.log, 0, 0, m.current_term);
    } else {
        law_committed_is_kept(s, c.event(step));
        if m.commit_index == s.commit_index {
            let k = s.commit_index as int;
            lemma_covered_prefix(c, s.log, m.log, k, s.current_term);
            lemma_covered_grows(c, d, m.log, k, s.current_term, m.current_term);
        } else {
            match step {
                Step::AppendEntries { args, .. } => {
                    let k = args.leader_commit as int;
                    lemma_append(c, p, args);
                    assert(c.request_ok(p, args));
                    assert(m.commit_index == k);
                    let log = carried(c, args);
                    assert(m.log.take(k + 1) =~= m.log.take(log.len() as int).take(k + 1));
                    assert(c.line(args.term).take(k + 1) =~= log.take(k + 1));
                    lemma_covered_prefix(c, c.line(args.term), m.log, k, args.term);
                    lemma_covered_grows(c, d, m.log, k, args.term, m.current_term);
                },
                Step::LeaderTask { .. } => {
                    let k = m.commit_index as int;
                    lemma_new_commit_index(s, s.log.len() - 1);
                    lemma_counted_is_chosen(c, p, k);
                    lemma_covered_grows(c, d, m.log, k, s.current_term, m.current_term);
                },
                _ => {},
            }
        }
    }
}

/// A step keeps `inv_commit`.
pub proof fn lemma_keeps_commit(c: Cluster, step: Step)
    requires
        c.inv(),
        c.enabled(step),
        c.admitted(step),
        c.after(step).inv_choices(),
    ensures
        c.after(step).inv_commit(),
{
    let d = c.after(step);
    let p = step.peer();
    lemma_grows(c, step);
    lemma_agreed_grows(c, step);
    lemma_moved_is_covered(c, step);
    lemma_chosen_grows(c, d, 0, 0);
    assert forall|q: int| 0 <= q < d.num_peers() implies #[trigger] d.commit_ok(q) by {
        let s = d.peers[q];
        let k = s.commit_index as int;
        assert(c.commit_ok(q));
        if q != p {
            lemma_covered_grows(c, d, s.log, k, s.current_term, s.current_term);
        }
        lemma_covered_agree(
            d,
            s.log,
            k,
            s.current_term,
            d.agreed,
            d.agreed.len() - 1,
            u64::MAX,
            k,
        );
    }
}

/// What a leader has called committed stays so.
proof fn lemma_promise_kept(c: Cluster, step: Step, to: int, a: AppendRequest)
    requires
        c.inv(),
        c.enabled(step),
        c.admitted(step),
        c.requests.contains((to, a)),
    ensures
        c.after(step).promise_ok(a),
{
    let d = c.after(step);
    let n = a.leader_commit as int;
    lemma_grows(c, step);
    lemma_agreed_grows(c, step);
    assert(c.request_ok(to, a) && c.promise_ok(a));
    assert(c.term_grows_to(d, a.term));
    let old_line = c.line(a.term);
    let line = d.line(a.term);
    assert(line.take(n + 1) =~= line.take(old_line.len() as int).take(n + 1));
    lemma_covered_prefix(c, old_line, line, n, a.term);
    lemma_covered_grows(c, d, line, n, a.term, a.term);
    assert(d.agreed.take(n + 1) =~= d.agreed.take(c.agreed.len() as int).take(n + 1));
}

/// A step keeps `inv_promises`.
pub proof fn lemma_keeps_promises(c: Cluster, step: Step)
    requires
        c.inv(),
        c.enabled(step),
        c.admitted(step),
        c.after(step).inv_leaders(),
        c.after(step).inv_commit(),
    ensures
        c.after(step).inv_promises(),
{
    let d = c.after(step);
    let p = step.peer();
    assert(d.num_peers() == c.num_peers());
    assert(d.leader_ok(p));
    assert(d.commit_ok(p));
    assert forall|to: int, a: AppendRequest| #[trigger] d.requests.contains(
        (to, a),
    ) implies d.promise_ok(a) by {
        if c.requests.contains((to, a)) {
            lemma_promise_kept(c, step, to, a);
        }
    }
}

} // verus!
