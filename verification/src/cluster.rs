//! What holds between the peers of a cluster.
use vstd::prelude::*;
use vstd::set_lib::{
    lemma_int_range, lemma_len_subset, lemma_set_intersect_union_lens, set_int_range,
};

use crate::agreement::{ballot, sends};
use crate::entry::{
    lemma_last_of_term, lemma_matched, lemma_merged, lemma_run_start, matched, Entry,
};
use crate::message::{AppendRequest, VoteResult};
use crate::state::{
    half_vote, lemma_new_commit_index, other_peers, peers_at, Election, RaftState, Role,
};

verus! {

/// Whether two logs that hold an entry of the same term at the same position are the same up to
/// that position.
pub open spec fn logs_match(a: Seq<Entry>, b: Seq<Entry>) -> bool {
    forall|i: int|
        0 <= i < a.len() && i < b.len() && (#[trigger] a[i]).term == (#[trigger] b[i]).term
            ==> a.take(i + 1) == b.take(i + 1)
}

/// Whether the terms of a log do not go back, and none is later than `term`.
pub open spec fn terms_in_order(log: Seq<Entry>, term: u64) -> bool {
    &&& forall|i: int, j: int|
        0 <= i <= j < log.len() ==> (#[trigger] log[i]).term <= (#[trigger] log[j]).term
    &&& forall|i: int| 0 <= i < log.len() ==> (#[trigger] log[i]).term <= term
}

/// The answers of an election, counted in the order in which they came.
pub open spec fn tally_of(results: Seq<VoteResult>, num_peers: usize) -> Election
    decreases results.len(),
{
    if results.len() == 0 {
        Election { num_granted: 1, num_voted: 1 }
    } else {
        tally_of(results.drop_last(), num_peers).count(results.last(), num_peers)
    }
}

/// How many of the answers grant a vote.
pub open spec fn num_grants(results: Seq<VoteResult>) -> int
    decreases results.len(),
{
    if results.len() == 0 {
        0
    } else {
        num_grants(results.drop_last()) + if results.last() is Granted {
            1int
        } else {
            0int
        }
    }
}

/// A follower whose log matches the leader's, and that takes the leader's entries in, holds the
/// leader's whole log from then on: its own is that log, or it went on from it before and stays
/// as it was.
pub proof fn law_accepted_log_is_the_leaders(
    leader: RaftState,
    follower: RaftState,
    next: int,
)
    requires
        leader.inv(),
        follower.inv(),
        1 <= next <= leader.log.len(),
        logs_match(leader.log, follower.log),
        follower.accepts(leader.append_request(next)),
    ensures
        ({
            let log = follower.append_entries(leader.append_request(next)).log;
            &&& log.len() >= leader.log.len()
            &&& log.take(leader.log.len() as int) == leader.log
            &&& log == leader.log || log == follower.log
        }),
{
    let args = leader.append_request(next);
    let n = args.entries.len() as int;
    let m = matched(follower.log, next, args.entries, 0);
    let log = follower.append_entries(args).log;
    lemma_matched(follower.log, next, args.entries, 0);
    assert(leader.log[next - 1].term == follower.log[next - 1].term);
    assert(leader.log.take(next) == follower.log.take(next));
    assert(leader.log.take(next + m) == follower.log.take(next + m)) by {
        if m > 0 {
            assert(args.entries[m - 1] == leader.log[next + m - 1]);
            assert(leader.log[next + m - 1].term == follower.log[next + m - 1].term);
        }
    }
    if m == n {
        assert(next + m == leader.log.len());
        assert(leader.log.take(next + m) =~= leader.log);
    } else {
        assert(log =~= leader.log.take(next + m) + leader.log.skip(next).skip(m));
        assert(log =~= leader.log);
        assert(log.take(leader.log.len() as int) =~= leader.log);
    }
}

/// Taking the leader's entries in keeps any two logs of the cluster matching.
pub proof fn law_logs_keep_matching(
    leader: RaftState,
    follower: RaftState,
    next: int,
    other: Seq<Entry>,
)
    requires
        leader.inv(),
        follower.inv(),
        1 <= next <= leader.log.len(),
        logs_match(leader.log, follower.log),
        logs_match(leader.log, other),
        logs_match(follower.log, other),
    ensures
        logs_match(follower.append_entries(leader.append_request(next)).log, other),
        logs_match(leader.log, follower.append_entries(leader.append_request(next)).log),
{
    let args = leader.append_request(next);
    if follower.accepts(args) {
        law_accepted_log_is_the_leaders(leader, follower, next);
    }
}

/// A follower whose committed entries are the leader's can always take in what the leader sends:
/// nothing committed is replaced, and the commit index does not go back.
pub proof fn law_leader_spares_committed(leader: RaftState, follower: RaftState, next: int)
    requires
        leader.inv(),
        follower.inv(),
        1 <= next <= leader.log.len(),
        leader.log.len() > follower.commit_index,
        leader.log.take(follower.commit_index + 1) == follower.log.take(
            follower.commit_index + 1,
        ),
    ensures
        follower.can_append(leader.append_request(next)),
{
    let args = leader.append_request(next);
    if follower.accepts(args) {
        assert forall|i: int|
            0 <= i < args.entries.len() && args.prev_log_index + 1 + i
                <= follower.commit_index implies (#[trigger] args.entries[i]).term
            == follower.log[args.prev_log_index + 1 + i].term by {
            let k = next + i;
            assert(args.entries[i] == leader.log[k]);
            assert(leader.log.take(follower.commit_index + 1)[k] == follower.log.take(
                follower.commit_index + 1,
            )[k]);
        }
    }
}

/// What a leader has committed is committed on a follower as soon as that takes its entries in,
/// and is the same there.
pub proof fn law_commit_index_follows(leader: RaftState, follower: RaftState, next: int)
    requires
        leader.inv(),
        follower.inv(),
        1 <= next <= leader.log.len(),
        logs_match(leader.log, follower.log),
        follower.accepts(leader.append_request(next)),
    ensures
        ({
            let after = follower.append_entries(leader.append_request(next));
            &&& after.commit_index >= leader.commit_index
            &&& after.commit_index == leader.commit_index || after.commit_index
                == follower.commit_index
            &&& after.log.take(leader.commit_index + 1) == leader.log.take(leader.commit_index + 1)
        }),
{
    let args = leader.append_request(next);
    let after = follower.append_entries(args);
    law_accepted_log_is_the_leaders(leader, follower, next);
    assert(after.log.take(leader.commit_index + 1) =~= after.log.take(
        leader.log.len() as int,
    ).take(leader.commit_index + 1));
}

/// Whatever a follower answers, the one that asked can make use of it.
pub proof fn law_every_reply_is_usable(
    sender: RaftState,
    follower: RaftState,
    peer: usize,
    sent: AppendRequest,
)
    requires
        sender.inv(),
        follower.inv(),
        peer < sender.next_index.len(),
        sent.last_new_index() < usize::MAX,
    ensures
        sender.can_take_reply(peer, sent, follower.append_entries_reply(sent)),
{
}

/// Where a follower takes entries in, the leader comes to know what the two logs share, and
/// goes on right behind it; what it knows of the follower's log never shrinks.
pub proof fn law_match_index_is_shared(
    leader: RaftState,
    follower: RaftState,
    peer: usize,
    next: int,
)
    requires
        leader.inv(),
        follower.inv(),
        1 <= next <= leader.log.len() < usize::MAX,
        peer < leader.next_index.len(),
        logs_match(leader.log, follower.log),
        follower.accepts(leader.append_request(next)),
    ensures
        ({
            let sent = leader.append_request(next);
            let log = follower.append_entries(sent).log;
            let after = leader.take_reply(peer, sent, follower.append_entries_reply(sent));
            let known = after.match_index[peer as int];
            &&& known >= leader.log.len() - 1
            &&& known >= leader.match_index[peer as int]
            &&& leader.match_index[peer as int] < leader.log.len() ==> log.take(known + 1)
                == leader.log.take(known + 1)
            &&& leader.match_index[peer as int] < leader.log.len() - 1
                ==> after.next_index[peer as int] == known + 1
        }),
{
    law_accepted_log_is_the_leaders(leader, follower, next);
    let log = follower.append_entries(leader.append_request(next)).log;
    assert(leader.log.take(leader.log.len() as int) =~= leader.log);
}

/// A refusal takes the leader back: it next tries a lower position, and none below the first;
/// provided that its own log holds no entry of the term in the way past the refused position.
pub proof fn law_refusal_steps_back(
    leader: RaftState,
    follower: RaftState,
    peer: usize,
    next: int,
)
    requires
        leader.inv(),
        follower.inv(),
        1 <= next <= leader.log.len(),
        peer < leader.next_index.len(),
        follower.current_term <= leader.current_term,
        !follower.accepts(leader.append_request(next)),
        next - 1 < follower.log.len() ==> forall|j: int|
            next <= j < leader.log.len() ==> (#[trigger] leader.log[j]).term != follower.log[next
                - 1].term,
    ensures
        ({
            let sent = leader.append_request(next);
            let after = leader.take_reply(peer, sent, follower.append_entries_reply(sent));
            1 <= after.next_index[peer as int] < next || next == 1
        }),
{
    let sent = leader.append_request(next);
    let reply = follower.append_entries_reply(sent);
    if next - 1 < follower.log.len() {
        lemma_run_start(follower.log, next - 1);
        lemma_last_of_term(leader.log, reply.xterm->0, leader.log.len() as int);
    }
}

/// A leader that has gone back to the first position is not refused by a follower whose log
/// starts with an entry of the same term.
pub proof fn law_first_position_is_accepted(leader: RaftState, follower: RaftState)
    requires
        leader.inv(),
        follower.inv(),
        follower.current_term <= leader.current_term,
        follower.log[0].term == leader.log[0].term,
    ensures
        follower.accepts(leader.append_request(1)),
{
}

/// A leader that hears answers to what it has sent itself in its term never takes another log to
/// be longer than its own.
pub proof fn law_replies_keep_broadcast_possible(
    before: RaftState,
    leader: RaftState,
    follower: RaftState,
    peer: usize,
    next: int,
)
    requires
        before.inv(),
        leader.inv(),
        follower.inv(),
        leader.role is Leader,
        leader.can_broadcast(),
        1 <= next <= before.log.len() <= leader.log.len(),
        before.log.len() < usize::MAX,
        peer < leader.num_peers,
        peer != leader.me,
    ensures
        leader.take_reply(
            peer,
            before.append_request(next),
            follower.append_entries_reply(before.append_request(next)),
        ).can_broadcast(),
{
    let sent = before.append_request(next);
    let reply = follower.append_entries_reply(sent);
    if next - 1 < follower.log.len() {
        lemma_run_start(follower.log, next - 1);
    }
    if reply.xterm is Some {
        lemma_last_of_term(leader.log, reply.xterm->0, leader.log.len() as int);
    }
    let after = leader.take_reply(peer, sent, reply);
    assert forall|i: int| 0 <= i < after.num_peers && i != after.me implies (
    #[trigger] after.next_index[i]) <= after.log.len() by {
        assert(leader.next_index[i] <= leader.log.len());
    }
}

/// A leader that has just won, or that takes a command in, can send to all its peers.
pub proof fn law_new_leader_can_broadcast(s: RaftState, command: Seq<u8>)
    requires
        s.inv(),
    ensures
        s.lead().can_broadcast(),
        s.role is Leader && s.can_broadcast() ==> s.start(command).can_broadcast(),
{
}

/// What a leader sends goes to every other peer, once to each.
pub proof fn law_broadcast_reaches_every_other_peer(s: RaftState, peer: usize)
    requires
        peer < s.num_peers,
    ensures
        peer == s.me ==> forall|k: int|
            0 <= k < s.broadcast().len() ==> (#[trigger] s.broadcast()[k]).0 != peer,
        peer != s.me ==> exists|k: int|
            0 <= k < s.broadcast().len() && (#[trigger] s.broadcast()[k]).0 == peer,
        forall|j: int, k: int|
            0 <= j < k < s.broadcast().len() ==> (#[trigger] s.broadcast()[j]).0 != (
            #[trigger] s.broadcast()[k]).0,
{
    let others = other_peers(s.num_peers, s.me);
    if peer != s.me {
        let k = if peer < s.me {
            peer as int
        } else {
            peer - 1
        };
        assert(s.broadcast()[k].0 == others[k]);
    }
}

/// A candidate asks for votes in the term after its last one, by the end of its log.
pub proof fn law_candidate_asks_by_its_log(s: RaftState, initial_role: Role)
    requires
        s.inv(),
        s.campaigns(initial_role),
        s.current_term < u64::MAX,
    ensures
        s.time_out(initial_role).vote_request() == ballot(
            s.me as int,
            (s.current_term + 1) as u64,
            s.log,
        ),
{
}

/// What a leader sends, and to whom, is what reaches its peers.
pub proof fn law_broadcast_is_sent(s: RaftState, peer: usize, args: AppendRequest)
    ensures
        s.broadcast().contains((peer, args)) <==> sends(s, (peer as int, args)),
{
    let others = other_peers(s.num_peers, s.me);
    if sends(s, (peer as int, args)) {
        let k = if peer < s.me {
            peer as int
        } else {
            peer - 1
        };
        assert(others[k] == peer);
        assert(s.broadcast()[k] == (peer, args));
    }
    if s.broadcast().contains((peer, args)) {
        let k = choose|k: int|
            0 <= k < s.broadcast().len() && s.broadcast()[k] == (peer, args);
        assert(others[k] == peer);
    }
}

/// The peer that a service is sent on to exists, and is another one where there is another.
pub proof fn law_next_leader_is_a_peer(s: RaftState)
    requires
        s.me < s.num_peers,
    ensures
        0 <= s.next_leader() < s.num_peers,
        s.num_peers > 1 ==> s.next_leader() != s.me,
{
    let n = s.num_peers as int;
    if s.me + 1 == n {
        assert((s.me + 1) % n == 0) by (nonlinear_arith)
            requires
                s.me + 1 == n,
                n > 0,
        ;
    } else {
        assert((s.me + 1) % n == s.me + 1) by (nonlinear_arith)
            requires
                0 <= s.me + 1 < n,
        ;
    }
}

/// A leader counts an entry as committed only if it is of its own term and enough peers hold it,
/// and goes as far as that allows.
pub proof fn law_commit_needs_enough_copies(s: RaftState)
    requires
        s.inv(),
        s.still_leads(),
    ensures
        ({
            let c = s.leader_task().commit_index as int;
            &&& c != s.commit_index ==> s.log[c].term == s.current_term && peers_at(
                s.match_index,
                c,
            ).len() >= half_vote(s.num_peers)
            &&& forall|m: int|
                c < m < s.log.len() && (#[trigger] s.log[m]).term == s.current_term ==> peers_at(
                    s.match_index,
                    m,
                ).len() < half_vote(s.num_peers)
        }),
{
    lemma_new_commit_index(s, s.log.len() - 1);
    let c = s.leader_task().commit_index as int;
    assert forall|m: int|
        c < m < s.log.len() && (#[trigger] s.log[m]).term == s.current_term implies peers_at(
        s.match_index,
        m,
    ).len() < half_vote(s.num_peers) by {
        assert(!s.committable(m));
    }
}

/// While no answer tells of a higher term, the votes counted are the candidate's own and those
/// that were granted.
pub proof fn law_tally_counts_grants(results: Seq<VoteResult>, num_peers: usize)
    requires
        results.len() < usize::MAX,
        forall|i: int| 0 <= i < results.len() ==> !(#[trigger] results[i] is HigherTerm),
    ensures
        tally_of(results, num_peers).num_granted == 1 + num_grants(results),
        tally_of(results, num_peers).num_voted == 1 + results.len(),
        0 <= num_grants(results) <= results.len(),
    decreases results.len(),
{
    if results.len() > 0 {
        let init = results.drop_last();
        assert forall|i: int| 0 <= i < init.len() implies !(#[trigger] init[i] is HigherTerm) by {
            assert(init[i] == results[i]);
        }
        law_tally_counts_grants(init, num_peers);
    }
}

/// In a cluster of an odd number of peers, any two groups that are each enough have a peer in
/// common.
pub proof fn law_two_quorums_meet(num_peers: usize, a: Set<int>, b: Set<int>)
    requires
        num_peers % 2 == 1,
        a.subset_of(set_int_range(0, num_peers as int)),
        b.subset_of(set_int_range(0, num_peers as int)),
        a.len() >= half_vote(num_peers),
        b.len() >= half_vote(num_peers),
    ensures
        exists|i: int| 0 <= i < num_peers && #[trigger] a.contains(i) && b.contains(i),
{
    let all = set_int_range(0, num_peers as int);
    lemma_int_range(0, num_peers as int);
    lemma_len_subset(a, all);
    lemma_len_subset(b, all);
    lemma_len_subset(a.union(b), all);
    lemma_set_intersect_union_lens(a, b);
    let both = a.intersect(b);
    assert(both.len() > 0);
    let i = both.choose();
    assert(both.contains(i));
    assert(all.contains(i));
}

/// In a cluster of an odd number of peers, each of which gives its vote to one candidate at most,
/// no two candidates have enough votes.
pub proof fn law_one_winner(votes: Seq<Option<usize>>, first: usize, second: usize)
    requires
        votes.len() <= usize::MAX,
        votes.len() % 2 == 1,
        Set::new(|i: int| 0 <= i < votes.len() && votes[i] == Some(first)).len() >= half_vote(
            votes.len() as usize,
        ),
        Set::new(|i: int| 0 <= i < votes.len() && votes[i] == Some(second)).len() >= half_vote(
            votes.len() as usize,
        ),
    ensures
        first == second,
{
    let a = Set::new(|i: int| 0 <= i < votes.len() && votes[i] == Some(first));
    let b = Set::new(|i: int| 0 <= i < votes.len() && votes[i] == Some(second));
    law_two_quorums_meet(votes.len() as usize, a, b);
    let i = choose|i: int| 0 <= i < votes.len() && #[trigger] a.contains(i) && b.contains(i);
    assert(votes[i] == Some(first) && votes[i] == Some(second));
}

/// The terms of a log stay in order when a leader takes a command in, and when a follower takes
/// in the entries of a leader whose own are in order.
pub proof fn law_terms_stay_in_order(
    leader: RaftState,
    follower: RaftState,
    next: int,
    command: Seq<u8>,
)
    requires
        leader.inv(),
        follower.inv(),
        1 <= next <= leader.log.len(),
        terms_in_order(leader.log, leader.current_term),
        terms_in_order(follower.log, follower.current_term),
    ensures
        terms_in_order(leader.start(command).log, leader.start(command).current_term),
        ({
            let after = follower.append_entries(leader.append_request(next));
            terms_in_order(after.log, after.current_term)
        }),
{
    let args = leader.append_request(next);
    let after = follower.append_entries(args);
    if follower.accepts(args) {
        let m = matched(follower.log, next, args.entries, 0);
        lemma_matched(follower.log, next, args.entries, 0);
        lemma_merged(follower.log, next, args.entries);
        if m < args.entries.len() {
            assert forall|i: int| 0 <= i < next + m implies (#[trigger] after.log[i]).term
                <= leader.log[next + m - 1].term && after.log[i] == follower.log[i] by {
                assert(follower.log[i].term <= follower.log[next + m - 1].term);
                if m > 0 {
                    assert(args.entries[m - 1] == leader.log[next + m - 1]);
                }
            }
            assert forall|i: int| next + m <= i < after.log.len() implies #[trigger] after.log[i]
                == leader.log[i] by {}
            assert forall|i: int, j: int| 0 <= i <= j < after.log.len() implies (
            #[trigger] after.log[i]).term <= (#[trigger] after.log[j]).term by {
                if i < next + m && j >= next + m {
                    assert(leader.log[next + m - 1].term <= leader.log[j].term);
                }
            }
            assert forall|i: int| 0 <= i < after.log.len() implies (#[trigger] after.log[i]).term
                <= after.current_term by {
                if i >= next + m {
                    assert(leader.log[i].term <= leader.current_term);
                } else {
                    assert(follower.log[i].term <= follower.current_term);
                }
            }
        }
    }
}

} // verus!
