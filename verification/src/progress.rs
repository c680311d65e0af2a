//! What a leader does in each round and with each answer, and how a command comes to be committed.
use vstd::prelude::*;
use vstd::set_lib::{lemma_int_range, lemma_len_subset, lemma_set_subset_finite, set_int_range};

use crate::conduct::{same_knowledge, same_log, same_standing};
use crate::entry::{lemma_last_of_term, Entry};
use crate::message::{AppendEntriesReply, AppendRequest, VoteResult};
use crate::state::{lemma_new_commit_index, other_peers, peers_at, Election, RaftState, Role};

verus! {

/// Whether `msgs` holds exactly one message to every peer but `me`, in their order, and none to
/// anyone else.
pub open spec fn one_to_each(
    msgs: Seq<(usize, AppendRequest)>,
    num_peers: usize,
    me: usize,
) -> bool {
    &&& forall|k: int|
        0 <= k < msgs.len() ==> (#[trigger] msgs[k]).0 < num_peers && msgs[k].0 != me
    &&& forall|j: int, k: int|
        0 <= j < k < msgs.len() ==> (#[trigger] msgs[j]).0 < (#[trigger] msgs[k]).0
    &&& forall|peer: usize|
        peer < num_peers && peer != me ==> #[trigger] is_sent_to(msgs, peer)
}

/// Whether `msgs` holds a message to `peer`.
pub open spec fn is_sent_to(msgs: Seq<(usize, AppendRequest)>, peer: usize) -> bool {
    exists|k: int| 0 <= k < msgs.len() && (#[trigger] msgs[k]).0 == peer
}

/// Whether `r` hands over all of the log of `s` from position `next` on, in its name and term, and
/// tells how far it is committed.
pub open spec fn carries_rest(s: RaftState, r: AppendRequest, next: int) -> bool {
    &&& r.term == s.current_term
    &&& r.leader_id == s.me
    &&& r.prev_log_index + 1 == next
    &&& r.prev_log_term == s.log[next - 1].term
    &&& r.entries.len() == s.log.len() - next
    &&& forall|i: int| 0 <= i < r.entries.len() ==> #[trigger] r.entries[i] == s.log[next + i]
    &&& r.leader_commit == s.commit_index
}

/// The peers that a leader knows to hold its log up to position `n`.
pub open spec fn holders(s: RaftState, n: int) -> Set<int> {
    Set::new(|i: int| 0 <= i < s.match_index.len() && s.match_index[i] >= n)
}

/// What a request from a position on holds.
pub proof fn law_request_carries_the_rest(s: RaftState, next: int)
    requires
        s.inv(),
        1 <= next <= s.log.len(),
    ensures
        carries_rest(s, s.append_request(next), next),
{
}

/// A message to every other peer goes out at once, with what that peer is taken to lack: all of
/// the log from its next index on, though that be nothing.
pub proof fn law_everyone_is_sent_what_it_lacks(s: RaftState)
    requires
        s.inv(),
        s.role is Leader,
        forall|i: int|
            0 <= i < s.num_peers && i != s.me ==> #[trigger] s.next_index[i] <= s.log.len(),
    ensures
        one_to_each(s.broadcast(), s.num_peers, s.me),
        forall|k: int|
            0 <= k < s.broadcast().len() ==> carries_rest(
                s,
                (#[trigger] s.broadcast()[k]).1,
                s.next_index[s.broadcast()[k].0 as int] as int,
            ),
{
    let msgs = s.broadcast();
    let others = other_peers(s.num_peers, s.me);
    assert forall|k: int| 0 <= k < msgs.len() implies {
        &&& (#[trigger] msgs[k]).0 < s.num_peers
        &&& msgs[k].0 != s.me
        &&& carries_rest(s, msgs[k].1, s.next_index[msgs[k].0 as int] as int)
    } by {
        let next = s.next_index[others[k] as int];
        assert(msgs[k].0 == others[k]);
        assert(1 <= next <= s.log.len());
    }
    assert forall|peer: usize| peer < s.num_peers && peer != s.me implies #[trigger] is_sent_to(
        msgs,
        peer,
    ) by {
        let k = if peer < s.me {
            peer as int
        } else {
            peer - 1
        };
        assert(msgs[k].0 == peer);
    }
}

/// In every round in which a peer leads and has heard of no other leader, it sends to every other
/// peer, once to each, all of its log from that peer's next index on, with its new commit index;
/// whether or not there is anything new.
pub proof fn law_everyone_is_sent_to_in_every_round(s: RaftState)
    requires
        s.inv(),
        s.role is Leader,
        !s.received_valid_rpc,
        forall|i: int|
            0 <= i < s.num_peers && i != s.me ==> #[trigger] s.next_index[i] <= s.log.len(),
    ensures
        ({
            let msgs = s.leader_task_sends();
            let t = s.leader_task();
            &&& one_to_each(msgs, s.num_peers, s.me)
            &&& msgs.len() == s.num_peers - 1
            &&& forall|k: int|
                0 <= k < msgs.len() ==> {
                    let r = (#[trigger] msgs[k]).1;
                    &&& carries_rest(t, r, s.next_index[msgs[k].0 as int] as int)
                    &&& r.term == s.current_term
                    &&& r.prev_log_index == s.next_index[msgs[k].0 as int] - 1
                    &&& r.prev_log_index + r.entries.len() == s.log.len() - 1
                }
        }),
{
    lemma_new_commit_index(s, s.log.len() - 1);
    let t = s.leader_task();
    law_everyone_is_sent_what_it_lacks(t);
}

/// A round of one that has heard of another leader, or does not lead, sends nothing. The former
/// becomes a follower, and the news is used up; the latter stays as it is.
pub proof fn law_round_without_the_lead(s: RaftState)
    requires
        s.inv(),
        s.received_valid_rpc || !(s.role is Leader),
    ensures
        ({
            let t = s.leader_task();
            &&& s.leader_task_sends().len() == 0
            &&& !t.received_valid_rpc
            &&& t.role == if s.received_valid_rpc {
                Role::Follower
            } else {
                s.role
            }
            &&& t.current_term == s.current_term
            &&& t.voted_for == s.voted_for
            &&& same_log(s, t)
            &&& same_knowledge(s, t)
        }),
{
}

/// A round takes the commit index to the last position of the leader's own term that half of the
/// peers are known to hold, if there is one behind it, and changes nothing else.
pub proof fn law_round_commits_what_enough_peers_hold(s: RaftState)
    requires
        s.inv(),
        s.role is Leader,
        !s.received_valid_rpc,
    ensures
        ({
            let t = s.leader_task();
            let c = t.commit_index as int;
            &&& s.commit_index <= c < s.log.len()
            &&& c > s.commit_index ==> s.log[c].term == s.current_term && 2 * holders(s, c).len()
                >= s.num_peers
            &&& forall|n: int|
                s.commit_index < n < s.log.len() && (#[trigger] s.log[n]).term == s.current_term
                    && 2 * holders(s, n).len() >= s.num_peers ==> n <= c
            &&& t.log == s.log
            &&& t.last_applied == s.last_applied
            &&& t.num_peers == s.num_peers && t.me == s.me
            &&& same_standing(s, t)
            &&& same_knowledge(s, t)
        }),
{
    lemma_new_commit_index(s, s.log.len() - 1);
    let c = s.leader_task().commit_index as int;
    assert forall|n: int| #[trigger] holders(s, n) =~= peers_at(s.match_index, n) by {}
    assert(holders(s, c) == peers_at(s.match_index, c));
    assert forall|n: int|
        s.commit_index < n < s.log.len() && (#[trigger] s.log[n]).term == s.current_term && 2
            * holders(s, n).len() >= s.num_peers implies n <= c by {
        assert(holders(s, n) == peers_at(s.match_index, n));
        assert(s.committable(n));
    }
}

/// A leader may go through a round unless it takes another log to be longer than its own, whatever
/// it takes its own to be.
pub proof fn law_round_is_possible(s: RaftState)
    ensures
        s.still_leads() <==> s.role is Leader && !s.received_valid_rpc,
        (forall|i: int|
            0 <= i < s.num_peers && i != s.me ==> !(#[trigger] s.next_index[i] > s.log.len()))
            <==> s.can_broadcast(),
{
}

/// A peer that has won makes itself known to every other peer, by a request without entries that
/// builds on the end of its log.
pub proof fn law_winner_makes_itself_known(s: RaftState, tally: Election, result: VoteResult)
    requires
        s.inv(),
        s.me < s.num_peers,
        s.count_vote(tally, result).role is Leader,
        !(s.role is Leader),
    ensures
        ({
            let t = s.count_vote(tally, result);
            &&& s.wins(tally, result)
            &&& one_to_each(t.broadcast(), s.num_peers, s.me)
            &&& forall|k: int|
                0 <= k < t.broadcast().len() ==> {
                    let r = (#[trigger] t.broadcast()[k]).1;
                    &&& r.term == s.current_term
                    &&& r.leader_id == s.me
                    &&& r.prev_log_index + 1 == s.log.len()
                    &&& r.prev_log_term == s.log[s.log.len() - 1].term
                    &&& r.entries.len() == 0
                    &&& r.leader_commit == s.commit_index
                }
        }),
{
    let t = s.count_vote(tally, result);
    law_everyone_is_sent_what_it_lacks(t);
    assert forall|k: int| 0 <= k < t.broadcast().len() implies ({
        let r = (#[trigger] t.broadcast()[k]).1;
        &&& r.prev_log_index + 1 == s.log.len()
        &&& r.entries.len() == 0
        &&& r.prev_log_term == s.log[s.log.len() - 1].term
        &&& r.leader_commit == s.commit_index
        &&& r.term == s.current_term
        &&& r.leader_id == s.me
    }) by {
        let peer = t.broadcast()[k].0;
        assert(carries_rest(t, t.broadcast()[k].1, t.next_index[peer as int] as int));
        assert(t.next_index[peer as int] == s.log.len());
    }
}

/// A success tells the leader that the peer holds all that was sent, and what that builds on: of
/// the two, what it knew and what it is told, it keeps the further one, and where it is told more
/// it goes on right behind that; whatever has become of its own log since. It changes nothing of
/// what it knows of other peers, nor its log.
pub proof fn law_success_is_taken_in(
    s: RaftState,
    peer: usize,
    sent: AppendRequest,
    reply: AppendEntriesReply,
)
    requires
        s.inv(),
        peer < s.match_index.len(),
        reply.success,
        sent.prev_log_index + sent.entries.len() < usize::MAX,
    ensures
        ({
            let t = s.take_reply(peer, sent, reply);
            let p = peer as int;
            let told = sent.prev_log_index + sent.entries.len();
            &&& told > s.match_index[p] ==> t.match_index[p] == told && t.next_index[p] == told + 1
            &&& told <= s.match_index[p] ==> t.match_index[p] == s.match_index[p]
                && t.next_index[p] == s.next_index[p]
            &&& t.match_index.len() == s.match_index.len()
            &&& t.next_index.len() == s.next_index.len()
            &&& forall|i: int|
                0 <= i < s.match_index.len() && i != p ==> #[trigger] t.match_index[i]
                    == s.match_index[i]
            &&& forall|i: int|
                0 <= i < s.next_index.len() && i != p ==> #[trigger] t.next_index[i]
                    == s.next_index[i]
        }),
{
}

/// A refusal in answer to what was sent in its own term takes the leader behind its own last entry
/// of the term in the way, where it has one past the first position; else to where the peer points,
/// but not before the first position. It changes nothing else of what the leader knows.
pub proof fn law_refusal_is_taken_in(
    s: RaftState,
    peer: usize,
    sent: AppendRequest,
    reply: AppendEntriesReply,
)
    requires
        s.inv(),
        peer < s.next_index.len(),
        !reply.success,
        reply.term == sent.term,
        reply.xindex is Some,
    ensures
        ({
            let t = s.take_reply(peer, sent, reply);
            let p = peer as int;
            let next = t.next_index[p] as int;
            let pointed = if reply.xindex->0 == 0 {
                1
            } else {
                reply.xindex->0 as int
            };
            &&& reply.xterm is None ==> next == pointed
            &&& reply.xterm matches Some(x) ==> {
                &&& (forall|j: int| 1 <= j < s.log.len() ==> (#[trigger] s.log[j]).term != x) ==> next
                    == pointed
                &&& forall|j: int|
                    1 <= j < s.log.len() && (#[trigger] s.log[j]).term == x && (forall|k: int|
                        j < k < s.log.len() ==> (#[trigger] s.log[k]).term != x) ==> next == j + 1
            }
            &&& t.match_index == s.match_index
            &&& t.next_index.len() == s.next_index.len()
            &&& forall|i: int|
                0 <= i < s.next_index.len() && i != p ==> #[trigger] t.next_index[i]
                    == s.next_index[i]
        }),
{
    if reply.xterm is Some {
        lemma_last_of_term(s.log, reply.xterm->0, s.log.len() as int);
    }
}

/// A refusal that points nowhere still serves where the leader has an entry of the term in the way.
pub proof fn law_own_entry_shows_where_to_go_on(
    s: RaftState,
    peer: usize,
    sent: AppendRequest,
    reply: AppendEntriesReply,
    j: int,
)
    requires
        s.inv(),
        peer < s.next_index.len(),
        !reply.success,
        reply.term == sent.term,
        1 <= j < s.log.len(),
        reply.xterm == Some(s.log[j].term),
        forall|k: int| j < k < s.log.len() ==> (#[trigger] s.log[k]).term != s.log[j].term,
    ensures
        s.can_take_reply(peer, sent, reply),
        s.take_reply(peer, sent, reply).next_index[peer as int] == j + 1,
{
    lemma_last_of_term(s.log, reply.xterm->0, s.log.len() as int);
}

/// Any answer of a higher term makes the leader a follower in it; no answer changes anything else
/// but what it knows of other logs, and one that refuses what was sent in another term not even
/// that.
pub proof fn law_answer_changes_no_more(
    s: RaftState,
    peer: usize,
    sent: AppendRequest,
    reply: AppendEntriesReply,
)
    requires
        s.inv(),
        s.can_take_reply(peer, sent, reply),
    ensures
        ({
            let t = s.take_reply(peer, sent, reply);
            &&& reply.term > s.current_term ==> t.current_term == reply.term && t.role is Follower
                && t.voted_for is None
            &&& reply.term <= s.current_term ==> t.current_term == s.current_term && t.role
                == s.role && t.voted_for == s.voted_for
            &&& t.received_valid_rpc == s.received_valid_rpc
            &&& !reply.success && reply.term != sent.term ==> same_knowledge(s, t)
            &&& same_log(s, t)
        }),
{
}

/// An answer is of use unless it is of a peer that this one has no position for, counts beyond what
/// the machine can hold, or refuses without a hint where to go on.
pub proof fn law_answer_is_of_use(
    s: RaftState,
    peer: usize,
    sent: AppendRequest,
    reply: AppendEntriesReply,
)
    requires
        s.inv(),
    ensures
        peer < s.match_index.len() && reply.success && sent.prev_log_index + sent.entries.len()
            < usize::MAX ==> s.can_take_reply(peer, sent, reply),
        peer < s.match_index.len() && !reply.success && reply.xindex is Some ==> s.can_take_reply(
            peer,
            sent,
            reply,
        ),
        !reply.success && reply.term != sent.term ==> s.can_take_reply(peer, sent, reply),
{
}

/// A success that says no more than the leader knows is of no effect, so one that comes twice
/// counts once.
pub proof fn law_success_counts_once(
    s: RaftState,
    peer: usize,
    sent: AppendRequest,
    reply: AppendEntriesReply,
)
    requires
        s.inv(),
        peer < s.match_index.len(),
        reply.success,
        sent.prev_log_index + sent.entries.len() < usize::MAX,
    ensures
        ({
            let t = s.take_reply(peer, sent, reply);
            t.take_reply(peer, sent, reply) == t
        }),
{
}

/// A leader takes a command in at the end of its log, in its own term, and knows that it holds it
/// itself; nothing else changes. Any other peer takes nothing in.
pub proof fn law_command_is_taken_in_at_the_end(s: RaftState, command: Seq<u8>)
    requires
        s.inv(),
        s.can_start(),
    ensures
        ({
            let t = s.start(command);
            let me = s.me as int;
            &&& s.role is Leader ==> {
                &&& t.log.len() == s.log.len() + 1
                &&& t.log.take(s.log.len() as int) == s.log
                &&& t.log[s.log.len() as int].term == s.current_term
                &&& t.log[s.log.len() as int].command == command
                &&& t.match_index[me] == s.log.len()
                &&& t.next_index[me] == s.next_index[me] + 1
                &&& t.match_index.len() == s.match_index.len()
                &&& t.next_index.len() == s.next_index.len()
                &&& forall|i: int|
                    0 <= i < s.match_index.len() && i != me ==> #[trigger] t.match_index[i]
                        == s.match_index[i]
                &&& forall|i: int|
                    0 <= i < s.next_index.len() && i != me ==> #[trigger] t.next_index[i]
                        == s.next_index[i]
                &&& t.num_peers == s.num_peers && t.me == s.me
                &&& t.commit_index == s.commit_index && t.last_applied == s.last_applied
            }
            &&& !(s.role is Leader) ==> same_log(s, t) && same_knowledge(s, t)
            &&& same_standing(s, t)
        }),
{
    assert(s.start(command).log.take(s.log.len() as int) =~= s.log);
}

/// A peer can be asked to take a command in unless a number would grow beyond what the machine can
/// hold, or it has no peers at all.
pub proof fn law_command_can_be_taken_in(s: RaftState)
    ensures
        s.role is Leader ==> (s.can_start() <==> s.log.len() < usize::MAX && s.next_index[s.me as int]
            < usize::MAX),
        !(s.role is Leader) ==> (s.can_start() <==> s.me < usize::MAX && s.num_peers > 0),
{
}

/// The service is sent on to the next peer, and behind the last one to the first.
pub proof fn law_service_is_sent_on_in_turn(s: RaftState)
    requires
        s.num_peers > 0,
    ensures
        s.me + 1 < s.num_peers ==> s.next_leader() == s.me + 1,
        s.me + 1 == s.num_peers ==> s.next_leader() == 0,
        0 <= s.next_leader() < s.num_peers,
        exists|q: int| s.me + 1 == #[trigger] (q * s.num_peers) + s.next_leader(),
{
    let n = s.num_peers as int;
    let q = (s.me + 1) / n;
    vstd::arithmetic::div_mod::lemma_fundamental_div_mod(s.me + 1, n);
    vstd::arithmetic::mul::lemma_mul_is_commutative(n, q);
    assert(s.me + 1 == (q * s.num_peers) + s.next_leader());
    if s.me + 1 < n {
        vstd::arithmetic::div_mod::lemma_small_mod((s.me + 1) as nat, n as nat);
    }
    if s.me + 1 == n {
        vstd::arithmetic::div_mod::lemma_mod_self_0(n);
    }
}

/// A command that was taken in goes out in the next round to every other peer, whatever that is
/// taken to lack besides.
pub proof fn law_command_goes_out_to_everyone(s: RaftState, command: Seq<u8>, k: int)
    requires
        s.inv(),
        s.role is Leader,
        !s.received_valid_rpc,
        s.can_start(),
        forall|i: int|
            0 <= i < s.num_peers && i != s.me ==> #[trigger] s.next_index[i] <= s.log.len(),
        0 <= k < s.start(command).leader_task_sends().len(),
    ensures
        one_to_each(s.start(command).leader_task_sends(), s.num_peers, s.me),
        ({
            let r = s.start(command).leader_task_sends()[k].1;
            &&& r.entries.len() > 0
            &&& r.prev_log_index + r.entries.len() == s.log.len()
            &&& r.entries[r.entries.len() - 1] == (Entry { term: s.current_term, command })
        }),
{
    let t = s.start(command);
    let msgs = t.leader_task_sends();
    assert forall|i: int| 0 <= i < t.num_peers && i != t.me implies #[trigger] t.next_index[i]
        <= t.log.len() by {
        assert(s.next_index[i] <= s.log.len());
    }
    law_everyone_is_sent_to_in_every_round(t);
    let peer = msgs[k].0 as int;
    let r = msgs[k].1;
    assert(carries_rest(t.leader_task(), r, t.next_index[peer] as int));
    assert(s.next_index[peer] <= s.log.len());
    assert(r.entries[r.entries.len() - 1] == t.log[s.log.len() as int]);
}

/// What a leader sends, in a round or when it has won, keeps a peer that is in no later term from
/// standing for election at the end of its wait, whatever its log holds.
pub proof fn law_leader_keeps_others_from_standing(
    leader: RaftState,
    follower: RaftState,
    next: int,
    role: Role,
)
    requires
        leader.inv(),
        follower.inv(),
        1 <= next <= leader.log.len(),
        follower.current_term <= leader.current_term,
    ensures
        ({
            let t = follower.append_entries(leader.append_request(next));
            &&& t.current_term == leader.current_term
            &&& !t.campaigns(role)
            &&& t.time_out(role).role is Follower
            &&& t.time_out(role).current_term == leader.current_term
        }),
{
}

/// The success of the last peer that was lacking gets an entry committed: where, with it, half of
/// the peers are known to hold an entry of the leader's own term, it is committed in the next
/// round, though the leader has taken in more since.
pub proof fn law_last_success_commits(
    s: RaftState,
    peer: usize,
    sent: AppendRequest,
    reply: AppendEntriesReply,
    n: int,
)
    requires
        s.inv(),
        s.role is Leader,
        !s.received_valid_rpc,
        peer < s.num_peers,
        reply.success,
        reply.term <= s.current_term,
        sent.prev_log_index + sent.entries.len() < usize::MAX,
        0 <= n < s.log.len(),
        s.log[n].term == s.current_term,
        n <= sent.prev_log_index + sent.entries.len(),
        2 * holders(s, n).insert(peer as int).len() >= s.num_peers,
    ensures
        s.take_reply(peer, sent, reply).leader_task().commit_index >= n,
{
    let t = s.take_reply(peer, sent, reply);
    law_success_is_taken_in(s, peer, sent, reply);
    law_round_commits_what_enough_peers_hold(t);
    let all = set_int_range(0, s.num_peers as int);
    lemma_int_range(0, s.num_peers as int);
    assert(t.inv());
    assert(holders(t, n).subset_of(all));
    lemma_set_subset_finite(all, holders(t, n));
    assert(holders(s, n).insert(peer as int).subset_of(holders(t, n))) by {
        assert forall|i: int| #[trigger] holders(s, n).insert(peer as int).contains(
            i,
        ) implies holders(t, n).contains(i) by {
            if i != peer {
                assert(t.match_index[i] == s.match_index[i]);
            }
        }
    }
    lemma_len_subset(holders(s, n).insert(peer as int), holders(t, n));
    assert(t.log[n].term == t.current_term);
}

} // verus!
