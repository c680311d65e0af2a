//! What a peer does at each event, field by field: what changes, and that nothing else does.
use vstd::prelude::*;

use crate::cluster::terms_in_order;
use crate::codec::{lemma_read_back, read_back, starts_with, stored_bytes, StoredState};
use crate::entry::{lemma_matched, lemma_run_start, matched, merged, Entry, LogEntry};
use crate::handle::RaftHandle;
use crate::message::{
    deliveries_of, requests_of, AppendEntriesArgs, AppendRequest, ApplyMsg, Delivery,
    RequestVoteArgs, RequestVoteReply, VoteResult,
};
use crate::raft::Raft;
use crate::state::{half_vote, lemma_stuck_at, other_peers, Election, RaftState, Role};

verus! {

/// Whether `t` has the term, the vote and the role that notice of `term` leaves a peer in state `s`
/// with: a higher term is taken over, without a vote and as a follower; any other changes none of
/// the three.
pub open spec fn notices_term(s: RaftState, t: RaftState, term: u64) -> bool {
    &&& term > s.current_term ==> t.current_term == term && t.role is Follower
        && t.voted_for is None
    &&& term <= s.current_term ==> t.current_term == s.current_term && t.role == s.role
        && t.voted_for == s.voted_for
}

/// Whether `t` is the same peer as `s`, and has the same log and knows the same of it.
pub open spec fn same_log(s: RaftState, t: RaftState) -> bool {
    &&& t.num_peers == s.num_peers
    &&& t.me == s.me
    &&& t.log == s.log
    &&& t.commit_index == s.commit_index
    &&& t.last_applied == s.last_applied
}

/// Whether `t` knows the same of other logs as `s`.
pub open spec fn same_knowledge(s: RaftState, t: RaftState) -> bool {
    &&& t.next_index == s.next_index
    &&& t.match_index == s.match_index
}

/// Whether `t` has the same term, vote and role as `s`, and has heard the same of leaders.
pub open spec fn same_standing(s: RaftState, t: RaftState) -> bool {
    &&& t.current_term == s.current_term
    &&& t.voted_for == s.voted_for
    &&& t.role == s.role
    &&& t.received_valid_rpc == s.received_valid_rpc
}

/// A peer can be in any state in which it has applied no more than is committed, what is committed
/// is in its log, and a leader is one of its peers and has a position for each of them.
pub proof fn law_no_other_state_is_ruled_out(s: RaftState)
    requires
        s.last_applied <= s.commit_index,
        s.commit_index < s.log.len(),
        s.log.len() <= usize::MAX,
        s.next_index.len() == s.match_index.len(),
        s.role is Leader ==> s.me < s.num_peers && s.next_index.len() == s.num_peers,
        forall|i: int| 0 <= i < s.next_index.len() ==> s.next_index[i] != 0,
    ensures
        s.inv(),
{
}

/// Half of the peers are enough, and not fewer.
pub proof fn law_half_is_enough(num_peers: usize, count: int)
    ensures
        count >= half_vote(num_peers) <==> 2 * count >= num_peers,
{
}

/// A vote is given exactly where the candidate stands in no earlier term, no other candidate has
/// the vote of its term, and its log does not end before the voter's: by the term of the last
/// entry first, then by its position, however far ahead the candidate is. The answer says so, and
/// names the later of the two terms.
pub proof fn law_vote_is_given_when_due(s: RaftState, args: RequestVoteArgs)
    requires
        s.inv(),
    ensures
        ({
            let reply = s.request_vote_reply(args);
            let last = s.log[s.log.len() - 1];
            let free = args.term > s.current_term || s.voted_for is None || s.voted_for == Some(
                args.candidate_id,
            );
            let ahead = args.last_log_term > last.term || (args.last_log_term == last.term
                && args.last_log_index + 1 >= s.log.len());
            &&& reply.vote_granted <==> args.term >= s.current_term && free && ahead
            &&& reply.term >= s.current_term && reply.term >= args.term
            &&& reply.term == s.current_term || reply.term == args.term
        }),
{
}

/// A vote that is given is remembered, and counts as news; one that is not given changes nothing
/// but what a higher term does.
pub proof fn law_vote_is_remembered(s: RaftState, args: RequestVoteArgs)
    requires
        s.inv(),
    ensures
        ({
            let t = s.request_vote(args);
            &&& s.request_vote_reply(args).vote_granted ==> {
                &&& t.voted_for == Some(args.candidate_id)
                &&& t.received_valid_rpc
                &&& t.current_term == args.term
                &&& t.role == if args.term > s.current_term {
                    Role::Follower
                } else {
                    s.role
                }
            }
            &&& !s.request_vote_reply(args).vote_granted ==> {
                &&& notices_term(s, t, args.term)
                &&& t.received_valid_rpc == s.received_valid_rpc
            }
            &&& same_log(s, t)
            &&& same_knowledge(s, t)
        }),
{
}

/// A candidate whose log goes on from the voter's gets the vote, if it stands in a later term than
/// the voter has seen, or in the same one and the voter has given none in it.
pub proof fn law_longer_log_gets_the_vote(candidate: RaftState, voter: RaftState, role: Role)
    requires
        candidate.inv(),
        voter.inv(),
        !candidate.received_valid_rpc,
        candidate.role == role,
        candidate.current_term < u64::MAX,
        voter.current_term <= candidate.current_term || (voter.current_term
            == candidate.current_term + 1 && voter.voted_for is None),
        terms_in_order(candidate.log, candidate.current_term),
        voter.log.len() <= candidate.log.len(),
        candidate.log.take(voter.log.len() as int) == voter.log,
    ensures
        ({
            let ballot = candidate.time_out(role).vote_request();
            let t = voter.request_vote(ballot);
            &&& voter.request_vote_reply(ballot).vote_granted
            &&& voter.request_vote_reply(ballot).term == candidate.current_term + 1
            &&& t.voted_for == Some(candidate.me)
            &&& candidate.time_out(role).vote_result(
                ballot.term,
                Some(voter.request_vote_reply(ballot)),
            ) == Some(VoteResult::Granted)
        }),
{
    let n = voter.log.len() as int;
    assert(voter.log[n - 1] == candidate.log.take(n)[n - 1]);
    assert(candidate.log[n - 1].term <= candidate.log[candidate.log.len() - 1].term);
}

/// A vote, once given, is given again to the same candidate and to no other, as long as the term
/// lasts.
pub proof fn law_vote_is_repeated(s: RaftState, first: RequestVoteArgs, second: RequestVoteArgs)
    requires
        s.inv(),
        s.request_vote_reply(first).vote_granted,
        second.term == first.term,
    ensures
        s.request_vote(first).request_vote_reply(first).vote_granted,
        second.candidate_id != first.candidate_id ==> !s.request_vote(first).request_vote_reply(
            second,
        ).vote_granted,
{
}

/// Whatever news there was, it is used up at the end of a wait: a peer that has heard of a leader
/// or given its vote becomes a follower and waits on; one that has not, and is in the role in which
/// it began to wait, stands in the next term and votes for itself; any other goes on as it is.
pub proof fn law_wait_ends(s: RaftState, initial_role: Role)
    requires
        s.inv(),
        !s.received_valid_rpc && s.role == initial_role ==> s.current_term < u64::MAX,
    ensures
        ({
            let t = s.time_out(initial_role);
            &&& !t.received_valid_rpc
            &&& s.campaigns(initial_role) <==> !s.received_valid_rpc && s.role == initial_role
            &&& s.received_valid_rpc ==> {
                &&& t.role is Follower
                &&& t.current_term == s.current_term
                &&& t.voted_for == s.voted_for
            }
            &&& !s.received_valid_rpc && s.role == initial_role ==> {
                &&& t.role is Candidate
                &&& t.current_term == s.current_term + 1
                &&& t.voted_for == Some(s.me)
            }
            &&& !s.received_valid_rpc && s.role != initial_role ==> same_standing(s, t)
            &&& same_log(s, t)
            &&& same_knowledge(s, t)
        }),
{
}

/// News puts an election off for one wait only: a peer that does not lead, and to which nothing
/// happens from one wait to the next, stands for election in the next term at the end of the
/// second at the latest.
pub proof fn law_silence_leads_to_an_election(s: RaftState)
    requires
        s.inv(),
        !(s.role is Leader),
        s.current_term < u64::MAX,
    ensures
        ({
            let t = s.time_out(s.role);
            let u = t.time_out(t.role);
            if s.received_valid_rpc {
                &&& !s.campaigns(s.role)
                &&& t.campaigns(t.role)
                &&& u.role is Candidate
                &&& u.current_term == s.current_term + 1
                &&& u.voted_for == Some(s.me)
            } else {
                &&& s.campaigns(s.role)
                &&& t.role is Candidate
                &&& t.current_term == s.current_term + 1
                &&& t.voted_for == Some(s.me)
            }
        }),
{
}

/// What a peer asks for by: its term, its name, and the last entry of its log.
pub proof fn law_ballot_names_the_last_entry(s: RaftState)
    requires
        s.inv(),
    ensures
        s.vote_request().term == s.current_term,
        s.vote_request().candidate_id == s.me,
        s.vote_request().last_log_index + 1 == s.log.len(),
        s.vote_request().last_log_term == s.log[s.log.len() - 1].term,
{
}

/// What is made of an answer: a higher term than the own goes before all else; a vote counts only
/// in the term in which it was asked for; any other answer is a refusal. So is none at all, as long
/// as that term lasts; after it, none is nothing.
pub proof fn law_answer_is_understood(s: RaftState, term: u64, reply: RequestVoteReply)
    ensures
        s.vote_result(term, Some(reply)) is Some,
        forall|h: u64|
            s.vote_result(term, Some(reply)) == Some(VoteResult::HigherTerm(h)) <==> (reply.term
                == h && h > s.current_term),
        s.vote_result(term, Some(reply)) == Some(VoteResult::Granted) <==> reply.term
            <= s.current_term && s.current_term == term && reply.vote_granted,
        s.vote_result(term, None) == Some(VoteResult::Denied) <==> s.current_term == term,
        s.vote_result(term, None) is None <==> s.current_term != term,
{
}

/// An election is open from the candidate's own vote on, until all peers have answered.
pub proof fn law_election_is_open(tally: Election, num_peers: usize)
    ensures
        tally.num_granted >= 1 && tally.num_granted <= tally.num_voted && (tally.num_voted <= 1
            || tally.num_voted < num_peers) <==> tally.open_among(num_peers),
{
}

/// Every answer is counted once, and as a vote only if it is one. A higher term ends the election
/// without a vote left.
pub proof fn law_answer_is_counted(tally: Election, result: VoteResult, num_peers: usize)
    requires
        tally.num_voted < usize::MAX,
        tally.num_granted <= tally.num_voted,
    ensures
        ({
            let after = tally.count(result, num_peers);
            &&& result is Granted ==> after.num_granted == tally.num_granted + 1
            &&& result is Denied ==> after.num_granted == tally.num_granted
            &&& !(result is HigherTerm) ==> after.num_voted == tally.num_voted + 1
            &&& result is HigherTerm ==> after.num_granted == 0 && after.num_voted == num_peers
        }),
{
}

/// A candidate wins with the votes of half of the peers, its own among them, and not with fewer;
/// unless it has heard of a leader. It then leads in its term, takes all logs to be as long as its
/// own, and knows of no log but its own what that holds.
pub proof fn law_enough_votes_win(s: RaftState, tally: Election, result: VoteResult)
    requires
        s.inv(),
        tally.open_among(s.num_peers),
        s.role is Candidate,
        !s.received_valid_rpc,
        !(result is HigherTerm),
    ensures
        ({
            let t = s.count_vote(tally, result);
            let votes = tally.num_granted + if result is Granted {
                1int
            } else {
                0int
            };
            &&& s.wins(tally, result) <==> 2 * votes >= s.num_peers
            &&& t.role is Leader <==> 2 * votes >= s.num_peers
            &&& t.role is Leader ==> {
                &&& t.next_index.len() == s.num_peers
                &&& t.match_index.len() == s.num_peers
                &&& forall|i: int|
                    0 <= i < s.num_peers ==> #[trigger] t.next_index[i] == s.log.len()
                &&& forall|i: int|
                    0 <= i < s.num_peers ==> #[trigger] t.match_index[i] == if i == s.me {
                        s.log.len() - 1
                    } else {
                        0
                    }
                &&& t.current_term == s.current_term
                &&& t.voted_for == s.voted_for
                &&& !t.received_valid_rpc
            }
            &&& !(t.role is Leader) ==> same_standing(s, t) && same_knowledge(s, t)
            &&& same_log(s, t)
            &&& s.ends_election(tally, result) <==> 2 * votes >= s.num_peers || tally.num_voted + 1
                >= s.num_peers
        }),
{
}

/// A peer that hears of a higher term, or has heard of a leader, or no longer stands, does not win:
/// its election is over, any news is used up, and it is a follower, but for one that has come to
/// lead or follow already.
pub proof fn law_election_is_called_off(s: RaftState, tally: Election, result: VoteResult)
    requires
        s.inv(),
        tally.open_among(s.num_peers),
        result is HigherTerm || s.received_valid_rpc || !(s.role is Candidate),
    ensures
        ({
            let t = s.count_vote(tally, result);
            &&& !s.wins(tally, result)
            &&& s.ends_election(tally, result)
            &&& !t.received_valid_rpc
            &&& result matches VoteResult::HigherTerm(h) ==> {
                &&& t.role is Follower
                &&& h > s.current_term ==> t.current_term == h && t.voted_for is None
                &&& h <= s.current_term ==> t.current_term == s.current_term && t.voted_for
                    == s.voted_for
            }
            &&& !(result is HigherTerm) ==> {
                &&& t.current_term == s.current_term
                &&& t.voted_for == s.voted_for
                &&& t.role == if s.received_valid_rpc {
                    Role::Follower
                } else {
                    s.role
                }
            }
            &&& same_log(s, t)
            &&& same_knowledge(s, t)
        }),
{
}

/// Whether the entry `i` of a request already stands in `log`, by its term, with all before it.
pub open spec fn stands(log: Seq<Entry>, args: AppendRequest, i: int) -> bool {
    forall|j: int|
        0 <= j <= i ==> {
            &&& args.prev_log_index + 1 + j < log.len()
            &&& log[args.prev_log_index + 1 + j].term == (#[trigger] args.entries[j]).term
        }
}

/// A request is accepted exactly where it comes from no earlier term, and builds on an entry that
/// the log holds, by its term. The answer names the later of the two terms.
pub proof fn law_request_is_accepted_where_it_joins(s: RaftState, args: AppendRequest)
    requires
        s.inv(),
    ensures
        ({
            let reply = s.append_entries_reply(args);
            let prev = args.prev_log_index as int;
            &&& reply.success <==> args.term >= s.current_term && prev < s.log.len()
                && s.log[prev].term == args.prev_log_term
            &&& reply.success <==> s.accepts(args)
            &&& reply.term >= s.current_term && reply.term >= args.term
            &&& reply.term == s.current_term || reply.term == args.term
            &&& reply.success ==> reply.xterm is None && reply.xindex is None
        }),
{
}

/// A refusal says why: nothing to an outdated leader, the end of the log where that is too short,
/// else the term in the way and the first position of its run.
pub proof fn law_refusal_says_where_to_go_on(s: RaftState, args: AppendRequest)
    requires
        s.inv(),
        !s.append_entries_reply(args).success,
    ensures
        ({
            let reply = s.append_entries_reply(args);
            let prev = args.prev_log_index as int;
            &&& args.term < s.current_term ==> reply.xterm is None && reply.xindex is None
            &&& args.term >= s.current_term && prev >= s.log.len() ==> reply.xterm is None && (
            reply.xindex matches Some(x) && x == s.log.len())
            &&& args.term >= s.current_term && prev < s.log.len() ==> {
                &&& reply.xterm == Some(s.log[prev].term)
                &&& reply.xindex matches Some(x)
                &&& x <= prev
                &&& forall|j: int| x <= j <= prev ==> (#[trigger] s.log[j]).term == s.log[prev].term
                &&& x > 0 ==> s.log[x - 1].term != s.log[prev].term
            }
        }),
{
    if args.prev_log_index < s.log.len() {
        lemma_run_start(s.log, args.prev_log_index as int);
    }
}

/// An outdated leader changes nothing. Any other is news, whether its request is accepted or not,
/// and a higher term is taken over; a request that is refused changes nothing else, and one that is
/// accepted nothing but the log and the commit index.
pub proof fn law_leader_is_heard(s: RaftState, args: AppendRequest)
    requires
        s.inv(),
        s.can_append(args),
    ensures
        ({
            let t = s.append_entries(args);
            &&& args.term < s.current_term ==> same_standing(s, t)
            &&& args.term >= s.current_term ==> notices_term(s, t, args.term)
                && t.received_valid_rpc
            &&& !s.append_entries_reply(args).success ==> same_log(s, t)
            &&& t.num_peers == s.num_peers
            &&& t.me == s.me
            &&& t.last_applied == s.last_applied
            &&& same_knowledge(s, t)
        }),
{
}

/// The entries that stand are those that are counted as such.
proof fn lemma_stands(log: Seq<Entry>, args: AppendRequest, i: int)
    requires
        args.prev_log_index < log.len(),
        0 <= i < args.entries.len(),
    ensures
        stands(log, args, i) <==> i < matched(log, args.prev_log_index + 1, args.entries, 0),
{
    let next = args.prev_log_index + 1;
    let m = matched(log, next, args.entries, 0);
    lemma_matched(log, next, args.entries, 0);
    if i >= m {
        let e = args.entries[m];
        assert(!(next + m < log.len() && log[next + m].term == e.term));
    }
}

/// What becomes of a log over which the entries of a request are laid.
proof fn lemma_laid_over(log: Seq<Entry>, args: AppendRequest)
    requires
        args.prev_log_index < log.len(),
    ensures
        ({
            let next = args.prev_log_index + 1;
            let n = args.entries.len() as int;
            let new = merged(log, next, args.entries);
            &&& new.len() >= next + n
            &&& new.take(next) == log.take(next)
            &&& forall|i: int|
                0 <= i < n ==> new[next + i] == if #[trigger] stands(log, args, i) {
                    log[next + i]
                } else {
                    args.entries[i]
                }
            &&& stands(log, args, n - 1) ==> new == log
            &&& !stands(log, args, n - 1) ==> new.len() == next + n
        }),
{
    let next = args.prev_log_index + 1;
    let n = args.entries.len() as int;
    let new = merged(log, next, args.entries);
    let m = matched(log, next, args.entries, 0);
    lemma_matched(log, next, args.entries, 0);
    assert(new.take(next) =~= log.take(next));
    assert forall|i: int| 0 <= i < n implies new[next + i] == if #[trigger] stands(log, args, i) {
        log[next + i]
    } else {
        args.entries[i]
    } by {
        lemma_stands(log, args, i);
        if i >= m {
            assert(args.entries.skip(m)[i - m] == args.entries[i]);
        }
    }
    if n > 0 {
        lemma_stands(log, args, n - 1);
    } else {
        assert(stands(log, args, n - 1));
    }
}

/// What an accepted request makes of the log: what it builds on stays; each of its entries then
/// stands at its position, the log's own one where that stands with all before it, else the one
/// that was sent; and whatever the log holds past them stays exactly where all of them stood.
pub proof fn law_accepted_entries_are_laid_over_the_log(s: RaftState, args: AppendRequest)
    requires
        s.inv(),
        s.append_entries_reply(args).success,
    ensures
        ({
            let log = s.append_entries(args).log;
            let next = args.prev_log_index + 1;
            let n = args.entries.len() as int;
            &&& log.len() >= next + n
            &&& log.take(next) == s.log.take(next)
            &&& forall|i: int|
                0 <= i < n ==> log[next + i] == if #[trigger] stands(s.log, args, i) {
                    s.log[next + i]
                } else {
                    args.entries[i]
                }
            &&& stands(s.log, args, n - 1) ==> log == s.log
            &&& !stands(s.log, args, n - 1) ==> log.len() == next + n
        }),
{
    lemma_laid_over(s.log, args);
}

/// A follower takes over the leader's commit index as far as it then shares the leader's log, and
/// never goes back.
pub proof fn law_commit_index_is_taken_over(s: RaftState, args: AppendRequest)
    requires
        s.inv(),
        s.can_append(args),
        s.append_entries_reply(args).success,
    ensures
        ({
            let c = s.append_entries(args).commit_index;
            let shared = args.prev_log_index + args.entries.len();
            &&& c >= s.commit_index
            &&& args.leader_commit <= shared ==> c >= args.leader_commit
            &&& args.leader_commit > shared ==> c >= shared
            &&& c == s.commit_index || c == args.leader_commit || c == shared
            &&& c > s.commit_index ==> c <= args.leader_commit && c <= shared
        }),
{
}

/// A request can be taken unless it is accepted and lays an entry of another term over a committed
/// one, or would take the commit index back.
pub proof fn law_only_harm_to_what_is_committed_is_ruled_out(s: RaftState, args: AppendRequest)
    requires
        s.inv(),
    ensures
        !s.append_entries_reply(args).success ==> s.can_append(args),
        s.append_entries_reply(args).success ==> (s.can_append(args) <==> {
            let shared = args.prev_log_index + args.entries.len();
            &&& forall|k: int|
                args.prev_log_index < k <= s.commit_index && k <= shared ==> (
                #[trigger] s.log[k]).term == args.entries[k - args.prev_log_index - 1].term
            &&& args.leader_commit <= s.commit_index || shared >= s.commit_index
        }),
{
    let prev = args.prev_log_index as int;
    if s.accepts(args) {
        let shared = prev + args.entries.len();
        let spared = forall|k: int|
            prev < k <= s.commit_index && k <= shared ==> (#[trigger] s.log[k]).term
                == args.entries[k - prev - 1].term;
        if spared {
            assert forall|i: int|
                0 <= i < args.entries.len() && prev + 1 + i <= s.commit_index implies (
            #[trigger] args.entries[i]).term == s.log[prev + 1 + i].term by {
                let e = s.log[prev + 1 + i];
            }
        }
        if s.keeps_committed(args) {
            assert forall|k: int| prev < k <= s.commit_index && k <= shared implies (
            #[trigger] s.log[k]).term == args.entries[k - prev - 1].term by {
                let e = args.entries[k - prev - 1];
            }
        }
    }
}

/// Where all commands that are committed and not yet applied are entries of the service, all of
/// them are handed over: one message for each, in the order of the log and under its index, up to
/// the commit index, whatever was applied before. There is then nothing left to hand over.
pub proof fn law_all_that_is_committed_is_handed_over(s: RaftState)
    requires
        s.inv(),
        forall|i: int|
            s.last_applied < i <= s.commit_index ==> (#[trigger] s.log[i]).command.len() >= 8,
    ensures
        ({
            let t = s.commit_entries();
            let msgs = s.applicable();
            &&& s.stuck_at(s.last_applied + 1) is None
            &&& t.last_applied == s.commit_index
            &&& msgs.len() == s.commit_index - s.last_applied
            &&& forall|k: int|
                0 <= k < msgs.len() ==> (#[trigger] msgs[k] matches Delivery::Command {
                    data,
                    index,
                } && index == s.last_applied + 1 + k && data == s.log[s.last_applied + 1
                    + k].command)
            &&& t.applicable().len() == 0
            &&& t.log == s.log && t.commit_index == s.commit_index
            &&& t.num_peers == s.num_peers && t.me == s.me
            &&& same_standing(s, t)
            &&& same_knowledge(s, t)
        }),
{
    lemma_stuck_at(s, s.last_applied + 1);
}

/// The first command that is committed and not yet applied but is no entry of the service stops the
/// rest: what is before it is handed over, it is not, and it counts as applied.
pub proof fn law_no_entry_stops_the_rest(s: RaftState, i: int)
    requires
        s.inv(),
        s.last_applied < i <= s.commit_index,
        s.log[i].command.len() < 8,
        forall|j: int| s.last_applied < j < i ==> (#[trigger] s.log[j]).command.len() >= 8,
    ensures
        ({
            let t = s.commit_entries();
            let msgs = s.applicable();
            &&& s.stuck_at(s.last_applied + 1) is Some
            &&& t.last_applied == i
            &&& msgs.len() == i - s.last_applied - 1
            &&& forall|k: int|
                0 <= k < msgs.len() ==> (#[trigger] msgs[k] matches Delivery::Command {
                    data,
                    index,
                } && index == s.last_applied + 1 + k && data == s.log[s.last_applied + 1
                    + k].command)
            &&& t.log == s.log && t.commit_index == s.commit_index
            &&& t.num_peers == s.num_peers && t.me == s.me
            &&& same_standing(s, t)
            &&& same_knowledge(s, t)
        }),
{
    lemma_stuck_at(s, s.last_applied + 1);
}

/// A peer keeps its term, its vote and its log over a crash; it finds these again, and nothing
/// else: it starts as a follower that has applied nothing and knows of no leader.
pub proof fn law_what_is_kept_over_a_crash(s: RaftState, num_peers: usize, me: usize)
    ensures
        ({
            let t = RaftState::initial(num_peers, me).restore(s.stored());
            &&& s.stored().current_term == s.current_term
            &&& s.stored().voted_for == s.voted_for
            &&& s.stored().log == s.log
            &&& t.current_term == s.current_term
            &&& t.voted_for == s.voted_for
            &&& t.log == s.log
            &&& t.num_peers == num_peers
            &&& t.me == me
            &&& t.commit_index == 0
            &&& t.last_applied == 0
            &&& t.role is Follower
            &&& !t.received_valid_rpc
            &&& t.next_index.len() == 0
            &&& t.match_index.len() == 0
        }),
{
}

/// What was stored is taken over into any state, and all else in it stays.
pub proof fn law_restoring_takes_over_no_more(s: RaftState, p: StoredState)
    ensures
        ({
            let t = s.restore(p);
            &&& t.current_term == p.current_term
            &&& t.voted_for == p.voted_for
            &&& t.log == p.log
            &&& t.num_peers == s.num_peers
            &&& t.me == s.me
            &&& t.commit_index == s.commit_index
            &&& t.last_applied == s.last_applied
            &&& t.role == s.role
            &&& t.received_valid_rpc == s.received_valid_rpc
            &&& same_knowledge(s, t)
        }),
{
}

/// A peer that has never run is in term zero without a vote, and its log holds one entry of that
/// term, in which no command stands.
pub proof fn law_first_state(num_peers: usize, me: usize)
    ensures
        ({
            let s = RaftState::initial(num_peers, me);
            &&& s.num_peers == num_peers && s.me == me
            &&& s.current_term == 0 && s.voted_for is None
            &&& s.log.len() == 1 && s.log[0].term == 0 && s.log[0].command.len() == 0
            &&& s.commit_index == 0 && s.last_applied == 0
            &&& s.role is Follower && !s.received_valid_rpc
            &&& s.next_index.len() == 0 && s.match_index.len() == 0
        }),
{
}

/// All peers but this one are listed, in order and once each.
pub proof fn law_other_peers_are_listed(num_peers: usize, me: usize, peer: usize)
    ensures
        other_peers(num_peers, me).contains(peer) <==> peer < num_peers && peer != me,
        forall|j: int, k: int|
            0 <= j < k < other_peers(num_peers, me).len() ==> #[trigger] other_peers(
                num_peers,
                me,
            )[j] < #[trigger] other_peers(num_peers, me)[k],
{
    let others = other_peers(num_peers, me);
    if peer < num_peers && peer != me {
        let k = if peer < me {
            peer as int
        } else {
            peer - 1
        };
        assert(others[k] == peer);
    }
    if others.contains(peer) {
        let k = choose|k: int| 0 <= k < others.len() && others[k] == peer;
    }
}

/// Nothing of a peer is left out of its state as a mathematical value.
pub proof fn law_state_shows_the_whole_peer(raft: Raft)
    ensures
        raft@.num_peers == raft.num_peers && raft@.me == raft.me,
        raft@.current_term == raft.current_term && raft@.voted_for == raft.voted_for,
        raft@.commit_index == raft.commit_index && raft@.last_applied == raft.last_applied,
        raft@.role == raft.role && raft@.received_valid_rpc == raft.received_valid_rpc,
        raft@.next_index == raft.next_index@ && raft@.match_index == raft.match_index@,
        raft@.log.len() == raft.log.len(),
        forall|i: int|
            0 <= i < raft.log.len() ==> (#[trigger] raft@.log[i]).term == raft.log[i].term
                && raft@.log[i].command == raft.log[i].command@,
{
}

/// Nothing of an entry is left out of it as a mathematical value.
pub proof fn law_entry_is_shown_whole(e: LogEntry)
    ensures
        e@.term == e.term,
        e@.command == e.command@,
{
}

/// Nothing of a request is left out of it as a mathematical value.
pub proof fn law_request_is_shown_whole(args: AppendEntriesArgs)
    ensures
        args@.term == args.term && args@.leader_id == args.leader_id,
        args@.prev_log_index == args.prev_log_index && args@.prev_log_term == args.prev_log_term,
        args@.leader_commit == args.leader_commit,
        args@.entries.len() == args.entries.len(),
        forall|i: int|
            0 <= i < args.entries.len() ==> (#[trigger] args@.entries[i]).term
                == args.entries[i].term && args@.entries[i].command == args.entries[i].command@,
{
}

/// Nothing of what is sent, and to whom, is left out of it as mathematical values.
pub proof fn law_requests_are_shown_whole(msgs: Seq<(usize, AppendEntriesArgs)>)
    ensures
        requests_of(msgs).len() == msgs.len(),
        forall|k: int|
            0 <= k < msgs.len() ==> (#[trigger] requests_of(msgs)[k]).0 == msgs[k].0
                && requests_of(msgs)[k].1 == msgs[k].1@,
{
}

/// Nothing of what is handed to the service is left out of it as mathematical values.
pub proof fn law_deliveries_are_shown_whole(msgs: Seq<ApplyMsg>)
    ensures
        deliveries_of(msgs).len() == msgs.len(),
        forall|k: int|
            0 <= k < msgs.len() ==> match msgs[k] {
                ApplyMsg::Command { data, index } => #[trigger] deliveries_of(msgs)[k] == (
                Delivery::Command { data: data@, index }),
                ApplyMsg::Snapshot { data, term, index } => deliveries_of(msgs)[k] == (
                Delivery::Snapshot { data: data@, term, index }),
            },
{
}

/// A handle is in order where its peer is, and it takes half of the peers to be enough.
pub proof fn law_handle_is_its_peer(handle: RaftHandle)
    ensures
        handle@ == handle.inner@,
        handle.inner@.inv() && (handle.num_half_vote == handle.inner.num_peers / 2
            && handle.inner.num_peers % 2 == 0 || handle.num_half_vote == handle.inner.num_peers / 2
            + 1 && handle.inner.num_peers % 2 == 1) ==> handle.inv(),
{
}

/// Whatever a peer has stored reads back whole, whatever follows it, and nothing reads back that
/// was not stored.
pub proof fn law_stored_state_reads_back(raft: Raft, rest: Seq<u8>, other: Seq<u8>)
    ensures
        ({
            let found = read_back(stored_bytes(raft@.stored()) + rest);
            &&& found matches Some(p)
            &&& p.current_term == raft.current_term
            &&& p.voted_for == raft.voted_for
            &&& p.log == raft@.log
        }),
        read_back(other) matches Some(p) ==> starts_with(other, stored_bytes(p)),
{
    let bytes = stored_bytes(raft@.stored()) + rest;
    let len = raft.log.len();
    assert forall|i: int| 0 <= i < raft@.log.len() implies (#[trigger] raft@.log[i]).command.len()
        <= u64::MAX by {
        let n = raft.log@[i].command.len();
    }
    assert(raft@.stored().fits());
    assert(bytes.take(stored_bytes(raft@.stored()).len() as int) =~= stored_bytes(raft@.stored()));
    lemma_read_back(bytes, raft@.stored());
}

} // verus!
