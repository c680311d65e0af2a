use raft::entry::LogEntry;
use raft::handle::{
    RaftHandle, Task, COMMIT_MILLIS, ELECTION_MAX_MILLIS, ELECTION_MIN_MILLIS, HEARTBEAT_MILLIS,
    REPLY_MAX_MILLIS, REPLY_MIN_MILLIS,
};
use raft::message::{AppendEntriesArgs, AppendEntriesReply, RequestVoteReply, VoteResult};
use raft::state::{Election, Role};

fn handle(num_peers: usize, me: usize, term: u64, log: &[u64]) -> RaftHandle {
    let mut h = RaftHandle::new(num_peers, me, None).ok().unwrap();
    h.inner.current_term = term;
    h.inner.log = log
        .iter()
        .map(|t| LogEntry { term: *t, command: vec![*t as u8; 8] })
        .collect();
    h
}

fn leader(term: u64, log: &[u64], next: &[usize], matched: &[usize]) -> RaftHandle {
    let mut h = handle(next.len(), 0, term, log);
    h.inner.role = Role::Leader;
    h.inner.next_index = next.to_vec();
    h.inner.match_index = matched.to_vec();
    h
}

fn shape(a: &AppendEntriesArgs) -> (u64, usize, usize, u64, Vec<u64>, usize) {
    (
        a.term,
        a.leader_id,
        a.prev_log_index,
        a.prev_log_term,
        a.entries.iter().map(|e| e.term).collect(),
        a.leader_commit,
    )
}

fn refusal(term: u64, xterm: Option<u64>, xindex: Option<usize>) -> AppendEntriesReply {
    AppendEntriesReply { term, success: false, xterm, xindex }
}

#[test]
fn a_role_is_a_followers_by_default() {
    assert_eq!(Role::default(), Role::Follower);
}

#[test]
fn news_of_a_leader_keeps_an_election_off() {
    let mut h = handle(3, 1, 2, &[0]);
    h.inner.received_valid_rpc = true;
    h.inner.role = Role::Candidate;
    assert!(h.follower_task(Role::Candidate).is_none());
    assert_eq!((h.inner.role, h.term()), (Role::Follower, 2));
    assert!(!h.inner.received_valid_rpc);
    assert!(h.follower_task(Role::Candidate).is_none());
    assert_eq!(h.term(), 2);
}

#[test]
fn a_peer_that_waits_in_vain_stands_for_election() {
    let mut h = handle(3, 1, 2, &[0, 1, 2]);
    assert!(h.can_time_out(Role::Follower));
    let (tally, args) = h.follower_task(Role::Follower).unwrap();
    assert_eq!(tally, Election { num_granted: 1, num_voted: 1 });
    assert_eq!((args.term, args.candidate_id), (3, 1));
    assert_eq!((args.last_log_index, args.last_log_term), (2, 2));
    assert_eq!((h.inner.role, h.inner.voted_for), (Role::Candidate, Some(1)));
    assert_eq!(h.inner.other_peers(), vec![0, 2]);
}

#[test]
fn there_is_no_term_after_the_last() {
    let h = handle(3, 1, u64::MAX, &[0]);
    assert!(!h.can_time_out(Role::Follower));
    assert!(h.can_time_out(Role::Candidate));
}

#[test]
fn answers_to_a_candidate() {
    let h = handle(3, 1, 4, &[0]);
    let yes = |term| Some(RequestVoteReply { term, vote_granted: true });
    let no = |term| Some(RequestVoteReply { term, vote_granted: false });
    assert_eq!(h.vote_result(4, yes(4)), Some(VoteResult::Granted));
    assert_eq!(h.vote_result(4, no(4)), Some(VoteResult::Denied));
    assert_eq!(h.vote_result(4, no(7)), Some(VoteResult::HigherTerm(7)));
    assert_eq!(h.vote_result(3, yes(3)), Some(VoteResult::Denied));
    assert_eq!(h.vote_result(4, None), Some(VoteResult::Denied));
    assert_eq!(h.vote_result(3, None), None);
}

#[test]
fn enough_votes_make_a_leader() {
    let mut h = handle(5, 1, 2, &[0, 2]);
    let (mut tally, _) = h.follower_task(Role::Follower).unwrap();
    let (over, msgs) = h.count_vote(&mut tally, VoteResult::Granted);
    assert!(!over && msgs.is_empty());
    let (over, msgs) = h.count_vote(&mut tally, VoteResult::Denied);
    assert!(!over && msgs.is_empty());
    assert!(h.can_count_vote(&tally, VoteResult::Granted));
    let (over, msgs) = h.count_vote(&mut tally, VoteResult::Granted);
    assert!(over && h.is_leader());
    assert_eq!(tally, Election { num_granted: 3, num_voted: 4 });
    assert_eq!(h.inner.next_index, vec![2; 5]);
    assert_eq!(h.inner.match_index, vec![0, 1, 0, 0, 0]);
    assert_eq!(msgs.iter().map(|m| m.0).collect::<Vec<_>>(), vec![0, 2, 3, 4]);
    assert_eq!(shape(&msgs[0].1), (3, 1, 1, 2, vec![], 0));
}

#[test]
fn too_few_votes_end_an_election() {
    let mut h = handle(3, 1, 0, &[0]);
    let (mut tally, _) = h.follower_task(Role::Follower).unwrap();
    assert!(!h.count_vote(&mut tally, VoteResult::Denied).0);
    assert!(h.count_vote(&mut tally, VoteResult::Denied).0);
    assert_eq!(h.inner.role, Role::Candidate);
    assert!(!h.can_count_vote(&tally, VoteResult::Denied));
}

#[test]
fn a_higher_term_ends_an_election() {
    let mut h = handle(3, 1, 0, &[0]);
    let (mut tally, _) = h.follower_task(Role::Follower).unwrap();
    let (over, msgs) = h.count_vote(&mut tally, VoteResult::HigherTerm(9));
    assert!(over && msgs.is_empty());
    assert_eq!(tally, Election { num_granted: 0, num_voted: 3 });
    assert_eq!((h.term(), h.inner.role, h.inner.voted_for), (9, Role::Follower, None));
}

#[test]
fn news_of_a_leader_ends_an_election() {
    let mut h = handle(3, 1, 0, &[0]);
    let (mut tally, _) = h.follower_task(Role::Follower).unwrap();
    h.inner.received_valid_rpc = true;
    let (over, msgs) = h.count_vote(&mut tally, VoteResult::Granted);
    assert!(over && msgs.is_empty());
    assert_eq!(h.inner.role, Role::Follower);
    assert!(!h.inner.received_valid_rpc);
}

#[test]
fn a_stranger_cannot_win() {
    let mut h = handle(3, 7, 0, &[0]);
    let (tally, _) = h.follower_task(Role::Follower).unwrap();
    assert!(!h.can_count_vote(&tally, VoteResult::Granted));
    assert!(h.can_count_vote(&tally, VoteResult::Denied));
    assert_eq!(h.inner.other_peers(), vec![0, 1, 2]);
}

#[test]
fn a_leader_commits_what_enough_peers_hold() {
    let mut h = leader(2, &[0, 1, 2, 2], &[4, 4, 2], &[3, 2, 1]);
    assert!(h.can_lead());
    let msgs = h.leader_task();
    assert_eq!(h.inner.commit_index, 2);
    assert_eq!(msgs.len(), 2);
    assert_eq!((msgs[0].0, msgs[1].0), (1, 2));
    assert_eq!(shape(&msgs[0].1), (2, 0, 3, 2, vec![], 2));
    assert_eq!(shape(&msgs[1].1), (2, 0, 1, 1, vec![2, 2], 2));
}

#[test]
fn a_leader_commits_no_entry_of_an_earlier_term_by_itself() {
    let mut h = leader(3, &[0, 1, 2], &[3, 3, 3], &[2, 2, 2]);
    h.leader_task();
    assert_eq!(h.inner.commit_index, 0);
    // An entry of its own term takes the earlier ones along.
    let mut h = leader(3, &[0, 1, 3], &[3, 3, 3], &[2, 2, 0]);
    h.leader_task();
    assert_eq!(h.inner.commit_index, 2);
}

#[test]
fn a_leader_that_hears_of_another_stops() {
    let mut h = leader(2, &[0, 2], &[2, 2, 2], &[1, 1, 1]);
    h.inner.received_valid_rpc = true;
    assert!(h.leader_task().is_empty());
    assert_eq!((h.inner.role, h.inner.commit_index), (Role::Follower, 0));
    assert!(h.leader_task().is_empty());
}

#[test]
fn a_leader_cannot_go_on_behind_its_own_log() {
    let mut h = leader(2, &[0, 2], &[9, 2, 3], &[1, 1, 1]);
    assert!(!h.can_lead());
    h.inner.next_index[2] = 2;
    assert!(h.can_lead());
}

#[test]
fn a_success_moves_a_leader_on() {
    let mut h = leader(2, &[0, 2, 2], &[3, 2, 1], &[2, 1, 0]);
    let sent = h.inner.append_request(1);
    let ok = AppendEntriesReply { term: 2, success: true, xterm: None, xindex: None };
    assert!(h.can_take_reply(2, &sent, &ok));
    let stored = h.take_reply(2, &sent, Some(ok));
    assert_eq!(h.inner.next_index, vec![3, 2, 3]);
    assert_eq!(h.inner.match_index, vec![2, 1, 2]);
    assert_eq!(stored, h.persist());
    // An answer that says nothing new changes nothing.
    h.inner.next_index[2] = 1;
    h.take_reply(2, &sent, Some(ok));
    assert_eq!(h.inner.next_index, vec![3, 2, 1]);
    h.take_reply(2, &sent, None);
    assert_eq!(h.inner.match_index, vec![2, 1, 2]);
}

#[test]
fn a_refusal_takes_a_leader_back() {
    let mut h = leader(5, &[0, 1, 1, 3, 5], &[5, 5, 5], &[4, 0, 0]);
    let sent = h.inner.append_request(5);
    // The other log is too short.
    h.take_reply(1, &sent, Some(refusal(5, None, Some(2))));
    assert_eq!(h.inner.next_index[1], 2);
    // The leader holds entries of the term in the way.
    h.take_reply(1, &sent, Some(refusal(5, Some(1), Some(1))));
    assert_eq!(h.inner.next_index[1], 3);
    // It does not.
    h.take_reply(1, &sent, Some(refusal(5, Some(4), Some(2))));
    assert_eq!(h.inner.next_index[1], 2);
    // It never goes back beyond the first position.
    h.take_reply(1, &sent, Some(refusal(5, Some(0), Some(0))));
    assert_eq!(h.inner.next_index[1], 1);
    assert_eq!(h.inner.match_index, vec![4, 0, 0]);
}

#[test]
fn an_answer_of_a_higher_term_deposes_a_leader() {
    let mut h = leader(5, &[0, 5], &[2, 2, 2], &[1, 0, 0]);
    h.inner.voted_for = Some(0);
    let sent = h.inner.append_request(2);
    let reply = refusal(8, None, None);
    assert!(h.can_take_reply(1, &sent, &reply));
    h.take_reply(1, &sent, Some(reply));
    assert_eq!((h.term(), h.inner.role, h.inner.voted_for), (8, Role::Follower, None));
    assert_eq!(h.inner.next_index, vec![2, 2, 2]);
}

#[test]
fn answers_that_are_of_no_use_are_told_apart() {
    let h = leader(5, &[0, 5], &[2, 2, 2], &[1, 0, 0]);
    let sent = h.inner.append_request(2);
    assert!(!h.can_take_reply(1, &sent, &refusal(5, None, None)));
    assert!(!h.can_take_reply(1, &sent, &refusal(5, Some(4), None)));
    assert!(h.can_take_reply(1, &sent, &refusal(5, Some(5), None)));
    assert!(!h.can_take_reply(3, &sent, &refusal(5, None, Some(1))));
    let ok = AppendEntriesReply { term: 5, success: true, xterm: None, xindex: None };
    assert!(!h.can_take_reply(3, &sent, &ok));
    assert!(h.can_take_reply(2, &sent, &ok));
}

#[test]
fn what_a_peer_does_next_depends_on_its_role() {
    let mut h = leader(5, &[0, 5], &[2, 2, 2], &[1, 0, 0]);
    assert_eq!(h.background(), Task::Lead { millis: 150 });
    for role in [Role::Follower, Role::Candidate] {
        h.inner.role = role;
        assert_eq!(h.background(), Task::Follow { initial_role: role });
    }
}

#[test]
fn waiting_times() {
    assert_eq!(HEARTBEAT_MILLIS, 150);
    assert_eq!(COMMIT_MILLIS, 300);
    assert_eq!((ELECTION_MIN_MILLIS, ELECTION_MAX_MILLIS), (450, 900));
    assert_eq!((REPLY_MIN_MILLIS, REPLY_MAX_MILLIS), (150, 300));
}
