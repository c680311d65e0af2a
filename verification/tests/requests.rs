use raft::entry::LogEntry;
use raft::handle::RaftHandle;
use raft::message::{
    AppendEntriesArgs, AppendEntriesReply, ApplyMsg, Error, RequestVoteArgs, RequestVoteReply,
};
use raft::raft::Raft;
use raft::state::Role;

fn log_of(terms: &[u64]) -> Vec<LogEntry> {
    let mut log = vec![];
    for (i, t) in terms.iter().enumerate() {
        log.push(LogEntry { term: *t, command: vec![i as u8; 8] });
    }
    log
}

fn terms(log: &[LogEntry]) -> Vec<u64> {
    log.iter().map(|e| e.term).collect()
}

fn peer(term: u64, log: &[u64]) -> Raft {
    let mut r = Raft::new(3, 0);
    r.current_term = term;
    r.log = log_of(log);
    r
}

fn ballot(
    term: u64,
    candidate_id: usize,
    last_log_index: usize,
    last_log_term: u64,
) -> RequestVoteArgs {
    RequestVoteArgs { term, candidate_id, last_log_index, last_log_term }
}

fn append(term: u64, prev: usize, prev_term: u64, new: &[u64], commit: usize) -> AppendEntriesArgs {
    AppendEntriesArgs {
        term,
        leader_id: 1,
        prev_log_index: prev,
        prev_log_term: prev_term,
        entries: new.iter().map(|t| LogEntry { term: *t, command: vec![9; 8] }).collect(),
        leader_commit: commit,
    }
}

#[test]
fn an_outdated_candidate_gets_no_vote() {
    let mut r = peer(5, &[0]);
    let reply = r.request_vote(ballot(4, 1, 9, 9));
    assert_eq!(reply, RequestVoteReply { term: 5, vote_granted: false });
    assert_eq!(r.voted_for, None);
    assert!(!r.received_valid_rpc);
}

#[test]
fn a_higher_term_makes_a_leader_follow() {
    let mut r = peer(5, &[0, 5]);
    r.role = Role::Leader;
    r.next_index = vec![2; 3];
    r.match_index = vec![1, 0, 0];
    r.voted_for = Some(0);
    let reply = r.request_vote(ballot(6, 1, 0, 0));
    assert_eq!(reply, RequestVoteReply { term: 6, vote_granted: false });
    assert_eq!((r.current_term, r.role, r.voted_for), (6, Role::Follower, None));
    assert!(!r.received_valid_rpc);
}

#[test]
fn a_vote_goes_to_a_log_that_is_not_behind() {
    for (index, term, granted) in
        [(2, 3, true), (3, 3, true), (1, 3, false), (0, 4, true), (9, 2, false)]
    {
        let mut r = peer(5, &[0, 1, 3]);
        let reply = r.request_vote(ballot(5, 2, index, term));
        assert_eq!(reply, RequestVoteReply { term: 5, vote_granted: granted });
        assert_eq!(r.voted_for, if granted { Some(2) } else { None });
        assert_eq!(r.received_valid_rpc, granted);
    }
}

#[test]
fn a_peer_votes_once_per_term() {
    let mut h = RaftHandle::new(3, 0, None).ok().unwrap();
    let (first, stored) = h.request_vote(ballot(1, 1, 0, 0));
    assert!(first.vote_granted);
    assert!(!h.request_vote(ballot(1, 2, 7, 7)).0.vote_granted);
    assert!(h.request_vote(ballot(1, 1, 0, 0)).0.vote_granted);
    // Not even a crash makes it vote again.
    let mut again = RaftHandle::new(3, 0, Some(stored.as_slice())).ok().unwrap();
    assert!(!again.request_vote(ballot(1, 2, 7, 7)).0.vote_granted);
    assert!(again.request_vote(ballot(2, 2, 7, 7)).0.vote_granted);
    assert_eq!(again.term(), 2);
}

#[test]
fn an_outdated_leader_is_refused() {
    let mut r = peer(5, &[0]);
    let reply = r.append_entries(append(4, 0, 0, &[4], 1));
    assert_eq!(reply, AppendEntriesReply { term: 5, success: false, xterm: None, xindex: None });
    assert_eq!(terms(&r.log), vec![0]);
    assert!(!r.received_valid_rpc);
}

#[test]
fn a_log_that_is_too_short_points_to_its_end() {
    let mut r = peer(2, &[0, 1]);
    let reply = r.append_entries(append(3, 5, 2, &[3], 0));
    assert_eq!(
        reply,
        AppendEntriesReply { term: 3, success: false, xterm: None, xindex: Some(2) }
    );
    assert!(r.received_valid_rpc);
    assert_eq!(r.current_term, 3);
}

#[test]
fn a_conflict_points_to_the_start_of_its_run() {
    let mut r = peer(5, &[0, 1, 4, 4, 4]);
    let reply = r.append_entries(append(5, 3, 5, &[5], 0));
    assert_eq!(
        reply,
        AppendEntriesReply { term: 5, success: false, xterm: Some(4), xindex: Some(2) }
    );
    assert_eq!(terms(&r.log), vec![0, 1, 4, 4, 4]);
    assert!(r.received_valid_rpc);
    let mut flat = peer(5, &[0, 0, 0]);
    let reply = flat.append_entries(append(5, 2, 5, &[], 0));
    assert_eq!((reply.xterm, reply.xindex), (Some(0), Some(0)));
}

#[test]
fn entries_join_on() {
    let mut r = peer(5, &[0, 1]);
    let reply = r.append_entries(append(5, 1, 1, &[5, 5], 2));
    assert_eq!(reply, AppendEntriesReply { term: 5, success: true, xterm: None, xindex: None });
    assert_eq!(terms(&r.log), vec![0, 1, 5, 5]);
    assert_eq!(r.commit_index, 2);
}

#[test]
fn a_conflicting_tail_gives_way() {
    let mut r = peer(5, &[0, 1, 2, 2, 2]);
    r.append_entries(append(5, 0, 0, &[1, 2, 5], 0));
    assert_eq!(terms(&r.log), vec![0, 1, 2, 5]);
    // What agreed was kept, and not overwritten.
    assert_eq!(r.log[2].command, vec![2; 8]);
    assert_eq!(r.log[3].command, vec![9; 8]);
}

#[test]
fn entries_that_are_there_already_change_nothing() {
    let mut r = peer(5, &[0, 1, 2, 5]);
    r.append_entries(append(5, 0, 0, &[1, 2], 0));
    assert_eq!(terms(&r.log), vec![0, 1, 2, 5]);
    r.append_entries(append(5, 2, 2, &[], 0));
    assert_eq!(terms(&r.log), vec![0, 1, 2, 5]);
}

#[test]
fn the_commit_index_goes_no_further_than_the_new_entries() {
    let mut r = peer(5, &[0, 1, 2, 2]);
    r.append_entries(append(5, 0, 0, &[1], 3));
    assert_eq!(r.commit_index, 1);
    r.append_entries(append(5, 1, 1, &[2, 2], 3));
    assert_eq!(r.commit_index, 3);
    r.append_entries(append(5, 1, 1, &[2, 2], 2));
    assert_eq!(r.commit_index, 3);
}

#[test]
fn a_request_that_would_lose_a_committed_entry_is_told_apart() {
    let mut h = RaftHandle::new(3, 0, None).ok().unwrap();
    h.inner.log = log_of(&[0, 1, 2]);
    h.inner.current_term = 2;
    h.inner.commit_index = 1;
    assert!(!h.can_append(&append(2, 0, 0, &[2], 0)));
    assert!(h.can_append(&append(2, 0, 0, &[1, 3], 0)));
    assert!(h.can_append(&append(2, 1, 1, &[3], 0)));
    assert!(!h.can_append(&append(2, 0, 0, &[], 2)));
    assert!(h.can_append(&append(2, 0, 0, &[], 1)));
    assert!(h.can_append(&append(1, 0, 0, &[2], 0)));
    assert!(h.can_append(&append(2, 0, 7, &[2], 0)));
    assert!(h.can_append(&append(2, 3, 0, &[2], 0)));
}

#[test]
fn only_a_leader_takes_commands_in() {
    let mut h = RaftHandle::new(3, 2, None).ok().unwrap();
    assert!(h.can_start());
    let (res, stored) = h.start(&[1; 8]);
    assert!(matches!(res, Err(Error::NotLeader(0))));
    assert!(stored.is_none());
    assert_eq!(h.inner.log.len(), 1);
}

#[test]
fn a_leader_appends_a_command() {
    let mut h = RaftHandle::new(3, 1, None).ok().unwrap();
    h.inner.role = Role::Leader;
    h.inner.current_term = 4;
    h.inner.next_index = vec![1; 3];
    h.inner.match_index = vec![0; 3];
    assert!(h.can_start() && h.is_leader());
    let (res, stored) = h.start(&[6; 8]);
    let start = res.ok().unwrap();
    assert_eq!((start.index, start.term), (1, 4));
    assert_eq!(h.inner.next_index, vec![1, 2, 1]);
    assert_eq!(h.inner.match_index, vec![0, 1, 0]);
    assert_eq!(h.inner.log[1].command, vec![6; 8]);
    assert_eq!(stored.unwrap(), h.persist());
}

#[test]
fn a_peer_without_peers_has_none_to_turn_to() {
    let h = RaftHandle::new(0, 0, None).ok().unwrap();
    assert!(!h.can_start());
}

#[test]
fn committed_commands_are_handed_over_in_order() {
    let mut h = RaftHandle::new(3, 0, None).ok().unwrap();
    h.inner.log = log_of(&[0, 1, 1, 1]);
    h.inner.commit_index = 2;
    let (msgs, end) = h.commit_entries();
    assert!(end.is_ok());
    assert_eq!(msgs.len(), 2);
    for (i, msg) in msgs.iter().enumerate() {
        match msg {
            ApplyMsg::Command { data, index } => {
                assert_eq!(*index, i as u64 + 1);
                assert_eq!(*data, vec![i as u8 + 1; 8]);
            }
            ApplyMsg::Snapshot { .. } => panic!("no snapshot was taken"),
        }
    }
    assert_eq!(h.inner.last_applied, 2);
    assert_eq!(h.commit_entries().0.len(), 0);
}

#[test]
fn a_command_that_is_no_entry_stops_the_rest() {
    let mut h = RaftHandle::new(3, 0, None).ok().unwrap();
    h.inner.log = log_of(&[0, 1, 1, 1]);
    h.inner.log[2].command = vec![1, 2, 3];
    h.inner.commit_index = 3;
    let (msgs, end) = h.commit_entries();
    assert!(end.is_err());
    assert_eq!(msgs.len(), 1);
    assert_eq!(h.inner.last_applied, 2);
    match h.inner.apply(vec![1; 8], 4) {
        ApplyMsg::Command { data, index } => assert_eq!((data, index), (vec![1; 8], 4)),
        ApplyMsg::Snapshot { .. } => panic!("no snapshot was taken"),
    }
}
