use raft::handle::RaftHandle;
use raft::message::{AppendEntriesArgs, AppendEntriesReply, ApplyMsg, VoteResult};
use raft::state::Role;

fn cluster(n: usize) -> Vec<RaftHandle> {
    (0..n).map(|me| RaftHandle::new(n, me, None).ok().unwrap()).collect()
}

/// Delivers requests of `from` to their peers, and the answers back.
fn deliver(
    peers: &mut Vec<RaftHandle>,
    from: usize,
    msgs: Vec<(usize, AppendEntriesArgs)>,
    down: &[usize],
) {
    for (to, args) in msgs {
        if down.contains(&to) {
            continue;
        }
        let copy = AppendEntriesArgs { entries: args.entries.clone(), ..args };
        assert!(peers[to].can_append(&copy));
        let (reply, _) = peers[to].append_entries(copy);
        let sent = AppendEntriesArgs { entries: args.entries.clone(), ..args };
        assert!(peers[from].can_take_reply(to, &sent, &reply));
        peers[from].take_reply(to, &sent, Some(reply));
    }
}

/// Has `me` stand for election; says whether it was elected.
fn elect(peers: &mut Vec<RaftHandle>, me: usize, down: &[usize]) -> bool {
    let role = peers[me].inner.role;
    peers[me].inner.received_valid_rpc = false;
    let (mut tally, args) = peers[me].follower_task(role).unwrap();
    for to in peers[me].inner.other_peers() {
        let reply = if down.contains(&to) {
            None
        } else {
            Some(peers[to].request_vote(args).0)
        };
        if let Some(result) = peers[me].vote_result(args.term, reply) {
            let (over, msgs) = peers[me].count_vote(&mut tally, result);
            deliver(peers, me, msgs, down);
            if over {
                break;
            }
        }
    }
    peers[me].is_leader()
}

fn round(peers: &mut Vec<RaftHandle>, leader: usize, down: &[usize]) {
    assert!(peers[leader].can_lead());
    let msgs = peers[leader].leader_task();
    deliver(peers, leader, msgs, down);
}

fn applied(peer: &mut RaftHandle) -> Vec<(u64, Vec<u8>)> {
    let (msgs, end) = peer.commit_entries();
    assert!(end.is_ok());
    let mut out = vec![];
    for m in msgs {
        if let ApplyMsg::Command { data, index } = m {
            out.push((index, data));
        }
    }
    out
}

#[test]
fn a_command_reaches_every_peer() {
    let mut peers = cluster(3);
    assert!(elect(&mut peers, 1, &[]));
    assert!(peers.iter().all(|p| p.term() == 1));
    let (res, _) = peers[1].start(&[4; 8]);
    assert_eq!(res.ok().unwrap().index, 1);
    for _ in 0..3 {
        round(&mut peers, 1, &[]);
    }
    for p in peers.iter_mut() {
        assert_eq!(applied(p), vec![(1, vec![4; 8])]);
        assert_eq!(applied(p), vec![]);
    }
}

#[test]
fn a_peer_that_fell_behind_catches_up() {
    let mut peers = cluster(3);
    assert!(elect(&mut peers, 0, &[2]));
    for i in 0..5 {
        peers[0].start(&[i; 8]).0.ok().unwrap();
        round(&mut peers, 0, &[2]);
    }
    // The leader of a new term, too, finds out what the peer lacks.
    assert!(elect(&mut peers, 1, &[]));
    assert_eq!(peers[0].inner.role, Role::Follower);
    peers[1].start(&[9; 8]).0.ok().unwrap();
    for _ in 0..4 {
        round(&mut peers, 1, &[]);
    }
    let all = applied(&mut peers[1]);
    assert_eq!(all.len(), 6);
    assert_eq!(all[5], (6, vec![9; 8]));
    assert_eq!(applied(&mut peers[0]), all);
    assert_eq!(applied(&mut peers[2]), all);
}

#[test]
fn entries_that_were_not_committed_give_way() {
    let mut peers = cluster(3);
    assert!(elect(&mut peers, 0, &[]));
    // Nobody hears of these.
    peers[0].start(&[1; 8]).0.ok().unwrap();
    peers[0].start(&[2; 8]).0.ok().unwrap();
    assert!(elect(&mut peers, 1, &[0]));
    peers[1].start(&[3; 8]).0.ok().unwrap();
    for _ in 0..4 {
        round(&mut peers, 1, &[]);
    }
    for p in peers.iter_mut() {
        assert_eq!(applied(p), vec![(1, vec![3; 8])]);
        assert_eq!(p.inner.log.len(), 2);
    }
}

#[test]
fn a_peer_that_is_behind_is_not_elected() {
    let mut peers = cluster(3);
    assert!(elect(&mut peers, 0, &[2]));
    peers[0].start(&[1; 8]).0.ok().unwrap();
    for _ in 0..3 {
        round(&mut peers, 0, &[2]);
    }
    assert!(!elect(&mut peers, 2, &[]));
    assert!(elect(&mut peers, 1, &[0]));
    assert_eq!(peers[1].inner.log.len(), 2);
}

#[test]
fn what_was_committed_survives_crashes() {
    let mut peers = cluster(3);
    assert!(elect(&mut peers, 0, &[]));
    peers[0].start(&[1; 8]).0.ok().unwrap();
    for _ in 0..3 {
        round(&mut peers, 0, &[]);
    }
    for me in 0..3 {
        let stored = peers[me].persist();
        peers[me] = RaftHandle::new(3, me, Some(stored.as_slice())).ok().unwrap();
    }
    assert!(elect(&mut peers, 2, &[]));
    peers[2].start(&[2; 8]).0.ok().unwrap();
    for _ in 0..3 {
        round(&mut peers, 2, &[]);
    }
    for p in peers.iter_mut() {
        assert_eq!(applied(p), vec![(1, vec![1; 8]), (2, vec![2; 8])]);
    }
}

#[test]
fn half_of_an_even_cluster_is_enough() {
    // Two halves can each elect a leader of the same term.
    let mut peers = cluster(4);
    assert_eq!(peers[0].num_half_vote, 2);
    assert!(elect(&mut peers, 0, &[2, 3]));
    assert!(elect(&mut peers, 2, &[0, 1]));
    assert_eq!(peers[0].term(), peers[2].term());
}

#[test]
fn a_vote_counts_only_in_its_own_term() {
    let mut peers = cluster(3);
    let (_, first) = peers[0].follower_task(Role::Follower).unwrap();
    let (late, _) = peers[1].request_vote(first);
    assert!(late.vote_granted);
    assert_eq!(peers[1].inner.voted_for, Some(0));
    let (_, second) = peers[0].follower_task(Role::Candidate).unwrap();
    assert_eq!((first.term, second.term), (1, 2));
    // The answer comes in only after the candidate has gone on to the next term.
    assert_eq!(peers[0].vote_result(first.term, Some(late)), Some(VoteResult::Denied));
    let (reply, _) = peers[1].request_vote(second);
    assert_eq!(peers[0].vote_result(second.term, Some(reply)), Some(VoteResult::Granted));
}

#[test]
fn a_command_keeps_its_index() {
    let mut peers = cluster(3);
    assert!(elect(&mut peers, 0, &[]));
    peers[0].start(&[1; 8]).0.ok().unwrap();
    let started = peers[0].start(&[2; 8]).0.ok().unwrap();
    assert_eq!((started.index, started.term), (2, 1));
    round(&mut peers, 0, &[2]);
    // A later leader passes on what it has from the first.
    assert!(elect(&mut peers, 1, &[0]));
    peers[1].start(&[3; 8]).0.ok().unwrap();
    for _ in 0..4 {
        round(&mut peers, 1, &[]);
    }
    for p in peers.iter_mut() {
        assert_eq!(p.inner.log[2].term, started.term);
        assert_eq!(p.inner.log[2].command, vec![2; 8]);
        assert_eq!(applied(p)[1], (started.index, vec![2; 8]));
    }
}

fn refusal_of_term_one(xindex: usize) -> (AppendEntriesArgs, AppendEntriesReply) {
    let sent = AppendEntriesArgs {
        term: 1,
        leader_id: 0,
        prev_log_index: xindex,
        prev_log_term: 1,
        entries: vec![],
        leader_commit: 0,
    };
    (sent, AppendEntriesReply { term: 1, success: false, xterm: None, xindex: Some(xindex) })
}

#[test]
fn a_late_refusal_leaves_what_is_committed_alone() {
    let mut peers = cluster(3);
    assert!(elect(&mut peers, 0, &[]));
    assert!(elect(&mut peers, 1, &[]));
    assert!(elect(&mut peers, 0, &[]));
    peers[0].start(&[5; 8]).0.ok().unwrap();
    for _ in 0..2 {
        round(&mut peers, 0, &[]);
    }
    assert_eq!(peers[0].inner.match_index, vec![1, 1, 1]);
    let (sent, reply) = refusal_of_term_one(1);
    assert!(peers[0].can_take_reply(2, &sent, &reply));
    peers[0].take_reply(2, &sent, Some(reply));
    assert_eq!(peers[0].inner.next_index[2], 1);
    assert_eq!(peers[0].inner.match_index, vec![1, 1, 1]);
    for _ in 0..2 {
        round(&mut peers, 0, &[]);
    }
    for p in peers.iter_mut() {
        assert_eq!(applied(p), vec![(1, vec![5; 8])]);
    }
}

#[test]
fn a_late_refusal_may_leave_nothing_to_send() {
    let mut peers = cluster(3);
    assert!(elect(&mut peers, 0, &[]));
    assert!(elect(&mut peers, 1, &[]));
    assert!(elect(&mut peers, 0, &[]));
    assert_eq!(peers[0].inner.log.len(), 1);
    let (sent, reply) = refusal_of_term_one(3);
    peers[0].take_reply(2, &sent, Some(reply));
    assert_eq!(peers[0].inner.next_index[2], 3);
    assert!(!peers[0].can_lead());
}
