use raft::codec::{Malformed, MyEntry, Persist};
use raft::entry::LogEntry;
use raft::handle::RaftHandle;
use raft::state::Role;

fn sample() -> Persist {
    Persist {
        current_term: 3,
        voted_for: Some(1),
        log: vec![
            LogEntry { term: 0, command: vec![] },
            LogEntry { term: 2, command: vec![7, 8] },
        ],
    }
}

fn sample_bytes() -> Vec<u8> {
    vec![
        3, 0, 0, 0, 0, 0, 0, 0, // term
        1, 1, 0, 0, 0, 0, 0, 0, 0, // vote
        2, 0, 0, 0, 0, 0, 0, 0, // length of the log
        0, 0, 0, 0, 0, 0, 0, 0, // first entry
        0, 0, 0, 0, 0, 0, 0, 0, //
        2, 0, 0, 0, 0, 0, 0, 0, // second entry
        2, 0, 0, 0, 0, 0, 0, 0, //
        7, 8,
    ]
}

fn pairs(log: &[LogEntry]) -> Vec<(u64, Vec<u8>)> {
    log.iter().map(|e| (e.term, e.command.clone())).collect()
}

#[test]
fn encoded_state_has_exact_bytes() {
    assert_eq!(sample().encode(), sample_bytes());
}

#[test]
fn encoded_state_without_a_vote() {
    let bytes = Persist { current_term: 0x0102, voted_for: None, log: vec![] }.encode();
    assert_eq!(bytes, vec![2, 1, 0, 0, 0, 0, 0, 0, 0, 0, 0, 0, 0, 0, 0, 0, 0]);
}

#[test]
fn stored_state_reads_back() {
    let p = Persist::decode(&sample().encode()).unwrap();
    assert_eq!(p.current_term, 3);
    assert_eq!(p.voted_for, Some(1));
    assert_eq!(pairs(&p.log), pairs(&sample().log));
}

#[test]
fn what_follows_a_stored_state_is_left_alone() {
    let mut bytes = sample_bytes();
    bytes.push(255);
    let p = Persist::decode(&bytes).unwrap();
    assert_eq!(pairs(&p.log), pairs(&sample().log));
}

#[test]
fn a_stored_state_that_is_cut_short_is_malformed() {
    let bytes = sample_bytes();
    for n in 0..bytes.len() {
        assert!(matches!(Persist::decode(&bytes[..n]), Err(Malformed)));
    }
}

#[test]
fn a_vote_is_behind_a_zero_or_a_one() {
    let mut bytes = sample_bytes();
    bytes[8] = 2;
    assert!(matches!(Persist::decode(&bytes), Err(Malformed)));
}

#[test]
fn a_command_is_its_first_eight_bytes() {
    let data: [u8; 8] = [1, 2, 0, 0, 0, 0, 0, 1];
    assert_eq!(MyEntry::decode(&data), Ok(MyEntry { x: 0x0100_0000_0000_0201 }));
    let longer: [u8; 9] = [5, 0, 0, 0, 0, 0, 0, 0, 9];
    assert_eq!(MyEntry::decode(&longer), Ok(MyEntry { x: 5 }));
}

#[test]
fn a_command_of_fewer_bytes_is_malformed() {
    assert_eq!(MyEntry::decode(&[1, 2, 3, 4, 5, 6, 7]), Err(Malformed));
    assert_eq!(MyEntry::decode(&[]), Err(Malformed));
}

#[test]
fn a_handle_without_a_stored_state_starts_anew() {
    let h = RaftHandle::new(5, 2, None).ok().unwrap();
    assert_eq!(h.term(), 0);
    assert!(!h.is_leader());
    assert_eq!(h.num_half_vote, 3);
    assert_eq!(h.inner.me, 2);
    assert_eq!(h.inner.voted_for, None);
    assert_eq!(h.inner.role, Role::Follower);
    assert_eq!(pairs(&h.inner.log), vec![(0, vec![])]);
    assert_eq!((h.inner.commit_index, h.inner.last_applied), (0, 0));
}

#[test]
fn a_handle_goes_on_from_its_stored_state() {
    let h = RaftHandle::new(3, 0, Some(sample_bytes().as_slice())).ok().unwrap();
    assert_eq!(h.term(), 3);
    assert_eq!(h.inner.voted_for, Some(1));
    assert_eq!(pairs(&h.inner.log), pairs(&sample().log));
    assert_eq!((h.inner.commit_index, h.inner.last_applied), (0, 0));
    assert_eq!(h.persist(), sample_bytes());
}

#[test]
fn a_handle_does_not_start_from_a_malformed_state() {
    assert!(matches!(RaftHandle::new(3, 0, Some(&[1, 2, 3])), Err(Malformed)));
    let mut h = RaftHandle::new(3, 0, Some(sample_bytes().as_slice())).ok().unwrap();
    assert!(matches!(h.restore(Some(&[1, 2, 3])), Err(Malformed)));
    assert_eq!(h.persist(), sample_bytes());
    assert!(h.restore(None).is_ok());
    assert_eq!(h.persist(), sample_bytes());
}
