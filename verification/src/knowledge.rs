//! What leaders know stays true, as long as successes come in time; and where all answers come
//! promptly, every step finds its peer ready.
use vstd::prelude::*;

use crate::agreement::{Cluster, Step};
use crate::cluster::law_new_leader_can_broadcast;
use crate::entry::lemma_last_of_term;
use crate::history::lemma_can_append;
use crate::message::{AppendEntriesReply, AppendRequest, VoteResult};
use crate::preservation::{lemma_grows, lemma_win, moved};

verus! {

/// Nothing that a peer must not meet ever reaches it, but for the round of a leader that cannot
/// send.
pub proof fn lemma_admitted(c: Cluster, step: Step)
    requires
        c.inv(),
        c.enabled(step),
        step is LeaderTask && c.peers[step.peer()].still_leads()
            ==> c.peers[step.peer()].can_broadcast(),
    ensures
        c.admitted(step),
{
    let p = step.peer();
    let s = c.peers[p];
    assert(s.inv());
    assert(c.leader_ok(p) && c.knowledge_ok(p));
    match step {
        Step::AppendEntries { args, .. } => {
            lemma_can_append(c, p, args);
        },
        Step::TakeReply { peer, sent, reply, .. } => {
            assert(c.reply_ok(peer, sent, reply));
            assert(c.request_ok(peer, sent));
        },
        _ => {},
    }
}

/// What a leader that takes a command in knows stays true.
proof fn lemma_knows_starts(c: Cluster, p: int, command: Seq<u8>)
    requires
        c.inv_shape(),
        c.leader_ok(p),
        c.knowledge_ok(p),
        c.enabled(Step::Start { p, command }),
    ensures
        c.after(Step::Start { p, command }).knowledge_ok(p),
{
    let d = c.after(Step::Start { p, command });
    let s = c.peers[p];
    let m = s.start(command);
    let t = s.current_term;
    assert(s.inv());
    if s.role is Leader {
        assert forall|i: int, n: int|
            0 <= i < d.num_peers() && d.base(t).len() <= n
                <= m.match_index[i] implies #[trigger] d.acks.contains((i, t, n)) by {
            if i != p || n <= s.match_index[i] {
                assert(c.acks.contains((i, t, n)));
            }
        }
    }
}

/// What a leader that takes an answer comes to know is true.
proof fn lemma_knows_takes(
    c: Cluster,
    p: int,
    peer: int,
    sent: AppendRequest,
    reply: AppendEntriesReply,
)
    requires
        c.inv_shape(),
        c.leader_ok(p),
        c.knowledge_ok(p),
        c.reply_ok(peer, sent, reply),
        c.request_ok(peer, sent),
        c.enabled(Step::TakeReply { p, peer, sent, reply }),
        c.timely(Step::TakeReply { p, peer, sent, reply }),
    ensures
        c.after(Step::TakeReply { p, peer, sent, reply }).knowledge_ok(p),
{
    let d = c.after(Step::TakeReply { p, peer, sent, reply });
    let s = c.peers[p];
    let m = s.take_reply(peer as usize, sent, reply);
    let t = s.current_term;
    assert(s.inv());
    assert(d.peers[p] == m);
    if m.role is Leader {
        assert forall|i: int, n: int|
            0 <= i < d.num_peers() && d.base(t).len() <= n
                <= m.match_index[i] implies #[trigger] d.acks.contains((i, t, n)) by {
            if i != peer || n <= s.match_index[i] {
                assert(c.acks.contains((i, t, n)));
            } else {
                assert(c.acks.contains((peer, sent.term, n)));
            }
        }
    }
}

/// What a peer that has just won knows is true.
proof fn lemma_knows_wins(c: Cluster, p: int, voter: int, result: VoteResult)
    requires
        c.inv(),
        c.enabled(Step::CountVote { p, voter, result }),
        c.peers[p].wins(c.elections[p], result),
    ensures
        c.after(Step::CountVote { p, voter, result }).knowledge_ok(p),
{
    let s = c.peers[p];
    lemma_win(c, p, voter, result);
    assert(s.inv());
}

/// What happens to a peer leaves what all other leaders know true.
proof fn lemma_knows_left_alone(c: Cluster, step: Step, q: int)
    requires
        c.inv(),
        c.enabled(step),
        c.admitted(step),
        0 <= q < c.num_peers(),
        q != step.peer(),
    ensures
        c.after(step).knowledge_ok(q),
{
    let d = c.after(step);
    let p = step.peer();
    let s = c.peers[p];
    let t = c.peers[q].current_term;
    lemma_grows(c, step);
    assert(c.leader_ok(q) && c.knowledge_ok(q));
    assert(c.leader_ok(p));
    if c.peers[q].role is Leader {
        match step {
            Step::CountVote { voter, result, .. } => {
                if s.wins(c.elections[p], result) {
                    lemma_win(c, p, voter, result);
                }
            },
            _ => {},
        }
        assert(d.terms[t] == c.terms[t]);
        assert forall|i: int, n: int|
            0 <= i < d.num_peers() && d.base(t).len() <= n
                <= c.peers[q].match_index[i] implies #[trigger] d.acks.contains((i, t, n)) by {
            assert(c.acks.contains((i, t, n)));
        }
    }
}

/// What a peer knows that goes on to lead without a change to it stays true.
proof fn lemma_knows_unmoved(c: Cluster, step: Step)
    requires
        c.inv(),
        c.enabled(step),
        c.admitted(step),
        !(step is Start),
        !(step is TakeReply),
        step matches Step::CountVote { p, voter, result } ==> !c.peers[p].wins(
            c.elections[p],
            result,
        ),
    ensures
        c.after(step).knowledge_ok(step.peer()),
{
    let d = c.after(step);
    let p = step.peer();
    let s = c.peers[p];
    let m = moved(c, step);
    let t = s.current_term;
    assert(s.inv());
    assert(c.leader_ok(p) && c.knowledge_ok(p));
    match step {
        Step::AppendEntries { args, .. } => {
            assert(c.request_ok(p, args));
        },
        _ => {},
    }
    if m.role is Leader {
        assert(s.role is Leader);
        assert(m.current_term == t);
        assert(m.log == s.log);
        assert(m.match_index == s.match_index);
        assert(m.next_index == s.next_index);
        assert(d.terms == c.terms);
        assert forall|i: int, n: int|
            0 <= i < d.num_peers() && d.base(t).len() <= n
                <= m.match_index[i] implies #[trigger] d.acks.contains((i, t, n)) by {
            assert(c.acks.contains((i, t, n)));
        }
    }
}

/// A step keeps `inv_knowledge`.
pub proof fn lemma_keeps_knowledge(c: Cluster, step: Step)
    requires
        c.inv(),
        c.enabled(step),
        c.admitted(step),
        c.timely(step),
    ensures
        c.after(step).inv_knowledge(),
{
    let d = c.after(step);
    let p = step.peer();
    assert(d.num_peers() == c.num_peers());
    assert(c.leader_ok(p) && c.knowledge_ok(p));
    match step {
        Step::Start { command, .. } => {
            lemma_knows_starts(c, p, command);
        },
        Step::TakeReply { peer, sent, reply, .. } => {
            assert(c.reply_ok(peer, sent, reply));
            assert(c.request_ok(peer, sent));
            lemma_knows_takes(c, p, peer, sent, reply);
        },
        Step::CountVote { voter, result, .. } => {
            if c.peers[p].wins(c.elections[p], result) {
                lemma_knows_wins(c, p, voter, result);
            } else {
                lemma_knows_unmoved(c, step);
            }
        },
        _ => {
            lemma_knows_unmoved(c, step);
        },
    }
    assert forall|q: int| 0 <= q < d.num_peers() implies #[trigger] d.knowledge_ok(q) by {
        if q != p {
            lemma_knows_left_alone(c, step, q);
        }
    }
}

/// A leader that takes a prompt answer takes no other log to be longer than its own.
proof fn lemma_ready_takes(
    c: Cluster,
    p: int,
    peer: int,
    sent: AppendRequest,
    reply: AppendEntriesReply,
)
    requires
        c.inv_shape(),
        c.leader_ok(p),
        c.reply_ok(peer, sent, reply),
        c.request_ok(peer, sent),
        c.enabled(Step::TakeReply { p, peer, sent, reply }),
        c.prompt(Step::TakeReply { p, peer, sent, reply }),
        c.peers[p].role is Leader,
        c.peers[p].can_broadcast(),
    ensures
        c.peers[p].take_reply(peer as usize, sent, reply).role is Leader ==> c.peers[p].take_reply(
            peer as usize,
            sent,
            reply,
        ).can_broadcast(),
{
    let s = c.peers[p];
    let m = s.take_reply(peer as usize, sent, reply);
    assert(s.inv());
    if reply.xterm is Some {
        lemma_last_of_term(s.log, reply.xterm->0, s.log.len() as int);
    }
    if m.role is Leader {
        assert forall|i: int| 0 <= i < m.num_peers && i != m.me implies (
        #[trigger] m.next_index[i]) <= m.log.len() by {
            assert(s.next_index[i] <= s.log.len());
        }
    }
}

/// A prompt step keeps `inv_ready`.
pub proof fn lemma_keeps_ready(c: Cluster, step: Step)
    requires
        c.inv(),
        c.inv_ready(),
        c.enabled(step),
        c.prompt(step),
    ensures
        c.after(step).inv_ready(),
{
    let d = c.after(step);
    let p = step.peer();
    let s = c.peers[p];
    let m = moved(c, step);
    assert(d.num_peers() == c.num_peers());
    assert(s.inv());
    assert(c.leader_ok(p));
    assert(m.role is Leader ==> m.can_broadcast()) by {
        match step {
            Step::Start { command, .. } => {
                law_new_leader_can_broadcast(s, command);
            },
            Step::TakeReply { peer, sent, reply, .. } => {
                assert(c.reply_ok(peer, sent, reply));
                assert(c.request_ok(peer, sent));
                if s.role is Leader {
                    lemma_ready_takes(c, p, peer, sent, reply);
                }
            },
            Step::CountVote { .. } => {
                law_new_leader_can_broadcast(s, Seq::empty());
            },
            Step::AppendEntries { args, .. } => {
                assert(c.request_ok(p, args));
            },
            _ => {
                assert(m.log == s.log && m.next_index == s.next_index || !(m.role is Leader));
            },
        }
    }
    assert forall|q: int|
        0 <= q < d.num_peers() && (
        #[trigger] d.peers[q]).role is Leader implies d.peers[q].can_broadcast() by {
        if q != p {
            assert(d.peers[q] == c.peers[q]);
        }
    }
}

} // verus!
