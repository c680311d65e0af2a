# raft

A Raft peer as a verified state machine, and a small program around it that runs it on the Madsim
simulator.

- `src/` is the library. It takes what reaches a peer, and says what to answer, send, store and
  apply; every method has an exact contract over a mathematical model of the peer. It also proves
  what a cluster of such peers promises, for an odd number of peers: at most one leader per term,
  matching logs, commands that appear at the index they were given, leaders that hold whatever is
  committed, and no two peers that ever disagree on a committed entry.
- `app/` waits, sends, reads and writes as the library decides.
- `tests/` runs the library on concrete values.

Three conditions of the cluster's promises are up to whoever runs a peer.

- What a peer has to store must be on stable storage before anything that rests on it is sent.
- Each peer's answer to a candidate is counted once, and only in the election in which the
  candidate has asked for it.
- A success that answers what a leader has sent in an earlier term must not be handed to it. What is
  promised of committed entries rests on this; that there is one leader per term, that logs match,
  and that a command appears at the index it was given, does not. A refusal that comes as late does
  no harm to any of that, but it may make a leader take another log to be longer than its own, and
  then the leader cannot go on.

`app/` sees to the second, with one call to each peer and one channel per election. It does not see
to the other two: there a candidate stores its own vote only when its election is over, and every
answer to a leader is handed on.
