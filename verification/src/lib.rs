//! The Raft consensus algorithm, as a state machine without input and output.
//!
//! A peer is a [`handle::RaftHandle`]. Whatever reaches it is handed to one of its methods, which
//! says what to answer, what to send, what to put on stable storage and what to give to the
//! service; to do so is left to the caller. [`guard`] has what such a caller tests beforehand.
//!
//! What each method does is stated over [`state::RaftState`], the state of a peer as a
//! mathematical value. [`conduct`] and [`progress`] have what that comes to, event by event, and
//! [`run`] what a single peer keeps to, whatever happens to it. [`cluster`] has what holds between
//! two peers, and [`safety`] what a whole cluster promises: one leader per term, logs that match,
//! commands that keep their index, leaders that hold what is committed, and peers that never
//! disagree on what is committed. The proof of that is in [`agreement`], [`history`],
//! [`preservation`], [`knowledge`] and [`durability`].
pub mod agreement;
pub mod cluster;
pub mod codec;
pub mod conduct;
pub mod durability;
pub mod election;
pub mod entry;
pub mod guard;
pub mod handle;
pub mod history;
pub mod knowledge;
pub mod message;
pub mod preservation;
pub mod progress;
pub mod raft;
pub mod replication;
pub mod run;
pub mod safety;
pub mod state;
