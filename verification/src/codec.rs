//! How the persistent state and the service's commands look as bytes.
//!
//! Bytes are written and read by `bincode`: integers little-endian at their full width, a length
//! or an index as eight bytes, an absent value as a zero byte, a present one behind a one byte, a
//! sequence behind its length, and the fields of a record one after the other.
use vstd::prelude::*;

use crate::entry::{entries_of, Entry, LogEntry};

verus! {

/// The kinds of error that `bincode` knows. Nothing is said of them.
#[verifier::external_type_specification]
#[verifier::external_body]
pub struct ExErrorKind(bincode::ErrorKind);

/// The eight bytes of `x`, the lowest first.
pub open spec fn u64_bytes(x: u64) -> Seq<u8> {
    seq![
        (x % 0x100) as u8,
        (x / 0x100 % 0x100) as u8,
        (x / 0x1_0000 % 0x100) as u8,
        (x / 0x100_0000 % 0x100) as u8,
        (x / 0x1_0000_0000 % 0x100) as u8,
        (x / 0x100_0000_0000 % 0x100) as u8,
        (x / 0x1_0000_0000_0000 % 0x100) as u8,
        (x / 0x100_0000_0000_0000 % 0x100) as u8,
    ]
}

/// The bytes of an index that may be absent.
pub open spec fn option_bytes(v: Option<usize>) -> Seq<u8> {
    match v {
        None => seq![0u8],
        Some(x) => seq![1u8] + u64_bytes(x as u64),
    }
}

/// The bytes of one log entry.
pub open spec fn entry_bytes(e: Entry) -> Seq<u8> {
    u64_bytes(e.term) + u64_bytes(e.command.len() as u64) + e.command
}

/// The bytes of the entries of a log, one after the other.
pub open spec fn log_bytes(log: Seq<Entry>) -> Seq<u8>
    decreases log.len(),
{
    if log.len() == 0 {
        Seq::empty()
    } else {
        entry_bytes(log[0]) + log_bytes(log.skip(1))
    }
}

/// What a peer keeps over a crash.
#[verifier::ext_equal]
pub struct StoredState {
    pub current_term: u64,
    pub voted_for: Option<usize>,
    pub log: Seq<Entry>,
}

impl StoredState {
    /// Whether every length in it can be written in eight bytes.
    pub open spec fn fits(self) -> bool {
        &&& self.log.len() <= u64::MAX
        &&& forall|i: int|
            0 <= i < self.log.len() ==> (#[trigger] self.log[i]).command.len() <= u64::MAX
    }
}

/// The bytes of a stored state.
pub open spec fn stored_bytes(p: StoredState) -> Seq<u8> {
    u64_bytes(p.current_term) + option_bytes(p.voted_for) + u64_bytes(p.log.len() as u64)
        + log_bytes(p.log)
}

/// Whether `bytes` starts with `head`.
pub open spec fn starts_with(bytes: Seq<u8>, head: Seq<u8>) -> bool {
    head.len() <= bytes.len() && bytes.take(head.len() as int) == head
}

/// The stored state that `bytes` starts with, if there is one.
pub open spec fn read_back(bytes: Seq<u8>) -> Option<StoredState> {
    if exists|p: StoredState| #[trigger] p.fits() && starts_with(bytes, stored_bytes(p)) {
        Some(choose|p: StoredState| #[trigger] p.fits() && starts_with(bytes, stored_bytes(p)))
    } else {
        None
    }
}

/// A log as pairs of term and command.
pub open spec fn pairs_of(log: Seq<(u64, Vec<u8>)>) -> Seq<Entry> {
    log.map_values(|e: (u64, Vec<u8>)| Entry { term: e.0, command: e.1@ })
}

/// Calls `bincode::deserialize` for a `u64`: it takes the first eight bytes and leaves the rest
/// alone, and fails only where there are fewer.
#[verifier::external_body]
fn deserialize_u64(bytes: &[u8]) -> (res: Result<u64, bincode::Error>)
    ensures
        match res {
            Ok(x) => starts_with(bytes@, u64_bytes(x)),
            Err(_) => bytes@.len() < 8,
        },
{
    bincode::deserialize(bytes)
}

/// Calls `bincode::serialize` for a term, a vote and a log. That has no size limit and knows
/// every length in advance, so it succeeds, and gives the bytes of `stored_bytes`.
#[verifier::external_body]
fn serialize_state(current_term: u64, voted_for: Option<usize>, log: &Vec<(u64, Vec<u8>)>) -> (res:
    Vec<u8>)
    ensures
        res@ == stored_bytes(StoredState { current_term, voted_for, log: pairs_of(log@) }),
{
    bincode::serialize(&(current_term, voted_for, log)).unwrap()
}

/// Calls `bincode::deserialize` for a term, a vote and a log: it finds those whose bytes the
/// input starts with, leaves the rest of the input alone, and fails only where there are none.
#[verifier::external_body]
fn deserialize_state(bytes: &[u8]) -> (res: Result<
    (u64, Option<usize>, Vec<(u64, Vec<u8>)>),
    bincode::Error,
>)
    ensures
        match res {
            Ok(p) => starts_with(
                bytes@,
                stored_bytes(
                    StoredState { current_term: p.0, voted_for: p.1, log: pairs_of(p.2@) },
                ),
            ),
            Err(_) => forall|p: StoredState| !starts_with(bytes@, #[trigger] stored_bytes(p)),
        },
{
    bincode::deserialize(bytes)
}

/// Bytes that are no encoding of what was asked for.
#[derive(Debug, Clone, Copy, PartialEq, Eq)]
pub struct Malformed;

/// A command of the service: one number.
#[derive(Debug, Clone, Copy, PartialEq, Eq)]
pub struct MyEntry {
    pub x: u64,
}

impl MyEntry {
    /// Reads an entry off the start of `data`.
    pub fn decode(data: &[u8]) -> (res: Result<MyEntry, Malformed>)
        ensures
            res is Ok <==> data@.len() >= 8,
            res matches Ok(e) ==> u64_bytes(e.x) == data@.take(8),
    {
        match deserialize_u64(data) {
            Ok(x) => Ok(MyEntry { x }),
            Err(_) => Err(Malformed),
        }
    }
}

/// What a peer keeps over a crash.
pub struct Persist {
    pub current_term: u64,
    pub voted_for: Option<usize>,
    pub log: Vec<LogEntry>,
}

impl View for Persist {
    type V = StoredState;

    open spec fn view(&self) -> StoredState {
        StoredState {
            current_term: self.current_term,
            voted_for: self.voted_for,
            log: entries_of(self.log@),
        }
    }
}

impl Persist {
    /// The bytes to be kept on stable storage.
    pub fn encode(&self) -> (bytes: Vec<u8>)
        ensures
            bytes@ == stored_bytes(self@),
    {
        let mut pairs: Vec<(u64, Vec<u8>)> = Vec::new();
        for i in 0..self.log.len()
            invariant
                pairs.len() == i,
                pairs_of(pairs@) == entries_of(self.log@).take(i as int),
        {
            let e: LogEntry = self.log[i].clone();
            pairs.push((e.term, e.command));
            assert(pairs_of(pairs@) =~= entries_of(self.log@).take(i + 1));
        }
        assert(pairs_of(pairs@) =~= entries_of(self.log@));
        serialize_state(self.current_term, self.voted_for, &pairs)
    }

    /// Reads a stored state off the start of `bytes`.
    pub fn decode(bytes: &[u8]) -> (res: Result<Persist, Malformed>)
        ensures
            match res {
                Ok(p) => read_back(bytes@) == Some(p@),
                Err(_) => read_back(bytes@) is None,
            },
    {
        match deserialize_state(bytes) {
            Ok(stored) => {
                let pairs: Vec<(u64, Vec<u8>)> = stored.2;
                let mut log: Vec<LogEntry> = Vec::new();
                for i in 0..pairs.len()
                    invariant
                        log.len() == i,
                        entries_of(log@) == pairs_of(pairs@).take(i as int),
                        forall|j: int| 0 <= j < i ==> (#[trigger] pairs@[j]).1@.len() <= u64::MAX,
                {
                    let command: Vec<u8> = pairs[i].1.clone();
                    assert(command@ =~= pairs@[i as int].1@);
                    assert(command.len() <= u64::MAX);
                    log.push(LogEntry { term: pairs[i].0, command });
                    assert(entries_of(log@) =~= pairs_of(pairs@).take(i + 1));
                }
                let p = Persist { current_term: stored.0, voted_for: stored.1, log };
                proof {
                    assert(pairs_of(pairs@) =~= entries_of(log@));
                    assert(log.len() <= u64::MAX);
                    assert(p@.fits());
                    lemma_read_back(bytes@, p@);
                }
                Ok(p)
            },
            Err(_) => Err(Malformed),
        }
    }
}

/// The bytes of a number tell it apart from every other.
pub proof fn lemma_u64_bytes(x: u64, y: u64)
    requires
        u64_bytes(x) == u64_bytes(y),
    ensures
        x == y,
{
    let a = u64_bytes(x);
    let b = u64_bytes(y);
    assert(a[0] == b[0] && a[1] == b[1] && a[2] == b[2] && a[3] == b[3] && a[4] == b[4] && a[5]
        == b[5] && a[6] == b[6] && a[7] == b[7]);
    assert(x % 0x100 == y % 0x100);
    assert(x / 0x100 % 0x100 == y / 0x100 % 0x100);
    assert(x / 0x1_0000 % 0x100 == y / 0x1_0000 % 0x100);
    assert(x / 0x100_0000 % 0x100 == y / 0x100_0000 % 0x100);
    assert(x / 0x1_0000_0000 % 0x100 == y / 0x1_0000_0000 % 0x100);
    assert(x / 0x100_0000_0000 % 0x100 == y / 0x100_0000_0000 % 0x100);
    assert(x / 0x1_0000_0000_0000 % 0x100 == y / 0x1_0000_0000_0000 % 0x100);
    assert(x / 0x100_0000_0000_0000 % 0x100 == y / 0x100_0000_0000_0000 % 0x100);
    assert(x == y) by (bit_vector)
        requires
            x % 0x100 == y % 0x100,
            x / 0x100 % 0x100 == y / 0x100 % 0x100,
            x / 0x1_0000 % 0x100 == y / 0x1_0000 % 0x100,
            x / 0x100_0000 % 0x100 == y / 0x100_0000 % 0x100,
            x / 0x1_0000_0000 % 0x100 == y / 0x1_0000_0000 % 0x100,
            x / 0x100_0000_0000 % 0x100 == y / 0x100_0000_0000 % 0x100,
            x / 0x1_0000_0000_0000 % 0x100 == y / 0x1_0000_0000_0000 % 0x100,
            x / 0x100_0000_0000_0000 % 0x100 == y / 0x100_0000_0000_0000 % 0x100,
    ;
}

/// Where bytes start with `a + b`, they start with `a`, and go on with `b`.
proof fn lemma_starts_with_sum(bytes: Seq<u8>, a: Seq<u8>, b: Seq<u8>)
    requires
        starts_with(bytes, a + b),
    ensures
        starts_with(bytes, a),
        starts_with(bytes.skip(a.len() as int), b),
{
    assert(bytes.take(a.len() as int) =~= (a + b).take(a.len() as int));
    assert(a =~= (a + b).take(a.len() as int));
    assert(bytes.skip(a.len() as int).take(b.len() as int) =~= (a + b).skip(a.len() as int));
    assert(b =~= (a + b).skip(a.len() as int));
}

/// No two entries have bytes that the same input starts with.
proof fn lemma_entry_bytes(bytes: Seq<u8>, d: Entry, e: Entry)
    requires
        d.command.len() <= u64::MAX,
        e.command.len() <= u64::MAX,
        starts_with(bytes, entry_bytes(d)),
        starts_with(bytes, entry_bytes(e)),
    ensures
        d == e,
{
    let dl = u64_bytes(d.command.len() as u64);
    let el = u64_bytes(e.command.len() as u64);
    lemma_starts_with_sum(bytes, u64_bytes(d.term) + dl, d.command);
    lemma_starts_with_sum(bytes, u64_bytes(e.term) + el, e.command);
    lemma_starts_with_sum(bytes, u64_bytes(d.term), dl);
    lemma_starts_with_sum(bytes, u64_bytes(e.term), el);
    lemma_u64_bytes(d.term, e.term);
    lemma_u64_bytes(d.command.len() as u64, e.command.len() as u64);
    assert(d.command == e.command);
}

/// No two logs of one length have bytes that the same input starts with.
proof fn lemma_log_bytes(bytes: Seq<u8>, a: Seq<Entry>, b: Seq<Entry>)
    requires
        a.len() == b.len(),
        forall|i: int| 0 <= i < a.len() ==> (#[trigger] a[i]).command.len() <= u64::MAX,
        forall|i: int| 0 <= i < b.len() ==> (#[trigger] b[i]).command.len() <= u64::MAX,
        starts_with(bytes, log_bytes(a)),
        starts_with(bytes, log_bytes(b)),
    ensures
        a == b,
    decreases a.len(),
{
    if a.len() > 0 {
        lemma_starts_with_sum(bytes, entry_bytes(a[0]), log_bytes(a.skip(1)));
        lemma_starts_with_sum(bytes, entry_bytes(b[0]), log_bytes(b.skip(1)));
        lemma_entry_bytes(bytes, a[0], b[0]);
        lemma_log_bytes(bytes.skip(entry_bytes(a[0]).len() as int), a.skip(1), b.skip(1));
        assert(a =~= seq![a[0]] + a.skip(1));
        assert(b =~= seq![b[0]] + b.skip(1));
    } else {
        assert(a =~= b);
    }
}

/// No two votes have bytes that the same input starts with.
proof fn lemma_option_bytes(bytes: Seq<u8>, v: Option<usize>, w: Option<usize>)
    requires
        starts_with(bytes, option_bytes(v)),
        starts_with(bytes, option_bytes(w)),
    ensures
        v == w,
{
    let vb = option_bytes(v);
    let wb = option_bytes(w);
    assert(bytes[0] == bytes.take(vb.len() as int)[0] && bytes[0] == bytes.take(
        wb.len() as int,
    )[0]);
    assert(vb[0] == wb[0]);
    if v is Some {
        let x = v->0 as u64;
        let y = w->0 as u64;
        lemma_starts_with_sum(bytes, seq![1u8], u64_bytes(x));
        lemma_starts_with_sum(bytes, seq![1u8], u64_bytes(y));
        lemma_u64_bytes(x, y);
    }
}

/// No two terms with a vote have bytes that the same input starts with.
proof fn lemma_term_and_vote_bytes(
    bytes: Seq<u8>,
    t: u64,
    v: Option<usize>,
    u: u64,
    w: Option<usize>,
)
    requires
        starts_with(bytes, u64_bytes(t) + option_bytes(v)),
        starts_with(bytes, u64_bytes(u) + option_bytes(w)),
    ensures
        t == u,
        v == w,
{
    lemma_starts_with_sum(bytes, u64_bytes(t), option_bytes(v));
    lemma_starts_with_sum(bytes, u64_bytes(u), option_bytes(w));
    lemma_u64_bytes(t, u);
    lemma_option_bytes(bytes.skip(8), v, w);
}

/// No two stored states have bytes that the same input starts with.
#[verifier::spinoff_prover]
pub proof fn lemma_stored_bytes(bytes: Seq<u8>, p: StoredState, q: StoredState)
    requires
        p.fits(),
        q.fits(),
        starts_with(bytes, stored_bytes(p)),
        starts_with(bytes, stored_bytes(q)),
    ensures
        p == q,
{
    let ph = u64_bytes(p.current_term) + option_bytes(p.voted_for);
    let qh = u64_bytes(q.current_term) + option_bytes(q.voted_for);
    let pn = u64_bytes(p.log.len() as u64);
    let qn = u64_bytes(q.log.len() as u64);
    lemma_starts_with_sum(bytes, ph + pn, log_bytes(p.log));
    lemma_starts_with_sum(bytes, qh + qn, log_bytes(q.log));
    lemma_starts_with_sum(bytes, ph, pn);
    lemma_starts_with_sum(bytes, qh, qn);
    lemma_term_and_vote_bytes(
        bytes,
        p.current_term,
        p.voted_for,
        q.current_term,
        q.voted_for,
    );
    lemma_u64_bytes(p.log.len() as u64, q.log.len() as u64);
    lemma_log_bytes(bytes.skip((ph + pn).len() as int), p.log, q.log);
}

/// What was stored reads back, whatever follows it.
pub proof fn lemma_read_back(bytes: Seq<u8>, p: StoredState)
    requires
        p.fits(),
        starts_with(bytes, stored_bytes(p)),
    ensures
        read_back(bytes) == Some(p),
{
    let q = choose|q: StoredState| #[trigger] q.fits() && starts_with(bytes, stored_bytes(q));
    lemma_stored_bytes(bytes, p, q);
}

} // verus!
