//! Log entries, and what can be said of a log as a sequence of them.
use vstd::prelude::*;

verus! {

/// One slot of the replicated log.
pub struct LogEntry {
    /// The term in which a leader took the command in.
    pub term: u64,
    /// The command, as the service encoded it.
    pub command: Vec<u8>,
}

/// A log entry as a mathematical value.
#[verifier::ext_equal]
pub struct Entry {
    pub term: u64,
    pub command: Seq<u8>,
}

impl View for LogEntry {
    type V = Entry;

    open spec fn view(&self) -> Entry {
        Entry { term: self.term, command: self.command@ }
    }
}

impl Clone for LogEntry {
    fn clone(&self) -> (res: Self)
        ensures
            res@ == self@,
    {
        let command: Vec<u8> = self.command.clone();
        assert(command@ =~= self.command@);
        LogEntry { term: self.term, command }
    }
}

/// The entries of a log, each as a mathematical value.
pub open spec fn entries_of(log: Seq<LogEntry>) -> Seq<Entry> {
    log.map_values(|e: LogEntry| e@)
}

/// How many of `entries`, counted on from the first `i`, already stand in `log` from position
/// `start` on: those up to the first whose term differs, or that lies past the end of `log`.
pub open spec fn matched(log: Seq<Entry>, start: int, entries: Seq<Entry>, i: int) -> int
    decreases entries.len() - i,
{
    if 0 <= i < entries.len() && start + i < log.len() && log[start + i].term == entries[i].term {
        matched(log, start, entries, i + 1)
    } else {
        i
    }
}

/// `log` after `entries` were laid over it from position `start` on. What already agrees stays,
/// and whatever follows the last agreeing entry gives way to the rest of `entries`.
pub open spec fn merged(log: Seq<Entry>, start: int, entries: Seq<Entry>) -> Seq<Entry> {
    let m = matched(log, start, entries, 0);
    if m == entries.len() {
        log
    } else {
        log.take(start + m) + entries.skip(m)
    }
}

/// The first position of the run of equal terms in `log` that position `i` belongs to.
pub open spec fn run_start(log: Seq<Entry>, i: int) -> int
    decreases i,
{
    if 0 < i < log.len() && log[i - 1].term == log[i].term {
        run_start(log, i - 1)
    } else {
        i
    }
}

/// The last position below `end`, but for position zero, at which `log` holds an entry of `term`.
pub open spec fn last_of_term(log: Seq<Entry>, term: u64, end: int) -> Option<int>
    decreases end,
{
    if end <= 1 {
        None
    } else if log[end - 1].term == term {
        Some(end - 1)
    } else {
        last_of_term(log, term, end - 1)
    }
}

/// What `matched` counts: every counted entry agrees in its term, and the next one does not.
pub proof fn lemma_matched(log: Seq<Entry>, start: int, entries: Seq<Entry>, i: int)
    requires
        0 <= i <= entries.len(),
        0 <= start,
        start + i <= log.len(),
    ensures
        i <= matched(log, start, entries, i) <= entries.len(),
        start + matched(log, start, entries, i) <= log.len(),
        forall|j: int|
            i <= j < matched(log, start, entries, i) ==> (#[trigger] entries[j]).term == log[start
                + j].term,
        ({
            let m = matched(log, start, entries, i);
            m < entries.len() ==> start + m == log.len() || log[start + m].term != entries[m].term
        }),
    decreases entries.len() - i,
{
    if i < entries.len() && start + i < log.len() && log[start + i].term == entries[i].term {
        lemma_matched(log, start, entries, i + 1);
    }
}

/// What `merged` gives: `entries` stand in it by their terms, and of `log` whatever comes before
/// the first disagreement.
pub proof fn lemma_merged(log: Seq<Entry>, start: int, entries: Seq<Entry>)
    requires
        0 <= start <= log.len(),
    ensures
        merged(log, start, entries).len() >= start + entries.len(),
        start + matched(log, start, entries, 0) <= log.len(),
        merged(log, start, entries).take(start + matched(log, start, entries, 0)) == log.take(
            start + matched(log, start, entries, 0),
        ),
        forall|j: int|
            0 <= j < entries.len() ==> (#[trigger] entries[j]).term == merged(
                log,
                start,
                entries,
            )[start + j].term,
{
    let m = matched(log, start, entries, 0);
    lemma_matched(log, start, entries, 0);
    assert(merged(log, start, entries).take(start + m) =~= log.take(start + m));
    if m < entries.len() {
        assert forall|j: int| 0 <= j < entries.len() implies (#[trigger] entries[j]).term == merged(
            log,
            start,
            entries,
        )[start + j].term by {
            if j >= m {
                assert(entries.skip(m)[j - m] == entries[j]);
            }
        }
    }
}

/// What `run_start` finds: the run is unbroken up to `i`, and does not reach further down.
pub proof fn lemma_run_start(log: Seq<Entry>, i: int)
    requires
        0 <= i < log.len(),
    ensures
        0 <= run_start(log, i) <= i,
        forall|j: int| run_start(log, i) <= j <= i ==> (#[trigger] log[j]).term == log[i].term,
        run_start(log, i) > 0 ==> log[run_start(log, i) - 1].term != log[i].term,
    decreases i,
{
    if 0 < i && log[i - 1].term == log[i].term {
        lemma_run_start(log, i - 1);
    }
}

/// What `last_of_term` finds: an entry of the term with none after it, or nothing at all.
pub proof fn lemma_last_of_term(log: Seq<Entry>, term: u64, end: int)
    requires
        end <= log.len(),
    ensures
        match last_of_term(log, term, end) {
            Some(j) => {
                &&& 1 <= j < end
                &&& log[j].term == term
                &&& forall|k: int| j < k < end ==> (#[trigger] log[k]).term != term
            },
            None => forall|k: int| 1 <= k < end ==> (#[trigger] log[k]).term != term,
        },
    decreases end,
{
    if end > 1 && log[end - 1].term != term {
        lemma_last_of_term(log, term, end - 1);
    }
}

} // verus!
