//! Append-only in-memory event log for replay and live delivery.
//!
//! Consumers track their own position and ask for the next entry from there.
//! The log does not track subscribers.

use vstd::prelude::*;

verus! {

/// Monotonically increasing sequence number of log entries.
pub type EventSeq = u64;

/// One entry in the event log.
#[derive(Debug)]
pub struct LogEntry<E> {
    pub seq: EventSeq,
    pub source: Option<String>,
    pub event: E,
}

/// What a log holds: the sequence number of its first entry, and the entries.
#[verifier::ext_equal]
pub struct LogModel<E> {
    pub first: nat,
    pub entries: Seq<LogEntry<E>>,
}

impl<E> LogModel<E> {
    /// Sequence numbers are given in order and without a gap.
    pub open spec fn wf(self) -> bool {
        &&& self.next_seq() <= u64::MAX
        &&& forall|i: int|
            0 <= i < self.entries.len() ==> (#[trigger] self.entries[i]).seq == self.first + i
    }

    /// The sequence number of the next entry.
    pub open spec fn next_seq(self) -> nat {
        self.first + self.entries.len()
    }

    /// The first entry at or after `from`.
    pub open spec fn next_from(self, from: nat) -> Option<LogEntry<E>> {
        if from >= self.next_seq() {
            None
        } else if from < self.first {
            if self.entries.len() > 0 {
                Some(self.entries[0])
            } else {
                None
            }
        } else {
            Some(self.entries[from - self.first])
        }
    }

    /// With one more entry.
    pub open spec fn appended(self, source: Option<String>, event: E) -> LogModel<E> {
        LogModel {
            entries: self.entries.push(
                LogEntry { seq: self.next_seq() as u64, source, event },
            ),
            ..self
        }
    }

    /// Without the entries before `min_seq`.
    pub open spec fn pruned(self, min_seq: nat) -> LogModel<E> {
        if min_seq <= self.first {
            self
        } else if min_seq >= self.next_seq() {
            LogModel { first: self.next_seq(), entries: Seq::empty() }
        } else {
            LogModel { first: min_seq, entries: self.entries.skip(min_seq - self.first) }
        }
    }
}

/// Append-only event log.
pub struct EventLog<E> {
    entries: Vec<LogEntry<E>>,
    next_seq: EventSeq,
}

impl<E> View for EventLog<E> {
    type V = LogModel<E>;

    closed spec fn view(&self) -> LogModel<E> {
        LogModel {
            first: (self.next_seq - self.entries@.len()) as nat,
            entries: self.entries@,
        }
    }
}

impl<E> EventLog<E> {
    /// Whether sequence numbers are in order and without a gap.
    pub closed spec fn wf(self) -> bool {
        self.entries@.len() <= self.next_seq && self@.wf()
    }

    /// What [`EventLog::wf`] gives.
    pub proof fn lemma_wf(self)
        requires
            self.wf(),
        ensures
            self@.wf(),
    {
    }

    /// The empty log.
    pub fn new() -> (log: Self)
        ensures
            log.wf(),
            log@ == (LogModel::<E> { first: 0, entries: Seq::empty() }),
    {
        EventLog { entries: Vec::new(), next_seq: 0 }
    }

    /// Appends an event and returns its sequence number.
    pub fn append(&mut self, source: Option<String>, event: E) -> (seq: EventSeq)
        requires
            old(self).wf(),
            old(self)@.next_seq() < u64::MAX,
        ensures
            final(self).wf(),
            seq == old(self)@.next_seq(),
            final(self)@ == old(self)@.appended(source, event),
    {
        let seq = self.next_seq;
        self.next_seq = seq + 1;
        self.entries.push(LogEntry { seq, source, event });
        proof {
            let m = self@;
            assert forall|i: int| 0 <= i < m.entries.len() implies (#[trigger] m.entries[i]).seq
                == m.first + i by {
                if i < old(self)@.entries.len() {
                    assert(m.entries[i] == old(self)@.entries[i]);
                }
            }
        }
        seq
    }

    /// The first entry with a sequence number of at least `from`, if there is
    /// one yet.
    pub fn get_next_from(&self, from: EventSeq) -> (entry: Option<&LogEntry<E>>)
        requires
            self.wf(),
        ensures
            match entry {
                Some(e) => self@.next_from(from as nat) == Some(*e),
                None => self@.next_from(from as nat) is None,
            },
    {
        if self.entries.len() == 0 || from >= self.next_seq {
            return None;
        }
        let first: u64 = self.next_seq - self.entries.len() as u64;
        if from < first {
            Some(&self.entries[0])
        } else {
            Some(&self.entries[(from - first) as usize])
        }
    }

    /// The sequence number that the next entry will get.
    pub fn next_seq(&self) -> (seq: EventSeq)
        requires
            self.wf(),
        ensures
            seq == self@.next_seq(),
    {
        self.next_seq
    }

    /// Removes all entries with a sequence number below `min_seq`.
    pub fn prune_below(&mut self, min_seq: EventSeq)
        requires
            old(self).wf(),
        ensures
            final(self).wf(),
            final(self)@ == old(self)@.pruned(min_seq as nat),
    {
        let first: u64 = self.next_seq - self.entries.len() as u64;
        let ghost before = self@;
        if min_seq <= first {
            return;
        }
        if min_seq >= self.next_seq {
            self.entries = Vec::new();
        } else {
            self.entries = self.entries.split_off((min_seq - first) as usize);
            proof {
                assert(self.entries@ =~= before.entries.skip(min_seq - first));
            }
        }
        proof {
            assert(self@ =~= before.pruned(min_seq as nat));
            let m = self@;
            assert forall|i: int| 0 <= i < m.entries.len() implies (#[trigger] m.entries[i]).seq
                == m.first + i by {
                assert(m.entries[i] == before.entries[i + min_seq - first]);
            }
        }
    }
}

impl<E> Default for EventLog<E> {
    fn default() -> (log: Self)
        ensures
            log.wf(),
            log@ == (LogModel::<E> { first: 0, entries: Seq::empty() }),
    {
        EventLog::new()
    }
}

// ---------------------------------------------------------------------------
// Laws
// ---------------------------------------------------------------------------

/// A follower that reads on from its position gets every entry from there on,
/// each once and in order: at a position that the log covers, the next entry is
/// the one with exactly that number.
pub proof fn law_follower_misses_nothing<E>(log: LogModel<E>, from: nat)
    requires
        log.wf(),
        log.first <= from < log.next_seq(),
    ensures
        log.next_from(from) matches Some(e) && e.seq == from && log.entries[from - log.first] == e,
{
}

/// Appending changes nothing of what is already in the log.
pub proof fn law_append_keeps_entries<E>(
    log: LogModel<E>,
    source: Option<String>,
    event: E,
    from: nat,
)
    requires
        log.wf(),
        log.next_seq() < u64::MAX,
    ensures
        log.appended(source, event).wf(),
        log.next_from(from) is Some ==> log.appended(source, event).next_from(from)
            == log.next_from(from),
        log.next_from(from) is None && from <= log.next_seq() ==> (log.appended(
            source,
            event,
        ).next_from(from) matches Some(e) && e.event == event && e.source == source && e.seq
            == log.next_seq()),
{
    let m = log.appended(source, event);
    assert forall|i: int| 0 <= i < m.entries.len() implies (#[trigger] m.entries[i]).seq == m.first
        + i by {
        if i < log.entries.len() {
            assert(m.entries[i] == log.entries[i]);
        }
    }
}

/// Pruning keeps every entry from the given number on, and gives no number
/// again.
pub proof fn law_prune_keeps_later_entries<E>(log: LogModel<E>, min_seq: nat, from: nat)
    requires
        log.wf(),
        from >= min_seq,
    ensures
        log.pruned(min_seq).next_from(from) == log.next_from(from),
        log.pruned(min_seq).next_seq() == log.next_seq(),
{
}

/// What is read at a position is the first entry that has at least that number;
/// nothing is read where all entries have lower ones.
pub proof fn law_next_entry_is_the_first_from_a_position<E>(log: LogModel<E>, from: nat, i: int)
    requires
        log.wf(),
        0 <= i < log.entries.len(),
    ensures
        log.next_from(from) matches Some(e) ==> e.seq >= from && log.entries.contains(e) && (
        log.entries[i].seq >= from ==> log.entries[i].seq >= e.seq),
        log.next_from(from) is None ==> log.entries[i].seq < from,
{
    if from < log.first {
        assert(log.entries.contains(log.entries[0]));
    } else if from < log.next_seq() {
        assert(log.entries.contains(log.entries[from - log.first]));
    }
}

/// Pruning leaves no entry below the given number.
pub proof fn law_pruned_entries_are_gone<E>(log: LogModel<E>, min_seq: nat, i: int)
    requires
        log.wf(),
        0 <= i < log.pruned(min_seq).entries.len(),
    ensures
        log.pruned(min_seq).entries[i].seq >= min_seq,
        log.entries.contains(log.pruned(min_seq).entries[i]),
{
    let m = log.pruned(min_seq);
    if min_seq <= log.first {
        assert(m.entries[i] == log.entries[i]);
    } else {
        assert(m.entries[i] == log.entries[i + min_seq - log.first]);
    }
}

} // verus!
