//! The event log: an append-only record of observed events, grouped into
//! transactions and numbered in the order of their arrival.

use vstd::prelude::*;
use crate::codec::{decode_transaction, parse_transaction};
use crate::event::{event_views, Event, EventView, Transaction};
use crate::storage::payload_views;

verus! {

/// One event as the log holds it.
#[derive(Debug)]
pub struct LogEntry {
    pub event_id: u64,
    pub transaction_id: u64,
    pub event: Event,
}

/// What a [`LogEntry`] says.
pub struct LogEntryView {
    pub event_id: u64,
    pub transaction_id: u64,
    pub event: EventView,
}

impl View for LogEntry {
    type V = LogEntryView;

    open spec fn view(&self) -> LogEntryView {
        LogEntryView {
            event_id: self.event_id,
            transaction_id: self.transaction_id,
            event: self.event@,
        }
    }
}

/// Why the log could not do what was asked.
#[derive(Clone, Copy, Debug, PartialEq, Eq, Structural)]
pub enum StorageError {
    /// The log holds so many events that no further event id is left.
    EventIdsExhausted,
    /// Every transaction id up to the largest is in use.
    TransactionIdsExhausted,
    /// The lock on the log could not be had within the allowed attempts.
    LockUnavailable,
    /// A record of the stored log does not hold a transaction.
    CorruptRecord,
}

/// The event ids given out by one append: those from `first` up to, and not
/// including, `end`.
#[derive(Clone, Copy, Debug, PartialEq, Eq, Structural)]
pub struct EventIdRange {
    pub first: u64,
    pub end: u64,
}

/// The entries that the events of a transaction become when they are
/// appended to a log that holds `len` entries: the `k`-th gets the event id
/// `len + 1 + k`.
pub open spec fn entries_of(len: nat, transaction_id: u64, events: Seq<EventView>) -> Seq<
    LogEntryView,
> {
    Seq::new(
        events.len(),
        |k: int|
            LogEntryView { event_id: (len + 1 + k) as u64, transaction_id, event: events[k] },
    )
}

/// The events of the entries from position `from` on.
pub open spec fn events_from(entries: Seq<LogEntryView>, from: int) -> Seq<EventView> {
    Seq::new((entries.len() - from) as nat, |k: int| entries[from + k].event)
}

/// The largest transaction id among `entries`, 0 where there is none.
pub open spec fn max_transaction_id(entries: Seq<LogEntryView>) -> u64
    decreases entries.len(),
{
    if entries.len() == 0 {
        0
    } else {
        let before = max_transaction_id(entries.drop_last());
        if entries.last().transaction_id > before {
            entries.last().transaction_id
        } else {
            before
        }
    }
}

/// No entry has a transaction id above the largest.
pub proof fn lemma_max_transaction_id(entries: Seq<LogEntryView>, i: int)
    requires
        0 <= i < entries.len(),
    ensures
        entries[i].transaction_id <= max_transaction_id(entries),
    decreases entries.len(),
{
    if i < entries.len() - 1 {
        lemma_max_transaction_id(entries.drop_last(), i);
    }
}

/// The events recorded so far. Entries are never changed or removed.
pub struct EventLog {
    entries: Vec<LogEntry>,
}

impl View for EventLog {
    type V = Seq<LogEntryView>;

    closed spec fn view(&self) -> Seq<LogEntryView> {
        Seq::new(self.entries@.len(), |i: int| self.entries@[i]@)
    }
}

impl EventLog {
    /// The invariant of the log: the entry at position `i` has the event id
    /// `i + 1`, so that event ids increase strictly and without gaps.
    pub open spec fn wf(self) -> bool {
        forall|i: int| 0 <= i < self@.len() ==> (#[trigger] self@[i]).event_id == i + 1
    }

    /// A log without events.
    pub fn new() -> (log: EventLog)
        ensures
            log.wf(),
            log@ == Seq::<LogEntryView>::empty(),
    {
        let log = EventLog { entries: Vec::new() };
        assert(log@ == Seq::<LogEntryView>::empty());
        log
    }

    /// The largest event id given out so far, 0 for a log without events.
    pub fn latest_event_id(&self) -> (id: u64)
        requires
            self.wf(),
        ensures
            id == self@.len(),
    {
        let n = self.entries.len();
        if n == 0 {
            0
        } else {
            assert(self@[n - 1].event_id == n);
            self.entries[n - 1].event_id
        }
    }

    /// Records the events of `transaction`, all of them or none.
    ///
    /// On success the events stand at the end of the log in their order,
    /// with consecutive event ids, which the result names. The append fails,
    /// and leaves the log as it was, exactly if the event ids would run out.
    pub fn append(&mut self, transaction: Transaction) -> (r: Result<EventIdRange, StorageError>)
        requires
            old(self).wf(),
        ensures
            final(self).wf(),
            old(self)@.len() + transaction.events@.len() < u64::MAX ==> r == Ok::<
                EventIdRange,
                StorageError,
            >(
                EventIdRange {
                    first: (old(self)@.len() + 1) as u64,
                    end: (old(self)@.len() + 1 + transaction.events@.len()) as u64,
                },
            ) && final(self)@ == old(self)@ + entries_of(
                old(self)@.len(),
                transaction.id,
                event_views(transaction.events@),
            ),
            old(self)@.len() + transaction.events@.len() >= u64::MAX ==> r == Err::<
                EventIdRange,
                StorageError,
            >(StorageError::EventIdsExhausted) && final(self)@ == old(self)@,
    {
        let latest = self.latest_event_id();
        let count = transaction.events.len();
        if count as u64 >= u64::MAX - latest {
            return Err(StorageError::EventIdsExhausted);
        }
        let ghost before = self@;
        let ghost added = entries_of(
            before.len(),
            transaction.id,
            event_views(transaction.events@),
        );
        let mut k: usize = 0;
        assert(self@ == before + added.take(0));
        while k < count
            invariant
                k <= count,
                count == transaction.events@.len(),
                latest == before.len(),
                before.len() + count < u64::MAX,
                added == entries_of(
                    before.len(),
                    transaction.id,
                    event_views(transaction.events@),
                ),
                self@ == before + added.take(k as int),
            decreases count - k,
        {
            let entry = LogEntry {
                event_id: latest + 1 + k as u64,
                transaction_id: transaction.id,
                event: transaction.events[k].clone(),
            };
            let ghost prev = self@;
            self.entries.push(entry);
            proof {
                assert(entry@ == added[k as int]);
                assert(self@ == prev.push(entry@));
                assert(added.take(k + 1) == added.take(k as int).push(added[k as int]));
            }
            k += 1;
        }
        proof {
            assert(added.take(count as int) == added);
            assert forall|i: int| 0 <= i < self@.len() implies (#[trigger] self@[i]).event_id == i
                + 1 by {
                if i < before.len() {
                    assert(self@[i] == before[i]);
                } else {
                    assert(self@[i] == added[i - before.len()]);
                }
            }
        }
        Ok(EventIdRange { first: latest + 1, end: latest + 1 + count as u64 })
    }

    /// The events with an id above `event_id`, in ascending order of id.
    pub fn events_since(&self, event_id: u64) -> (events: Vec<Event>)
        requires
            self.wf(),
        ensures
            event_views(events@) == events_from(
                self@,
                if event_id <= self@.len() {
                    event_id as int
                } else {
                    self@.len() as int
                },
            ),
    {
        let n = self.entries.len();
        let from: usize = if event_id <= n as u64 {
            event_id as usize
        } else {
            n
        };
        let mut events: Vec<Event> = Vec::new();
        let mut i = from;
        while i < n
            invariant
                from <= i <= n,
                n == self.entries@.len(),
                events@.len() == i - from,
                forall|k: int| 0 <= k < i - from ==> (#[trigger] events@[k])@ == self@[from + k].event,
            decreases n - i,
        {
            events.push(self.entries[i].event.clone());
            i += 1;
        }
        assert(event_views(events@) == events_from(self@, from as int));
        events
    }

    /// The id under which the events of one invocation are grouped: the id
    /// that the host operation supplies, where it supplies one, so that all
    /// its invocations share a transaction; else a fresh id, one above the
    /// largest in the log. Fails exactly if a fresh id is wanted and the
    /// largest is already in use.
    pub fn allocate_transaction_id(&self, supplied: Option<u64>) -> (r: Result<u64, StorageError>)
        ensures
            r == (match supplied {
                Some(id) => Ok::<u64, StorageError>(id),
                None => if max_transaction_id(self@) < u64::MAX {
                    Ok::<u64, StorageError>((max_transaction_id(self@) + 1) as u64)
                } else {
                    Err::<u64, StorageError>(StorageError::TransactionIdsExhausted)
                },
            }),
    {
        match supplied {
            Some(id) => Ok(id),
            None => {
                let mut largest: u64 = 0;
                let mut i: usize = 0;
                assert(self@.take(0) == Seq::<LogEntryView>::empty());
                while i < self.entries.len()
                    invariant
                        i <= self.entries@.len(),
                        largest == max_transaction_id(self@.take(i as int)),
                    decreases self.entries.len() - i,
                {
                    proof {
                        assert(self@.take(i + 1).drop_last() == self@.take(i as int));
                        assert(self@.take(i + 1).last() == self.entries@[i as int]@);
                    }
                    if self.entries[i].transaction_id > largest {
                        largest = self.entries[i].transaction_id;
                    }
                    i += 1;
                }
                assert(self@.take(self@.len() as int) == self@);
                if largest < u64::MAX {
                    Ok(largest + 1)
                } else {
                    Err(StorageError::TransactionIdsExhausted)
                }
            },
        }
    }
}

/// The entries of the log that the first `k` of `payloads` give when their
/// transactions are appended one after the other to an empty log; the
/// error of the first payload that holds no transaction, or whose events
/// find no event ids left.
pub open spec fn replayed(payloads: Seq<Seq<u8>>, k: int) -> Result<
    Seq<LogEntryView>,
    StorageError,
>
    decreases k,
{
    if k <= 0 {
        Ok(Seq::empty())
    } else {
        match replayed(payloads, k - 1) {
            Err(e) => Err(e),
            Ok(entries) => match parse_transaction(payloads[k - 1]) {
                None => Err(StorageError::CorruptRecord),
                Some(transaction) => if entries.len() + transaction.events.len() < u64::MAX {
                    Ok(entries + entries_of(entries.len(), transaction.id, transaction.events))
                } else {
                    Err(StorageError::EventIdsExhausted)
                },
            },
        }
    }
}

/// Once replaying fails, it fails the same way however many payloads
/// follow.
proof fn lemma_replay_stays_failed(payloads: Seq<Seq<u8>>, k: int, n: int)
    requires
        k <= n,
        replayed(payloads, k) is Err,
    ensures
        replayed(payloads, n) == replayed(payloads, k),
    decreases n - k,
{
    if k < n {
        lemma_replay_stays_failed(payloads, k, n - 1);
    }
}

impl EventLog {
    /// Builds the log from the payloads of the records in storage, in
    /// their order. Fails with the error of the first payload that does
    /// not hold a transaction or that the log has no event ids left for.
    pub fn replay(payloads: &Vec<Vec<u8>>) -> (r: Result<EventLog, StorageError>)
        ensures
            match r {
                Ok(log) => log.wf() && replayed(
                    payload_views(payloads@),
                    payloads@.len() as int,
                ) == Ok::<Seq<LogEntryView>, StorageError>(log@),
                Err(e) => replayed(payload_views(payloads@), payloads@.len() as int) == Err::<
                    Seq<LogEntryView>,
                    StorageError,
                >(e),
            },
    {
        let ghost views = payload_views(payloads@);
        let n = payloads.len();
        let mut log = EventLog::new();
        let mut k: usize = 0;
        while k < n
            invariant
                k <= n,
                n == payloads@.len(),
                views == payload_views(payloads@),
                log.wf(),
                replayed(views, k as int) == Ok::<Seq<LogEntryView>, StorageError>(log@),
            decreases n - k,
        {
            assert(views[k as int] == payloads@[k as int]@);
            match decode_transaction(&payloads[k]) {
                None => {
                    proof {
                        lemma_replay_stays_failed(views, k + 1, n as int);
                    }
                    return Err(StorageError::CorruptRecord);
                },
                Some(transaction) => {
                    match log.append(transaction) {
                        Ok(_) => {},
                        Err(e) => {
                            proof {
                                lemma_replay_stays_failed(views, k + 1, n as int);
                            }
                            return Err(e);
                        },
                    }
                },
            }
            k += 1;
        }
        Ok(log)
    }
}

/// A fresh transaction id is not the id of any entry of the log.
pub proof fn lemma_fresh_transaction_id(entries: Seq<LogEntryView>, i: int)
    requires
        0 <= i < entries.len(),
        max_transaction_id(entries) < u64::MAX,
    ensures
        entries[i].transaction_id != max_transaction_id(entries) + 1,
{
    lemma_max_transaction_id(entries, i);
}

/// What to do after an attempt to lock the log has failed.
#[derive(Clone, Copy, Debug, PartialEq, Eq, Structural)]
pub enum LockRetry {
    /// Wait for so many milliseconds, then try again.
    After { millis: u64 },
    /// Give the append up, with [`StorageError::LockUnavailable`].
    GiveUp,
}

/// Number of attempts to lock the log before an append is given up.
pub const MAX_LOCK_ATTEMPTS: u32 = 5;

/// Wait before the second attempt, in milliseconds; it doubles with every
/// further attempt.
pub const LOCK_BACKOFF_MILLIS: u64 = 10;

/// The wait after `failed` failed attempts: `LOCK_BACKOFF_MILLIS`, doubled
/// once for every attempt after the first.
pub open spec fn backoff_millis(failed: nat) -> nat
    decreases failed,
{
    if failed <= 1 {
        LOCK_BACKOFF_MILLIS as nat
    } else {
        2 * backoff_millis((failed - 1) as nat)
    }
}

/// Decides what follows the `failed`-th failed attempt to lock the log, the
/// first being number 1: another attempt after a wait that doubles each
/// time, or, once `MAX_LOCK_ATTEMPTS` have failed, the end of the append.
pub fn after_lock_failure(failed: u32) -> (step: LockRetry)
    ensures
        step == (if failed < MAX_LOCK_ATTEMPTS {
            LockRetry::After { millis: backoff_millis(failed as nat) as u64 }
        } else {
            LockRetry::GiveUp
        }),
{
    if failed >= MAX_LOCK_ATTEMPTS {
        return LockRetry::GiveUp;
    }
    let mut millis: u64 = LOCK_BACKOFF_MILLIS;
    let mut n: u32 = 1;
    while n < failed
        invariant
            1 <= n,
            n <= failed || (failed == 0 && n == 1),
            failed < MAX_LOCK_ATTEMPTS,
            millis == backoff_millis(n as nat),
            millis <= 10 * 16,
            n <= 4 ==> millis <= 10 * 8,
            n <= 3 ==> millis <= 10 * 4,
            n <= 2 ==> millis <= 10 * 2,
            n <= 1 ==> millis <= 10,
        decreases failed - n,
    {
        millis = millis * 2;
        n += 1;
    }
    LockRetry::After { millis }
}

} // verus!
