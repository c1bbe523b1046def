//! Turning what a hook invocation delivers into events.
//!
//! Each function takes the arguments or the input of one kind of hook, as
//! the host system documents them, and returns the events to record.
//! Lines that do not have the documented shape give no event.

use vstd::prelude::*;
use crate::commit_id::{parse_commit_id, CommitId};
use crate::commit_map::CommitMap;
use crate::event::{event_views, Event, EventView, Transaction};
use crate::text::{
    chars_of, extend_str, line_views, same_chars, split, split_lines, split_on, string_of,
    text_lines,
};

verus! {

/// The identity of all zeros, by which the host system writes "no commit".
pub open spec fn zero_id() -> CommitId {
    CommitId(0, 0, 0, 0, 0)
}

/// One side of an update as the host system writes it: 40 hexadecimal
/// digits, all zero where there is no commit. `None` for any other text.
pub open spec fn parse_side(s: Seq<char>) -> Option<Option<CommitId>> {
    match parse_commit_id(s) {
        Some(id) => Some(
            if id == zero_id() {
                None
            } else {
                Some(id)
            },
        ),
        None => None,
    }
}

/// The rewrite that a line `<old> <new>` reports, further fields ignored.
/// The old side must name a commit; an all-zero new side says that the
/// commit was dropped.
pub open spec fn rewrite_of_line(line: Seq<char>, time: i64) -> Option<EventView> {
    let fields = split_on(line, ' ');
    if fields.len() >= 2 && parse_side(fields[0]) is Some && parse_side(fields[0])->0 is Some
        && parse_side(fields[1]) is Some {
        Some(
            EventView::RewriteEvent {
                old_commit_id: parse_side(fields[0])->0->0,
                new_commit_id: parse_side(fields[1])->0,
                time,
            },
        )
    } else {
        None
    }
}

/// The reference update that a line `<old> <new> <name>` reports: none where
/// both sides are the same.
pub open spec fn ref_update_of_line(line: Seq<char>, time: i64) -> Option<EventView> {
    let fields = split_on(line, ' ');
    if fields.len() == 3 && parse_side(fields[0]) is Some && parse_side(fields[1]) is Some
        && parse_side(fields[0])->0 != parse_side(fields[1])->0 {
        Some(
            EventView::RefUpdateEvent {
                ref_name: fields[2],
                old_commit_id: parse_side(fields[0])->0,
                new_commit_id: parse_side(fields[1])->0,
                time,
            },
        )
    } else {
        None
    }
}

/// The rewrites that `lines` report, in the order of the lines.
pub open spec fn rewrites_of_lines(lines: Seq<Seq<char>>, time: i64) -> Seq<EventView>
    decreases lines.len(),
{
    if lines.len() == 0 {
        Seq::empty()
    } else {
        let before = rewrites_of_lines(lines.drop_last(), time);
        match rewrite_of_line(lines.last(), time) {
            Some(event) => before.push(event),
            None => before,
        }
    }
}

/// The reference updates that `lines` report, in the order of the lines.
pub open spec fn ref_updates_of_lines(lines: Seq<Seq<char>>, time: i64) -> Seq<EventView>
    decreases lines.len(),
{
    if lines.len() == 0 {
        Seq::empty()
    } else {
        let before = ref_updates_of_lines(lines.drop_last(), time);
        match ref_update_of_line(lines.last(), time) {
            Some(event) => before.push(event),
            None => before,
        }
    }
}

/// The events of a `post-rewrite` invocation whose input is `input`.
pub open spec fn post_rewrite_events(input: Seq<char>, time: i64) -> Seq<EventView> {
    rewrites_of_lines(split_lines(input), time)
}

/// The events of a `reference-transaction` invocation in state `state`
/// whose input is `input`: none unless the transaction was committed.
pub open spec fn reference_transaction_events(
    state: Seq<char>,
    input: Seq<char>,
    time: i64,
) -> Seq<EventView> {
    if state == "committed"@ {
        ref_updates_of_lines(split_lines(input), time)
    } else {
        Seq::empty()
    }
}

/// The events of a `post-checkout` invocation with the given previous and
/// new position: one update of `HEAD` where both are well-formed and differ.
pub open spec fn post_checkout_events(previous: Seq<char>, current: Seq<char>, time: i64) -> Seq<
    EventView,
> {
    if parse_side(previous) is Some && parse_side(current) is Some && parse_side(previous)->0
        != parse_side(current)->0 {
        seq![
            EventView::RefUpdateEvent {
                ref_name: "HEAD"@,
                old_commit_id: parse_side(previous)->0,
                new_commit_id: parse_side(current)->0,
                time,
            },
        ]
    } else {
        Seq::empty()
    }
}

/// Whatever the input, ingestion gives no reference update that changes
/// nothing.
pub proof fn lemma_ingestion_gives_no_noop(lines: Seq<Seq<char>>, time: i64)
    ensures
        forall|i: int|
            0 <= i < ref_updates_of_lines(lines, time).len() ==> !(
            #[trigger] ref_updates_of_lines(lines, time)[i]).is_noop(),
        forall|i: int|
            0 <= i < rewrites_of_lines(lines, time).len() ==> !(#[trigger] rewrites_of_lines(
                lines,
                time,
            )[i]).is_noop(),
    decreases lines.len(),
{
    if lines.len() > 0 {
        lemma_ingestion_gives_no_noop(lines.drop_last(), time);
        let updates = ref_updates_of_lines(lines, time);
        let updates_before = ref_updates_of_lines(lines.drop_last(), time);
        assert forall|i: int| 0 <= i < updates.len() implies !(#[trigger] updates[i]).is_noop() by {
            if i < updates_before.len() {
                assert(updates[i] == updates_before[i]);
            }
        }
        let rewrites = rewrites_of_lines(lines, time);
        let rewrites_before = rewrites_of_lines(lines.drop_last(), time);
        assert forall|i: int| 0 <= i < rewrites.len() implies !(#[trigger] rewrites[i]).is_noop() by {
            if i < rewrites_before.len() {
                assert(rewrites[i] == rewrites_before[i]);
            }
        }
    }
}

/// Reads one side of an update.
fn read_side(field: &Vec<char>) -> (side: Option<Option<CommitId>>)
    ensures
        side == parse_side(field@),
{
    assert(field@.subrange(0, field@.len() as int) == field@);
    match CommitId::from_chars(field, 0, field.len()) {
        Some(id) => {
            if id == CommitId(0, 0, 0, 0, 0) {
                Some(None)
            } else {
                Some(Some(id))
            }
        },
        None => None,
    }
}

/// Reads the rewrite that a line reports.
fn read_rewrite(line: &Vec<char>, time: i64) -> (event: Option<Event>)
    ensures
        match event {
            Some(e) => rewrite_of_line(line@, time) == Some(e@),
            None => rewrite_of_line(line@, time) is None,
        },
{
    let fields = split(line, ' ');
    assert(line_views(fields@).len() == fields@.len());
    if fields.len() < 2 {
        return None;
    }
    assert(line_views(fields@)[0] == fields@[0]@);
    assert(line_views(fields@)[1] == fields@[1]@);
    let old = read_side(&fields[0]);
    let new = read_side(&fields[1]);
    match (old, new) {
        (Some(Some(old_commit_id)), Some(new_commit_id)) => Some(
            Event::RewriteEvent { old_commit_id, new_commit_id, time },
        ),
        _ => None,
    }
}

/// Reads the reference update that a line reports.
fn read_ref_update(line: &Vec<char>, time: i64) -> (event: Option<Event>)
    ensures
        match event {
            Some(e) => ref_update_of_line(line@, time) == Some(e@),
            None => ref_update_of_line(line@, time) is None,
        },
{
    let fields = split(line, ' ');
    assert(line_views(fields@).len() == fields@.len());
    if fields.len() != 3 {
        return None;
    }
    assert(line_views(fields@)[0] == fields@[0]@);
    assert(line_views(fields@)[1] == fields@[1]@);
    assert(line_views(fields@)[2] == fields@[2]@);
    let old = read_side(&fields[0]);
    let new = read_side(&fields[1]);
    match (old, new) {
        (Some(old_commit_id), Some(new_commit_id)) => {
            if old_commit_id == new_commit_id {
                None
            } else {
                Some(
                    Event::RefUpdateEvent {
                        ref_name: string_of(&fields[2]),
                        old_commit_id,
                        new_commit_id,
                        time,
                    },
                )
            }
        },
        _ => None,
    }
}

/// A commit was made: one `CommitCreated` for the commit that `HEAD` now
/// names.
pub fn ingest_post_commit(head: CommitId, time: i64) -> (events: Vec<Event>)
    ensures
        event_views(events@) == seq![EventView::CommitCreated { commit_id: head, time }],
{
    let mut events: Vec<Event> = Vec::new();
    events.push(Event::CommitCreated { commit_id: head, time });
    assert(event_views(events@) == seq![EventView::CommitCreated { commit_id: head, time }]);
    events
}

/// History was rewritten: one `RewriteEvent` for each line `<old> <new>` of
/// `input`.
pub fn ingest_post_rewrite(input: &str, time: i64) -> (events: Vec<Event>)
    ensures
        event_views(events@) == post_rewrite_events(input@, time),
{
    let text = chars_of(input);
    let lines = text_lines(&text);
    let ghost all = line_views(lines@);
    let mut events: Vec<Event> = Vec::new();
    let mut i: usize = 0;
    assert(event_views(events@) == rewrites_of_lines(all.take(0), time));
    while i < lines.len()
        invariant
            i <= lines.len(),
            all == line_views(lines@),
            event_views(events@) == rewrites_of_lines(all.take(i as int), time),
        decreases lines.len() - i,
    {
        let ghost before = events@;
        proof {
            assert(all.take(i + 1).drop_last() == all.take(i as int));
            assert(all.take(i + 1).last() == lines@[i as int]@);
        }
        match read_rewrite(&lines[i], time) {
            Some(event) => {
                events.push(event);
                assert(event_views(events@) == event_views(before).push(event@));
            },
            None => {},
        }
        i += 1;
    }
    assert(all.take(lines@.len() as int) == all);
    events
}

/// A checkout was made from `previous_head` to `new_head`, both written as
/// the host system passes them: one update of `HEAD` if the position
/// changed, none if it did not.
pub fn ingest_post_checkout(previous_head: &str, new_head: &str, time: i64) -> (events: Vec<Event>)
    ensures
        event_views(events@) == post_checkout_events(previous_head@, new_head@, time),
        forall|i: int| 0 <= i < events@.len() ==> !(#[trigger] events@[i])@.is_noop(),
{
    let previous = read_side(&chars_of(previous_head));
    let current = read_side(&chars_of(new_head));
    let mut events: Vec<Event> = Vec::new();
    match (previous, current) {
        (Some(old_commit_id), Some(new_commit_id)) => {
            if old_commit_id != new_commit_id {
                let event = Event::RefUpdateEvent {
                    ref_name: string_of(&chars_of("HEAD")),
                    old_commit_id,
                    new_commit_id,
                    time,
                };
                events.push(event);
                assert(event_views(events@) == seq![event@]);
            } else {
                assert(event_views(events@) == Seq::<EventView>::empty());
            }
        },
        _ => {
            assert(event_views(events@) == Seq::<EventView>::empty());
        },
    }
    events
}

/// A batch of reference updates reached the state `state`: once committed,
/// one `RefUpdateEvent` for each line `<old> <new> <name>` of `input` whose
/// sides differ, all in one transaction under `transaction_id`.
pub fn ingest_reference_transaction(
    state: &str,
    input: &str,
    time: i64,
    transaction_id: u64,
) -> (transaction: Transaction)
    ensures
        transaction.id == transaction_id,
        event_views(transaction.events@) == reference_transaction_events(state@, input@, time),
        forall|i: int|
            0 <= i < transaction.events@.len() ==> !(#[trigger] transaction.events@[i])@.is_noop(),
{
    let mut events: Vec<Event> = Vec::new();
    if !same_chars(&chars_of(state), &chars_of("committed")) {
        assert(event_views(events@) == Seq::<EventView>::empty());
        return Transaction { id: transaction_id, events };
    }
    let text = chars_of(input);
    let lines = text_lines(&text);
    let ghost all = line_views(lines@);
    let mut i: usize = 0;
    assert(event_views(events@) == ref_updates_of_lines(all.take(0), time));
    while i < lines.len()
        invariant
            i <= lines.len(),
            all == line_views(lines@),
            event_views(events@) == ref_updates_of_lines(all.take(i as int), time),
        decreases lines.len() - i,
    {
        let ghost before = events@;
        proof {
            assert(all.take(i + 1).drop_last() == all.take(i as int));
            assert(all.take(i + 1).last() == lines@[i as int]@);
        }
        match read_ref_update(&lines[i], time) {
            Some(event) => {
                events.push(event);
                assert(event_views(events@) == event_views(before).push(event@));
            },
            None => {},
        }
        i += 1;
    }
    proof {
        assert(all.take(lines@.len() as int) == all);
        lemma_ingestion_gives_no_noop(all, time);
        assert forall|i: int| 0 <= i < events@.len() implies !(#[trigger] events@[i])@.is_noop() by {
            assert(event_views(events@)[i] == events@[i]@);
        }
    }
    Transaction { id: transaction_id, events }
}

impl EventView {
    /// Whether the event speaks of the commit `id`.
    pub open spec fn mentions(self, id: CommitId) -> bool {
        match self {
            EventView::CommitCreated { commit_id, .. } => commit_id == id,
            EventView::RewriteEvent { old_commit_id, new_commit_id, .. } => old_commit_id == id
                || new_commit_id == Some(id),
            EventView::RefUpdateEvent { old_commit_id, new_commit_id, .. } => old_commit_id
                == Some(id) || new_commit_id == Some(id),
            EventView::HideEvent { commit_id, .. } => commit_id == id,
            EventView::UnhideEvent { commit_id, .. } => commit_id == id,
        }
    }
}

/// Whether one of the first `k` events speaks of the commit `id`.
pub open spec fn is_mentioned(events: Seq<EventView>, k: int, id: CommitId) -> bool {
    exists|i: int| 0 <= i < k && i < events.len() && (#[trigger] events[i]).mentions(id)
}

/// Garbage collection is about to run: the commits that must outlive it,
/// which are those that the log speaks of, each once.
pub fn commits_to_keep(events: &Vec<Event>) -> (kept: Vec<CommitId>)
    ensures
        forall|id: CommitId|
            kept@.contains(id) <==> is_mentioned(event_views(events@), events@.len() as int, id),
        forall|i: int, j: int| 0 <= i < j < kept@.len() ==> kept@[i] != kept@[j],
{
    let ghost views = event_views(events@);
    let mut seen: CommitMap<bool> = CommitMap::new();
    let mut k: usize = 0;
    while k < events.len()
        invariant
            k <= events@.len(),
            views == event_views(events@),
            seen.wf(),
            forall|id: CommitId| seen@.contains_key(id) <==> is_mentioned(views, k as int, id),
        decreases events.len() - k,
    {
        let ghost before = seen@;
        assert(views[k as int] == events@[k as int]@);
        match &events[k] {
            Event::CommitCreated { commit_id, .. } => {
                seen.insert(*commit_id, true);
            },
            Event::RewriteEvent { old_commit_id, new_commit_id, .. } => {
                seen.insert(*old_commit_id, true);
                match new_commit_id {
                    Some(id) => {
                        seen.insert(*id, true);
                    },
                    None => {},
                }
            },
            Event::RefUpdateEvent { old_commit_id, new_commit_id, .. } => {
                match old_commit_id {
                    Some(id) => {
                        seen.insert(*id, true);
                    },
                    None => {},
                }
                match new_commit_id {
                    Some(id) => {
                        seen.insert(*id, true);
                    },
                    None => {},
                }
            },
            Event::HideEvent { commit_id, .. } => {
                seen.insert(*commit_id, true);
            },
            Event::UnhideEvent { commit_id, .. } => {
                seen.insert(*commit_id, true);
            },
        }
        proof {
            assert forall|id: CommitId| seen@.contains_key(id) <==> is_mentioned(
                views,
                k + 1,
                id,
            ) by {
                assert(seen@.contains_key(id) == (before.contains_key(id) || views[k as int].mentions(
                    id,
                )));
                if is_mentioned(views, k as int, id) {
                    let i = choose|i: int|
                        0 <= i < k && i < views.len() && (#[trigger] views[i]).mentions(id);
                    assert(views[i].mentions(id));
                }
                if is_mentioned(views, k + 1, id) {
                    let i = choose|i: int|
                        0 <= i < k + 1 && i < views.len() && (#[trigger] views[i]).mentions(id);
                    if i < k {
                        assert(is_mentioned(views, k as int, id));
                    }
                }
            }
        }
        k += 1;
    }
    seen.key_list()
}

/// The name of the auxiliary reference that keeps the commit `id` from
/// being collected.
pub fn pin_ref_name(id: CommitId) -> (name: String)
    ensures
        name@ == "refs/branchless/"@ + id.hex_spec(),
{
    let mut name = chars_of("refs/branchless/");
    let hex = id.to_hex();
    extend_str(&mut name, hex.as_str());
    string_of(&name)
}

} // verus!
