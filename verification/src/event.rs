//! The events that the log records, and the transactions that group them.

use vstd::prelude::*;
use crate::commit_id::CommitId;

verus! {

/// One observed change of repository state. `time` is the moment of the
/// observation, in seconds since the epoch.
#[derive(Debug)]
#[allow(inconsistent_fields)]
pub enum Event {
    /// A commit came into being.
    CommitCreated { commit_id: CommitId, time: i64 },
    /// A commit was superseded by another, or dropped where `new_commit_id`
    /// is absent.
    RewriteEvent { old_commit_id: CommitId, new_commit_id: Option<CommitId>, time: i64 },
    /// A reference moved. An absent side means that the reference did not
    /// exist before, or no longer exists.
    RefUpdateEvent {
        ref_name: String,
        old_commit_id: Option<CommitId>,
        new_commit_id: Option<CommitId>,
        time: i64,
    },
    /// The user hid a commit.
    HideEvent { commit_id: CommitId, time: i64 },
    /// The user took a commit out of hiding.
    UnhideEvent { commit_id: CommitId, time: i64 },
}

/// What an [`Event`] says, with the reference name as plain text.
#[allow(inconsistent_fields)]
pub enum EventView {
    CommitCreated { commit_id: CommitId, time: i64 },
    RewriteEvent { old_commit_id: CommitId, new_commit_id: Option<CommitId>, time: i64 },
    RefUpdateEvent {
        ref_name: Seq<char>,
        old_commit_id: Option<CommitId>,
        new_commit_id: Option<CommitId>,
        time: i64,
    },
    HideEvent { commit_id: CommitId, time: i64 },
    UnhideEvent { commit_id: CommitId, time: i64 },
}

impl View for Event {
    type V = EventView;

    open spec fn view(&self) -> EventView {
        match *self {
            Event::CommitCreated { commit_id, time } => EventView::CommitCreated {
                commit_id,
                time,
            },
            Event::RewriteEvent { old_commit_id, new_commit_id, time } => EventView::RewriteEvent {
                old_commit_id,
                new_commit_id,
                time,
            },
            Event::RefUpdateEvent {
                ref_name,
                old_commit_id,
                new_commit_id,
                time,
            } => EventView::RefUpdateEvent {
                ref_name: ref_name@,
                old_commit_id,
                new_commit_id,
                time,
            },
            Event::HideEvent { commit_id, time } => EventView::HideEvent { commit_id, time },
            Event::UnhideEvent { commit_id, time } => EventView::UnhideEvent { commit_id, time },
        }
    }
}

impl EventView {
    /// Whether the event is a reference update that changes nothing: both
    /// sides name the same commit, or both are absent.
    pub open spec fn is_noop(self) -> bool {
        match self {
            EventView::RefUpdateEvent { old_commit_id, new_commit_id, .. } => old_commit_id
                == new_commit_id,
            EventView::CommitCreated { .. } => false,
            EventView::RewriteEvent { .. } => false,
            EventView::HideEvent { .. } => false,
            EventView::UnhideEvent { .. } => false,
        }
    }
}

/// What the events of `events` say, in the same order.
pub open spec fn event_views(events: Seq<Event>) -> Seq<EventView> {
    Seq::new(events.len(), |i: int| events[i]@)
}

impl Clone for Event {
    fn clone(&self) -> (copy: Self)
        ensures
            copy == *self,
    {
        match self {
            Event::CommitCreated { commit_id, time } => Event::CommitCreated {
                commit_id: *commit_id,
                time: *time,
            },
            Event::RewriteEvent { old_commit_id, new_commit_id, time } => Event::RewriteEvent {
                old_commit_id: *old_commit_id,
                new_commit_id: *new_commit_id,
                time: *time,
            },
            Event::RefUpdateEvent {
                ref_name,
                old_commit_id,
                new_commit_id,
                time,
            } => Event::RefUpdateEvent {
                ref_name: ref_name.clone(),
                old_commit_id: *old_commit_id,
                new_commit_id: *new_commit_id,
                time: *time,
            },
            Event::HideEvent { commit_id, time } => Event::HideEvent {
                commit_id: *commit_id,
                time: *time,
            },
            Event::UnhideEvent { commit_id, time } => Event::UnhideEvent {
                commit_id: *commit_id,
                time: *time,
            },
        }
    }
}

/// The events that one logical operation on the repository produced. They
/// enter the log together under the transaction's id.
#[derive(Debug)]
pub struct Transaction {
    pub id: u64,
    pub events: Vec<Event>,
}

/// What a [`Transaction`] says.
pub struct TransactionView {
    pub id: u64,
    pub events: Seq<EventView>,
}

impl View for Transaction {
    type V = TransactionView;

    open spec fn view(&self) -> TransactionView {
        TransactionView { id: self.id, events: event_views(self.events@) }
    }
}

} // verus!
