//! Visibility: the latest hide or unhide of each commit, and the verdict on
//! whether a commit is shown.

use vstd::prelude::*;
use crate::commit_id::CommitId;
use crate::commit_map::CommitMap;
use crate::event::{event_views, Event, EventView};
use crate::repo::{RepoSnapshot, RepoView};
use crate::rewrite::{is_obsolete, lemma_resolved_is_final, resolve_latest, RewriteGraph};

verus! {

/// What the user last said of a commit's visibility.
#[derive(Clone, Copy, Debug, PartialEq, Eq, Structural)]
pub enum VisibilityMark {
    ManuallyHidden,
    Unhidden,
}

/// Why a commit is not shown.
#[derive(Clone, Copy, Debug, PartialEq, Eq, Structural)]
pub enum HiddenReason {
    /// It is public: history that is shared is not put before the user,
    /// whatever hides and unhides say of it.
    Public,
    /// The user hid it.
    ManuallyHidden,
    /// A rewrite superseded it, and `successor` is shown in its place.
    SupersededByRewrite { successor: CommitId },
    /// Neither the current position nor any branch reaches it.
    Unreachable,
}

/// Whether a commit is shown by default.
#[derive(Clone, Copy, Debug, PartialEq, Eq, Structural)]
pub enum Verdict {
    Visible,
    Hidden(HiddenReason),
}

/// The marks that `events` leave, the events taken in their order: of the
/// hides and unhides of one commit the last wins.
pub open spec fn visibility_map(events: Seq<EventView>) -> Map<CommitId, VisibilityMark>
    decreases events.len(),
{
    if events.len() == 0 {
        Map::empty()
    } else {
        let before = visibility_map(events.drop_last());
        match events.last() {
            EventView::HideEvent { commit_id, .. } => before.insert(
                commit_id,
                VisibilityMark::ManuallyHidden,
            ),
            EventView::UnhideEvent { commit_id, .. } => before.insert(
                commit_id,
                VisibilityMark::Unhidden,
            ),
            EventView::CommitCreated { .. } => before,
            EventView::RewriteEvent { .. } => before,
            EventView::RefUpdateEvent { .. } => before,
        }
    }
}

/// Whether the latest mark on `id` hides it.
pub open spec fn is_manually_hidden(marks: Map<CommitId, VisibilityMark>, id: CommitId) -> bool {
    marks.contains_key(id) && marks[id] == VisibilityMark::ManuallyHidden
}

/// The verdict on a commit that no rewrite has superseded.
///
/// A public commit is hidden as public. Else a commit that the user hid is
/// hidden for that reason. Else a commit that nothing reaches is hidden as
/// unreachable. Else it is visible.
pub open spec fn verdict_of_latest(
    marks: Map<CommitId, VisibilityMark>,
    repo: RepoView,
    id: CommitId,
) -> Verdict {
    if repo.is_public_commit(id) {
        Verdict::Hidden(HiddenReason::Public)
    } else if is_manually_hidden(marks, id) {
        Verdict::Hidden(HiddenReason::ManuallyHidden)
    } else if !repo.is_reachable_commit(id) {
        Verdict::Hidden(HiddenReason::Unreachable)
    } else {
        Verdict::Visible
    }
}

/// The verdict on the commit `id`, by the first rule that applies:
///
/// 1. It is public: hidden as public. Neither a hide nor an unhide nor a
///    rewrite is asked about.
/// 2. The user hid it: hidden as manually hidden.
/// 3. It is obsolete, and its latest version is visible: hidden as
///    superseded by that version.
/// 4. Neither the current position nor any branch reaches it: hidden as
///    unreachable.
/// 5. Else it is visible.
///
/// The verdict does not depend on what is asked to be shown.
pub open spec fn verdict(
    marks: Map<CommitId, VisibilityMark>,
    edges: Map<CommitId, Option<CommitId>>,
    repo: RepoView,
    id: CommitId,
) -> Verdict {
    if repo.is_public_commit(id) {
        Verdict::Hidden(HiddenReason::Public)
    } else if is_manually_hidden(marks, id) {
        Verdict::Hidden(HiddenReason::ManuallyHidden)
    } else if is_obsolete(edges, id) && verdict_of_latest(marks, repo, resolve_latest(edges, id))
        == Verdict::Visible {
        Verdict::Hidden(HiddenReason::SupersededByRewrite { successor: resolve_latest(edges, id) })
    } else if !repo.is_reachable_commit(id) {
        Verdict::Hidden(HiddenReason::Unreachable)
    } else {
        Verdict::Visible
    }
}

/// The verdict on the latest version of a superseded commit is the one that
/// [`verdict_of_latest`] gives: nothing supersedes it in turn.
pub proof fn lemma_verdict_of_successor(
    marks: Map<CommitId, VisibilityMark>,
    edges: Map<CommitId, Option<CommitId>>,
    repo: RepoView,
    id: CommitId,
)
    requires
        is_obsolete(edges, id),
    ensures
        verdict(marks, edges, repo, resolve_latest(edges, id)) == verdict_of_latest(
            marks,
            repo,
            resolve_latest(edges, id),
        ),
{
    lemma_resolved_is_final(edges, id);
}

/// A commit that the user hid, and did not take out of hiding again, is
/// hidden whatever the rewrites say and whatever reaches it: as manually
/// hidden, or, if it is public, as public.
pub proof fn lemma_hidden_stays_hidden(
    marks: Map<CommitId, VisibilityMark>,
    edges: Map<CommitId, Option<CommitId>>,
    repo: RepoView,
    id: CommitId,
)
    requires
        is_manually_hidden(marks, id),
    ensures
        verdict(marks, edges, repo, id) is Hidden,
        !repo.is_public_commit(id) ==> verdict(marks, edges, repo, id) == Verdict::Hidden(
            HiddenReason::ManuallyHidden,
        ),
        repo.is_public_commit(id) ==> verdict(marks, edges, repo, id) == Verdict::Hidden(
            HiddenReason::Public,
        ),
{
}

/// A public commit is hidden as public, whether the user hid it, took it
/// out of hiding, or rewrote it.
pub proof fn lemma_public_is_hidden(
    marks: Map<CommitId, VisibilityMark>,
    edges: Map<CommitId, Option<CommitId>>,
    repo: RepoView,
    id: CommitId,
)
    requires
        repo.is_public_commit(id),
    ensures
        verdict(marks, edges, repo, id) == Verdict::Hidden(HiddenReason::Public),
{
}

/// The latest hide or unhide of every commit.
pub struct VisibilityRecords {
    marks: CommitMap<VisibilityMark>,
}

impl View for VisibilityRecords {
    type V = Map<CommitId, VisibilityMark>;

    closed spec fn view(&self) -> Map<CommitId, VisibilityMark> {
        self.marks@
    }
}

impl VisibilityRecords {
    /// The invariant of the records: one mark for a commit.
    pub closed spec fn wf(self) -> bool {
        self.marks.wf()
    }

    /// Reads the marks off the events of a log, given in ascending order of
    /// event id.
    pub fn build(events: &Vec<Event>) -> (records: VisibilityRecords)
        ensures
            records.wf(),
            records@ == visibility_map(event_views(events@)),
    {
        let mut marks: CommitMap<VisibilityMark> = CommitMap::new();
        let ghost views = event_views(events@);
        let mut i: usize = 0;
        assert(views.take(0) == Seq::<EventView>::empty());
        while i < events.len()
            invariant
                i <= events.len(),
                views == event_views(events@),
                marks.wf(),
                marks@ == visibility_map(views.take(i as int)),
            decreases events.len() - i,
        {
            proof {
                assert(views.take(i + 1).drop_last() == views.take(i as int));
                assert(views.take(i + 1).last() == events@[i as int]@);
            }
            match &events[i] {
                Event::HideEvent { commit_id, .. } => {
                    marks.insert(*commit_id, VisibilityMark::ManuallyHidden);
                },
                Event::UnhideEvent { commit_id, .. } => {
                    marks.insert(*commit_id, VisibilityMark::Unhidden);
                },
                Event::CommitCreated { .. } => {},
                Event::RewriteEvent { .. } => {},
                Event::RefUpdateEvent { .. } => {},
            }
            i += 1;
        }
        assert(views.take(events@.len() as int) == views);
        VisibilityRecords { marks }
    }

    /// The latest mark on `id`, if the user ever hid or unhid it.
    pub fn latest(&self, id: CommitId) -> (mark: Option<VisibilityMark>)
        requires
            self.wf(),
        ensures
            mark == (if self@.contains_key(id) {
                Some(self@[id])
            } else {
                None
            }),
    {
        self.marks.get(id)
    }

    /// Whether the latest mark on `id` hides it.
    pub fn is_manually_hidden(&self, id: CommitId) -> (r: bool)
        requires
            self.wf(),
        ensures
            r == is_manually_hidden(self@, id),
    {
        match self.marks.get(id) {
            Some(VisibilityMark::ManuallyHidden) => true,
            Some(VisibilityMark::Unhidden) => false,
            None => false,
        }
    }

    /// Whether the user ever hid or unhid `id`.
    pub fn has_record(&self, id: CommitId) -> (r: bool)
        requires
            self.wf(),
        ensures
            r == self@.contains_key(id),
    {
        self.marks.contains(id)
    }
}

/// Decides on a commit that no rewrite has superseded.
fn latest_verdict(records: &VisibilityRecords, repo: &RepoSnapshot, id: CommitId) -> (v: Verdict)
    requires
        records.wf(),
        repo.wf(),
    ensures
        v == verdict_of_latest(records@, repo@, id),
{
    if repo.is_public_commit(id) {
        Verdict::Hidden(HiddenReason::Public)
    } else if records.is_manually_hidden(id) {
        Verdict::Hidden(HiddenReason::ManuallyHidden)
    } else if !repo.is_reachable_commit(id) {
        Verdict::Hidden(HiddenReason::Unreachable)
    } else {
        Verdict::Visible
    }
}

/// Decides whether the commit `id` is shown by default, and if not, why.
pub fn resolve_verdict(
    records: &VisibilityRecords,
    rewrites: &RewriteGraph,
    repo: &RepoSnapshot,
    id: CommitId,
) -> (v: Verdict)
    requires
        records.wf(),
        rewrites.wf(),
        repo.wf(),
    ensures
        v == verdict(records@, rewrites@, repo@, id),
{
    if repo.is_public_commit(id) {
        return Verdict::Hidden(HiddenReason::Public);
    }
    if records.is_manually_hidden(id) {
        return Verdict::Hidden(HiddenReason::ManuallyHidden);
    }
    if rewrites.is_obsolete(id) {
        let successor = rewrites.resolve_latest(id);
        match latest_verdict(records, repo, successor) {
            Verdict::Visible => {
                return Verdict::Hidden(HiddenReason::SupersededByRewrite { successor });
            },
            Verdict::Hidden(_) => {},
        }
    }
    if !repo.is_reachable_commit(id) {
        Verdict::Hidden(HiddenReason::Unreachable)
    } else {
        Verdict::Visible
    }
}

} // verus!
