//! The rewrite graph: which commit superseded which, as the rewrite events
//! of the log tell it.

use vstd::prelude::*;
use crate::commit_id::CommitId;
use crate::commit_map::CommitMap;
use crate::event::{event_views, Event, EventView};

verus! {

/// The edges that `events` give, the events taken in their order: a commit
/// maps to the commit that superseded it, or to `None` where it was dropped.
/// Of several rewrites of one commit the last wins.
pub open spec fn rewrite_map(events: Seq<EventView>) -> Map<CommitId, Option<CommitId>>
    decreases events.len(),
{
    if events.len() == 0 {
        Map::empty()
    } else {
        let before = rewrite_map(events.drop_last());
        match events.last() {
            EventView::RewriteEvent { old_commit_id, new_commit_id, .. } => before.insert(
                old_commit_id,
                new_commit_id,
            ),
            EventView::CommitCreated { .. } => before,
            EventView::RefUpdateEvent { .. } => before,
            EventView::HideEvent { .. } => before,
            EventView::UnhideEvent { .. } => before,
        }
    }
}

/// The commit that superseded `id`, where there is one.
pub open spec fn successor(edges: Map<CommitId, Option<CommitId>>, id: CommitId) -> Option<
    CommitId,
> {
    if edges.contains_key(id) {
        edges[id]
    } else {
        None
    }
}

/// Whether `id` was dropped by its last rewrite.
pub open spec fn is_deleted(edges: Map<CommitId, Option<CommitId>>, id: CommitId) -> bool {
    edges.contains_key(id) && edges[id] is None
}

/// The commit without a successor that is reached from `id` over at most
/// `steps` edges; `None` where `steps` edges do not lead to one.
pub open spec fn walk(edges: Map<CommitId, Option<CommitId>>, id: CommitId, steps: nat) -> Option<
    CommitId,
>
    decreases steps,
{
    match successor(edges, id) {
        None => Some(id),
        Some(next) => if steps == 0 {
            None
        } else {
            walk(edges, next, (steps - 1) as nat)
        },
    }
}

/// The latest version of `id`: the end of the chain of edges that starts at
/// `id`, which is a commit that nothing superseded or one that was dropped.
/// A chain of distinct commits has at most as many edges as there are
/// rewritten commits; one that has not ended by then runs in a cycle, and
/// `id` resolves to itself.
pub open spec fn resolve_latest(edges: Map<CommitId, Option<CommitId>>, id: CommitId) -> CommitId {
    match walk(edges, id, edges.dom().len()) {
        Some(end) => end,
        None => id,
    }
}

/// Whether `id` has been superseded: it resolves to another commit, and
/// that commit was not dropped.
pub open spec fn is_obsolete(edges: Map<CommitId, Option<CommitId>>, id: CommitId) -> bool {
    resolve_latest(edges, id) != id && !is_deleted(edges, resolve_latest(edges, id))
}

/// A walk that ends, ends at a commit without a successor.
pub proof fn lemma_walk_end(edges: Map<CommitId, Option<CommitId>>, id: CommitId, steps: nat)
    requires
        walk(edges, id, steps) is Some,
    ensures
        successor(edges, walk(edges, id, steps)->0) is None,
    decreases steps,
{
    match successor(edges, id) {
        None => {},
        Some(next) => {
            lemma_walk_end(edges, next, (steps - 1) as nat);
        },
    }
}

/// The latest version of a commit is a fixed point: either the commit
/// itself, or a commit without a successor, which resolves to itself and is
/// not obsolete.
pub proof fn lemma_resolved_is_final(edges: Map<CommitId, Option<CommitId>>, id: CommitId)
    ensures
        resolve_latest(edges, id) != id ==> successor(edges, resolve_latest(edges, id)) is None,
        resolve_latest(edges, id) != id ==> resolve_latest(edges, resolve_latest(edges, id))
            == resolve_latest(edges, id),
        resolve_latest(edges, id) != id ==> !is_obsolete(edges, resolve_latest(edges, id)),
{
    if resolve_latest(edges, id) != id {
        lemma_walk_end(edges, id, edges.dom().len());
    }
}

/// Two commits that were each rewritten to the other resolve to themselves.
pub proof fn lemma_two_cycle_resolves_to_self(a: CommitId, b: CommitId, t1: i64, t2: i64)
    requires
        a != b,
    ensures
        ({
            let edges = rewrite_map(
                seq![
                    EventView::RewriteEvent { old_commit_id: a, new_commit_id: Some(b), time: t1 },
                    EventView::RewriteEvent { old_commit_id: b, new_commit_id: Some(a), time: t2 },
                ],
            );
            &&& resolve_latest(edges, a) == a
            &&& resolve_latest(edges, b) == b
            &&& !is_obsolete(edges, a)
            &&& !is_obsolete(edges, b)
        }),
{
    let e1 = EventView::RewriteEvent { old_commit_id: a, new_commit_id: Some(b), time: t1 };
    let e2 = EventView::RewriteEvent { old_commit_id: b, new_commit_id: Some(a), time: t2 };
    let events = seq![e1, e2];
    assert(events.drop_last() == seq![e1]);
    assert(seq![e1].drop_last() == Seq::<EventView>::empty());
    reveal_with_fuel(rewrite_map, 3);
    let edges = rewrite_map(events);
    let expected = Map::<CommitId, Option<CommitId>>::empty().insert(a, Some(b)).insert(b, Some(a));
    assert(edges == expected);
    assert(expected.dom() =~= set![a, b]);
    assert(set![a, b].len() == 2) by {
        assert(set![a, b] =~= Set::<CommitId>::empty().insert(a).insert(b));
    }
    reveal_with_fuel(walk, 4);
    assert(walk(edges, a, 2) is None);
    assert(walk(edges, b, 2) is None);
}

/// The rewrite graph of a log.
pub struct RewriteGraph {
    edges: CommitMap<Option<CommitId>>,
}

impl View for RewriteGraph {
    type V = Map<CommitId, Option<CommitId>>;

    closed spec fn view(&self) -> Map<CommitId, Option<CommitId>> {
        self.edges@
    }
}

impl RewriteGraph {
    /// The invariant of the graph: no commit has two outgoing edges.
    pub closed spec fn wf(self) -> bool {
        self.edges.wf()
    }

    /// Builds the graph from the events of a log, given in ascending order
    /// of event id: the last rewrite of a commit decides its edge.
    pub fn build(events: &Vec<Event>) -> (graph: RewriteGraph)
        ensures
            graph.wf(),
            graph@ == rewrite_map(event_views(events@)),
    {
        let mut edges: CommitMap<Option<CommitId>> = CommitMap::new();
        let ghost views = event_views(events@);
        let mut i: usize = 0;
        assert(views.take(0) == Seq::<EventView>::empty());
        while i < events.len()
            invariant
                i <= events.len(),
                views == event_views(events@),
                edges.wf(),
                edges@ == rewrite_map(views.take(i as int)),
            decreases events.len() - i,
        {
            proof {
                assert(views.take(i + 1).drop_last() == views.take(i as int));
                assert(views.take(i + 1).last() == events@[i as int]@);
            }
            match &events[i] {
                Event::RewriteEvent { old_commit_id, new_commit_id, .. } => {
                    edges.insert(*old_commit_id, *new_commit_id);
                },
                Event::CommitCreated { .. } => {},
                Event::RefUpdateEvent { .. } => {},
                Event::HideEvent { .. } => {},
                Event::UnhideEvent { .. } => {},
            }
            i += 1;
        }
        assert(views.take(events@.len() as int) == views);
        RewriteGraph { edges }
    }

    /// The commit that superseded `id`, where there is one.
    pub fn successor(&self, id: CommitId) -> (next: Option<CommitId>)
        requires
            self.wf(),
        ensures
            next == successor(self@, id),
    {
        match self.edges.get(id) {
            Some(target) => target,
            None => None,
        }
    }

    /// Whether some rewrite event names `id` as the commit rewritten.
    pub fn is_rewritten(&self, id: CommitId) -> (r: bool)
        requires
            self.wf(),
        ensures
            r == self@.contains_key(id),
    {
        self.edges.contains(id)
    }

    /// Whether `id` was dropped by its last rewrite.
    pub fn is_deleted(&self, id: CommitId) -> (r: bool)
        requires
            self.wf(),
        ensures
            r == is_deleted(self@, id),
    {
        match self.edges.get(id) {
            Some(None) => true,
            _ => false,
        }
    }

    /// The latest version of `id`. Every call ends: the walk takes at most
    /// as many steps as the graph has edges.
    pub fn resolve_latest(&self, id: CommitId) -> (latest: CommitId)
        requires
            self.wf(),
        ensures
            latest == resolve_latest(self@, id),
    {
        proof {
            self.edges.lemma_count();
        }
        let mut steps = self.edges.len();
        let mut current = id;
        loop
            invariant
                self.wf(),
                steps <= self@.dom().len(),
                walk(self@, current, steps as nat) == walk(self@, id, self@.dom().len()),
            decreases steps,
        {
            match self.successor(current) {
                None => {
                    return current;
                },
                Some(next) => {
                    if steps == 0 {
                        return id;
                    }
                    current = next;
                    steps -= 1;
                },
            }
        }
    }

    /// Whether the chain of edges from `id` runs in a cycle, which rewrite
    /// events of a sound history never form. Such a commit resolves to
    /// itself.
    pub fn runs_in_cycle(&self, id: CommitId) -> (r: bool)
        requires
            self.wf(),
        ensures
            r == (walk(self@, id, self@.dom().len()) is None),
            r ==> resolve_latest(self@, id) == id,
    {
        proof {
            self.edges.lemma_count();
        }
        let mut steps = self.edges.len();
        let mut current = id;
        loop
            invariant
                self.wf(),
                steps <= self@.dom().len(),
                walk(self@, current, steps as nat) == walk(self@, id, self@.dom().len()),
            decreases steps,
        {
            match self.successor(current) {
                None => {
                    return false;
                },
                Some(next) => {
                    if steps == 0 {
                        return true;
                    }
                    current = next;
                    steps -= 1;
                },
            }
        }
    }

    /// Whether `id` has been superseded by a commit that still exists.
    pub fn is_obsolete(&self, id: CommitId) -> (r: bool)
        requires
            self.wf(),
        ensures
            r == is_obsolete(self@, id),
    {
        let latest = self.resolve_latest(id);
        latest != id && !self.is_deleted(latest)
    }
}

} // verus!
