//! The commit graph: the commits that are worth showing, each with what the
//! log and the repository say of it, in the order in which they are drawn.

use vstd::prelude::*;
use crate::commit_id::{lemma_value_is_one_to_one, CommitId};
use crate::repo::{
    ids_distinct, lemma_commit_index, lemma_marked_grows, marked, CommitView, RepoSnapshot,
    RepoView,
};
use crate::rewrite::{is_obsolete, resolve_latest, RewriteGraph};
use crate::visibility::{
    is_manually_hidden, resolve_verdict, verdict, HiddenReason, Verdict, VisibilityMark,
    VisibilityRecords,
};

verus! {

/// What to show.
#[derive(Clone, Copy, Debug, PartialEq, Eq, Structural)]
pub struct SmartlogOptions {
    /// Show hidden commits too, each with the reason for which it is
    /// hidden, and start the walk through history also from the commits
    /// that the log holds a hide, an unhide or a rewrite of.
    pub include_hidden: bool,
    /// Start the walk from the current position and the branches only.
    pub only_branches: bool,
    /// The history horizon: a commit made before this time, in seconds
    /// since the epoch, passes the walk through history no further.
    /// `None` sets no horizon.
    pub horizon: Option<i64>,
}

/// What is known of one commit of the snapshot.
#[derive(Clone, Copy, Debug, PartialEq, Eq, Structural)]
pub struct Node {
    pub commit_id: CommitId,
    pub is_head: bool,
    pub is_main_ancestor: bool,
    pub resolved_latest: CommitId,
    pub is_obsolete: bool,
    pub is_manually_hidden: bool,
    pub verdict: Verdict,
}

/// What a commit graph holds: a node for every commit of the snapshot,
/// which of them are shown, and the shown ones in drawing order.
pub struct GraphView {
    pub nodes: Seq<Node>,
    pub selected: Seq<bool>,
    pub order: Seq<usize>,
}

/// The node of the commit at `j`.
pub open spec fn node_of(
    repo: RepoView,
    marks: Map<CommitId, VisibilityMark>,
    edges: Map<CommitId, Option<CommitId>>,
    j: int,
) -> Node {
    Node {
        commit_id: repo.commits[j].id,
        is_head: repo.head_index() == Some(j),
        is_main_ancestor: repo.is_main(j),
        resolved_latest: resolve_latest(edges, repo.commits[j].id),
        is_obsolete: is_obsolete(edges, repo.commits[j].id),
        is_manually_hidden: is_manually_hidden(marks, repo.commits[j].id),
        verdict: verdict(marks, edges, repo, repo.commits[j].id),
    }
}

/// Whether the log holds a hide, an unhide or a rewrite of `id`.
pub open spec fn is_recorded(
    marks: Map<CommitId, VisibilityMark>,
    edges: Map<CommitId, Option<CommitId>>,
    id: CommitId,
) -> bool {
    marks.contains_key(id) || edges.contains_key(id)
}

/// Whether the walk through history starts at the commit at `j`: it is the
/// current position or the tip of a branch, or, where hidden commits are to
/// be shown, a commit that the log has a record of.
pub open spec fn is_seed(
    repo: RepoView,
    marks: Map<CommitId, VisibilityMark>,
    edges: Map<CommitId, Option<CommitId>>,
    options: SmartlogOptions,
    j: int,
) -> bool {
    repo.named(j) || (options.include_hidden && !options.only_branches && is_recorded(
        marks,
        edges,
        repo.commits[j].id,
    ))
}

/// The seeds of the walk, by position.
pub open spec fn seeds_of(
    repo: RepoView,
    marks: Map<CommitId, VisibilityMark>,
    edges: Map<CommitId, Option<CommitId>>,
    options: SmartlogOptions,
) -> Seq<bool> {
    Seq::new(repo.commits.len(), |i: int| is_seed(repo, marks, edges, options, i))
}

/// Whether the walk ends at the commit at `j`: the commit belongs to the
/// main branch, or it was made before the history horizon.
pub open spec fn is_stop(repo: RepoView, options: SmartlogOptions, j: int) -> bool {
    repo.is_main(j) || (options.horizon is Some && repo.commits[j].time < options.horizon->0)
}

/// Where the walk ends, by position.
pub open spec fn stops_of(repo: RepoView, options: SmartlogOptions) -> Seq<bool> {
    Seq::new(repo.commits.len(), |i: int| is_stop(repo, options, i))
}

/// Whether the walk reaches the commit at `j`: backward from the seeds over
/// parent links, and on each path no further than the first commit of the
/// main branch, or the first commit beyond the history horizon.
pub open spec fn is_walked(
    repo: RepoView,
    marks: Map<CommitId, VisibilityMark>,
    edges: Map<CommitId, Option<CommitId>>,
    options: SmartlogOptions,
    j: int,
) -> bool {
    marked(repo.commits, seeds_of(repo, marks, edges, options), stops_of(repo, options), j)
}

/// Whether the commit at `j` is shown: the walk reaches it, and it is not
/// hidden, unless hidden commits are asked for.
pub open spec fn is_selected(
    repo: RepoView,
    marks: Map<CommitId, VisibilityMark>,
    edges: Map<CommitId, Option<CommitId>>,
    options: SmartlogOptions,
    j: int,
) -> bool {
    is_walked(repo, marks, edges, options, j) && (options.include_hidden || !(verdict(
        marks,
        edges,
        repo,
        repo.commits[j].id,
    ) is Hidden))
}

/// Whether the commit at `a` is drawn before the commit at `b` where both
/// stand at the same level: the earlier commit first, and of two commits of
/// one time the one whose identity is the smaller number.
pub open spec fn comes_before(commits: Seq<CommitView>, a: int, b: int) -> bool {
    commits[a].time < commits[b].time || (commits[a].time == commits[b].time
        && commits[a].id.value() < commits[b].id.value())
}

/// The place of the commit at `x` in the drawing order `order`: before the
/// first commit that it comes before, or at the end.
pub open spec fn insert_at(commits: Seq<CommitView>, order: Seq<usize>, x: int) -> int
    decreases order.len(),
{
    if order.len() == 0 || comes_before(commits, x, order[0] as int) {
        0
    } else {
        1 + insert_at(commits, order.drop_first(), x)
    }
}

/// The drawing order of the selected commits among the first `k`: each is
/// put in its place among those before it.
pub open spec fn order_of(commits: Seq<CommitView>, selected: Seq<bool>, k: int) -> Seq<usize>
    decreases k,
{
    if k <= 0 {
        Seq::empty()
    } else {
        let before = order_of(commits, selected, k - 1);
        if selected[k - 1] {
            before.insert(insert_at(commits, before, k - 1), (k - 1) as usize)
        } else {
            before
        }
    }
}

/// The commit graph of a snapshot, given the marks and rewrites of the log.
pub open spec fn graph_of(
    repo: RepoView,
    marks: Map<CommitId, VisibilityMark>,
    edges: Map<CommitId, Option<CommitId>>,
    options: SmartlogOptions,
) -> GraphView {
    let selected = Seq::new(
        repo.commits.len(),
        |j: int| is_selected(repo, marks, edges, options, j),
    );
    GraphView {
        nodes: Seq::new(repo.commits.len(), |j: int| node_of(repo, marks, edges, j)),
        selected,
        order: order_of(repo.commits, selected, repo.commits.len() as int),
    }
}

/// `insert_at` gives a place within the order, after every commit that the
/// new one does not come before.
pub proof fn lemma_insert_at(commits: Seq<CommitView>, order: Seq<usize>, x: int)
    ensures
        0 <= insert_at(commits, order, x) <= order.len(),
        insert_at(commits, order, x) < order.len() ==> comes_before(
            commits,
            x,
            order[insert_at(commits, order, x)] as int,
        ),
        forall|i: int|
            0 <= i < insert_at(commits, order, x) ==> !comes_before(commits, x, order[i] as int),
    decreases order.len(),
{
    if order.len() == 0 || comes_before(commits, x, order[0] as int) {
    } else {
        let rest = order.drop_first();
        lemma_insert_at(commits, rest, x);
        let k = insert_at(commits, order, x);
        assert forall|i: int| 0 <= i < k implies !comes_before(commits, x, order[i] as int) by {
            if i > 0 {
                assert(order[i] == rest[i - 1]);
            }
        }
        if k < order.len() {
            assert(order[k] == rest[k - 1]);
        }
    }
}

/// A place that stops before a commit that the new one comes before, or at
/// the end, and passes over no such commit is the one that `insert_at`
/// gives.
pub proof fn lemma_insert_at_is(commits: Seq<CommitView>, order: Seq<usize>, x: int, k: int)
    requires
        0 <= k <= order.len(),
        forall|i: int| 0 <= i < k ==> !comes_before(commits, x, order[i] as int),
        k < order.len() ==> comes_before(commits, x, order[k] as int),
    ensures
        insert_at(commits, order, x) == k,
{
    lemma_insert_at(commits, order, x);
    let e = insert_at(commits, order, x);
    if e < k {
        assert(comes_before(commits, x, order[e] as int));
    } else if k < e {
        assert(!comes_before(commits, x, order[k] as int));
    }
}

/// The drawing order lists exactly the selected commits among the first
/// `k`, each once.
pub proof fn lemma_order_members(commits: Seq<CommitView>, selected: Seq<bool>, k: int)
    requires
        0 <= k <= selected.len(),
        k <= usize::MAX,
    ensures
        forall|t: int|
            0 <= t < order_of(commits, selected, k).len() ==> (#[trigger] order_of(
                commits,
                selected,
                k,
            )[t]) < k && selected[order_of(commits, selected, k)[t] as int],
        forall|j: int|
            0 <= j < k && selected[j] ==> order_of(commits, selected, k).contains(j as usize),
        forall|s: int, t: int|
            0 <= s < t < order_of(commits, selected, k).len() ==> order_of(commits, selected, k)[s]
                != order_of(commits, selected, k)[t],
    decreases k,
{
    if k > 0 {
        lemma_order_members(commits, selected, k - 1);
        let before = order_of(commits, selected, k - 1);
        let now = order_of(commits, selected, k);
        if selected[k - 1] {
            let p = insert_at(commits, before, k - 1);
            lemma_insert_at(commits, before, k - 1);
            before.insert_ensures(p, (k - 1) as usize);
            assert forall|t: int| 0 <= t < now.len() implies (#[trigger] now[t]) < k
                && selected[now[t] as int] by {
                if t < p {
                    assert(now[t] == before[t]);
                } else if t > p {
                    assert(now[t] == before[t - 1]);
                }
            }
            assert forall|j: int| 0 <= j < k && selected[j] implies now.contains(j as usize) by {
                if j == k - 1 {
                    assert(now[p] == j as usize);
                } else {
                    let t = choose|t: int| 0 <= t < before.len() && before[t] == j as usize;
                    if t < p {
                        assert(now[t] == before[t]);
                    } else {
                        assert(now[t + 1] == before[t]);
                    }
                }
            }
            assert forall|s: int, t: int| 0 <= s < t < now.len() implies now[s] != now[t] by {
                let bs = if s < p {
                    s
                } else {
                    s - 1
                };
                let bt = if t < p {
                    t
                } else {
                    t - 1
                };
                if s != p {
                    assert(now[s] == before[bs]);
                }
                if t != p {
                    assert(now[t] == before[bt]);
                }
            }
        } else {
            assert forall|j: int| 0 <= j < k && selected[j] implies now.contains(j as usize) by {
                let t = choose|t: int| 0 <= t < before.len() && before[t] == j as usize;
                assert(now[t] == j as usize);
            }
        }
    }
}

/// The drawing order is strict: of two commits in it the earlier comes
/// before the later, by time and then by identity. So the order of the
/// rows depends on the commits alone, not on how the snapshot lists them.
pub proof fn lemma_order_is_sorted(commits: Seq<CommitView>, selected: Seq<bool>, k: int)
    requires
        ids_distinct(commits),
        0 <= k <= selected.len(),
        k <= commits.len(),
        k <= usize::MAX,
    ensures
        forall|s: int, t: int|
            0 <= s < t < order_of(commits, selected, k).len() ==> comes_before(
                commits,
                order_of(commits, selected, k)[s] as int,
                order_of(commits, selected, k)[t] as int,
            ),
    decreases k,
{
    if k > 0 {
        lemma_order_is_sorted(commits, selected, k - 1);
        lemma_order_members(commits, selected, k - 1);
        let before = order_of(commits, selected, k - 1);
        let now = order_of(commits, selected, k);
        if selected[k - 1] {
            let x = k - 1;
            let p = insert_at(commits, before, x);
            lemma_insert_at(commits, before, x);
            before.insert_ensures(p, x as usize);
            assert forall|s: int, t: int| 0 <= s < t < now.len() implies comes_before(
                commits,
                now[s] as int,
                now[t] as int,
            ) by {
                if t < p {
                    assert(now[s] == before[s] && now[t] == before[t]);
                } else if s > p {
                    assert(now[s] == before[s - 1] && now[t] == before[t - 1]);
                } else if s < p && t > p {
                    assert(now[s] == before[s] && now[t] == before[t - 1]);
                } else if s == p {
                    // The new commit comes before the one at its place, and
                    // so before all that follow.
                    assert(now[t] == before[t - 1]);
                    assert(comes_before(commits, x, before[p] as int));
                    if t - 1 > p {
                        assert(comes_before(commits, before[p] as int, before[t - 1] as int));
                    }
                } else {
                    // s < p == t: the new commit does not come before the
                    // one at `s`, and is another commit.
                    assert(now[s] == before[s]);
                    let a = before[s] as int;
                    assert(!comes_before(commits, x, a));
                    assert(a < x);
                    if commits[a].time == commits[x].time {
                        if commits[a].id.value() == commits[x].id.value() {
                            lemma_value_is_one_to_one(commits[a].id, commits[x].id);
                        }
                    }
                }
            }
        }
    }
}

/// What is shown by default holds no hidden commit, whatever the reason
/// for which it is hidden, and wherever it stands: on the main branch or
/// off it, under a branch, or at the current position.
pub proof fn lemma_default_shows_no_hidden_commit(
    repo: RepoView,
    marks: Map<CommitId, VisibilityMark>,
    edges: Map<CommitId, Option<CommitId>>,
    options: SmartlogOptions,
    j: int,
)
    requires
        !options.include_hidden,
        verdict(marks, edges, repo, repo.commits[j].id) is Hidden,
    ensures
        !is_selected(repo, marks, edges, options, j),
{
}

/// A public commit is not shown by default, whether the user hid it, took
/// it out of hiding, or rewrote it.
pub proof fn lemma_public_commit_is_suppressed(
    repo: RepoView,
    marks: Map<CommitId, VisibilityMark>,
    edges: Map<CommitId, Option<CommitId>>,
    options: SmartlogOptions,
    j: int,
)
    requires
        repo.defect() is None,
        0 <= j < repo.commits.len(),
        repo.is_public(j),
        !options.include_hidden,
    ensures
        verdict(marks, edges, repo, repo.commits[j].id) == Verdict::Hidden(HiddenReason::Public),
        !is_selected(repo, marks, edges, options, j),
{
    lemma_commit_index(repo.commits, j);
}

/// A commit that the log holds a hide, an unhide or a rewrite of is shown
/// where hidden commits are asked for. So a public commit that the user
/// took out of hiding appears then, and not by default; and so do a commit
/// that was amended and a commit that the user hid.
pub proof fn lemma_recorded_commit_is_shown_on_request(
    repo: RepoView,
    marks: Map<CommitId, VisibilityMark>,
    edges: Map<CommitId, Option<CommitId>>,
    options: SmartlogOptions,
    j: int,
)
    requires
        0 <= j < repo.commits.len(),
        is_recorded(marks, edges, repo.commits[j].id),
        options.include_hidden,
        !options.only_branches,
    ensures
        is_selected(repo, marks, edges, options, j),
{
    assert(is_seed(repo, marks, edges, options, j));
    assert(seeds_of(repo, marks, edges, options)[j]);
}

/// Asking for hidden commits takes nothing away: what is shown by default
/// is shown then too, and every verdict is the same.
pub proof fn lemma_hidden_request_shows_more(
    repo: RepoView,
    marks: Map<CommitId, VisibilityMark>,
    edges: Map<CommitId, Option<CommitId>>,
    options: SmartlogOptions,
    j: int,
)
    requires
        0 <= j < repo.commits.len(),
        is_selected(repo, marks, edges, options, j),
    ensures
        is_selected(
            repo,
            marks,
            edges,
            SmartlogOptions {
                include_hidden: true,
                only_branches: options.only_branches,
                horizon: options.horizon,
            },
            j,
        ),
{
    let more = SmartlogOptions {
        include_hidden: true,
        only_branches: options.only_branches,
        horizon: options.horizon,
    };
    assert(stops_of(repo, more) == stops_of(repo, options));
    lemma_marked_grows(
        repo.commits,
        seeds_of(repo, marks, edges, options),
        seeds_of(repo, marks, edges, more),
        stops_of(repo, options),
        j,
    );
}

/// The commit at the current position, and the tip of every branch, is
/// shown exactly if it is not hidden or hidden commits are asked for: a
/// hide weighs more than the position or the branch.
pub proof fn lemma_named_commit_is_shown_unless_hidden(
    repo: RepoView,
    marks: Map<CommitId, VisibilityMark>,
    edges: Map<CommitId, Option<CommitId>>,
    options: SmartlogOptions,
    j: int,
)
    requires
        0 <= j < repo.commits.len(),
        repo.named(j),
    ensures
        is_selected(repo, marks, edges, options, j) == (options.include_hidden || !(verdict(
            marks,
            edges,
            repo,
            repo.commits[j].id,
        ) is Hidden)),
{
    assert(is_seed(repo, marks, edges, options, j));
    assert(seeds_of(repo, marks, edges, options)[j]);
}

/// The commit graph of one snapshot.
pub struct CommitGraph {
    nodes: Vec<Node>,
    selected: Vec<bool>,
    order: Vec<usize>,
}

impl View for CommitGraph {
    type V = GraphView;

    closed spec fn view(&self) -> GraphView {
        GraphView { nodes: self.nodes@, selected: self.selected@, order: self.order@ }
    }
}

impl GraphView {
    /// Whether the graph belongs to a snapshot with the commits `commits`: it has a
    /// node and a selection for every commit, and its order lists
    /// selected commits.
    pub open spec fn fits(self, repo: RepoView) -> bool {
        &&& self.nodes.len() == repo.commits.len()
        &&& self.selected.len() == repo.commits.len()
        &&& forall|j: int|
            0 <= j < self.nodes.len() ==> (#[trigger] self.nodes[j]).commit_id
                == repo.commits[j].id && self.nodes[j].is_main_ancestor == repo.is_main(j)
                && self.nodes[j].is_head == (repo.head_index() == Some(j))
        &&& forall|t: int|
            0 <= t < self.order.len() ==> (#[trigger] self.order[t]) < repo.commits.len()
                && self.selected[self.order[t] as int]
    }
}

/// Whether the commit at `a` is drawn before the commit at `b`.
fn commit_comes_before(repo: &RepoSnapshot, a: usize, b: usize) -> (r: bool)
    requires
        a < repo@.commits.len(),
        b < repo@.commits.len(),
    ensures
        r == comes_before(repo@.commits, a as int, b as int),
{
    let x = repo.commit(a);
    let y = repo.commit(b);
    x.time < y.time || (x.time == y.time && x.id.precedes(&y.id))
}

/// Puts the selected commits in drawing order.
fn sorted_order(repo: &RepoSnapshot, selected: &Vec<bool>) -> (order: Vec<usize>)
    requires
        selected@.len() == repo@.commits.len(),
    ensures
        order@ == order_of(repo@.commits, selected@, repo@.commits.len() as int),
{
    let n = repo.len();
    let mut order: Vec<usize> = Vec::new();
    let mut k: usize = 0;
    while k < n
        invariant
            k <= n,
            n == repo@.commits.len(),
            selected@.len() == n,
            order@ == order_of(repo@.commits, selected@, k as int),
        decreases n - k,
    {
        if selected[k] {
            proof {
                lemma_order_members(repo@.commits, selected@, k as int);
            }
            let mut p: usize = 0;
            while p < order.len() && !commit_comes_before(repo, k, order[p])
                invariant
                    p <= order@.len(),
                    k < n,
                    n == repo@.commits.len(),
                    forall|t: int| 0 <= t < order@.len() ==> (#[trigger] order@[t]) < n,
                    forall|i: int|
                        0 <= i < p ==> !comes_before(repo@.commits, k as int, order@[i] as int),
                decreases order.len() - p,
            {
                p += 1;
            }
            proof {
                lemma_insert_at_is(repo@.commits, order@, k as int, p as int);
            }
            order.insert(p, k);
        }
        k += 1;
    }
    order
}

impl CommitGraph {
    /// Builds the graph of `repo` from the marks and the rewrites of the
    /// log.
    pub fn build(
        repo: &RepoSnapshot,
        records: &VisibilityRecords,
        rewrites: &RewriteGraph,
        options: SmartlogOptions,
    ) -> (graph: CommitGraph)
        requires
            repo.wf(),
            records.wf(),
            rewrites.wf(),
        ensures
            graph@ == graph_of(repo@, records@, rewrites@, options),
            graph@.fits(repo@),
    {
        let n = repo.len();
        let head = repo.head_index();
        let mut nodes: Vec<Node> = Vec::new();
        let mut seeds: Vec<bool> = Vec::new();
        let mut stops: Vec<bool> = Vec::new();
        let mut j: usize = 0;
        while j < n
            invariant
                j <= n,
                n == repo@.commits.len(),
                repo.wf(),
                records.wf(),
                rewrites.wf(),
                stops@.len() == j,
                forall|i: int| 0 <= i < j ==> (#[trigger] stops@[i]) == is_stop(repo@, options, i),
                match head {
                    Some(h) => repo@.head_index() == Some(h as int),
                    None => repo@.head_index() is None,
                },
                nodes@.len() == j,
                seeds@.len() == j,
                forall|i: int|
                    0 <= i < j ==> (#[trigger] nodes@[i]) == node_of(repo@, records@, rewrites@, i),
                forall|i: int|
                    0 <= i < j ==> (#[trigger] seeds@[i]) == is_seed(
                        repo@,
                        records@,
                        rewrites@,
                        options,
                        i,
                    ),
            decreases n - j,
        {
            let id = repo.commit(j).id;
            nodes.push(
                Node {
                    commit_id: id,
                    is_head: head == Some(j),
                    is_main_ancestor: repo.is_main(j),
                    resolved_latest: rewrites.resolve_latest(id),
                    is_obsolete: rewrites.is_obsolete(id),
                    is_manually_hidden: records.is_manually_hidden(id),
                    verdict: resolve_verdict(records, rewrites, repo, id),
                },
            );
            seeds.push(
                repo.is_named(j) || (options.include_hidden && !options.only_branches && (
                records.has_record(id) || rewrites.is_rewritten(id))),
            );
            let beyond = match options.horizon {
                Some(horizon) => repo.commit(j).time < horizon,
                None => false,
            };
            stops.push(repo.is_main(j) || beyond);
            j += 1;
        }
        assert(seeds@ == seeds_of(repo@, records@, rewrites@, options));
        assert(stops@ == stops_of(repo@, options));
        let walked = repo.mark_from(seeds, &stops);
        let mut selected: Vec<bool> = Vec::new();
        let mut j: usize = 0;
        while j < n
            invariant
                j <= n,
                n == repo@.commits.len(),
                nodes@.len() == n,
                walked@.len() == n,
                forall|i: int|
                    0 <= i < n ==> (#[trigger] nodes@[i]) == node_of(repo@, records@, rewrites@, i),
                forall|i: int|
                    0 <= i < n ==> (#[trigger] walked@[i]) == is_walked(
                        repo@,
                        records@,
                        rewrites@,
                        options,
                        i,
                    ),
                selected@.len() == j,
                forall|i: int|
                    0 <= i < j ==> (#[trigger] selected@[i]) == is_selected(
                        repo@,
                        records@,
                        rewrites@,
                        options,
                        i,
                    ),
            decreases n - j,
        {
            let node = nodes[j];
            let hidden = match node.verdict {
                Verdict::Hidden(_) => true,
                Verdict::Visible => false,
            };
            selected.push(walked[j] && (options.include_hidden || !hidden));
            j += 1;
        }
        let order = sorted_order(repo, &selected);
        proof {
            lemma_order_members(repo@.commits, selected@, n as int);
            assert(selected@ == Seq::new(
                repo@.commits.len(),
                |j: int| is_selected(repo@, records@, rewrites@, options, j),
            ));
            assert(nodes@ == Seq::new(
                repo@.commits.len(),
                |j: int| node_of(repo@, records@, rewrites@, j),
            ));
        }
        CommitGraph { nodes, selected, order }
    }

    /// The number of commits that are shown.
    pub fn shown(&self) -> (n: usize)
        ensures
            n == self@.order.len(),
    {
        self.order.len()
    }

    /// The position, in the snapshot, of the `t`-th commit in drawing order.
    pub fn shown_at(&self, t: usize) -> (j: usize)
        requires
            t < self@.order.len(),
        ensures
            j == self@.order[t as int],
    {
        self.order[t]
    }

    /// Whether the commit at `j` is shown.
    pub fn is_selected(&self, j: usize) -> (r: bool)
        requires
            j < self@.selected.len(),
        ensures
            r == self@.selected[j as int],
    {
        self.selected[j]
    }

    /// What is known of the commit at `j`.
    pub fn node(&self, j: usize) -> (node: Node)
        requires
            j < self@.nodes.len(),
        ensures
            node == self@.nodes[j as int],
    {
        self.nodes[j]
    }
}

} // verus!
