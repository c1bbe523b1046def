//! A read-only snapshot of the part of a repository that matters for the
//! view of history: commits with their parents, branches, and the current
//! position.

use vstd::prelude::*;
use crate::commit_id::CommitId;
use crate::text::{chars_of, same_text, string_of, text_before, text_precedes};

verus! {

/// A commit as the repository describes it. `parents` lists all parents,
/// whether or not the snapshot holds them; `time` is the commit time in
/// seconds since the epoch.
#[derive(Debug)]
pub struct Commit {
    pub id: CommitId,
    pub parents: Vec<CommitId>,
    pub time: i64,
    pub message: String,
}

/// What a [`Commit`] says.
pub struct CommitView {
    pub id: CommitId,
    pub parents: Seq<CommitId>,
    pub time: i64,
    pub message: Seq<char>,
}

impl View for Commit {
    type V = CommitView;

    open spec fn view(&self) -> CommitView {
        CommitView {
            id: self.id,
            parents: self.parents@,
            time: self.time,
            message: self.message@,
        }
    }
}

/// A branch: a name for a commit, local or remote-tracking.
#[derive(Debug)]
pub struct Branch {
    pub name: String,
    pub target: CommitId,
    pub is_remote: bool,
}

/// What a [`Branch`] says.
pub struct BranchView {
    pub name: Seq<char>,
    pub target: CommitId,
    pub is_remote: bool,
}

impl View for Branch {
    type V = BranchView;

    open spec fn view(&self) -> BranchView {
        BranchView { name: self.name@, target: self.target, is_remote: self.is_remote }
    }
}

/// The current position: a commit checked out directly, or a local branch,
/// which may not have a commit yet.
#[derive(Debug)]
pub enum Head {
    Detached { commit_id: CommitId },
    OnBranch { name: String },
}

/// What a [`Head`] says.
pub enum HeadView {
    Detached { commit_id: CommitId },
    OnBranch { name: Seq<char> },
}

impl View for Head {
    type V = HeadView;

    open spec fn view(&self) -> HeadView {
        match *self {
            Head::Detached { commit_id } => HeadView::Detached { commit_id },
            Head::OnBranch { name } => HeadView::OnBranch { name: name@ },
        }
    }
}

/// What a snapshot says.
pub struct RepoView {
    pub commits: Seq<CommitView>,
    pub branches: Seq<BranchView>,
    pub head: HeadView,
    pub main_branch: Seq<char>,
}

/// Why a snapshot was refused: an object or a reference does not resolve.
#[derive(Clone, Copy, Debug, PartialEq, Eq, Structural)]
pub enum RepositoryError {
    /// Two commits of the snapshot have the same identity.
    DuplicateCommit,
    /// A commit stands before one of its parents, so that the parent links
    /// do not show that history is free of cycles.
    ParentAfterChild,
    /// A branch, or the current position, names a commit that the snapshot
    /// does not hold.
    MissingCommit,
    /// Two branches of one kind, local or remote, have the same name.
    DuplicateBranch,
}

/// Why the configuration was refused.
#[derive(Clone, Copy, Debug, PartialEq, Eq, Structural)]
pub enum ConfigError {
    /// No branch has the name configured for the main branch.
    UnknownMainBranch,
}

/// Why no snapshot could be made.
#[derive(Clone, Copy, Debug, PartialEq, Eq, Structural)]
pub enum SnapshotError {
    Repository(RepositoryError),
    Config(ConfigError),
}

/// The texts of `commits`.
pub open spec fn commit_views(commits: Seq<Commit>) -> Seq<CommitView> {
    Seq::new(commits.len(), |i: int| commits[i]@)
}

/// The texts of `branches`.
pub open spec fn branch_views(branches: Seq<Branch>) -> Seq<BranchView> {
    Seq::new(branches.len(), |i: int| branches[i]@)
}

/// Whether `commits` holds a commit with the identity `id`.
pub open spec fn has_commit(commits: Seq<CommitView>, id: CommitId) -> bool {
    exists|i: int| 0 <= i < commits.len() && (#[trigger] commits[i]).id == id
}

/// The position of a commit with the identity `id`.
pub open spec fn commit_index(commits: Seq<CommitView>, id: CommitId) -> int {
    choose|i: int| 0 <= i < commits.len() && (#[trigger] commits[i]).id == id
}

/// Whether no two commits have the same identity.
pub open spec fn ids_distinct(commits: Seq<CommitView>) -> bool {
    forall|i: int, j: int|
        0 <= i < j < commits.len() ==> (#[trigger] commits[i]).id != (#[trigger] commits[j]).id
}

/// Whether the commit at `p` is a parent of the commit at `c`.
pub open spec fn is_parent(commits: Seq<CommitView>, p: int, c: int) -> bool {
    &&& 0 <= p < commits.len()
    &&& 0 <= c < commits.len()
    &&& commits[c].parents.contains(commits[p].id)
}

/// Whether every parent stands before its children.
pub open spec fn parents_first(commits: Seq<CommitView>) -> bool {
    forall|p: int, c: int| #[trigger] is_parent(commits, p, c) ==> p < c
}

/// Whether some branch has the name `name`.
pub open spec fn has_branch(branches: Seq<BranchView>, name: Seq<char>) -> bool {
    exists|i: int| 0 <= i < branches.len() && (#[trigger] branches[i]).name == name
}

/// The position of the first branch with the name `name`, or the number of
/// branches where there is none.
pub open spec fn branch_index(branches: Seq<BranchView>, name: Seq<char>) -> int
    decreases branches.len(),
{
    if branches.len() == 0 || branches[0].name == name {
        0
    } else {
        1 + branch_index(branches.drop_first(), name)
    }
}

/// The position of the first local branch with the name `name`, or the
/// number of branches where there is none.
pub open spec fn local_branch_index(branches: Seq<BranchView>, name: Seq<char>) -> int
    decreases branches.len(),
{
    if branches.len() == 0 || (branches[0].name == name && !branches[0].is_remote) {
        0
    } else {
        1 + local_branch_index(branches.drop_first(), name)
    }
}

/// Whether the branch `a` is listed before the branch `b`: local branches
/// before remote ones, and branches of one kind by name.
pub open spec fn branch_precedes(a: BranchView, b: BranchView) -> bool {
    (!a.is_remote && b.is_remote) || (a.is_remote == b.is_remote && text_precedes(a.name, b.name))
}

/// Whether no two branches of one kind, local or remote, have the same
/// name.
pub open spec fn branches_distinct(branches: Seq<BranchView>) -> bool {
    forall|i: int, j: int|
        0 <= i < j < branches.len() ==> !((#[trigger] branches[i]).is_remote == (
        #[trigger] branches[j]).is_remote && branches[i].name == branches[j].name)
}

/// The place of the branch `b` among the branches `sorted`: before the
/// first that it is listed before, or at the end.
pub open spec fn branch_insert_at(sorted: Seq<BranchView>, b: BranchView) -> int
    decreases sorted.len(),
{
    if sorted.len() == 0 || branch_precedes(b, sorted[0]) {
        0
    } else {
        1 + branch_insert_at(sorted.drop_first(), b)
    }
}

/// The branches in the order in which a snapshot holds them, whatever the
/// order in which they were given: each is put in its place among those
/// that were given after it.
pub open spec fn branches_sorted(branches: Seq<BranchView>) -> Seq<BranchView>
    decreases branches.len(),
{
    if branches.len() == 0 {
        Seq::empty()
    } else {
        let rest = branches_sorted(branches.drop_first());
        rest.insert(branch_insert_at(rest, branches.first()), branches.first())
    }
}

/// What a snapshot of the given data says: the data as given, but for the
/// branches, which are put in order.
pub open spec fn snapshot_view(
    commits: Seq<CommitView>,
    branches: Seq<BranchView>,
    head: HeadView,
    main_branch: Seq<char>,
) -> RepoView {
    RepoView { commits, branches: branches_sorted(branches), head, main_branch }
}

/// `branch_insert_at` gives a place within the branches, behind every
/// branch that the new one is not listed before.
proof fn lemma_branch_insert_at_is(sorted: Seq<BranchView>, b: BranchView, k: int)
    requires
        0 <= k <= sorted.len(),
        forall|i: int| 0 <= i < k ==> !branch_precedes(b, #[trigger] sorted[i]),
        k < sorted.len() ==> branch_precedes(b, sorted[k]),
    ensures
        branch_insert_at(sorted, b) == k,
    decreases sorted.len(),
{
    if sorted.len() == 0 || branch_precedes(b, sorted[0]) {
        if sorted.len() > 0 && k > 0 {
            assert(!branch_precedes(b, sorted[0]));
        }
    } else {
        let rest = sorted.drop_first();
        assert(k > 0);
        assert forall|i: int| 0 <= i < k - 1 implies !branch_precedes(b, #[trigger] rest[i]) by {
            assert(rest[i] == sorted[i + 1]);
        }
        if k < sorted.len() {
            assert(rest[k - 1] == sorted[k]);
        }
        lemma_branch_insert_at_is(rest, b, k - 1);
    }
}

impl RepoView {
    /// The commit at the current position: the one checked out directly, or
    /// the target of the local branch that is checked out; none while that
    /// branch has no commit.
    pub open spec fn head_commit(self) -> Option<CommitId> {
        match self.head {
            HeadView::Detached { commit_id } => Some(commit_id),
            HeadView::OnBranch { name } => {
                let i = local_branch_index(self.branches, name);
                if 0 <= i < self.branches.len() {
                    Some(self.branches[i].target)
                } else {
                    None
                }
            },
        }
    }

    /// Whether every branch, and the current position, names a commit of
    /// the snapshot.
    pub open spec fn references_resolve(self) -> bool {
        &&& forall|i: int|
            0 <= i < self.branches.len() ==> has_commit(
                self.commits,
                (#[trigger] self.branches[i]).target,
            )
        &&& self.head_commit() is Some ==> has_commit(self.commits, self.head_commit()->0)
    }

    /// Why the snapshot is refused, if it is: the first of the reasons, in
    /// the order of [`SnapshotError`]'s declaration, that applies.
    pub open spec fn defect(self) -> Option<SnapshotError> {
        if !ids_distinct(self.commits) {
            Some(SnapshotError::Repository(RepositoryError::DuplicateCommit))
        } else if !parents_first(self.commits) {
            Some(SnapshotError::Repository(RepositoryError::ParentAfterChild))
        } else if !self.references_resolve() {
            Some(SnapshotError::Repository(RepositoryError::MissingCommit))
        } else if !branches_distinct(self.branches) {
            Some(SnapshotError::Repository(RepositoryError::DuplicateBranch))
        } else if !has_branch(self.branches, self.main_branch) {
            Some(SnapshotError::Config(ConfigError::UnknownMainBranch))
        } else {
            None
        }
    }

    /// The position of the commit that the main branch names.
    pub open spec fn main_tip(self) -> int {
        commit_index(self.commits, self.branches[branch_index(self.branches, self.main_branch)].target)
    }

    /// The position of the commit at the current position, where there is
    /// one.
    pub open spec fn head_index(self) -> Option<int> {
        match self.head_commit() {
            Some(id) => Some(commit_index(self.commits, id)),
            None => None,
        }
    }
}

/// The first branch of a given name is a branch of that name, where one
/// exists.
pub proof fn lemma_branch_index(branches: Seq<BranchView>, name: Seq<char>)
    ensures
        0 <= branch_index(branches, name) <= branches.len(),
        branch_index(branches, name) < branches.len() ==> branches[branch_index(
            branches,
            name,
        )].name == name,
        forall|i: int| 0 <= i < branch_index(branches, name) ==> branches[i].name != name,
        has_branch(branches, name) <==> branch_index(branches, name) < branches.len(),
    decreases branches.len(),
{
    if branches.len() == 0 || branches[0].name == name {
        if branches.len() == 0 {
            assert(!has_branch(branches, name));
        } else {
            assert(branches[0].name == name);
        }
    } else {
        let rest = branches.drop_first();
        lemma_branch_index(rest, name);
        let k = branch_index(branches, name);
        assert forall|i: int| 0 <= i < k implies branches[i].name != name by {
            if i > 0 {
                assert(branches[i] == rest[i - 1]);
            }
        }
        if k < branches.len() {
            assert(branches[k] == rest[k - 1]);
        }
        if has_branch(branches, name) {
            let i = choose|i: int| 0 <= i < branches.len() && (#[trigger] branches[i]).name == name;
            assert(rest[i - 1] == branches[i]);
            assert(has_branch(rest, name));
        }
        if k < branches.len() {
            assert(branches[k].name == name);
        }
    }
}

/// The first local branch of a given name is such a branch, and none
/// stands before it.
pub proof fn lemma_local_branch_index(branches: Seq<BranchView>, name: Seq<char>)
    ensures
        0 <= local_branch_index(branches, name) <= branches.len(),
        local_branch_index(branches, name) < branches.len() ==> branches[local_branch_index(
            branches,
            name,
        )].name == name && !branches[local_branch_index(branches, name)].is_remote,
        forall|i: int|
            0 <= i < local_branch_index(branches, name) ==> !(branches[i].name == name
                && !branches[i].is_remote),
    decreases branches.len(),
{
    if branches.len() == 0 || (branches[0].name == name && !branches[0].is_remote) {
    } else {
        let rest = branches.drop_first();
        lemma_local_branch_index(rest, name);
        let k = local_branch_index(branches, name);
        assert forall|i: int| 0 <= i < k implies !(branches[i].name == name
            && !branches[i].is_remote) by {
            if i > 0 {
                assert(branches[i] == rest[i - 1]);
            }
        }
        if k < branches.len() {
            assert(branches[k] == rest[k - 1]);
        }
    }
}

/// With distinct identities a commit is found at its own position.
pub proof fn lemma_commit_index(commits: Seq<CommitView>, i: int)
    requires
        ids_distinct(commits),
        0 <= i < commits.len(),
    ensures
        has_commit(commits, commits[i].id),
        commit_index(commits, commits[i].id) == i,
{
    let id = commits[i].id;
    assert(has_commit(commits, id));
    let j = commit_index(commits, id);
    assert(0 <= j < commits.len() && commits[j].id == id);
    if j < i {
        assert(commits[j].id != commits[i].id);
    } else if i < j {
        assert(commits[i].id != commits[j].id);
    }
}

/// Whether `links` holds, for every commit, the positions of exactly those
/// of its parents that the snapshot holds.
pub open spec fn links_parents(commits: Seq<CommitView>, links: Seq<Vec<usize>>) -> bool {
    &&& links.len() == commits.len()
    &&& forall|c: int, t: int|
        0 <= c < links.len() && 0 <= t < links[c]@.len() ==> is_parent(
            commits,
            (#[trigger] links[c]@[t]) as int,
            c,
        )
    &&& forall|p: int, c: int| #[trigger]
        is_parent(commits, p, c) ==> exists|t: int|
            0 <= t < links[c]@.len() && (#[trigger] links[c]@[t]) == p
}

/// Looks the commit with the identity `id` up.
fn find_commit(commits: &Vec<Commit>, id: CommitId) -> (r: Option<usize>)
    ensures
        match r {
            Some(i) => i < commits@.len() && commits@[i as int].id == id,
            None => !has_commit(commit_views(commits@), id),
        },
{
    let mut i: usize = 0;
    while i < commits.len()
        invariant
            i <= commits.len(),
            forall|j: int| 0 <= j < i ==> commits@[j].id != id,
        decreases commits.len() - i,
    {
        if commits[i].id == id {
            return Some(i);
        }
        i += 1;
    }
    proof {
        let views = commit_views(commits@);
        assert forall|j: int| 0 <= j < views.len() implies (#[trigger] views[j]).id != id by {
            assert(views[j].id == commits@[j].id);
        }
    }
    None
}

/// Whether no two commits have the same identity.
fn check_distinct(commits: &Vec<Commit>) -> (r: bool)
    ensures
        r == ids_distinct(commit_views(commits@)),
{
    let ghost views = commit_views(commits@);
    let mut i: usize = 0;
    while i < commits.len()
        invariant
            i <= commits.len(),
            views == commit_views(commits@),
            forall|a: int, b: int|
                0 <= a < b < i ==> (#[trigger] views[a]).id != (#[trigger] views[b]).id,
        decreases commits.len() - i,
    {
        let mut j: usize = 0;
        while j < i
            invariant
                j <= i < commits.len(),
                views == commit_views(commits@),
                forall|a: int| 0 <= a < j ==> (#[trigger] views[a]).id != views[i as int].id,
            decreases i - j,
        {
            if commits[j].id == commits[i].id {
                assert(views[j as int].id == views[i as int].id);
                return false;
            }
            j += 1;
        }
        i += 1;
    }
    true
}

/// Whether the parent `id` of the commit at `c` has been dealt with: if the
/// snapshot holds it, it stands before `c` and `found` has its position.
spec fn parent_found(views: Seq<CommitView>, found: Seq<usize>, id: CommitId, c: int) -> bool {
    has_commit(views, id) ==> commit_index(views, id) < c && exists|w: int|
        0 <= w < found.len() && (#[trigger] found[w]) == commit_index(views, id)
}

/// Finds the positions of the parents of every commit, unless one of them
/// does not stand before its child.
fn link_parents(commits: &Vec<Commit>) -> (r: Option<Vec<Vec<usize>>>)
    requires
        ids_distinct(commit_views(commits@)),
    ensures
        match r {
            Some(links) => parents_first(commit_views(commits@)) && links_parents(
                commit_views(commits@),
                links@,
            ),
            None => !parents_first(commit_views(commits@)),
        },
{
    let ghost views = commit_views(commits@);
    let mut links: Vec<Vec<usize>> = Vec::new();
    let mut c: usize = 0;
    while c < commits.len()
        invariant
            c <= commits.len(),
            views == commit_views(commits@),
            ids_distinct(views),
            links@.len() == c,
            forall|k: int, t: int|
                0 <= k < c && 0 <= t < links@[k]@.len() ==> is_parent(
                    views,
                    (#[trigger] links@[k]@[t]) as int,
                    k,
                ),
            forall|p: int, k: int|
                0 <= k < c && #[trigger] is_parent(views, p, k) ==> p < k && exists|t: int|
                    0 <= t < links@[k]@.len() && (#[trigger] links@[k]@[t]) == p,
        decreases commits.len() - c,
    {
        let parents = &commits[c].parents;
        let mut found: Vec<usize> = Vec::new();
        let mut t: usize = 0;
        while t < parents.len()
            invariant
                t <= parents.len(),
                c < commits.len(),
                parents@ == views[c as int].parents,
                views == commit_views(commits@),
                ids_distinct(views),
                forall|u: int|
                    0 <= u < found@.len() ==> is_parent(views, (#[trigger] found@[u]) as int, c as int),
                forall|u: int|
                    0 <= u < t ==> #[trigger] parent_found(views, found@, parents@[u], c as int),
            decreases parents.len() - t,
        {
            let ghost old_found = found@;
            match find_commit(commits, parents[t]) {
                Some(p) => {
                    proof {
                        assert(views[p as int].id == parents@[t as int]);
                        assert(views[c as int].parents.contains(views[p as int].id));
                        assert(is_parent(views, p as int, c as int));
                        lemma_commit_index(views, p as int);
                    }
                    if p >= c {
                        return None;
                    }
                    found.push(p);
                    proof {
                        assert(found@[old_found.len() as int] == p);
                        assert forall|u: int| 0 <= u < t + 1 implies #[trigger] parent_found(
                            views,
                            found@,
                            parents@[u],
                            c as int,
                        ) by {
                            if u < t {
                                assert(parent_found(views, old_found, parents@[u], c as int));
                                if has_commit(views, parents@[u]) {
                                    let w = choose|w: int|
                                        0 <= w < old_found.len() && (#[trigger] old_found[w])
                                            == commit_index(views, parents@[u]);
                                    assert(found@[w] == old_found[w]);
                                }
                            }
                        }
                    }
                },
                None => {
                    proof {
                        assert forall|u: int| 0 <= u < t + 1 implies #[trigger] parent_found(
                            views,
                            found@,
                            parents@[u],
                            c as int,
                        ) by {
                            if u < t {
                                assert(parent_found(views, old_found, parents@[u], c as int));
                            }
                        }
                    }
                },
            }
            t += 1;
        }
        let ghost before = links@;
        links.push(found);
        proof {
            assert forall|k: int, u: int|
                0 <= k < c + 1 && 0 <= u < links@[k]@.len() implies is_parent(
                views,
                (#[trigger] links@[k]@[u]) as int,
                k,
            ) by {
                if k < c {
                    assert(links@[k] == before[k]);
                }
            }
            assert forall|p: int, k: int| 0 <= k < c + 1 && #[trigger] is_parent(views, p, k) implies p
                < k && exists|u: int| 0 <= u < links@[k]@.len() && (#[trigger] links@[k]@[u]) == p by {
                if k < c {
                    assert(links@[k] == before[k]);
                    let u = choose|u: int|
                        0 <= u < before[k]@.len() && (#[trigger] before[k]@[u]) == p;
                    assert(links@[k]@[u] == p);
                } else {
                    let u0 = choose|u: int|
                        0 <= u < views[k].parents.len() && views[k].parents[u] == views[p].id;
                    assert(parent_found(views, found@, parents@[u0], c as int));
                    lemma_commit_index(views, p);
                    let w = choose|w: int|
                        0 <= w < found@.len() && (#[trigger] found@[w]) == commit_index(
                            views,
                            parents@[u0],
                        );
                    assert(links@[k] == found);
                    assert(links@[k]@[w] == p);
                }
            }
        }
        c += 1;
    }
    Some(links)
}

/// Finds the commit of every branch, unless a branch names a commit that
/// the snapshot lacks.
fn resolve_branches(commits: &Vec<Commit>, branches: &Vec<Branch>) -> (r: Option<Vec<usize>>)
    requires
        ids_distinct(commit_views(commits@)),
    ensures
        match r {
            Some(targets) => targets@.len() == branches@.len() && forall|i: int|
                #![trigger targets@[i]]
                #![trigger branches@[i]]
                0 <= i < branches@.len() ==> has_commit(
                    commit_views(commits@),
                    branches@[i].target,
                ) && targets@[i] == commit_index(commit_views(commits@), branches@[i].target),
            None => exists|i: int|
                0 <= i < branches@.len() && !has_commit(
                    commit_views(commits@),
                    (#[trigger] branches@[i]).target,
                ),
        },
{
    let ghost views = commit_views(commits@);
    let mut targets: Vec<usize> = Vec::new();
    let mut i: usize = 0;
    while i < branches.len()
        invariant
            i <= branches.len(),
            views == commit_views(commits@),
            ids_distinct(views),
            targets@.len() == i,
            forall|k: int|
                #![trigger targets@[k]]
                #![trigger branches@[k]]
                0 <= k < i ==> has_commit(views, branches@[k].target) && targets@[k]
                    == commit_index(views, branches@[k].target),
        decreases branches.len() - i,
    {
        match find_commit(commits, branches[i].target) {
            Some(p) => {
                let ghost before = targets@;
                targets.push(p);
                proof {
                    lemma_commit_index(views, p as int);
                    assert(views[p as int].id == branches@[i as int].target);
                    assert forall|k: int|
                        #![trigger targets@[k]]
                        #![trigger branches@[k]]
                        0 <= k < i + 1 implies has_commit(views, branches@[k].target) && targets@[k]
                        == commit_index(views, branches@[k].target) by {
                        if k < i {
                            assert(targets@[k] == before[k]);
                        }
                    }
                }
            },
            None => {
                return None;
            },
        }
        i += 1;
    }
    Some(targets)
}

/// Whether the branch `a` is listed before the branch `b`.
fn branch_before(a: &Branch, b: &Branch) -> (r: bool)
    ensures
        r == branch_precedes(a@, b@),
{
    (!a.is_remote && b.is_remote) || (a.is_remote == b.is_remote && text_before(
        &chars_of(a.name.as_str()),
        &chars_of(b.name.as_str()),
    ))
}

/// Puts the branches in order.
fn sort_branches(branches: Vec<Branch>) -> (sorted: Vec<Branch>)
    ensures
        branch_views(sorted@) == branches_sorted(branch_views(branches@)),
{
    let ghost all = branch_views(branches@);
    let mut input = branches;
    let mut sorted: Vec<Branch> = Vec::new();
    proof {
        assert(all.skip(all.len() as int) == Seq::<BranchView>::empty());
        assert(branch_views(sorted@) == Seq::<BranchView>::empty());
    }
    while input.len() > 0
        invariant
            input@.len() <= all.len(),
            branch_views(input@) == all.take(input@.len() as int),
            branch_views(sorted@) == branches_sorted(all.skip(input@.len() as int)),
        decreases input@.len(),
    {
        let ghost k = input@.len() as int;
        let ghost before_input = input@;
        let ghost rest = branch_views(sorted@);
        match input.pop() {
            Some(b) => {
                proof {
                    assert(b == before_input[k - 1]);
                    assert(branch_views(before_input)[k - 1] == b@);
                    assert(all[k - 1] == b@);
                    assert(branch_views(input@) == all.take(k - 1));
                    assert(all.skip(k - 1).first() == b@);
                    assert(all.skip(k - 1).drop_first() == all.skip(k));
                }
                let mut p: usize = 0;
                while p < sorted.len() && !branch_before(&b, &sorted[p])
                    invariant
                        p <= sorted@.len(),
                        rest == branch_views(sorted@),
                        forall|i: int| 0 <= i < p ==> !branch_precedes(b@, #[trigger] rest[i]),
                    decreases sorted.len() - p,
                {
                    assert(rest[p as int] == sorted@[p as int]@);
                    p += 1;
                }
                proof {
                    if p < sorted.len() {
                        assert(rest[p as int] == sorted@[p as int]@);
                    }
                    lemma_branch_insert_at_is(rest, b@, p as int);
                }
                let ghost before_sorted = sorted@;
                sorted.insert(p, b);
                proof {
                    assert(sorted@ == before_sorted.insert(p as int, b));
                    assert(branch_views(sorted@) =~= rest.insert(p as int, b@));
                }
            },
            None => {},
        }
    }
    proof {
        assert(all.skip(0) == all);
    }
    sorted
}

/// Whether no two branches of one kind have the same name.
fn check_distinct_branches(branches: &Vec<Branch>) -> (r: bool)
    ensures
        r == branches_distinct(branch_views(branches@)),
{
    let ghost views = branch_views(branches@);
    let mut j: usize = 0;
    while j < branches.len()
        invariant
            j <= branches@.len(),
            views == branch_views(branches@),
            forall|a: int, b: int|
                0 <= a < b < j ==> !((#[trigger] views[a]).is_remote == (
                #[trigger] views[b]).is_remote && views[a].name == views[b].name),
        decreases branches.len() - j,
    {
        let mut i: usize = 0;
        while i < j
            invariant
                i <= j < branches@.len(),
                views == branch_views(branches@),
                forall|a: int|
                    0 <= a < i ==> !((#[trigger] views[a]).is_remote == views[j as int].is_remote
                        && views[a].name == views[j as int].name),
            decreases j - i,
        {
            assert(views[i as int] == branches@[i as int]@ && views[j as int] == branches@[j as int]@);
            if branches[i].is_remote == branches[j].is_remote && same_text(
                branches[i].name.as_str(),
                branches[j].name.as_str(),
            ) {
                return false;
            }
            i += 1;
        }
        j += 1;
    }
    true
}

/// The position of the first branch named `name`, among the local ones
/// only if `local_only`; the number of branches where there is none.
fn find_branch(branches: &Vec<Branch>, name: &str, local_only: bool) -> (r: usize)
    ensures
        local_only ==> r == local_branch_index(branch_views(branches@), name@),
        !local_only ==> r == branch_index(branch_views(branches@), name@),
        r <= branches@.len(),
{
    let ghost views = branch_views(branches@);
    let mut i: usize = 0;
    proof {
        assert(views.skip(0) == views);
    }
    while i < branches.len()
        invariant
            i <= branches.len(),
            views == branch_views(branches@),
            local_only ==> i + local_branch_index(views.skip(i as int), name@)
                == local_branch_index(views, name@),
            !local_only ==> i + branch_index(views.skip(i as int), name@) == branch_index(
                views,
                name@,
            ),
        decreases branches.len() - i,
    {
        let ghost rest = views.skip(i as int);
        proof {
            assert(rest[0] == branches@[i as int]@);
            assert(rest.drop_first() == views.skip(i + 1));
        }
        if same_text(branches[i].name.as_str(), name) && (!local_only || !branches[i].is_remote) {
            return i;
        }
        i += 1;
    }
    proof {
        assert(views.skip(i as int).len() == 0);
    }
    i
}

/// Whether a mark on the commit at `c` passes to the commit at `j`: `j` is
/// a parent of `c`, and marks do not stop at `c`.
pub open spec fn carries(commits: Seq<CommitView>, stop: Seq<bool>, j: int, c: int) -> bool {
    is_parent(commits, j, c) && j < c < stop.len() && !stop[c]
}

/// Whether the commit at `j` is marked when marks are placed on the commits
/// of `seeds` and pass from every marked commit to its parents, except from
/// the commits of `stop`: `j` is a seed, or an ancestor of a seed along a
/// path on which only the last commit may be in `stop`.
pub open spec fn marked(commits: Seq<CommitView>, seeds: Seq<bool>, stop: Seq<bool>, j: int) -> bool
    decreases commits.len() - j,
{
    0 <= j < commits.len() && j < seeds.len() && (seeds[j] || exists|c: int|
        j < c < commits.len() && #[trigger] carries(commits, stop, j, c) && marked(
            commits,
            seeds,
            stop,
            c,
        ))
}

/// Whether the commit at `j` is a seed or gets a mark from a commit at or
/// after `from`.
spec fn marked_from(
    commits: Seq<CommitView>,
    seeds: Seq<bool>,
    stop: Seq<bool>,
    j: int,
    from: int,
) -> bool {
    seeds[j] || exists|c: int|
        from <= c < commits.len() && #[trigger] carries(commits, stop, j, c) && marked(
            commits,
            seeds,
            stop,
            c,
        )
}

/// Whether `j` is among the first `t` positions that `link` lists.
spec fn listed(link: Seq<usize>, t: int, j: int) -> bool {
    exists|u: int| 0 <= u < t && (#[trigger] link[u]) == j
}

/// Places marks on the commits of `seeds` and passes them on to parents,
/// except from the commits of `stop`.
fn mark_ancestors(
    commits: &Vec<Commit>,
    links: &Vec<Vec<usize>>,
    seeds: Vec<bool>,
    stop: &Vec<bool>,
) -> (marks: Vec<bool>)
    requires
        parents_first(commit_views(commits@)),
        links_parents(commit_views(commits@), links@),
        seeds@.len() == commits@.len(),
        stop@.len() == commits@.len(),
    ensures
        marks@.len() == commits@.len(),
        forall|j: int|
            0 <= j < marks@.len() ==> (#[trigger] marks@[j]) == marked(
                commit_views(commits@),
                seeds@,
                stop@,
                j,
            ),
{
    let ghost views = commit_views(commits@);
    let ghost seeds0 = seeds@;
    let n = commits.len();
    let mut marks = seeds;
    let mut k: usize = n;
    while k > 0
        invariant
            k <= n,
            n == commits@.len(),
            views == commit_views(commits@),
            parents_first(views),
            links_parents(views, links@),
            seeds0.len() == n,
            stop@.len() == n,
            marks@.len() == n,
            forall|j: int|
                0 <= j < n ==> (#[trigger] marks@[j]) == marked_from(views, seeds0, stop@, j, k as int),
        decreases k,
    {
        let i = k - 1;
        let ghost before = marks@;
        proof {
            // The mark of the commit at `i` is final: all its children have been visited.
            assert(marked_from(views, seeds0, stop@, i as int, k as int) == marked(
                views,
                seeds0,
                stop@,
                i as int,
            ));
        }
        if marks[i] && !stop[i] {
            let link = &links[i];
            let mut t: usize = 0;
            while t < link.len()
                invariant
                    t <= link@.len(),
                    i < n,
                    n == commits@.len(),
                    views == commit_views(commits@),
                    parents_first(views),
                    links_parents(views, links@),
                    link@ == links@[i as int]@,
                    marks@.len() == n,
                    before.len() == n,
                    forall|j: int|
                        0 <= j < n ==> (#[trigger] marks@[j]) == (before[j] || listed(
                            link@,
                            t as int,
                            j,
                        )),
                decreases link.len() - t,
            {
                let p = link[t];
                let ghost prev = marks@;
                proof {
                    assert(is_parent(views, links@[i as int]@[t as int] as int, i as int));
                }
                marks.set(p, true);
                proof {
                    assert forall|j: int| 0 <= j < n implies (#[trigger] marks@[j]) == (before[j]
                        || listed(link@, t + 1, j)) by {
                        if listed(link@, t as int, j) {
                            let u = choose|u: int| 0 <= u < t && (#[trigger] link@[u]) == j;
                            assert(link@[u] == j);
                        }
                        if j == p {
                            assert(link@[t as int] == j);
                        }
                        if listed(link@, t + 1, j) && !listed(link@, t as int, j) {
                            let u = choose|u: int| 0 <= u < t + 1 && (#[trigger] link@[u]) == j;
                            assert(u == t);
                        }
                    }
                }
                t += 1;
            }
            proof {
                assert forall|j: int| 0 <= j < n implies (#[trigger] marks@[j]) == marked_from(
                    views,
                    seeds0,
                    stop@,
                    j,
                    i as int,
                ) by {
                    let l = listed(link@, link@.len() as int, j);
                    if l {
                        let u = choose|u: int| 0 <= u < link@.len() && (#[trigger] link@[u]) == j;
                        assert(is_parent(views, links@[i as int]@[u] as int, i as int));
                        assert(carries(views, stop@, j, i as int));
                    }
                    if carries(views, stop@, j, i as int) {
                        let u = choose|u: int|
                            0 <= u < links@[i as int]@.len() && (#[trigger] links@[i as int]@[u]) == j;
                        assert(link@[u] == j);
                        assert(l);
                    }
                    assert(l == carries(views, stop@, j, i as int));
                    if marked_from(views, seeds0, stop@, j, i as int) && !seeds0[j] {
                        let c = choose|c: int|
                            i <= c < views.len() && #[trigger] carries(views, stop@, j, c) && marked(
                                views,
                                seeds0,
                                stop@,
                                c,
                            );
                        if c != i {
                            assert(marked_from(views, seeds0, stop@, j, k as int));
                        }
                    }
                }
            }
        } else {
            proof {
                assert forall|j: int| 0 <= j < n implies (#[trigger] marks@[j]) == marked_from(
                    views,
                    seeds0,
                    stop@,
                    j,
                    i as int,
                ) by {
                    if marked_from(views, seeds0, stop@, j, i as int) && !seeds0[j] {
                        let c = choose|c: int|
                            i <= c < views.len() && #[trigger] carries(views, stop@, j, c) && marked(
                                views,
                                seeds0,
                                stop@,
                                c,
                            );
                        if c != i {
                            assert(marked_from(views, seeds0, stop@, j, k as int));
                        }
                    }
                }
            }
        }
        k = i;
    }
    proof {
        assert forall|j: int| 0 <= j < marks@.len() implies (#[trigger] marks@[j]) == marked(
            views,
            seeds0,
            stop@,
            j,
        ) by {
            if marked_from(views, seeds0, stop@, j, 0) && !seeds0[j] {
                let c = choose|c: int|
                    0 <= c < views.len() && #[trigger] carries(views, stop@, j, c) && marked(
                        views,
                        seeds0,
                        stop@,
                        c,
                    );
                assert(j < c);
            }
        }
    }
    marks
}

impl RepoView {
    /// Whether the current position or a branch names the commit at `j`.
    pub open spec fn named(self, j: int) -> bool {
        &&& 0 <= j < self.commits.len()
        &&& (self.head_commit() == Some(self.commits[j].id) || exists|b: int|
            0 <= b < self.branches.len() && (#[trigger] self.branches[b]).target
                == self.commits[j].id)
    }

    /// Marks that stop nowhere.
    pub open spec fn nowhere(self) -> Seq<bool> {
        Seq::new(self.commits.len(), |j: int| false)
    }

    /// Whether the commit at `j` belongs to the main branch: it is the
    /// commit that the main branch names, or an ancestor of it.
    pub open spec fn is_main(self, j: int) -> bool {
        marked(
            self.commits,
            Seq::new(self.commits.len(), |i: int| i == self.main_tip()),
            self.nowhere(),
            j,
        )
    }

    /// Whether the commit at `j` can be reached from the current position
    /// or from a branch, local or remote.
    pub open spec fn is_reachable(self, j: int) -> bool {
        marked(
            self.commits,
            Seq::new(self.commits.len(), |i: int| self.named(i)),
            self.nowhere(),
            j,
        )
    }

    /// Whether the commit at `j` is held in view: the current position or
    /// a branch names it, or it is reached from a commit so named without
    /// passing through a commit of the main branch. Of the main branch
    /// these are the commits that a name stands on and those where other
    /// work leaves it.
    pub open spec fn is_anchored(self, j: int) -> bool {
        marked(
            self.commits,
            Seq::new(self.commits.len(), |i: int| self.named(i)),
            Seq::new(self.commits.len(), |i: int| self.is_main(i)),
            j,
        )
    }

    /// Whether the commit at `j` is public: it belongs to the main branch,
    /// lies below its tip, and is reached only by way of it: neither the
    /// current position nor a branch names it, and no work off the main
    /// branch hangs on it.
    pub open spec fn is_public(self, j: int) -> bool {
        self.is_main(j) && !self.is_anchored(j)
    }
}

/// Marks the commits that the current position or a branch names.
fn mark_named(
    commits: &Vec<Commit>,
    branches: &Vec<Branch>,
    targets: &Vec<usize>,
    head_index: Option<usize>,
) -> (seeds: Vec<bool>)
    requires
        ids_distinct(commit_views(commits@)),
        targets@.len() == branches@.len(),
        forall|b: int|
            #![trigger targets@[b]]
            #![trigger branches@[b]]
            0 <= b < branches@.len() ==> has_commit(commit_views(commits@), branches@[b].target)
                && targets@[b] == commit_index(commit_views(commits@), branches@[b].target),
        head_index is Some ==> head_index->0 < commits@.len(),
    ensures
        seeds@.len() == commits@.len(),
        forall|j: int|
            0 <= j < seeds@.len() ==> (#[trigger] seeds@[j]) == (head_index == Some(j as usize)
                || exists|b: int|
                0 <= b < branches@.len() && (#[trigger] branches@[b]).target == commits@[j].id),
{
    let ghost views = commit_views(commits@);
    let n = commits.len();
    let mut seeds: Vec<bool> = Vec::new();
    let mut j: usize = 0;
    while j < n
        invariant
            j <= n,
            n == commits@.len(),
            seeds@.len() == j,
            forall|i: int| 0 <= i < j ==> (#[trigger] seeds@[i]) == (head_index == Some(i as usize)),
        decreases n - j,
    {
        seeds.push(head_index == Some(j));
        j += 1;
    }
    let mut b: usize = 0;
    while b < branches.len()
        invariant
            b <= branches@.len(),
            n == commits@.len(),
            views == commit_views(commits@),
            ids_distinct(views),
            targets@.len() == branches@.len(),
            forall|b: int|
                #![trigger targets@[b]]
                #![trigger branches@[b]]
                0 <= b < branches@.len() ==> has_commit(views, branches@[b].target) && targets@[b]
                    == commit_index(views, branches@[b].target),
            seeds@.len() == n,
            forall|i: int|
                0 <= i < n ==> (#[trigger] seeds@[i]) == (head_index == Some(i as usize)
                    || exists|c: int|
                    0 <= c < b && (#[trigger] branches@[c]).target == commits@[i].id),
        decreases branches.len() - b,
    {
        let ghost before = seeds@;
        let t = targets[b];
        proof {
            assert(has_commit(views, branches@[b as int].target));
            let w = commit_index(views, branches@[b as int].target);
            assert(views[w].id == branches@[b as int].target);
            assert(t == w);
        }
        seeds.set(t, true);
        proof {
            assert forall|i: int| 0 <= i < n implies (#[trigger] seeds@[i]) == (head_index == Some(
                i as usize,
            ) || exists|c: int|
                0 <= c < b + 1 && (#[trigger] branches@[c]).target == commits@[i].id) by {
                let now = exists|c: int|
                    0 <= c < b + 1 && (#[trigger] branches@[c]).target == commits@[i].id;
                let was = exists|c: int|
                    0 <= c < b && (#[trigger] branches@[c]).target == commits@[i].id;
                if was {
                    let c = choose|c: int|
                        0 <= c < b && (#[trigger] branches@[c]).target == commits@[i].id;
                    assert(branches@[c].target == commits@[i].id);
                    assert(now);
                }
                if i == t {
                    assert(views[i].id == commits@[i].id);
                    assert(branches@[b as int].target == commits@[i].id);
                    assert(now);
                }
                if now && !was {
                    let c = choose|c: int|
                        0 <= c < b + 1 && (#[trigger] branches@[c]).target == commits@[i].id;
                    assert(c == b);
                    assert(views[i].id == commits@[i].id);
                    lemma_commit_index(views, i);
                    assert(i == t);
                }
            }
        }
        b += 1;
    }
    seeds
}

/// A vector of `n` times `false`.
fn no_marks(n: usize) -> (marks: Vec<bool>)
    ensures
        marks@ == Seq::new(n as nat, |j: int| false),
{
    let mut marks: Vec<bool> = Vec::new();
    let mut j: usize = 0;
    while j < n
        invariant
            j <= n,
            marks@.len() == j,
            forall|i: int| 0 <= i < j ==> !(#[trigger] marks@[i]),
        decreases n - j,
    {
        marks.push(false);
        j += 1;
    }
    assert(marks@ == Seq::new(n as nat, |j: int| false));
    marks
}

/// A validated snapshot of a repository, with what follows from its parent
/// links worked out once.
pub struct RepoSnapshot {
    commits: Vec<Commit>,
    branches: Vec<Branch>,
    head: Head,
    main_branch: String,
    links: Vec<Vec<usize>>,
    targets: Vec<usize>,
    head_index: Option<usize>,
    main_tip: usize,
    named: Vec<bool>,
    main: Vec<bool>,
    reachable: Vec<bool>,
    anchored: Vec<bool>,
}

impl View for RepoSnapshot {
    type V = RepoView;

    closed spec fn view(&self) -> RepoView {
        RepoView {
            commits: commit_views(self.commits@),
            branches: branch_views(self.branches@),
            head: self.head@,
            main_branch: self.main_branch@,
        }
    }
}

impl RepoSnapshot {
    /// The invariant of a snapshot: it has no defect, and what it holds
    /// beside the repository's data is what that data implies.
    pub closed spec fn wf(self) -> bool {
        &&& self@.defect() is None
        &&& links_parents(self@.commits, self.links@)
        &&& self.targets@.len() == self.branches@.len()
        &&& forall|b: int|
            #![trigger self.targets@[b]]
            #![trigger self.branches@[b]]
            0 <= b < self.branches@.len() ==> self.targets@[b] == commit_index(
                self@.commits,
                self.branches@[b].target,
            )
        &&& match self.head_index {
            Some(i) => self@.head_index() == Some(i as int),
            None => self@.head_index() is None,
        }
        &&& self.main_tip == self@.main_tip()
        &&& self.named@.len() == self.commits@.len()
        &&& forall|j: int|
            0 <= j < self.commits@.len() ==> (#[trigger] self.named@[j]) == self@.named(j)
        &&& self.main@.len() == self.commits@.len()
        &&& self.reachable@.len() == self.commits@.len()
        &&& self.anchored@.len() == self.commits@.len()
        &&& forall|j: int|
            0 <= j < self.commits@.len() ==> (#[trigger] self.main@[j]) == self@.is_main(j)
        &&& forall|j: int|
            0 <= j < self.commits@.len() ==> (#[trigger] self.reachable@[j]) == self@.is_reachable(j)
        &&& forall|j: int|
            0 <= j < self.commits@.len() ==> (#[trigger] self.anchored@[j]) == self@.is_anchored(j)
    }

    /// A well-formed snapshot has no defect.
    pub proof fn lemma_valid(self)
        requires
            self.wf(),
        ensures
            self@.defect() is None,
    {
    }

    /// Takes a snapshot of a repository.
    ///
    /// `commits` lists the commits of the window of history that matters,
    /// every parent before its children. `branches` may come in any order:
    /// the snapshot holds the local ones before the remote ones, and each
    /// kind by name. `main_branch` is the configured name of the main
    /// branch. The snapshot is refused, with the first reason that applies,
    /// if two commits share an identity, if a commit stands before a
    /// parent, if a branch or the current position names a commit that is
    /// not listed, if two branches of one kind have the same name, or if no
    /// branch has the configured name.
    pub fn new(
        commits: Vec<Commit>,
        branches: Vec<Branch>,
        head: Head,
        main_branch: &str,
    ) -> (r: Result<RepoSnapshot, SnapshotError>)
        ensures
            match r {
                Ok(snapshot) => snapshot.wf() && snapshot@ == snapshot_view(
                    commit_views(commits@),
                    branch_views(branches@),
                    head@,
                    main_branch@,
                ),
                Err(e) => snapshot_view(
                    commit_views(commits@),
                    branch_views(branches@),
                    head@,
                    main_branch@,
                ).defect() == Some(e),
            },
            snapshot_view(
                commit_views(commits@),
                branch_views(branches@),
                head@,
                main_branch@,
            ).defect() is None ==> r is Ok,
    {
        let ordered = sort_branches(branches);
        Self::from_ordered(commits, ordered, head, main_branch)
    }

    /// Takes a snapshot of a repository whose branches are given as the
    /// snapshot is to hold them.
    fn from_ordered(
        commits: Vec<Commit>,
        branches: Vec<Branch>,
        head: Head,
        main_branch: &str,
    ) -> (r: Result<RepoSnapshot, SnapshotError>)
        ensures
            match r {
                Ok(snapshot) => snapshot.wf() && snapshot@ == (RepoView {
                    commits: commit_views(commits@),
                    branches: branch_views(branches@),
                    head: head@,
                    main_branch: main_branch@,
                }),
                Err(e) => (RepoView {
                    commits: commit_views(commits@),
                    branches: branch_views(branches@),
                    head: head@,
                    main_branch: main_branch@,
                }).defect() == Some(e),
            },
            (RepoView {
                commits: commit_views(commits@),
                branches: branch_views(branches@),
                head: head@,
                main_branch: main_branch@,
            }).defect() is None ==> r is Ok,
    {
        let ghost view = RepoView {
            commits: commit_views(commits@),
            branches: branch_views(branches@),
            head: head@,
            main_branch: main_branch@,
        };
        let ghost views = view.commits;
        if !check_distinct(&commits) {
            return Err(SnapshotError::Repository(RepositoryError::DuplicateCommit));
        }
        let links = match link_parents(&commits) {
            Some(links) => links,
            None => {
                return Err(SnapshotError::Repository(RepositoryError::ParentAfterChild));
            },
        };
        let targets = match resolve_branches(&commits, &branches) {
            Some(targets) => targets,
            None => {
                proof {
                    let b = choose|b: int|
                        0 <= b < branches@.len() && !has_commit(views, (#[trigger] branches@[b]).target);
                    assert(view.branches[b].target == branches@[b].target);
                    assert(!view.references_resolve());
                }
                return Err(SnapshotError::Repository(RepositoryError::MissingCommit));
            },
        };
        proof {
            assert forall|b: int| 0 <= b < view.branches.len() implies has_commit(
                views,
                (#[trigger] view.branches[b]).target,
            ) by {
                assert(view.branches[b].target == branches@[b].target);
            }
        }
        let head_index: Option<usize> = match &head {
            Head::Detached { commit_id } => match find_commit(&commits, *commit_id) {
                Some(i) => {
                    proof {
                        lemma_commit_index(views, i as int);
                    }
                    Some(i)
                },
                None => {
                    assert(!view.references_resolve());
                    return Err(SnapshotError::Repository(RepositoryError::MissingCommit));
                },
            },
            Head::OnBranch { name } => {
                let b = find_branch(&branches, name.as_str(), true);
                proof {
                    lemma_local_branch_index(view.branches, name@);
                }
                if b < branches.len() {
                    assert(view.branches[b as int].target == branches@[b as int].target);
                    Some(targets[b])
                } else {
                    None
                }
            },
        };
        assert(view.references_resolve());
        if !check_distinct_branches(&branches) {
            return Err(SnapshotError::Repository(RepositoryError::DuplicateBranch));
        }
        assert(match head_index {
            Some(i) => view.head_index() == Some(i as int),
            None => view.head_index() is None,
        });
        let m = find_branch(&branches, main_branch, false);
        proof {
            lemma_branch_index(view.branches, main_branch@);
        }
        if m >= branches.len() {
            return Err(SnapshotError::Config(ConfigError::UnknownMainBranch));
        }
        assert(view.defect() is None);
        let main_tip = targets[m];
        proof {
            assert(view.branches[m as int].target == branches@[m as int].target);
            assert(main_tip == view.main_tip());
        }
        let n = commits.len();
        let nowhere = no_marks(n);
        assert(nowhere@ == view.nowhere());
        // The main branch: the ancestors of its tip.
        let mut main_seeds = no_marks(n);
        main_seeds.set(main_tip, true);
        assert(main_seeds@ == Seq::new(n as nat, |i: int| i == view.main_tip()));
        let main = mark_ancestors(&commits, &links, main_seeds, &nowhere);
        assert(main@ == Seq::new(n as nat, |i: int| view.is_main(i)));
        // What the current position and the branches reach.
        let ref_seeds = mark_named(&commits, &branches, &targets, head_index);
        proof {
            assert forall|j: int| 0 <= j < n implies (#[trigger] ref_seeds@[j]) == view.named(j) by {
                lemma_named(view, commits@, branches@, head_index, j);
            }
            assert(ref_seeds@ == Seq::new(n as nat, |i: int| view.named(i)));
        }
        let reachable = mark_ancestors(&commits, &links, ref_seeds, &nowhere);
        let named = mark_named(&commits, &branches, &targets, head_index);
        proof {
            assert forall|j: int| 0 <= j < n implies (#[trigger] named@[j]) == view.named(j) by {
                lemma_named(view, commits@, branches@, head_index, j);
            }
        }
        // What is held in view, up to where it meets the main branch.
        let anchor_seeds = mark_named(&commits, &branches, &targets, head_index);
        proof {
            assert forall|j: int| 0 <= j < n implies (#[trigger] anchor_seeds@[j]) == view.named(j) by {
                lemma_named(view, commits@, branches@, head_index, j);
            }
            assert(anchor_seeds@ == Seq::new(n as nat, |i: int| view.named(i)));
        }
        let anchored = mark_ancestors(&commits, &links, anchor_seeds, &main);
        let snapshot = RepoSnapshot {
            commits,
            branches,
            head,
            main_branch: string_of(&chars_of(main_branch)),
            links,
            targets,
            head_index,
            main_tip,
            named,
            main,
            reachable,
            anchored,
        };
        assert(snapshot@ == view);
        Ok(snapshot)
    }
}

impl RepoView {
    /// Whether `id` is a public commit of the snapshot.
    pub open spec fn is_public_commit(self, id: CommitId) -> bool {
        has_commit(self.commits, id) && self.is_public(commit_index(self.commits, id))
    }

    /// Whether `id` is a commit of the snapshot that the current position
    /// or a branch reaches.
    pub open spec fn is_reachable_commit(self, id: CommitId) -> bool {
        has_commit(self.commits, id) && self.is_reachable(commit_index(self.commits, id))
    }
}

impl RepoSnapshot {
    /// The number of commits.
    pub fn len(&self) -> (n: usize)
        ensures
            n == self@.commits.len(),
    {
        self.commits.len()
    }

    /// The commit at position `j`.
    pub fn commit(&self, j: usize) -> (commit: &Commit)
        requires
            j < self@.commits.len(),
        ensures
            commit@ == self@.commits[j as int],
    {
        &self.commits[j]
    }

    /// The branches, in the order in which the snapshot was given them.
    pub fn branches(&self) -> (branches: &Vec<Branch>)
        ensures
            branch_views(branches@) == self@.branches,
    {
        &self.branches
    }

    /// The current position.
    pub fn head(&self) -> (head: &Head)
        ensures
            head@ == self@.head,
    {
        &self.head
    }

    /// The position of the commit with the identity `id`.
    pub fn index_of(&self, id: CommitId) -> (r: Option<usize>)
        requires
            self.wf(),
        ensures
            match r {
                Some(j) => has_commit(self@.commits, id) && j == commit_index(self@.commits, id),
                None => !has_commit(self@.commits, id),
            },
    {
        match find_commit(&self.commits, id) {
            Some(j) => {
                proof {
                    lemma_commit_index(self@.commits, j as int);
                }
                Some(j)
            },
            None => None,
        }
    }

    /// The positions of the parents of the commit at `j` that the snapshot
    /// holds. Each stands before `j`.
    pub fn parents_of(&self, j: usize) -> (parents: &Vec<usize>)
        requires
            self.wf(),
            j < self@.commits.len(),
        ensures
            forall|t: int|
                0 <= t < parents@.len() ==> (#[trigger] parents@[t]) < j && is_parent(
                    self@.commits,
                    parents@[t] as int,
                    j as int,
                ),
            forall|p: int| #[trigger]
                is_parent(self@.commits, p, j as int) ==> exists|t: int|
                    0 <= t < parents@.len() && (#[trigger] parents@[t]) == p,
    {
        proof {
            assert forall|t: int| 0 <= t < self.links@[j as int]@.len() implies (
            #[trigger] self.links@[j as int]@[t]) < j && is_parent(
                self@.commits,
                self.links@[j as int]@[t] as int,
                j as int,
            ) by {
                assert(is_parent(self@.commits, self.links@[j as int]@[t] as int, j as int));
            }
        }
        &self.links[j]
    }

    /// The position of the commit at the current position, where there is
    /// one.
    pub fn head_index(&self) -> (r: Option<usize>)
        requires
            self.wf(),
        ensures
            match r {
                Some(j) => self@.head_index() == Some(j as int) && j < self@.commits.len(),
                None => self@.head_index() is None,
            },
    {
        proof {
            match self@.head_commit() {
                Some(id) => {
                    assert(has_commit(self@.commits, id));
                },
                None => {},
            }
        }
        self.head_index
    }

    /// The position of the commit that the branch at `b` names.
    pub fn branch_target(&self, b: usize) -> (j: usize)
        requires
            self.wf(),
            b < self@.branches.len(),
        ensures
            j < self@.commits.len(),
            j == commit_index(self@.commits, self@.branches[b as int].target),
            self@.commits[j as int].id == self@.branches[b as int].target,
    {
        proof {
            assert(self@.branches[b as int].target == self.branches@[b as int].target);
            assert(has_commit(self@.commits, self@.branches[b as int].target));
        }
        self.targets[b]
    }

    /// Whether the current position or a branch names the commit at `j`.
    pub fn is_named(&self, j: usize) -> (r: bool)
        requires
            self.wf(),
            j < self@.commits.len(),
        ensures
            r == self@.named(j as int),
    {
        self.named[j]
    }

    /// Marks the commits of `seeds` and their ancestors. A commit of
    /// `stop` is marked where a mark comes to it, and passes none on.
    pub fn mark_from(&self, seeds: Vec<bool>, stop: &Vec<bool>) -> (marks: Vec<bool>)
        requires
            self.wf(),
            seeds@.len() == self@.commits.len(),
            stop@.len() == self@.commits.len(),
        ensures
            marks@.len() == self@.commits.len(),
            forall|j: int|
                0 <= j < marks@.len() ==> (#[trigger] marks@[j]) == marked(
                    self@.commits,
                    seeds@,
                    stop@,
                    j,
                ),
    {
        mark_ancestors(&self.commits, &self.links, seeds, stop)
    }

    /// Whether the commit at `j` is held in view.
    pub fn is_anchored(&self, j: usize) -> (r: bool)
        requires
            self.wf(),
            j < self@.commits.len(),
        ensures
            r == self@.is_anchored(j as int),
    {
        self.anchored[j]
    }

    /// Whether the commit at `j` belongs to the main branch.
    pub fn is_main(&self, j: usize) -> (r: bool)
        requires
            self.wf(),
            j < self@.commits.len(),
        ensures
            r == self@.is_main(j as int),
    {
        self.main[j]
    }

    /// Whether the current position or a branch reaches the commit at `j`.
    pub fn is_reachable(&self, j: usize) -> (r: bool)
        requires
            self.wf(),
            j < self@.commits.len(),
        ensures
            r == self@.is_reachable(j as int),
    {
        self.reachable[j]
    }

    /// Whether the commit at `j` is public.
    pub fn is_public(&self, j: usize) -> (r: bool)
        requires
            self.wf(),
            j < self@.commits.len(),
        ensures
            r == self@.is_public(j as int),
    {
        self.main[j] && !self.anchored[j]
    }

    /// Whether `id` is a public commit of the snapshot.
    pub fn is_public_commit(&self, id: CommitId) -> (r: bool)
        requires
            self.wf(),
        ensures
            r == self@.is_public_commit(id),
    {
        match self.index_of(id) {
            Some(j) => self.is_public(j),
            None => false,
        }
    }

    /// Whether `id` is a commit of the snapshot that the current position
    /// or a branch reaches.
    pub fn is_reachable_commit(&self, id: CommitId) -> (r: bool)
        requires
            self.wf(),
        ensures
            r == self@.is_reachable_commit(id),
    {
        match self.index_of(id) {
            Some(j) => self.is_reachable(j),
            None => false,
        }
    }
}

/// The commits that `mark_named` marks are those that the view calls named.
proof fn lemma_named(
    view: RepoView,
    commits: Seq<Commit>,
    branches: Seq<Branch>,
    head_index: Option<usize>,
    j: int,
)
    requires
        view.commits == commit_views(commits),
        view.branches == branch_views(branches),
        ids_distinct(view.commits),
        view.references_resolve(),
        0 <= j < commits.len() <= usize::MAX,
        match head_index {
            Some(i) => view.head_index() == Some(i as int),
            None => view.head_index() is None,
        },
    ensures
        view.named(j) == (head_index == Some(j as usize) || exists|b: int|
            0 <= b < branches.len() && (#[trigger] branches[b]).target == commits[j].id),
{
    let lhs_branch = exists|b: int|
        0 <= b < view.branches.len() && (#[trigger] view.branches[b]).target == view.commits[j].id;
    let rhs_branch = exists|b: int|
        0 <= b < branches.len() && (#[trigger] branches[b]).target == commits[j].id;
    assert(view.commits[j].id == commits[j].id);
    if lhs_branch {
        let b = choose|b: int|
            0 <= b < view.branches.len() && (#[trigger] view.branches[b]).target
                == view.commits[j].id;
        assert(branches[b].target == commits[j].id);
    }
    if rhs_branch {
        let b = choose|b: int|
            0 <= b < branches.len() && (#[trigger] branches[b]).target == commits[j].id;
        assert(view.branches[b].target == view.commits[j].id);
    }
    lemma_commit_index(view.commits, j);
    match view.head_commit() {
        Some(id) => {
            assert(has_commit(view.commits, id));
            let i = commit_index(view.commits, id);
            assert(view.commits[i].id == id);
            if view.commits[j].id == id {
                assert(i == j);
            }
        },
        None => {},
    }
}

/// More seeds give more marks.
pub proof fn lemma_marked_grows(
    commits: Seq<CommitView>,
    fewer: Seq<bool>,
    more: Seq<bool>,
    stop: Seq<bool>,
    j: int,
)
    requires
        fewer.len() == more.len(),
        forall|i: int| 0 <= i < fewer.len() && fewer[i] ==> more[i],
        marked(commits, fewer, stop, j),
    ensures
        marked(commits, more, stop, j),
    decreases commits.len() - j,
{
    if !fewer[j] {
        let c = choose|c: int|
            j < c < commits.len() && #[trigger] carries(commits, stop, j, c) && marked(
                commits,
                fewer,
                stop,
                c,
            );
        lemma_marked_grows(commits, fewer, more, stop, c);
        assert(carries(commits, stop, j, c) && marked(commits, more, stop, c));
    }
}

impl RepoView {
    /// In a snapshot without defect the main branch names a commit of the
    /// snapshot, which belongs to the main branch and is held in view.
    pub proof fn lemma_main_tip(self)
        requires
            self.defect() is None,
        ensures
            0 <= self.main_tip() < self.commits.len(),
            self.is_main(self.main_tip()),
            self.named(self.main_tip()),
            self.is_anchored(self.main_tip()),
            !self.is_public(self.main_tip()),
    {
        lemma_branch_index(self.branches, self.main_branch);
        let m = branch_index(self.branches, self.main_branch);
        let target = self.branches[m].target;
        assert(has_commit(self.commits, target));
        let tip = self.main_tip();
        assert(self.commits[tip].id == target);
    }

    /// What belongs to the main branch is reached from a branch.
    pub proof fn lemma_main_is_reachable(self, j: int)
        requires
            self.defect() is None,
            self.is_main(j),
        ensures
            self.is_reachable(j),
    {
        self.lemma_main_tip();
        lemma_marked_grows(
            self.commits,
            Seq::new(self.commits.len(), |i: int| i == self.main_tip()),
            Seq::new(self.commits.len(), |i: int| self.named(i)),
            self.nowhere(),
            j,
        );
    }
}

} // verus!
