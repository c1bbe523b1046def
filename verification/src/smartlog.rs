//! Drawing the commit graph as text.
//!
//! Every shown commit gets a row: a glyph, the short id, what hides it,
//! the branches that name it, and the first line of its message. Rows of
//! the main branch stand below one another; other commits hang off their
//! parent as a tree, one lineage per child.

use vstd::prelude::*;
use crate::event::{event_views, Event};
use crate::graph::{
    comes_before, graph_of, insert_at, is_selected, lemma_named_commit_is_shown_unless_hidden,
    lemma_public_commit_is_suppressed, node_of, order_of, seeds_of, stops_of, CommitGraph, GraphView, Node,
    SmartlogOptions,
};
use crate::repo::{
    branch_index, branch_views, carries, is_parent, lemma_branch_index, lemma_commit_index, marked, BranchView,
    CommitView, Head, HeadView, RepoSnapshot, RepoView,
};
use crate::commit_id::CommitId;
use crate::rewrite::{is_obsolete, resolve_latest, rewrite_map, walk, RewriteGraph};
use crate::text::{
    chars_of, extend, extend_str, find_char, find_from, lemma_find_char, line_views, same_text,
    slice, string_of,
};
use crate::visibility::{
    is_manually_hidden, lemma_hidden_stays_hidden, verdict, verdict_of_latest, visibility_map,
    HiddenReason, Verdict, VisibilityMark, VisibilityRecords,
};

verus! {

/// The first line of `message`.
pub open spec fn summary(message: Seq<char>) -> Seq<char> {
    message.take(find_char(message, '\n'))
}

/// The glyph of a commit: `@` for the current position, else `x` for a
/// hidden commit and `O` for a visible one.
pub open spec fn glyph(node: Node) -> char {
    if node.is_head {
        '@'
    } else if node.verdict is Hidden {
        'x'
    } else {
        'O'
    }
}

/// What a row says of why its commit is hidden or superseded: that the
/// user hid it; or else which commit it was rewritten as; or else that
/// nothing reaches it; or else that it is public. A commit that is none of
/// these has no such marker.
pub open spec fn hidden_marker(node: Node) -> Seq<char> {
    if node.is_manually_hidden {
        " (manually hidden)"@
    } else if node.is_obsolete {
        " (rewritten as "@ + node.resolved_latest.short_id_spec() + ")"@
    } else if node.verdict == Verdict::Hidden(HiddenReason::Unreachable) {
        " (unreachable)"@
    } else if node.verdict == Verdict::Hidden(HiddenReason::Public) {
        " (public)"@
    } else {
        Seq::empty()
    }
}

/// A commit that the user hid never has the glyph of a visible commit: it
/// is hidden, its glyph is `x`, or `@` at the current position, and its
/// marker says that the user hid it.
pub proof fn lemma_hidden_commit_is_drawn_as_hidden(
    repo: RepoView,
    marks: Map<CommitId, VisibilityMark>,
    edges: Map<CommitId, Option<CommitId>>,
    j: int,
)
    requires
        is_manually_hidden(marks, repo.commits[j].id),
    ensures
        node_of(repo, marks, edges, j).verdict is Hidden,
        glyph(node_of(repo, marks, edges, j)) == (if repo.head_index() == Some(j) {
            '@'
        } else {
            'x'
        }),
        hidden_marker(node_of(repo, marks, edges, j)) == " (manually hidden)"@,
{
    lemma_hidden_stays_hidden(marks, edges, repo, repo.commits[j].id);
}

/// A commit that a rewrite superseded, and that the user did not hide, is
/// hidden where its latest version is visible or it is public; its glyph is
/// then `x`, on the main branch as off it, and its marker names the latest
/// version, not a version between.
pub proof fn lemma_superseded_commit_is_drawn_as_hidden(
    repo: RepoView,
    marks: Map<CommitId, VisibilityMark>,
    edges: Map<CommitId, Option<CommitId>>,
    j: int,
)
    requires
        is_obsolete(edges, repo.commits[j].id),
        !is_manually_hidden(marks, repo.commits[j].id),
        repo.is_public_commit(repo.commits[j].id) || verdict_of_latest(
            marks,
            repo,
            resolve_latest(edges, repo.commits[j].id),
        ) == Verdict::Visible,
        repo.head_index() != Some(j),
    ensures
        node_of(repo, marks, edges, j).verdict is Hidden,
        glyph(node_of(repo, marks, edges, j)) == 'x',
        hidden_marker(node_of(repo, marks, edges, j)) == " (rewritten as "@ + resolve_latest(
            edges,
            repo.commits[j].id,
        ).short_id_spec() + ")"@,
{
}

/// What is shown by default has the glyph `@` or `O`: the glyph `x` stands
/// in a drawing only where hidden commits are asked for.
pub proof fn lemma_default_glyphs(
    repo: RepoView,
    marks: Map<CommitId, VisibilityMark>,
    edges: Map<CommitId, Option<CommitId>>,
    options: SmartlogOptions,
    j: int,
)
    requires
        !options.include_hidden,
        is_selected(repo, marks, edges, options, j),
    ensures
        glyph(node_of(repo, marks, edges, j)) == (if repo.head_index() == Some(j) {
            '@'
        } else {
            'O'
        }),
{
}

/// How a branch is named in a row: a remote branch after the word
/// `remote`, the branch that is checked out after `>`.
pub open spec fn branch_label(branch: BranchView, head: HeadView) -> Seq<char> {
    if branch.is_remote {
        "remote "@ + branch.name
    } else if head == (HeadView::OnBranch { name: branch.name }) {
        "> "@ + branch.name
    } else {
        branch.name
    }
}

/// The labels of those of the first `k` branches that name the commit at
/// `j`, in the order of the snapshot, with `, ` between them.
pub open spec fn branch_labels(repo: RepoView, j: int, k: int) -> Seq<char>
    decreases k,
{
    if k <= 0 {
        Seq::empty()
    } else {
        let before = branch_labels(repo, j, k - 1);
        if repo.branches[k - 1].target == repo.commits[j].id {
            (if before.len() == 0 {
                before
            } else {
                before + ", "@
            }) + branch_label(repo.branches[k - 1], repo.head)
        } else {
            before
        }
    }
}

/// The branches of a row, in parentheses; nothing where no branch names
/// the commit.
pub open spec fn branches_marker(repo: RepoView, j: int) -> Seq<char> {
    let labels = branch_labels(repo, j, repo.branches.len() as int);
    if labels.len() == 0 {
        Seq::empty()
    } else {
        " ("@ + labels + ")"@
    }
}

/// The row of the commit at `j`.
pub open spec fn row(repo: RepoView, graph: GraphView, j: int) -> Seq<char> {
    seq![glyph(graph.nodes[j]), ' '] + graph.nodes[j].commit_id.short_id_spec() + hidden_marker(
        graph.nodes[j],
    ) + branches_marker(repo, j) + seq![' '] + summary(repo.commits[j].message)
}

/// Whether the commit at `c` is drawn as a child of the commit at `j`: it
/// is shown, lies off the main branch, and has `j` as a parent.
pub open spec fn is_child(repo: RepoView, graph: GraphView, j: int, c: int) -> bool {
    0 <= c < graph.selected.len() && graph.selected[c] && !repo.is_main(c) && is_parent(
        repo.commits,
        j,
        c,
    )
}

/// Whether the commit at `j` starts a tree of its own: it belongs to the
/// main branch, or none of its parents is shown.
pub open spec fn is_root(repo: RepoView, graph: GraphView, j: int) -> bool {
    repo.is_main(j) || !exists|p: int|
        0 <= p < graph.selected.len() && #[trigger] is_parent(repo.commits, p, j)
            && graph.selected[p]
}

/// The children of the commit at `j` among the first `k` commits of the
/// drawing order, in that order.
pub open spec fn children_among(repo: RepoView, graph: GraphView, j: int, k: int) -> Seq<usize>
    decreases k,
{
    if k <= 0 {
        Seq::empty()
    } else {
        let before = children_among(repo, graph, j, k - 1);
        if is_child(repo, graph, j, graph.order[k - 1] as int) {
            before.push(graph.order[k - 1])
        } else {
            before
        }
    }
}

/// The children of the commit at `j`, in drawing order.
pub open spec fn children(repo: RepoView, graph: GraphView, j: int) -> Seq<usize> {
    children_among(repo, graph, j, graph.order.len() as int)
}

/// The roots among the first `k` commits of the drawing order, in that
/// order.
pub open spec fn roots_among(repo: RepoView, graph: GraphView, k: int) -> Seq<usize>
    decreases k,
{
    if k <= 0 {
        Seq::empty()
    } else {
        let before = roots_among(repo, graph, k - 1);
        if is_root(repo, graph, graph.order[k - 1] as int) {
            before.push(graph.order[k - 1])
        } else {
            before
        }
    }
}

/// The roots, in drawing order.
pub open spec fn roots(repo: RepoView, graph: GraphView) -> Seq<usize> {
    roots_among(repo, graph, graph.order.len() as int)
}

/// `lines`, each with `prefix` before it.
pub open spec fn prefixed(prefix: Seq<char>, lines: Seq<Seq<char>>) -> Seq<Seq<char>> {
    Seq::new(lines.len(), |i: int| prefix + lines[i])
}

/// The line that leads from a commit to its `k`-th child of `count`: a
/// plain bar to the last child where nothing follows the tree, else a bar
/// with an offshoot.
pub open spec fn connector(k: int, count: int, last: Option<char>) -> Seq<char> {
    if k == count - 1 && last is None {
        seq!['|']
    } else {
        seq!['|', '\\']
    }
}

/// What stands before the lines of the `k`-th child of `count`: a bar and
/// a blank before all but the last, whose lines follow the line `last` to
/// the next tree, or stand at the margin where there is none.
pub open spec fn child_prefix(k: int, count: int, last: Option<char>) -> Seq<char> {
    if k == count - 1 {
        match last {
            Some(c) => seq![c, ' '],
            None => Seq::empty(),
        }
    } else {
        seq!['|', ' ']
    }
}

/// The lines of the tree below the commit at `j`: its row, then for each
/// child a connector and the child's own tree. `last` is the line to the
/// next tree, if one follows.
pub open spec fn tree_lines(repo: RepoView, graph: GraphView, j: int, last: Option<char>) -> Seq<
    Seq<char>,
>
    decreases repo.commits.len() - j, children(repo, graph, j).len() + 1,
{
    seq![row(repo, graph, j)] + children_lines(repo, graph, j, children(repo, graph, j), 0, last)
}

/// The lines of the children `kids` of the commit at `j`, from the `k`-th
/// on.
pub open spec fn children_lines(
    repo: RepoView,
    graph: GraphView,
    j: int,
    kids: Seq<usize>,
    k: int,
    last: Option<char>,
) -> Seq<Seq<char>>
    decreases repo.commits.len() - j, kids.len() - k,
{
    if k < 0 || k >= kids.len() {
        Seq::empty()
    } else {
        let c = kids[k] as int;
        let below = if j < c < repo.commits.len() {
            tree_lines(repo, graph, c, None)
        } else {
            Seq::empty()
        };
        seq![connector(k, kids.len() as int, last)] + prefixed(
            child_prefix(k, kids.len() as int, last),
            below,
        ) + children_lines(repo, graph, j, kids, k + 1, last)
    }
}

/// The line above the `r`-th root. Above the first root stands the
/// elision marker `:` if the commit has parents, which are not shown, and
/// nothing if it has none. Above a later root stands a bar if the root
/// before it is one of its parents, and else the elision marker: no edge
/// joins the two.
pub open spec fn lead_lines(repo: RepoView, roots: Seq<usize>, r: int) -> Seq<Seq<char>> {
    if r > 0 {
        if is_parent(repo.commits, roots[r - 1] as int, roots[r] as int) {
            seq![seq!['|']]
        } else {
            seq![seq![':']]
        }
    } else if repo.commits[roots[r] as int].parents.len() > 0 {
        seq![seq![':']]
    } else {
        Seq::empty()
    }
}

/// Above a root stands at most one line. Where the root before it is none
/// of its parents, that line is the elision marker: the commits that lie
/// between the two have no rows, and one row stands for them, however
/// many they are.
pub proof fn lemma_elision_is_one_row(repo: RepoView, roots: Seq<usize>, r: int)
    ensures
        lead_lines(repo, roots, r).len() <= 1,
        r > 0 && !is_parent(repo.commits, roots[r - 1] as int, roots[r] as int) ==> lead_lines(
            repo,
            roots,
            r,
        ) == seq![seq![':']],
        r > 0 && is_parent(repo.commits, roots[r - 1] as int, roots[r] as int) ==> lead_lines(
            repo,
            roots,
            r,
        ) == seq![seq!['|']],
{
}

/// The line that runs from the `r`-th root past its tree to the next
/// root: none after the last root, a bar if the next root is a child of
/// this one, else the elision marker.
pub open spec fn line_to_next(repo: RepoView, roots: Seq<usize>, r: int) -> Option<char> {
    if r == roots.len() - 1 {
        None
    } else if is_parent(repo.commits, roots[r] as int, roots[r + 1] as int) {
        Some('|')
    } else {
        Some(':')
    }
}

/// The lines of the first `r` roots with their trees.
pub open spec fn forest_lines(repo: RepoView, graph: GraphView, roots: Seq<usize>, r: int) -> Seq<
    Seq<char>,
>
    decreases r,
{
    if r <= 0 {
        Seq::empty()
    } else {
        forest_lines(repo, graph, roots, r - 1) + lead_lines(repo, roots, r - 1) + tree_lines(
            repo,
            graph,
            roots[r - 1] as int,
            line_to_next(repo, roots, r - 1),
        )
    }
}

/// All lines of the drawing.
pub open spec fn smartlog_lines(repo: RepoView, graph: GraphView) -> Seq<Seq<char>> {
    forest_lines(repo, graph, roots(repo, graph), roots(repo, graph).len() as int)
}

/// The first `k` of `lines` as one text, a line feed after each.
pub open spec fn joined(lines: Seq<Seq<char>>, k: int) -> Seq<char>
    decreases k,
{
    if k <= 0 {
        Seq::empty()
    } else {
        joined(lines, k - 1) + lines[k - 1] + seq!['\n']
    }
}

/// The drawing as one text.
pub open spec fn smartlog_text(repo: RepoView, graph: GraphView) -> Seq<char> {
    joined(smartlog_lines(repo, graph), smartlog_lines(repo, graph).len() as int)
}

/// A prefix goes before the lines of two sequences as before the lines of
/// each.
proof fn lemma_prefixed_concat(prefix: Seq<char>, a: Seq<Seq<char>>, b: Seq<Seq<char>>)
    ensures
        prefixed(prefix, a + b) == prefixed(prefix, a) + prefixed(prefix, b),
{
    assert(prefixed(prefix, a + b) =~= prefixed(prefix, a) + prefixed(prefix, b));
}

/// Two prefixes, one after the other, are one prefix.
proof fn lemma_prefixed_twice(outer: Seq<char>, inner: Seq<char>, lines: Seq<Seq<char>>)
    ensures
        prefixed(outer, prefixed(inner, lines)) == prefixed(outer + inner, lines),
{
    assert forall|i: int| 0 <= i < lines.len() implies prefixed(outer, prefixed(inner, lines))[i]
        == prefixed(outer + inner, lines)[i] by {
        assert(outer + (inner + lines[i]) =~= (outer + inner) + lines[i]);
    }
    assert(prefixed(outer, prefixed(inner, lines)) =~= prefixed(outer + inner, lines));
}

/// Every child of a commit stands after it in the snapshot.
proof fn lemma_children_after(repo: RepoView, graph: GraphView, j: int, k: int)
    requires
        repo.defect() is None,
        graph.fits(repo),
        0 <= k <= graph.order.len(),
    ensures
        forall|t: int|
            0 <= t < children_among(repo, graph, j, k).len() ==> j < (#[trigger] children_among(
                repo,
                graph,
                j,
                k,
            )[t]) < repo.commits.len(),
    decreases k,
{
    if k > 0 {
        lemma_children_after(repo, graph, j, k - 1);
        let c = graph.order[k - 1] as int;
        let before = children_among(repo, graph, j, k - 1);
        let now = children_among(repo, graph, j, k);
        assert forall|t: int| 0 <= t < now.len() implies j < (#[trigger] now[t])
            < repo.commits.len() by {
            if t < before.len() {
                assert(now[t] == before[t]);
            } else {
                assert(is_parent(repo.commits, j, c));
                assert(now[t] == graph.order[k - 1]);
            }
        }
    }
}

/// Whether the commit at `p` is a parent of the commit at `c`.
fn has_parent(repo: &RepoSnapshot, c: usize, p: usize) -> (r: bool)
    requires
        repo.wf(),
        c < repo@.commits.len(),
    ensures
        r == is_parent(repo@.commits, p as int, c as int),
{
    let parents = repo.parents_of(c);
    let mut t: usize = 0;
    while t < parents.len()
        invariant
            t <= parents@.len(),
            forall|u: int| 0 <= u < t ==> parents@[u] != p,
            forall|u: int|
                0 <= u < parents@.len() ==> is_parent(
                    repo@.commits,
                    (#[trigger] parents@[u]) as int,
                    c as int,
                ),
        decreases parents.len() - t,
    {
        if parents[t] == p {
            assert(is_parent(repo@.commits, parents@[t as int] as int, c as int));
            return true;
        }
        t += 1;
    }
    proof {
        if is_parent(repo@.commits, p as int, c as int) {
            let u = choose|u: int| 0 <= u < parents@.len() && (#[trigger] parents@[u]) == p;
            assert(false);
        }
    }
    false
}

/// Whether the commit at `j` starts a tree of its own.
fn starts_tree(repo: &RepoSnapshot, graph: &CommitGraph, j: usize) -> (r: bool)
    requires
        repo.wf(),
        graph@.fits(repo@),
        j < repo@.commits.len(),
    ensures
        r == is_root(repo@, graph@, j as int),
{
    if repo.is_main(j) {
        return true;
    }
    let parents = repo.parents_of(j);
    let mut t: usize = 0;
    while t < parents.len()
        invariant
            t <= parents@.len(),
            j < repo@.commits.len(),
            graph@.fits(repo@),
            !repo@.is_main(j as int),
            forall|u: int| 0 <= u < parents@.len() ==> (#[trigger] parents@[u]) < j,
            forall|u: int| 0 <= u < t ==> !graph@.selected[(#[trigger] parents@[u]) as int],
            forall|u: int|
                0 <= u < parents@.len() ==> is_parent(
                    repo@.commits,
                    (#[trigger] parents@[u]) as int,
                    j as int,
                ),
        decreases parents.len() - t,
    {
        if graph.is_selected(parents[t]) {
            proof {
                let p = parents@[t as int] as int;
                assert(is_parent(repo@.commits, p, j as int));
                assert(0 <= p < graph@.selected.len() && graph@.selected[p]);
                assert(!is_root(repo@, graph@, j as int));
            }
            return false;
        }
        t += 1;
    }
    proof {
        if exists|p: int|
            0 <= p < graph@.selected.len() && #[trigger] is_parent(repo@.commits, p, j as int)
                && graph@.selected[p] {
            let p = choose|p: int|
                0 <= p < graph@.selected.len() && #[trigger] is_parent(repo@.commits, p, j as int)
                    && graph@.selected[p];
            let u = choose|u: int| 0 <= u < parents@.len() && (#[trigger] parents@[u]) == p;
            assert(!graph@.selected[parents@[u] as int]);
        }
    }
    true
}

/// The children of the commit at `j`, in drawing order.
fn children_of(repo: &RepoSnapshot, graph: &CommitGraph, j: usize) -> (kids: Vec<usize>)
    requires
        repo.wf(),
        graph@.fits(repo@),
        j < repo@.commits.len(),
    ensures
        kids@ == children(repo@, graph@, j as int),
        forall|t: int| 0 <= t < kids@.len() ==> j < (#[trigger] kids@[t]) < repo@.commits.len(),
{
    let mut kids: Vec<usize> = Vec::new();
    let mut k: usize = 0;
    let shown = graph.shown();
    while k < shown
        invariant
            k <= shown,
            shown == graph@.order.len(),
            repo.wf(),
            graph@.fits(repo@),
            j < repo@.commits.len(),
            kids@ == children_among(repo@, graph@, j as int, k as int),
        decreases shown - k,
    {
        let c = graph.shown_at(k);
        if graph.is_selected(c) && !repo.is_main(c) && has_parent(repo, c, j) {
            kids.push(c);
        }
        k += 1;
    }
    proof {
        repo.lemma_valid();
        lemma_children_after(repo@, graph@, j as int, shown as int);
    }
    kids
}

/// The roots, in drawing order.
fn roots_of(repo: &RepoSnapshot, graph: &CommitGraph) -> (found: Vec<usize>)
    requires
        repo.wf(),
        graph@.fits(repo@),
    ensures
        found@ == roots(repo@, graph@),
        forall|t: int| 0 <= t < found@.len() ==> (#[trigger] found@[t]) < repo@.commits.len(),
{
    let mut found: Vec<usize> = Vec::new();
    let mut k: usize = 0;
    let shown = graph.shown();
    while k < shown
        invariant
            k <= shown,
            shown == graph@.order.len(),
            repo.wf(),
            graph@.fits(repo@),
            found@ == roots_among(repo@, graph@, k as int),
            forall|t: int| 0 <= t < found@.len() ==> (#[trigger] found@[t]) < repo@.commits.len(),
        decreases shown - k,
    {
        let j = graph.shown_at(k);
        if starts_tree(repo, graph, j) {
            found.push(j);
        }
        k += 1;
    }
    found
}

/// Appends the labels of the branches that name the commit at `j`.
fn branch_labels_of(repo: &RepoSnapshot, j: usize) -> (labels: Vec<char>)
    requires
        repo.wf(),
        j < repo@.commits.len(),
    ensures
        labels@ == branch_labels(repo@, j as int, repo@.branches.len() as int),
{
    let branches = repo.branches();
    let id = repo.commit(j).id;
    let mut labels: Vec<char> = Vec::new();
    let mut k: usize = 0;
    while k < branches.len()
        invariant
            k <= branches@.len(),
            branch_views(branches@) == repo@.branches,
            id == repo@.commits[j as int].id,
            labels@ == branch_labels(repo@, j as int, k as int),
        decreases branches.len() - k,
    {
        let branch = &branches[k];
        assert(repo@.branches[k as int] == branch@);
        if branch.target == id {
            let ghost before = labels@;
            if labels.len() != 0 {
                extend_str(&mut labels, ", ");
            }
            let ghost listed = labels@;
            if branch.is_remote {
                extend_str(&mut labels, "remote ");
            } else {
                let current = match repo.head() {
                    Head::OnBranch { name } => same_text(name.as_str(), branch.name.as_str()),
                    Head::Detached { .. } => false,
                };
                assert(current == (repo@.head == (HeadView::OnBranch { name: branch@.name })));
                if current {
                    extend_str(&mut labels, "> ");
                }
            }
            extend_str(&mut labels, branch.name.as_str());
            assert(labels@ == listed + branch_label(branch@, repo@.head));
        }
        k += 1;
    }
    labels
}

/// The row of the commit at `j`.
fn row_of(repo: &RepoSnapshot, graph: &CommitGraph, j: usize) -> (line: Vec<char>)
    requires
        repo.wf(),
        graph@.fits(repo@),
        j < repo@.commits.len(),
    ensures
        line@ == row(repo@, graph@, j as int),
{
    let node = graph.node(j);
    let mut line: Vec<char> = Vec::new();
    let mark = if node.is_head {
        '@'
    } else {
        match node.verdict {
            Verdict::Hidden(_) => 'x',
            Verdict::Visible => 'O',
        }
    };
    line.push(mark);
    line.push(' ');
    assert(line@ == seq![glyph(node), ' ']);
    node.commit_id.push_short_id(&mut line);
    let ghost with_id = line@;
    if node.is_manually_hidden {
        extend_str(&mut line, " (manually hidden)");
    } else if node.is_obsolete {
        extend_str(&mut line, " (rewritten as ");
        node.resolved_latest.push_short_id(&mut line);
        extend_str(&mut line, ")");
    } else {
        match node.verdict {
            Verdict::Hidden(HiddenReason::Unreachable) => {
                extend_str(&mut line, " (unreachable)");
            },
            Verdict::Hidden(HiddenReason::Public) => {
                extend_str(&mut line, " (public)");
            },
            Verdict::Hidden(HiddenReason::ManuallyHidden) => {},
            Verdict::Hidden(HiddenReason::SupersededByRewrite { .. }) => {},
            Verdict::Visible => {},
        }
    }
    assert(line@ == with_id + hidden_marker(node));
    let ghost with_marker = line@;
    let labels = branch_labels_of(repo, j);
    if labels.len() != 0 {
        extend_str(&mut line, " (");
        extend(&mut line, &labels);
        extend_str(&mut line, ")");
    }
    assert(line@ == with_marker + branches_marker(repo@, j as int));
    line.push(' ');
    let message = chars_of(repo.commit(j).message.as_str());
    let end = find_from(&message, 0, '\n');
    let first = slice(&message, 0, end);
    proof {
        assert(message@.skip(0) == message@);
        assert(first@ == summary(repo@.commits[j as int].message));
    }
    extend(&mut line, &first);
    line
}

/// Appends the tree below the commit at `j`, every line after `prefix`.
fn draw_tree(
    repo: &RepoSnapshot,
    graph: &CommitGraph,
    j: usize,
    prefix: &Vec<char>,
    last: Option<char>,
    out: &mut Vec<Vec<char>>,
)
    requires
        repo.wf(),
        graph@.fits(repo@),
        j < repo@.commits.len(),
    ensures
        line_views(final(out)@) == line_views(old(out)@) + prefixed(
            prefix@,
            tree_lines(repo@, graph@, j as int, last),
        ),
    decreases repo@.commits.len() - j,
{
    let ghost start = line_views(out@);
    let ghost all = tree_lines(repo@, graph@, j as int, last);
    let mut line: Vec<char> = Vec::new();
    extend(&mut line, prefix);
    let this_row = row_of(repo, graph, j);
    extend(&mut line, &this_row);
    let kids = children_of(repo, graph, j);
    let ghost before = out@;
    out.push(line);
    proof {
        assert(line_views(out@) == line_views(before).push(line@));
        assert(line@ == prefix@ + row(repo@, graph@, j as int));
        lemma_prefixed_concat(
            prefix@,
            seq![row(repo@, graph@, j as int)],
            children_lines(repo@, graph@, j as int, kids@, 0, last),
        );
        assert(prefixed(prefix@, seq![row(repo@, graph@, j as int)]) == seq![line@]);
        assert(line_views(out@) + prefixed(
            prefix@,
            children_lines(repo@, graph@, j as int, kids@, 0, last),
        ) == start + prefixed(prefix@, all));
    }
    let count = kids.len();
    let mut k: usize = 0;
    while k < count
        invariant
            k <= count,
            count == kids@.len(),
            repo.wf(),
            graph@.fits(repo@),
            j < repo@.commits.len(),
            forall|t: int| 0 <= t < kids@.len() ==> j < (#[trigger] kids@[t]) < repo@.commits.len(),
            line_views(out@) + prefixed(
                prefix@,
                children_lines(repo@, graph@, j as int, kids@, k as int, last),
            ) == start + prefixed(prefix@, all),
        decreases count - k,
    {
        let c = kids[k];
        let is_last = k == count - 1;
        let mut link: Vec<char> = Vec::new();
        extend(&mut link, prefix);
        link.push('|');
        if !(is_last && last.is_none()) {
            link.push('\\');
        }
        let mut inner: Vec<char> = Vec::new();
        extend(&mut inner, prefix);
        if is_last {
            match last {
                Some(ch) => {
                    inner.push(ch);
                    inner.push(' ');
                },
                None => {},
            }
        } else {
            inner.push('|');
            inner.push(' ');
        }
        let ghost conn = connector(k as int, count as int, last);
        let ghost pre = child_prefix(k as int, count as int, last);
        let ghost below = tree_lines(repo@, graph@, c as int, None);
        let ghost rest = children_lines(repo@, graph@, j as int, kids@, k + 1, last);
        let ghost at_link = line_views(out@);
        proof {
            assert(link@ == prefix@ + conn);
            assert(inner@ == prefix@ + pre);
        }
        let ghost before_link = out@;
        out.push(link);
        proof {
            assert(line_views(out@) == line_views(before_link).push(link@));
        }
        draw_tree(repo, graph, c, &inner, None, out);
        proof {
            let here = children_lines(repo@, graph@, j as int, kids@, k as int, last);
            assert(here == seq![conn] + prefixed(pre, below) + rest);
            lemma_prefixed_concat(prefix@, seq![conn] + prefixed(pre, below), rest);
            lemma_prefixed_concat(prefix@, seq![conn], prefixed(pre, below));
            lemma_prefixed_twice(prefix@, pre, below);
            assert(prefixed(prefix@, seq![conn]) == seq![link@]);
            assert(line_views(out@) == at_link + seq![link@] + prefixed(inner@, below));
            assert(line_views(out@) + prefixed(prefix@, rest) == at_link + prefixed(prefix@, here));
        }
        k += 1;
    }
    proof {
        assert(children_lines(repo@, graph@, j as int, kids@, count as int, last) == Seq::<
            Seq<char>,
        >::empty());
        assert(prefixed(prefix@, Seq::<Seq<char>>::empty()) == Seq::<Seq<char>>::empty());
        assert(line_views(out@) + Seq::<Seq<char>>::empty() == line_views(out@));
    }
}

/// Draws the commit graph: one vector of characters for each line.
pub fn render_lines(repo: &RepoSnapshot, graph: &CommitGraph) -> (lines: Vec<Vec<char>>)
    requires
        repo.wf(),
        graph@.fits(repo@),
    ensures
        line_views(lines@) == smartlog_lines(repo@, graph@),
{
    let found = roots_of(repo, graph);
    let count = found.len();
    let mut lines: Vec<Vec<char>> = Vec::new();
    let margin: Vec<char> = Vec::new();
    let mut r: usize = 0;
    assert(line_views(lines@) == forest_lines(repo@, graph@, found@, 0));
    while r < count
        invariant
            r <= count,
            count == found@.len(),
            repo.wf(),
            graph@.fits(repo@),
            margin@ == Seq::<char>::empty(),
            found@ == roots(repo@, graph@),
            forall|t: int| 0 <= t < found@.len() ==> (#[trigger] found@[t]) < repo@.commits.len(),
            line_views(lines@) == forest_lines(repo@, graph@, found@, r as int),
        decreases count - r,
    {
        let j = found[r];
        let ghost start = line_views(lines@);
        if r > 0 || repo.commit(j).parents.len() > 0 {
            let mut lead: Vec<char> = Vec::new();
            if r > 0 && has_parent(repo, j, found[r - 1]) {
                lead.push('|');
            } else {
                lead.push(':');
            }
            let ghost before = lines@;
            lines.push(lead);
            assert(line_views(lines@) == line_views(before).push(lead@));
        }
        assert(line_views(lines@) == start + lead_lines(repo@, found@, r as int));
        let last = if r == count - 1 {
            None
        } else if has_parent(repo, found[r + 1], j) {
            Some('|')
        } else {
            Some(':')
        };
        assert(last == line_to_next(repo@, found@, r as int));
        draw_tree(repo, graph, j, &margin, last, &mut lines);
        proof {
            let tree = tree_lines(repo@, graph@, j as int, last);
            assert(prefixed(margin@, tree) =~= tree) by {
                assert forall|i: int| 0 <= i < tree.len() implies prefixed(margin@, tree)[i]
                    == tree[i] by {
                    assert(margin@ + tree[i] =~= tree[i]);
                }
            }
        }
        r += 1;
    }
    lines
}

/// Joins `lines` into one text, a line feed after each.
fn join(lines: &Vec<Vec<char>>) -> (text: Vec<char>)
    ensures
        text@ == joined(line_views(lines@), lines@.len() as int),
{
    let mut text: Vec<char> = Vec::new();
    let mut k: usize = 0;
    while k < lines.len()
        invariant
            k <= lines@.len(),
            text@ == joined(line_views(lines@), k as int),
        decreases lines.len() - k,
    {
        extend(&mut text, &lines[k]);
        text.push('\n');
        k += 1;
    }
    text
}

/// Draws the commit graph as one text, a line feed after each line.
pub fn render(repo: &RepoSnapshot, graph: &CommitGraph) -> (text: String)
    requires
        repo.wf(),
        graph@.fits(repo@),
    ensures
        text@ == smartlog_text(repo@, graph@),
{
    let lines = render_lines(repo, graph);
    let text = join(&lines);
    string_of(&text)
}

/// Whether the snapshot holds nothing but a main branch without forks,
/// with the current position at its tip: every commit but the first has
/// the commit before it as its one parent, the one branch is the main
/// branch, and it names the last commit, as does the current position.
pub open spec fn is_linear_history(repo: RepoView) -> bool {
    &&& repo.commits.len() >= 2
    &&& forall|j: int|
        1 <= j < repo.commits.len() ==> (#[trigger] repo.commits[j]).parents == seq![
            repo.commits[j - 1].id,
        ]
    &&& repo.branches.len() == 1
    &&& repo.branches[0].name == repo.main_branch
    &&& repo.branches[0].target == repo.commits[repo.commits.len() - 1].id
    &&& repo.head_commit() == Some(repo.commits[repo.commits.len() - 1].id)
}

/// In a linear history a commit has the commit before it as its parent,
/// and no other.
proof fn lemma_linear_parents(repo: RepoView, p: int, c: int)
    requires
        repo.defect() is None,
        is_linear_history(repo),
        0 <= p < repo.commits.len(),
        0 <= c < repo.commits.len(),
    ensures
        is_parent(repo.commits, p, c) <==> p == c - 1,
{
    if c >= 1 {
        let parents = repo.commits[c].parents;
        assert(parents == seq![repo.commits[c - 1].id]);
        if is_parent(repo.commits, p, c) {
            let t = choose|t: int| 0 <= t < parents.len() && parents[t] == repo.commits[p].id;
            assert(repo.commits[p].id == repo.commits[c - 1].id);
            lemma_commit_index(repo.commits, p);
            lemma_commit_index(repo.commits, c - 1);
        }
        if p == c - 1 {
            assert(parents[0] == repo.commits[p].id);
        }
    } else {
        if is_parent(repo.commits, p, c) {
            assert(p < c);
        }
    }
}

/// In a linear history every commit belongs to the main branch.
proof fn lemma_linear_is_main(repo: RepoView, j: int)
    requires
        repo.defect() is None,
        is_linear_history(repo),
        0 <= j < repo.commits.len(),
    ensures
        repo.is_main(j),
        repo.main_tip() == repo.commits.len() - 1,
    decreases repo.commits.len() - j,
{
    let n = repo.commits.len() as int;
    repo.lemma_main_tip();
    lemma_branch_index(repo.branches, repo.main_branch);
    lemma_commit_index(repo.commits, n - 1);
    assert(repo.main_tip() == n - 1);
    if j < n - 1 {
        lemma_linear_is_main(repo, j + 1);
        lemma_linear_parents(repo, j, j + 1);
        assert(carries(repo.commits, repo.nowhere(), j, j + 1));
    }
}

/// In a linear history only the tip is named.
proof fn lemma_linear_named(repo: RepoView, j: int)
    requires
        repo.defect() is None,
        is_linear_history(repo),
        0 <= j < repo.commits.len(),
    ensures
        repo.named(j) <==> j == repo.commits.len() - 1,
{
    let n = repo.commits.len() as int;
    lemma_commit_index(repo.commits, j);
    lemma_commit_index(repo.commits, n - 1);
    if repo.named(j) && j != n - 1 {
        let b = choose|b: int|
            0 <= b < repo.branches.len() && (#[trigger] repo.branches[b]).target
                == repo.commits[j].id;
        assert(b == 0);
    }
}

/// In a linear history every commit below the tip is public, and the tip
/// is not.
proof fn lemma_linear_public(repo: RepoView, j: int)
    requires
        repo.defect() is None,
        is_linear_history(repo),
        0 <= j < repo.commits.len(),
    ensures
        repo.is_public(j) <==> j != repo.commits.len() - 1,
{
    let seeds = Seq::new(repo.commits.len(), |i: int| repo.named(i));
    let stop = Seq::new(repo.commits.len(), |i: int| repo.is_main(i));
    lemma_linear_is_main(repo, j);
    lemma_linear_named(repo, j);
    if marked(repo.commits, seeds, stop, j) && !seeds[j] {
        let c = choose|c: int|
            j < c < repo.commits.len() && #[trigger] carries(repo.commits, stop, j, c) && marked(
                repo.commits,
                seeds,
                stop,
                c,
            );
        lemma_linear_is_main(repo, c);
    }
}

/// In a linear history whose tip is not hidden, the tip alone is shown by
/// default.
proof fn lemma_linear_selected(
    repo: RepoView,
    marks: Map<CommitId, VisibilityMark>,
    edges: Map<CommitId, Option<CommitId>>,
    options: SmartlogOptions,
    j: int,
)
    requires
        repo.defect() is None,
        is_linear_history(repo),
        !options.include_hidden,
        0 <= j < repo.commits.len(),
        !(verdict(marks, edges, repo, repo.commits[repo.commits.len() - 1].id) is Hidden),
    ensures
        is_selected(repo, marks, edges, options, j) <==> j == repo.commits.len() - 1,
{
    lemma_linear_public(repo, j);
    lemma_linear_named(repo, j);
    if j == repo.commits.len() - 1 {
        lemma_named_commit_is_shown_unless_hidden(repo, marks, edges, options, j);
    } else {
        lemma_public_commit_is_suppressed(repo, marks, edges, options, j);
    }
}

/// The drawing order of a selection that holds the last commit alone is
/// that commit.
proof fn lemma_order_of_one(commits: Seq<CommitView>, selected: Seq<bool>, k: int)
    requires
        1 <= selected.len() <= usize::MAX,
        0 <= k <= selected.len(),
        forall|j: int| 0 <= j < selected.len() ==> selected[j] == (j == selected.len() - 1),
    ensures
        order_of(commits, selected, k) == (if k == selected.len() {
            seq![(selected.len() - 1) as usize]
        } else {
            Seq::<usize>::empty()
        }),
    decreases k,
{
    if k > 0 {
        lemma_order_of_one(commits, selected, k - 1);
        if k == selected.len() {
            let before = order_of(commits, selected, k - 1);
            assert(before == Seq::<usize>::empty());
            assert(insert_at(commits, before, k - 1) == 0);
            assert(before.insert(0, (k - 1) as usize) == seq![(k - 1) as usize]);
        }
    }
}

/// A run of public commits is one row: the default drawing of a linear
/// history of any length, whose tip is not hidden, has two rows, the
/// elision marker and the row of the tip, whatever the log holds of the
/// commits below the tip.
pub proof fn lemma_linear_history_is_two_rows(
    repo: RepoView,
    marks: Map<CommitId, VisibilityMark>,
    edges: Map<CommitId, Option<CommitId>>,
    options: SmartlogOptions,
)
    requires
        repo.defect() is None,
        is_linear_history(repo),
        repo.commits.len() <= usize::MAX,
        !options.include_hidden,
        !(verdict(marks, edges, repo, repo.commits[repo.commits.len() - 1].id) is Hidden),
    ensures
        smartlog_lines(repo, graph_of(repo, marks, edges, options)) == seq![
            seq![':'],
            row(repo, graph_of(repo, marks, edges, options), repo.commits.len() - 1),
        ],
{
    let n = repo.commits.len() as int;
    let tip = n - 1;
    let graph = graph_of(repo, marks, edges, options);
    assert forall|j: int| 0 <= j < n implies graph.selected[j] == (j == tip) by {
        lemma_linear_selected(repo, marks, edges, options, j);
    }
    lemma_order_of_one(repo.commits, graph.selected, n);
    assert(graph.order == seq![tip as usize]);
    lemma_linear_is_main(repo, tip);
    // The tip is the one root, and it has no children.
    reveal_with_fuel(roots_among, 2);
    reveal_with_fuel(children_among, 2);
    assert(roots(repo, graph) == seq![tip as usize]);
    assert(children(repo, graph, tip) == Seq::<usize>::empty());
    let found = roots(repo, graph);
    assert(line_to_next(repo, found, 0) is None);
    assert(repo.commits[tip].parents.len() == 1);
    assert(lead_lines(repo, found, 0) == seq![seq![':']]);
    reveal_with_fuel(forest_lines, 2);
    assert(tree_lines(repo, graph, tip, None) == seq![row(repo, graph, tip)]);
    assert(forest_lines(repo, graph, found, 1) == seq![seq![':']] + seq![row(repo, graph, tip)]);
    assert(seq![seq![':']] + seq![row(repo, graph, tip)] == seq![seq![':'], row(repo, graph, tip)]);
}

/// The length of a run does not show: two linear histories with the same
/// tip, the same branch and the same current position are drawn alike by
/// default, however many commits each holds below its tip.
pub proof fn lemma_run_length_does_not_show(
    shorter: RepoView,
    longer: RepoView,
    marks: Map<CommitId, VisibilityMark>,
    edges: Map<CommitId, Option<CommitId>>,
    options: SmartlogOptions,
)
    requires
        shorter.defect() is None,
        longer.defect() is None,
        is_linear_history(shorter),
        is_linear_history(longer),
        shorter.commits.len() <= usize::MAX,
        longer.commits.len() <= usize::MAX,
        shorter.commits.last() == longer.commits.last(),
        shorter.branches == longer.branches,
        shorter.head == longer.head,
        shorter.main_branch == longer.main_branch,
        !options.include_hidden,
        !(verdict(marks, edges, shorter, shorter.commits.last().id) is Hidden),
        !(verdict(marks, edges, longer, longer.commits.last().id) is Hidden),
    ensures
        smartlog_lines(shorter, graph_of(shorter, marks, edges, options)) == smartlog_lines(
            longer,
            graph_of(longer, marks, edges, options),
        ),
{
    lemma_linear_history_is_two_rows(shorter, marks, edges, options);
    lemma_linear_history_is_two_rows(longer, marks, edges, options);
    let a = shorter.commits.len() - 1;
    let b = longer.commits.len() - 1;
    let graph_a = graph_of(shorter, marks, edges, options);
    let graph_b = graph_of(longer, marks, edges, options);
    let id = shorter.commits[a].id;
    assert(longer.commits[b].id == id);
    lemma_linear_is_main(shorter, a);
    lemma_linear_is_main(longer, b);
    lemma_commit_index(shorter.commits, a);
    lemma_commit_index(longer.commits, b);
    assert(shorter.head_index() == Some(a));
    assert(longer.head_index() == Some(b));
    assert(graph_a.nodes[a] == graph_b.nodes[b]);
    reveal_with_fuel(branch_labels, 2);
    assert(branches_marker(shorter, a) == branches_marker(longer, b));
    assert(row(shorter, graph_a, a) == row(longer, graph_b, b));
}

/// Whether the snapshot holds a fork and nothing else: a commit, a commit
/// made on top of it under a branch of its own, and a commit made on top
/// of it after that on the main branch, where the current position is.
/// `main_at` is the place of the main branch among the two branches.
pub open spec fn is_fork_history(repo: RepoView, main_at: int) -> bool {
    &&& repo.commits.len() == 3
    &&& repo.commits[1].parents == seq![repo.commits[0].id]
    &&& repo.commits[2].parents == seq![repo.commits[0].id]
    &&& comes_before(repo.commits, 0, 1)
    &&& comes_before(repo.commits, 1, 2)
    &&& repo.branches.len() == 2
    &&& 0 <= main_at <= 1
    &&& repo.branches[main_at].name == repo.main_branch
    &&& repo.branches[1 - main_at].name != repo.main_branch
    &&& repo.branches[main_at].target == repo.commits[2].id
    &&& repo.branches[1 - main_at].target == repo.commits[1].id
    &&& repo.head_commit() == Some(repo.commits[2].id)
}

/// In a fork, which commit is the parent of which, which belongs to the
/// main branch, and which is named.
proof fn lemma_fork_shape(repo: RepoView, main_at: int)
    requires
        repo.defect() is None,
        is_fork_history(repo, main_at),
    ensures
        forall|p: int, c: int|
            0 <= p < 3 && 0 <= c < 3 ==> (#[trigger] is_parent(repo.commits, p, c) <==> p == 0
                && c != 0),
        repo.main_tip() == 2,
        repo.is_main(0),
        !repo.is_main(1),
        repo.is_main(2),
        !repo.named(0),
        repo.named(1),
        repo.named(2),
        repo.head_index() == Some(2int),
{
    let commits = repo.commits;
    lemma_commit_index(commits, 0);
    lemma_commit_index(commits, 1);
    lemma_commit_index(commits, 2);
    assert forall|p: int, c: int| 0 <= p < 3 && 0 <= c < 3 implies (#[trigger] is_parent(
        commits,
        p,
        c,
    ) <==> p == 0 && c != 0) by {
        if c == 0 {
            if is_parent(commits, p, c) {
                assert(p < c);
            }
        } else {
            let parents = commits[c].parents;
            assert(parents == seq![commits[0].id]);
            if is_parent(commits, p, c) {
                let t = choose|t: int| 0 <= t < parents.len() && parents[t] == commits[p].id;
                assert(commits[p].id == commits[0].id);
            }
            if p == 0 {
                assert(parents[0] == commits[0].id);
            }
        }
    }
    repo.lemma_main_tip();
    lemma_branch_index(repo.branches, repo.main_branch);
    assert(branch_index(repo.branches, repo.main_branch) == main_at);
    assert(repo.main_tip() == 2);
    let tip = Seq::new(commits.len(), |i: int| i == repo.main_tip());
    assert(is_parent(commits, 0, 2));
    assert(carries(commits, repo.nowhere(), 0, 2));
    assert(repo.is_main(0));
    if repo.is_main(1) {
        let c = choose|c: int|
            1 < c < commits.len() && #[trigger] carries(commits, repo.nowhere(), 1, c) && marked(
                commits,
                tip,
                repo.nowhere(),
                c,
            );
        assert(is_parent(commits, 1, 2));
    }
    assert(repo.branches[1 - main_at].target == commits[1].id);
    assert(repo.named(1));
    if repo.named(0) {
        let b = choose|b: int|
            0 <= b < repo.branches.len() && (#[trigger] repo.branches[b]).target == commits[0].id;
        assert(b == main_at || b == 1 - main_at);
    }
}

/// A fork is drawn as a tree under the shared commit: the shared commit
/// first, as a visible commit and not as the current position; the commit
/// of the branch hanging off it; and below, joined by a bar, the commit of
/// the main branch, which alone has the glyph of the current position.
pub proof fn lemma_fork_is_drawn_as_a_tree(
    repo: RepoView,
    main_at: int,
    marks: Map<CommitId, VisibilityMark>,
    edges: Map<CommitId, Option<CommitId>>,
    options: SmartlogOptions,
)
    requires
        repo.defect() is None,
        is_fork_history(repo, main_at),
        options.horizon is None,
        forall|j: int|
            0 <= j < 3 ==> !(verdict(marks, edges, repo, (#[trigger] repo.commits[j]).id) is Hidden),
    ensures
        ({
            let graph = graph_of(repo, marks, edges, options);
            &&& smartlog_lines(repo, graph) == lead_lines(repo, seq![0usize, 2usize], 0) + seq![
                row(repo, graph, 0),
                seq!['|', '\\'],
                seq!['|', ' '] + row(repo, graph, 1),
                seq!['|'],
                row(repo, graph, 2),
            ]
            &&& glyph(graph.nodes[0]) == 'O'
            &&& glyph(graph.nodes[1]) == 'O'
            &&& glyph(graph.nodes[2]) == '@'
        }),
{
    let commits = repo.commits;
    let graph = graph_of(repo, marks, edges, options);
    lemma_fork_shape(repo, main_at);
    // All three commits are walked, and none is hidden.
    let seeds = seeds_of(repo, marks, edges, options);
    let stops = stops_of(repo, options);
    assert(seeds[1] && seeds[2]);
    assert(carries(commits, stops, 0, 1));
    assert(marked(commits, seeds, stops, 1));
    assert(marked(commits, seeds, stops, 0));
    assert(graph.selected == seq![true, true, true]);
    // The drawing order is that of the snapshot.
    reveal_with_fuel(order_of, 4);
    reveal_with_fuel(insert_at, 4);
    let one = seq![0usize];
    assert(Seq::<usize>::empty().insert(0, 0usize) == one);
    assert(one.drop_first() == Seq::<usize>::empty());
    assert(insert_at(commits, one, 1) == 1);
    let two = seq![0usize, 1usize];
    assert(one.insert(1, 1usize) == two);
    assert(two.drop_first() == seq![1usize]);
    assert(seq![1usize].drop_first() == Seq::<usize>::empty());
    assert(insert_at(commits, two, 2) == 2);
    let three = seq![0usize, 1usize, 2usize];
    assert(two.insert(2, 2usize) == three);
    assert(graph.order == three);
    // The roots are the two commits of the main branch; the commit of the
    // branch is the one child of the first.
    reveal_with_fuel(roots_among, 4);
    reveal_with_fuel(children_among, 4);
    assert(is_root(repo, graph, 0));
    assert(is_parent(commits, 0, 1));
    assert(!is_root(repo, graph, 1));
    assert(is_root(repo, graph, 2));
    let found = seq![0usize, 2usize];
    assert(roots(repo, graph) == found);
    assert(children(repo, graph, 0) == seq![1usize]);
    assert(children(repo, graph, 1) == Seq::<usize>::empty());
    assert(children(repo, graph, 2) == Seq::<usize>::empty());
    // The lines.
    assert(is_parent(commits, 0, 2));
    assert(line_to_next(repo, found, 0) == Some('|'));
    assert(line_to_next(repo, found, 1) is None);
    assert(lead_lines(repo, found, 1) == seq![seq!['|']]);
    assert(tree_lines(repo, graph, 1, None) == seq![row(repo, graph, 1)]);
    assert(tree_lines(repo, graph, 2, None) == seq![row(repo, graph, 2)]);
    let kids = seq![1usize];
    reveal_with_fuel(children_lines, 3);
    assert(prefixed(seq!['|', ' '], seq![row(repo, graph, 1)]) == seq![seq!['|', ' '] + row(
        repo,
        graph,
        1,
    )]);
    assert(connector(0, 1, Some('|')) == seq!['|', '\\']);
    assert(child_prefix(0, 1, Some('|')) == seq!['|', ' ']);
    assert(children_lines(repo, graph, 0, kids, 1, Some('|')) == Seq::<Seq<char>>::empty());
    assert(children_lines(repo, graph, 0, kids, 0, Some('|')) == seq![
        seq!['|', '\\'],
        seq!['|', ' '] + row(repo, graph, 1),
    ]);
    assert(tree_lines(repo, graph, 0, Some('|')) == seq![
        row(repo, graph, 0),
        seq!['|', '\\'],
        seq!['|', ' '] + row(repo, graph, 1),
    ]);
    reveal_with_fuel(forest_lines, 3);
    assert(forest_lines(repo, graph, found, 2) == lead_lines(repo, found, 0) + seq![
        row(repo, graph, 0),
        seq!['|', '\\'],
        seq!['|', ' '] + row(repo, graph, 1),
        seq!['|'],
        row(repo, graph, 2),
    ]);
}

/// What was found amiss while the drawing was prepared. The drawing is
/// made all the same.
#[derive(Clone, Copy, Debug, PartialEq, Eq, Structural)]
pub enum RenderError {
    /// The rewrites of `commit_id` run in a cycle; the commit was taken
    /// as its own latest version.
    RewriteCycle { commit_id: CommitId },
}

/// The findings on the first `k` commits of the snapshot: one for each
/// commit whose rewrites run in a cycle, in the order of the snapshot.
pub open spec fn findings(repo: RepoView, edges: Map<CommitId, Option<CommitId>>, k: int) -> Seq<
    RenderError,
>
    decreases k,
{
    if k <= 0 {
        Seq::empty()
    } else {
        let before = findings(repo, edges, k - 1);
        if walk(edges, repo.commits[k - 1].id, edges.dom().len()) is None {
            before.push(RenderError::RewriteCycle { commit_id: repo.commits[k - 1].id })
        } else {
            before
        }
    }
}

/// Looks for what is amiss in the rewrites of the commits of `repo`, for
/// the caller to report.
pub fn check_rewrites(repo: &RepoSnapshot, rewrites: &RewriteGraph) -> (found: Vec<RenderError>)
    requires
        rewrites.wf(),
    ensures
        found@ == findings(repo@, rewrites@, repo@.commits.len() as int),
{
    let n = repo.len();
    let mut found: Vec<RenderError> = Vec::new();
    let mut k: usize = 0;
    while k < n
        invariant
            k <= n,
            n == repo@.commits.len(),
            rewrites.wf(),
            found@ == findings(repo@, rewrites@, k as int),
        decreases n - k,
    {
        let id = repo.commit(k).id;
        if rewrites.runs_in_cycle(id) {
            found.push(RenderError::RewriteCycle { commit_id: id });
        }
        k += 1;
    }
    found
}

/// The view of history for a snapshot and the events of the log, given in
/// ascending order of event id: the rewrite graph and the marks are read
/// off the events, the commit graph is built, and drawn.
pub fn smartlog(repo: &RepoSnapshot, events: &Vec<Event>, options: SmartlogOptions) -> (text: String)
    requires
        repo.wf(),
    ensures
        text@ == smartlog_text(
            repo@,
            graph_of(
                repo@,
                visibility_map(event_views(events@)),
                rewrite_map(event_views(events@)),
                options,
            ),
        ),
{
    let rewrites = RewriteGraph::build(events);
    let records = VisibilityRecords::build(events);
    let graph = CommitGraph::build(repo, &records, &rewrites, options);
    render(repo, &graph)
}

} // verus!
