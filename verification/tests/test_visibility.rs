use branchless::commit_id::CommitId;
use branchless::event::Event;
use branchless::repo::{
    Branch, Commit, ConfigError, Head, RepoSnapshot, RepositoryError, SnapshotError,
};
use branchless::rewrite::RewriteGraph;
use branchless::smartlog::{check_rewrites, RenderError};
use branchless::visibility::{resolve_verdict, HiddenReason, Verdict, VisibilityRecords};

fn cid(short: u32) -> CommitId {
    CommitId(short, 0, 0, 0, 0)
}

fn make_commit(short: u32, parents: &[u32], time: i64) -> Commit {
    Commit {
        id: cid(short),
        parents: parents.iter().map(|p| cid(*p)).collect(),
        time,
        message: format!("commit {:x}\n", short),
    }
}

fn make_branch(name: &str, target: u32, is_remote: bool) -> Branch {
    Branch {
        name: name.to_string(),
        target: cid(target),
        is_remote,
    }
}

/// History: 1 <- 2 <- 3 (master), 2 <- 4 (topic), 1 <- 5, 5 <- 6; the
/// current position is 4.
fn sample() -> RepoSnapshot {
    let r = RepoSnapshot::new(
        vec![
            make_commit(1, &[], 1),
            make_commit(2, &[1], 2),
            make_commit(3, &[2], 3),
            make_commit(4, &[2], 4),
            make_commit(5, &[1], 5),
            make_commit(6, &[5], 6),
        ],
        vec![
            make_branch("master", 3, false),
            make_branch("topic", 4, false),
        ],
        Head::OnBranch {
            name: "topic".to_string(),
        },
        "master",
    );
    match r {
        Ok(repo) => repo,
        Err(e) => panic!("snapshot refused: {:?}", e),
    }
}

fn verdict_of(repo: &RepoSnapshot, events: &Vec<Event>, short: u32) -> Verdict {
    let records = VisibilityRecords::build(events);
    let rewrites = RewriteGraph::build(events);
    resolve_verdict(&records, &rewrites, repo, cid(short))
}

fn refused(
    commits: Vec<Commit>,
    branches: Vec<Branch>,
    head: Head,
    main_branch: &str,
) -> SnapshotError {
    match RepoSnapshot::new(commits, branches, head, main_branch) {
        Ok(_) => panic!("the snapshot should have been refused"),
        Err(e) => e,
    }
}

#[test]
fn snapshot_marks_main_public_and_reachable() {
    let repo = sample();
    assert_eq!(repo.len(), 6);
    // Positions 0, 1, 2 hold the commits 1, 2, 3: the main branch.
    assert!(repo.is_main(0) && repo.is_main(1) && repo.is_main(2));
    assert!(!repo.is_main(3) && !repo.is_main(4) && !repo.is_main(5));
    // Commit 2 is where `topic` leaves the main branch, and commit 3 is
    // the tip of the main branch: neither is public.
    assert!(repo.is_public(0));
    assert!(!repo.is_public(1));
    assert!(!repo.is_public(2));
    assert!(!repo.is_public(3));
    assert!(repo.is_anchored(1) && repo.is_anchored(2) && repo.is_anchored(3));
    assert!(!repo.is_anchored(0) && !repo.is_anchored(4));
    assert!(repo.is_reachable(0) && repo.is_reachable(3));
    assert!(!repo.is_reachable(4) && !repo.is_reachable(5));
    assert_eq!(repo.head_index(), Some(3));
    assert_eq!(repo.index_of(cid(5)), Some(4));
    assert_eq!(repo.index_of(cid(9)), None);
    assert!(repo.is_named(2) && repo.is_named(3) && !repo.is_named(1));
}

#[test]
fn verdict_visible_for_reachable_work() {
    let repo = sample();
    assert_eq!(verdict_of(&repo, &vec![], 4), Verdict::Visible);
    assert_eq!(verdict_of(&repo, &vec![], 2), Verdict::Visible);
}

#[test]
fn verdict_unreachable_without_branch_or_position() {
    let repo = sample();
    assert_eq!(
        verdict_of(&repo, &vec![], 6),
        Verdict::Hidden(HiddenReason::Unreachable)
    );
    // A commit that the snapshot does not hold is reached by nothing.
    assert_eq!(
        verdict_of(&repo, &vec![], 99),
        Verdict::Hidden(HiddenReason::Unreachable)
    );
}

#[test]
fn verdict_manually_hidden_stays_hidden_on_repeated_queries() {
    let repo = sample();
    let events = vec![Event::HideEvent { commit_id: cid(4), time: 1 }];
    for _ in 0..3 {
        assert_eq!(
            verdict_of(&repo, &events, 4),
            Verdict::Hidden(HiddenReason::ManuallyHidden)
        );
    }
    // Whatever the rewrites say, and whether or not anything reaches it.
    let events = vec![
        Event::HideEvent { commit_id: cid(4), time: 1 },
        Event::RewriteEvent { old_commit_id: cid(4), new_commit_id: Some(cid(3)), time: 2 },
        Event::HideEvent { commit_id: cid(6), time: 3 },
    ];
    assert_eq!(
        verdict_of(&repo, &events, 4),
        Verdict::Hidden(HiddenReason::ManuallyHidden)
    );
    assert_eq!(
        verdict_of(&repo, &events, 6),
        Verdict::Hidden(HiddenReason::ManuallyHidden)
    );
}

#[test]
fn verdict_hide_is_dominant_at_the_current_position() {
    // The hidden commit is reached from the current position only.
    let r = RepoSnapshot::new(
        vec![make_commit(1, &[], 1), make_commit(2, &[1], 2)],
        vec![make_branch("master", 1, false)],
        Head::Detached { commit_id: cid(2) },
        "master",
    );
    let repo = match r {
        Ok(repo) => repo,
        Err(e) => panic!("snapshot refused: {:?}", e),
    };
    let events = vec![Event::HideEvent { commit_id: cid(2), time: 1 }];
    assert_eq!(
        verdict_of(&repo, &events, 2),
        Verdict::Hidden(HiddenReason::ManuallyHidden)
    );
}

#[test]
fn verdict_unhide_takes_the_hide_back() {
    let repo = sample();
    let events = vec![
        Event::HideEvent { commit_id: cid(4), time: 1 },
        Event::UnhideEvent { commit_id: cid(4), time: 2 },
    ];
    assert_eq!(verdict_of(&repo, &events, 4), Verdict::Visible);
}

#[test]
fn verdict_public_commit_is_hidden_as_public_whatever_the_log_says() {
    let repo = sample();
    assert_eq!(
        verdict_of(&repo, &vec![], 1),
        Verdict::Hidden(HiddenReason::Public)
    );
    let events = vec![Event::HideEvent { commit_id: cid(1), time: 1 }];
    assert_eq!(
        verdict_of(&repo, &events, 1),
        Verdict::Hidden(HiddenReason::Public)
    );
    let events = vec![Event::UnhideEvent { commit_id: cid(1), time: 1 }];
    assert_eq!(
        verdict_of(&repo, &events, 1),
        Verdict::Hidden(HiddenReason::Public)
    );
    // The rule on rewrites is not asked about a public commit.
    let events = vec![Event::RewriteEvent {
        old_commit_id: cid(1),
        new_commit_id: Some(cid(4)),
        time: 1,
    }];
    assert_eq!(
        verdict_of(&repo, &events, 1),
        Verdict::Hidden(HiddenReason::Public)
    );
    // Commit 2 belongs to the main branch but `topic` hangs off it, and
    // commit 3 is the tip of the main branch: a hide counts.
    let events = vec![
        Event::HideEvent { commit_id: cid(2), time: 1 },
        Event::HideEvent { commit_id: cid(3), time: 2 },
    ];
    assert_eq!(
        verdict_of(&repo, &events, 2),
        Verdict::Hidden(HiddenReason::ManuallyHidden)
    );
    assert_eq!(
        verdict_of(&repo, &events, 3),
        Verdict::Hidden(HiddenReason::ManuallyHidden)
    );
}

#[test]
fn verdict_superseded_when_the_successor_is_visible() {
    let repo = sample();
    let events = vec![Event::RewriteEvent {
        old_commit_id: cid(6),
        new_commit_id: Some(cid(4)),
        time: 1,
    }];
    assert_eq!(
        verdict_of(&repo, &events, 6),
        Verdict::Hidden(HiddenReason::SupersededByRewrite { successor: cid(4) })
    );
    // Through a chain, the successor is the latest version.
    let events = vec![
        Event::RewriteEvent { old_commit_id: cid(5), new_commit_id: Some(cid(6)), time: 1 },
        Event::RewriteEvent { old_commit_id: cid(6), new_commit_id: Some(cid(4)), time: 2 },
    ];
    assert_eq!(
        verdict_of(&repo, &events, 5),
        Verdict::Hidden(HiddenReason::SupersededByRewrite { successor: cid(4) })
    );
}

#[test]
fn verdict_not_superseded_when_the_successor_is_hidden() {
    let repo = sample();
    // 4 was rewritten as 6, which nothing reaches: 4 stays visible.
    let events = vec![Event::RewriteEvent {
        old_commit_id: cid(4),
        new_commit_id: Some(cid(6)),
        time: 1,
    }];
    assert_eq!(verdict_of(&repo, &events, 4), Verdict::Visible);
    // 6 was rewritten as 4, which the user hid: 6 is merely unreachable.
    let events = vec![
        Event::RewriteEvent { old_commit_id: cid(6), new_commit_id: Some(cid(4)), time: 1 },
        Event::HideEvent { commit_id: cid(4), time: 2 },
    ];
    assert_eq!(
        verdict_of(&repo, &events, 6),
        Verdict::Hidden(HiddenReason::Unreachable)
    );
}

#[test]
fn snapshot_refuses_duplicate_commits() {
    assert_eq!(
        refused(
            vec![make_commit(1, &[], 1), make_commit(1, &[], 2)],
            vec![make_branch("master", 1, false)],
            Head::OnBranch { name: "master".to_string() },
            "master",
        ),
        SnapshotError::Repository(RepositoryError::DuplicateCommit)
    );
}

#[test]
fn snapshot_refuses_a_child_before_its_parent() {
    assert_eq!(
        refused(
            vec![make_commit(2, &[1], 2), make_commit(1, &[], 1)],
            vec![make_branch("master", 2, false)],
            Head::OnBranch { name: "master".to_string() },
            "master",
        ),
        SnapshotError::Repository(RepositoryError::ParentAfterChild)
    );
    // A commit that is its own parent.
    assert_eq!(
        refused(
            vec![make_commit(1, &[1], 1)],
            vec![make_branch("master", 1, false)],
            Head::OnBranch { name: "master".to_string() },
            "master",
        ),
        SnapshotError::Repository(RepositoryError::ParentAfterChild)
    );
}

#[test]
fn snapshot_refuses_references_to_missing_commits() {
    assert_eq!(
        refused(
            vec![make_commit(1, &[], 1)],
            vec![make_branch("master", 1, false), make_branch("gone", 7, false)],
            Head::OnBranch { name: "master".to_string() },
            "master",
        ),
        SnapshotError::Repository(RepositoryError::MissingCommit)
    );
    assert_eq!(
        refused(
            vec![make_commit(1, &[], 1)],
            vec![make_branch("master", 1, false)],
            Head::Detached { commit_id: cid(7) },
            "master",
        ),
        SnapshotError::Repository(RepositoryError::MissingCommit)
    );
}

#[test]
fn snapshot_refuses_two_branches_of_one_kind_and_name() {
    let r = refused(
        vec![make_commit(1, &[], 1)],
        vec![
            make_branch("master", 1, false),
            make_branch("topic", 1, false),
            make_branch("master", 1, false),
        ],
        Head::OnBranch { name: "master".to_string() },
        "master",
    );
    assert_eq!(r, SnapshotError::Repository(RepositoryError::DuplicateBranch));
}

#[test]
fn snapshot_puts_the_branches_in_order() {
    let r = RepoSnapshot::new(
        vec![make_commit(1, &[], 1)],
        vec![
            make_branch("origin/master", 1, true),
            make_branch("master", 1, false),
            make_branch("alpha", 1, true),
            make_branch("mast", 1, false),
            make_branch("master", 1, true),
            make_branch("Zulu", 1, false),
        ],
        Head::OnBranch { name: "master".to_string() },
        "master",
    );
    let repo = match r {
        Ok(repo) => repo,
        Err(e) => panic!("snapshot refused: {:?}", e),
    };
    let listed: Vec<(bool, &str)> = repo
        .branches()
        .iter()
        .map(|b| (b.is_remote, b.name.as_str()))
        .collect();
    assert_eq!(
        listed,
        vec![
            (false, "Zulu"),
            (false, "mast"),
            (false, "master"),
            (true, "alpha"),
            (true, "master"),
            (true, "origin/master"),
        ]
    );
}

#[test]
fn snapshot_refuses_an_unknown_main_branch() {
    assert_eq!(
        refused(
            vec![make_commit(1, &[], 1)],
            vec![make_branch("master", 1, false)],
            Head::OnBranch { name: "master".to_string() },
            "main",
        ),
        SnapshotError::Config(ConfigError::UnknownMainBranch)
    );
    // The first defect in the order of the checks is the one reported.
    assert_eq!(
        refused(
            vec![make_commit(1, &[], 1), make_commit(1, &[], 1)],
            vec![],
            Head::Detached { commit_id: cid(7) },
            "main",
        ),
        SnapshotError::Repository(RepositoryError::DuplicateCommit)
    );
}

#[test]
fn snapshot_accepts_parents_outside_the_window_and_an_unborn_branch() {
    let r = RepoSnapshot::new(
        vec![make_commit(2, &[1], 2)],
        vec![make_branch("master", 2, false)],
        Head::OnBranch { name: "unborn".to_string() },
        "master",
    );
    match r {
        Ok(repo) => {
            assert_eq!(repo.head_index(), None);
            assert!(repo.is_main(0));
        }
        Err(e) => panic!("snapshot refused: {:?}", e),
    }
}

#[test]
fn rewrites_that_run_in_a_cycle_are_found() {
    let repo = sample();
    let sound = RewriteGraph::build(&vec![Event::RewriteEvent {
        old_commit_id: cid(5),
        new_commit_id: Some(cid(6)),
        time: 1,
    }]);
    assert_eq!(check_rewrites(&repo, &sound), vec![]);
    let cyclic = RewriteGraph::build(&vec![
        Event::RewriteEvent { old_commit_id: cid(5), new_commit_id: Some(cid(6)), time: 1 },
        Event::RewriteEvent { old_commit_id: cid(6), new_commit_id: Some(cid(5)), time: 2 },
    ]);
    assert_eq!(
        check_rewrites(&repo, &cyclic),
        vec![
            RenderError::RewriteCycle { commit_id: cid(5) },
            RenderError::RewriteCycle { commit_id: cid(6) },
        ]
    );
    // The verdicts are reached all the same: each commit is its own
    // latest version.
    let events = vec![
        Event::RewriteEvent { old_commit_id: cid(5), new_commit_id: Some(cid(6)), time: 1 },
        Event::RewriteEvent { old_commit_id: cid(6), new_commit_id: Some(cid(5)), time: 2 },
    ];
    assert_eq!(
        verdict_of(&repo, &events, 5),
        Verdict::Hidden(HiddenReason::Unreachable)
    );
}
