use branchless::commit_id::CommitId;
use branchless::event::Event;
use branchless::graph::SmartlogOptions;
use branchless::repo::{Branch, Commit, Head, RepoSnapshot};
use branchless::smartlog::smartlog;

fn id(short: u32) -> CommitId {
    CommitId(short, 0, 0, 0, 0)
}

fn commit(short: u32, parents: &[u32], time: i64, message: &str) -> Commit {
    Commit {
        id: id(short),
        parents: parents.iter().map(|p| id(*p)).collect(),
        time,
        message: message.to_string(),
    }
}

fn local(name: &str, target: u32) -> Branch {
    Branch {
        name: name.to_string(),
        target: id(target),
        is_remote: false,
    }
}

fn remote(name: &str, target: u32) -> Branch {
    Branch {
        name: name.to_string(),
        target: id(target),
        is_remote: true,
    }
}

fn on_branch(name: &str) -> Head {
    Head::OnBranch {
        name: name.to_string(),
    }
}

fn detached(short: u32) -> Head {
    Head::Detached {
        commit_id: id(short),
    }
}

fn created(short: u32, time: i64) -> Event {
    Event::CommitCreated {
        commit_id: id(short),
        time,
    }
}

fn rewritten(old: u32, new: u32, time: i64) -> Event {
    Event::RewriteEvent {
        old_commit_id: id(old),
        new_commit_id: Some(id(new)),
        time,
    }
}

fn hidden(short: u32, time: i64) -> Event {
    Event::HideEvent {
        commit_id: id(short),
        time,
    }
}

fn unhidden(short: u32, time: i64) -> Event {
    Event::UnhideEvent {
        commit_id: id(short),
        time,
    }
}

const DEFAULT: SmartlogOptions = SmartlogOptions {
    include_hidden: false,
    only_branches: false,
    horizon: None,
};

const HIDDEN: SmartlogOptions = SmartlogOptions {
    include_hidden: true,
    only_branches: false,
    horizon: None,
};

const ONLY_BRANCHES: SmartlogOptions = SmartlogOptions {
    include_hidden: false,
    only_branches: true,
    horizon: None,
};

fn draw(
    commits: Vec<Commit>,
    branches: Vec<Branch>,
    head: Head,
    main_branch: &str,
    events: Vec<Event>,
    options: SmartlogOptions,
) -> String {
    let repo = match RepoSnapshot::new(commits, branches, head, main_branch) {
        Ok(repo) => repo,
        Err(e) => panic!("snapshot refused: {:?}", e),
    };
    smartlog(&repo, &events, options)
}

const INITIAL: u32 = 0xf777ecc9;

fn initial() -> Commit {
    commit(INITIAL, &[], 0, "create initial.txt\n")
}

#[test]
fn test_init_smartlog() {
    let stdout = draw(
        vec![initial()],
        vec![local("master", INITIAL)],
        on_branch("master"),
        "master",
        vec![created(INITIAL, 0)],
        DEFAULT,
    );
    assert_eq!(stdout, "@ f777ecc9 (> master) create initial.txt\n");
}

#[test]
fn test_show_reachable_commit() {
    let stdout = draw(
        vec![
            initial(),
            commit(0x3df4b935, &[INITIAL], 1, "create test.txt\n"),
        ],
        vec![
            local("initial-branch", 0x3df4b935),
            local("master", INITIAL),
        ],
        on_branch("initial-branch"),
        "master",
        vec![created(INITIAL, 0), created(0x3df4b935, 1)],
        DEFAULT,
    );
    assert_eq!(
        stdout,
        "\
O f777ecc9 (master) create initial.txt
|
@ 3df4b935 (> initial-branch) create test.txt
"
    );
}

#[test]
fn test_rebase() {
    // The commit of test2 was made on top of the initial commit and then
    // rebased onto test1: 0x047b7ad7 stands for what it was before.
    let stdout = draw(
        vec![
            initial(),
            commit(0x62fc20d2, &[INITIAL], 1, "create test1.txt\n"),
            commit(0x047b7ad7, &[INITIAL], 2, "create test2.txt\n"),
            commit(0xf8d9985b, &[0x62fc20d2], 2, "create test2.txt\n"),
        ],
        vec![local("master", INITIAL), local("test1", 0x62fc20d2)],
        detached(0xf8d9985b),
        "master",
        vec![
            created(INITIAL, 0),
            created(0x62fc20d2, 1),
            created(0x047b7ad7, 2),
            rewritten(0x047b7ad7, 0xf8d9985b, 3),
        ],
        DEFAULT,
    );
    assert_eq!(
        stdout,
        "\
O f777ecc9 (master) create initial.txt
|
O 62fc20d2 (test1) create test1.txt
|
@ f8d9985b create test2.txt
"
    );
}

#[test]
fn test_sequential_master_commits() {
    let stdout = draw(
        vec![
            initial(),
            commit(0x62fc20d2, &[INITIAL], 1, "create test1.txt\n"),
            commit(0x96d1c37a, &[0x62fc20d2], 2, "create test2.txt\n"),
            commit(0x70deb1e2, &[0x96d1c37a], 3, "create test3.txt\n"),
        ],
        vec![local("master", 0x70deb1e2)],
        on_branch("master"),
        "master",
        vec![
            created(INITIAL, 0),
            created(0x62fc20d2, 1),
            created(0x96d1c37a, 2),
            created(0x70deb1e2, 3),
        ],
        DEFAULT,
    );
    assert_eq!(
        stdout,
        "\
:
@ 70deb1e2 (> master) create test3.txt
"
    );
}

#[test]
fn test_merge_commit() {
    let stdout = draw(
        vec![
            initial(),
            commit(0x62fc20d2, &[INITIAL], 1, "create test1.txt\n"),
            commit(0xfe65c1fe, &[INITIAL], 2, "create test2.txt\n"),
            commit(0x02067177, &[0xfe65c1fe], 3, "create test3.txt\n"),
            commit(
                0xfa4e4e1a,
                &[0x02067177, 0x62fc20d2],
                4,
                "Merge branch 'test1' into test2and3\n",
            ),
        ],
        vec![
            local("master", INITIAL),
            local("test1", 0x62fc20d2),
            local("test2and3", 0xfa4e4e1a),
        ],
        on_branch("test2and3"),
        "master",
        vec![
            created(INITIAL, 0),
            created(0x62fc20d2, 1),
            created(0xfe65c1fe, 2),
            created(0x02067177, 3),
            created(0xfa4e4e1a, 4),
        ],
        DEFAULT,
    );
    assert_eq!(
        stdout,
        "\
O f777ecc9 (master) create initial.txt
|\\
| O 62fc20d2 (test1) create test1.txt
| |
| @ fa4e4e1a (> test2and3) Merge branch 'test1' into test2and3
|
O fe65c1fe create test2.txt
|
O 02067177 create test3.txt
|
@ fa4e4e1a (> test2and3) Merge branch 'test1' into test2and3
"
    );
}

#[test]
fn test_rebase_conflict() {
    // 0x0c5a8e3b stands for the commit of branch2 before it was rebased.
    let stdout = draw(
        vec![
            initial(),
            commit(0x88646b56, &[INITIAL], 1, "create test.txt\n"),
            commit(0x0c5a8e3b, &[INITIAL], 2, "create test.txt\n"),
            commit(0x4549af33, &[0x88646b56], 2, "create test.txt\n"),
        ],
        vec![
            local("branch1", 0x88646b56),
            local("branch2", 0x4549af33),
            local("master", INITIAL),
        ],
        on_branch("branch2"),
        "master",
        vec![
            created(INITIAL, 0),
            created(0x88646b56, 1),
            created(0x0c5a8e3b, 2),
            rewritten(0x0c5a8e3b, 0x4549af33, 3),
        ],
        DEFAULT,
    );
    assert_eq!(
        stdout,
        "\
O f777ecc9 (master) create initial.txt
|
O 88646b56 (branch1) create test.txt
|
@ 4549af33 (> branch2) create test.txt
"
    );
}

#[test]
fn test_custom_main_branch() {
    let stdout = draw(
        vec![
            initial(),
            commit(0x62fc20d2, &[INITIAL], 1, "create test1.txt\n"),
            commit(0x96d1c37a, &[0x62fc20d2], 2, "create test2.txt\n"),
        ],
        vec![local("main", 0x62fc20d2)],
        detached(0x96d1c37a),
        "main",
        vec![
            created(INITIAL, 0),
            created(0x62fc20d2, 1),
            created(0x96d1c37a, 2),
        ],
        DEFAULT,
    );
    assert_eq!(
        stdout,
        "\
:
O 62fc20d2 (main) create test1.txt
|
@ 96d1c37a create test2.txt
"
    );
}

#[test]
fn test_main_remote_branch() {
    {
        let stdout = draw(
            vec![
                initial(),
                commit(0x62fc20d2, &[INITIAL], 1, "create test1.txt\n"),
            ],
            vec![remote("origin/master", 0x62fc20d2)],
            detached(0x62fc20d2),
            "origin/master",
            vec![],
            DEFAULT,
        );
        assert_eq!(
            stdout,
            "\
:
@ 62fc20d2 (remote origin/master) create test1.txt
"
        );
    }

    {
        let stdout = draw(
            vec![
                initial(),
                commit(0x62fc20d2, &[INITIAL], 1, "create test1.txt\n"),
                commit(0x96d1c37a, &[0x62fc20d2], 2, "create test2.txt\n"),
            ],
            vec![remote("origin/master", 0x96d1c37a)],
            detached(0x62fc20d2),
            "origin/master",
            vec![],
            DEFAULT,
        );
        assert_eq!(
            stdout,
            "\
:
@ 62fc20d2 create test1.txt
|
O 96d1c37a (remote origin/master) create test2.txt
"
        );
    }
}

#[test]
fn test_show_rewritten_commit_hash() {
    // 0x1a2b3c4d stands for the commit that the first amend made and the
    // second amend replaced.
    let stdout = draw(
        vec![
            initial(),
            commit(0x1a2b3c4d, &[INITIAL], 0, "test1 version 1\n"),
            commit(0x2ebe0950, &[INITIAL], 0, "test1 version 2\n"),
            commit(0x62fc20d2, &[INITIAL], 1, "create test1.txt\n"),
            commit(0x96d1c37a, &[0x62fc20d2], 2, "create test2.txt\n"),
        ],
        vec![local("master", 0x96d1c37a)],
        detached(0x2ebe0950),
        "master",
        vec![
            created(INITIAL, 0),
            created(0x62fc20d2, 1),
            created(0x96d1c37a, 2),
            rewritten(0x62fc20d2, 0x1a2b3c4d, 3),
            rewritten(0x1a2b3c4d, 0x2ebe0950, 4),
        ],
        DEFAULT,
    );
    assert_eq!(
        stdout,
        "\
O f777ecc9 create initial.txt
|\\
: @ 2ebe0950 test1 version 2
:
O 96d1c37a (master) create test2.txt
"
    );
}

#[test]
fn test_smartlog_orphaned_root() {
    let stdout = draw(
        vec![
            initial(),
            commit(0x62fc20d2, &[INITIAL], 1, "create test1.txt\n"),
        ],
        vec![local("master", 0x62fc20d2)],
        on_branch("new-root"),
        "master",
        vec![created(INITIAL, 0), created(0x62fc20d2, 1)],
        DEFAULT,
    );
    assert_eq!(
        stdout,
        "\
:
O 62fc20d2 (master) create test1.txt
"
    );
}

#[test]
fn test_show_hidden_commits() {
    let stdout = draw(
        vec![
            initial(),
            commit(0x62fc20d2, &[INITIAL], 1, "create test1.txt\n"),
            commit(0xcb8137ad, &[0x62fc20d2], 0, "amended test2\n"),
            commit(0x96d1c37a, &[0x62fc20d2], 2, "create test2.txt\n"),
        ],
        vec![local("master", 0x62fc20d2)],
        detached(0x62fc20d2),
        "master",
        vec![
            created(INITIAL, 0),
            created(0x62fc20d2, 1),
            created(0x96d1c37a, 2),
            rewritten(0x96d1c37a, 0xcb8137ad, 3),
            hidden(0xcb8137ad, 4),
        ],
        HIDDEN,
    );
    assert_eq!(
        stdout,
        "\
:
@ 62fc20d2 (master) create test1.txt
|\\
| x cb8137ad (manually hidden) amended test2
|
x 96d1c37a (rewritten as cb8137ad) create test2.txt
"
    );
}

#[test]
fn test_active_non_head_main_branch_commit() {
    let history = || {
        vec![
            initial(),
            commit(0x62fc20d2, &[INITIAL], 1, "create test1.txt\n"),
            commit(0x96d1c37a, &[0x62fc20d2], 2, "create test2.txt\n"),
            commit(0x70deb1e2, &[0x96d1c37a], 3, "create test3.txt\n"),
        ]
    };

    {
        // The commit of test1 is not shown just because it was taken out
        // of hiding: it is public.
        let stdout = draw(
            history(),
            vec![
                local("master", 0x70deb1e2),
                remote("origin/master", 0x70deb1e2),
            ],
            on_branch("master"),
            "master",
            vec![unhidden(0x62fc20d2, 4)],
            DEFAULT,
        );
        assert_eq!(
            stdout,
            "\
:
@ 70deb1e2 (> master, remote origin/master) create test3.txt
"
        );
    }

    {
        let mut commits = history();
        commits.push(commit(0x355e173b, &[0x70deb1e2], 4, "create test4.txt\n"));
        let stdout = draw(
            commits,
            vec![
                local("master", 0x355e173b),
                remote("origin/master", 0x70deb1e2),
            ],
            on_branch("master"),
            "master",
            vec![unhidden(0x62fc20d2, 4), created(0x355e173b, 5)],
            DEFAULT,
        );
        assert_eq!(
            stdout,
            "\
:
O 70deb1e2 (remote origin/master) create test3.txt
|
@ 355e173b (> master) create test4.txt
"
        );
    }
}

#[test]
fn scenario_fresh_repository() {
    let stdout = draw(
        vec![commit(0xaaaaaaaa, &[], 0, "A\n")],
        vec![local("main", 0xaaaaaaaa)],
        on_branch("main"),
        "main",
        vec![],
        DEFAULT,
    );
    assert_eq!(stdout, "@ aaaaaaaa (> main) A\n");
}

#[test]
fn scenario_fork_under_the_shared_ancestor() {
    let stdout = draw(
        vec![
            commit(0xaaaaaaaa, &[], 0, "A\n"),
            commit(0xbbbbbbbb, &[0xaaaaaaaa], 1, "B\n"),
            commit(0xcccccccc, &[0xaaaaaaaa], 2, "C\n"),
        ],
        vec![local("feature", 0xbbbbbbbb), local("main", 0xcccccccc)],
        on_branch("main"),
        "main",
        vec![],
        DEFAULT,
    );
    assert_eq!(
        stdout,
        "\
O aaaaaaaa A
|\\
| O bbbbbbbb (feature) B
|
@ cccccccc (> main) C
"
    );
}

#[test]
fn scenario_amend_shows_the_new_commit_and_with_hidden_the_old() {
    let commits = || {
        vec![
            commit(0xaaaaaaaa, &[], 0, "A\n"),
            commit(0xdddddddd, &[0xaaaaaaaa], 1, "X\n"),
            commit(0xeeeeeeee, &[0xaaaaaaaa], 2, "X amended\n"),
        ]
    };
    let branches = || vec![local("main", 0xaaaaaaaa), local("work", 0xeeeeeeee)];
    let events = || vec![created(0xdddddddd, 1), rewritten(0xdddddddd, 0xeeeeeeee, 2)];
    assert_eq!(
        draw(commits(), branches(), on_branch("work"), "main", events(), DEFAULT),
        "\
O aaaaaaaa (main) A
|
@ eeeeeeee (> work) X amended
"
    );
    assert_eq!(
        draw(commits(), branches(), on_branch("work"), "main", events(), HIDDEN),
        "\
O aaaaaaaa (main) A
|\\
| x dddddddd (rewritten as eeeeeeee) X
|
@ eeeeeeee (> work) X amended
"
    );
}

#[test]
fn scenario_hidden_commit_is_omitted_and_with_hidden_marked() {
    let commits = || {
        vec![
            commit(0xaaaaaaaa, &[], 0, "A\n"),
            commit(0x44444444, &[0xaaaaaaaa], 1, "H\n"),
        ]
    };
    let events = || vec![created(0x44444444, 1), hidden(0x44444444, 2)];
    assert_eq!(
        draw(
            commits(),
            vec![local("main", 0xaaaaaaaa)],
            on_branch("main"),
            "main",
            events(),
            DEFAULT
        ),
        "@ aaaaaaaa (> main) A\n"
    );
    assert_eq!(
        draw(
            commits(),
            vec![local("main", 0xaaaaaaaa)],
            on_branch("main"),
            "main",
            events(),
            HIDDEN
        ),
        "\
@ aaaaaaaa (> main) A
|
x 44444444 (manually hidden) H
"
    );
}

#[test]
fn hidden_commit_at_the_current_position_is_shown_on_request_only() {
    // A hide weighs more than the current position.
    let commits = || {
        vec![
            commit(0xaaaaaaaa, &[], 0, "A\n"),
            commit(0x44444444, &[0xaaaaaaaa], 1, "H\n"),
        ]
    };
    assert_eq!(
        draw(
            commits(),
            vec![local("main", 0xaaaaaaaa)],
            detached(0x44444444),
            "main",
            vec![hidden(0x44444444, 2)],
            DEFAULT,
        ),
        "O aaaaaaaa (main) A\n"
    );
    assert_eq!(
        draw(
            commits(),
            vec![local("main", 0xaaaaaaaa)],
            detached(0x44444444),
            "main",
            vec![hidden(0x44444444, 2)],
            HIDDEN,
        ),
        "\
O aaaaaaaa (main) A
|
@ 44444444 (manually hidden) H
"
    );
}

/// A main branch of `run + 2` commits with a branch off the first one.
fn with_run(run: u32) -> String {
    let mut commits = vec![
        commit(0x10000000, &[], 0, "first\n"),
        commit(0xfeedf00d, &[0x10000000], 1, "side\n"),
    ];
    let mut parent = 0x10000000;
    for k in 0..run {
        commits.push(commit(0x20000000 + k, &[parent], 10 + k as i64, "plain\n"));
        parent = 0x20000000 + k;
    }
    commits.push(commit(0x30000000, &[parent], 1000, "tip\n"));
    draw(
        commits,
        vec![local("main", 0x30000000), local("side", 0xfeedf00d)],
        on_branch("main"),
        "main",
        vec![],
        DEFAULT,
    )
}

#[test]
fn run_of_plain_public_commits_is_one_elision_row() {
    let elided = "\
O 10000000 first
|\\
: O feedf00d (side) side
:
@ 30000000 (> main) tip
";
    assert_eq!(with_run(1), elided);
    assert_eq!(with_run(2), elided);
    assert_eq!(with_run(5), elided);
    assert_eq!(with_run(40), elided);
    // Without a run the two rows of the main branch are joined by a bar.
    assert_eq!(
        with_run(0),
        "\
O 10000000 first
|\\
| O feedf00d (side) side
|
@ 30000000 (> main) tip
"
    );
}

#[test]
fn unhidden_public_commit_appears_with_hidden_commits_only() {
    let commits = || {
        vec![
            commit(0x10000000, &[], 0, "first\n"),
            commit(0x20000000, &[0x10000000], 1, "second\n"),
            commit(0x30000000, &[0x20000000], 2, "tip\n"),
        ]
    };
    let events = || vec![unhidden(0x20000000, 5)];
    assert_eq!(
        draw(commits(), vec![local("main", 0x30000000)], on_branch("main"), "main", events(), DEFAULT),
        "\
:
@ 30000000 (> main) tip
"
    );
    assert_eq!(
        draw(commits(), vec![local("main", 0x30000000)], on_branch("main"), "main", events(), HIDDEN),
        "\
:
x 20000000 (public) second
|
@ 30000000 (> main) tip
"
    );
    // With only the branches asked for, the log adds no starting points.
    assert_eq!(
        draw(
            commits(),
            vec![local("main", 0x30000000)],
            on_branch("main"),
            "main",
            events(),
            SmartlogOptions { include_hidden: true, only_branches: true, horizon: None }
        ),
        "\
:
@ 30000000 (> main) tip
"
    );
}

#[test]
fn siblings_are_drawn_by_time_and_then_by_identity() {
    let stdout = draw(
        vec![
            commit(0xaaaaaaaa, &[], 0, "A\n"),
            commit(0x99999999, &[0xaaaaaaaa], 7, "late\n"),
            commit(0x55555555, &[0xaaaaaaaa], 3, "same time, larger id\n"),
            commit(0x11111111, &[0xaaaaaaaa], 3, "same time, smaller id\n"),
        ],
        vec![
            local("late", 0x99999999),
            local("main", 0xaaaaaaaa),
            local("one", 0x11111111),
            local("two", 0x55555555),
        ],
        on_branch("main"),
        "main",
        vec![],
        DEFAULT,
    );
    assert_eq!(
        stdout,
        "\
@ aaaaaaaa (> main) A
|\\
| O 11111111 (one) same time, smaller id
|\\
| O 55555555 (two) same time, larger id
|
O 99999999 (late) late
"
    );
}

#[test]
fn test_tree() {
    // The commit of test1 was made without a branch: neither the current
    // position nor a branch reaches it, and it is hidden as unreachable.
    let stdout = draw(
        vec![
            initial(),
            commit(0x62fc20d2, &[INITIAL], 1, "create test1.txt\n"),
            commit(0xfe65c1fe, &[INITIAL], 2, "create test2.txt\n"),
        ],
        vec![local("initial", 0xfe65c1fe), local("master", INITIAL)],
        on_branch("initial"),
        "master",
        vec![created(INITIAL, 0), created(0x62fc20d2, 1), created(0xfe65c1fe, 2)],
        DEFAULT,
    );
    assert_eq!(
        stdout,
        "\
O f777ecc9 (master) create initial.txt
|
@ fe65c1fe (> initial) create test2.txt
"
    );
}

#[test]
fn separate_roots_are_parted_by_the_elision_marker() {
    let stdout = draw(
        vec![
            commit(0xaaaaaaaa, &[], 0, "A\n"),
            commit(0xbbbbbbbb, &[], 1, "B\n"),
        ],
        vec![local("main", 0xaaaaaaaa), local("other", 0xbbbbbbbb)],
        on_branch("main"),
        "main",
        vec![],
        DEFAULT,
    );
    assert_eq!(stdout, "@ aaaaaaaa (> main) A\n:\nO bbbbbbbb (other) B\n");
}

#[test]
fn summary_is_the_first_line_of_the_message() {
    let stdout = draw(
        vec![commit(0xaaaaaaaa, &[], 0, "subject\n\nbody line\n")],
        vec![local("main", 0xaaaaaaaa)],
        on_branch("main"),
        "main",
        vec![],
        DEFAULT,
    );
    assert_eq!(stdout, "@ aaaaaaaa (> main) subject\n");
    let stdout = draw(
        vec![commit(0xaaaaaaaa, &[], 0, "no line feed")],
        vec![local("main", 0xaaaaaaaa)],
        on_branch("main"),
        "main",
        vec![],
        DEFAULT,
    );
    assert_eq!(stdout, "@ aaaaaaaa (> main) no line feed\n");
}

#[test]
fn branches_leave_the_main_branch_at_several_points() {
    let commits = || {
        vec![
            initial(),
            commit(0x62fc20d2, &[INITIAL], 1, "create test1.txt\n"),
            commit(0x96d1c37a, &[0x62fc20d2], 2, "create test2.txt\n"),
            commit(0x4838e49b, &[0x62fc20d2], 3, "create test3.txt\n"),
            commit(0xa2482074, &[0x4838e49b], 4, "create test4.txt\n"),
            commit(0x8577a964, &[0x4838e49b], 5, "create test5.txt\n"),
            commit(0x500c9b3e, &[0x8577a964], 6, "create test6.txt\n"),
        ]
    };
    let branches = || {
        vec![
            local("branch-2", 0x96d1c37a),
            local("branch-4", 0xa2482074),
            local("master", 0x500c9b3e),
        ]
    };
    // The tip of `branch-4` is hidden: by default it is not drawn.
    assert_eq!(
        draw(
            commits(),
            branches(),
            on_branch("master"),
            "master",
            vec![hidden(0xa2482074, 7)],
            DEFAULT,
        ),
        "\
:
O 62fc20d2 create test1.txt
|\\
| O 96d1c37a (branch-2) create test2.txt
|
O 4838e49b create test3.txt
:
@ 500c9b3e (> master) create test6.txt
"
    );
    assert_eq!(
        draw(
            commits(),
            branches(),
            on_branch("master"),
            "master",
            vec![hidden(0xa2482074, 7)],
            HIDDEN,
        ),
        "\
:
O 62fc20d2 create test1.txt
|\\
| O 96d1c37a (branch-2) create test2.txt
|
O 4838e49b create test3.txt
|\\
: x a2482074 (manually hidden) (branch-4) create test4.txt
:
@ 500c9b3e (> master) create test6.txt
"
    );
}

#[test]
fn parents_outside_the_drawing_leave_a_tree_of_its_own() {
    // The parent of the topic lies beyond what the snapshot holds.
    let stdout = draw(
        vec![
            commit(0x62fc20d2, &[INITIAL], 1, "create test1.txt\n"),
            commit(0xbbbbbbbb, &[0x0badcafe], 2, "far away\n"),
        ],
        vec![local("master", 0x62fc20d2), local("topic", 0xbbbbbbbb)],
        on_branch("master"),
        "master",
        vec![],
        DEFAULT,
    );
    assert_eq!(
        stdout,
        "\
:
@ 62fc20d2 (> master) create test1.txt
:
O bbbbbbbb (topic) far away
"
    );
}

#[test]
fn hidden_commits_are_drawn_with_their_reason() {
    // 0x22222222 was made without a branch; its child was hidden later.
    let stdout = draw(
        vec![
            commit(0xaaaaaaaa, &[], 0, "A\n"),
            commit(0x22222222, &[0xaaaaaaaa], 1, "left behind\n"),
            commit(0x44444444, &[0x22222222], 2, "H\n"),
        ],
        vec![local("main", 0xaaaaaaaa)],
        on_branch("main"),
        "main",
        vec![created(0x22222222, 1), created(0x44444444, 2), hidden(0x44444444, 3)],
        HIDDEN,
    );
    assert_eq!(
        stdout,
        "\
@ aaaaaaaa (> main) A
|
x 22222222 (unreachable) left behind
|
x 44444444 (manually hidden) H
"
    );
}

#[test]
fn test_non_adjacent_commits() {
    // The commit of test1 was made without a branch.
    let stdout = draw(
        vec![
            initial(),
            commit(0x62fc20d2, &[INITIAL], 1, "create test1.txt\n"),
            commit(0xfe65c1fe, &[INITIAL], 2, "create test2.txt\n"),
            commit(0x02067177, &[0xfe65c1fe], 3, "create test3.txt\n"),
            commit(0x8e62740b, &[0x02067177], 4, "create test4.txt\n"),
        ],
        vec![local("master", 0x02067177)],
        detached(0x8e62740b),
        "master",
        vec![
            created(INITIAL, 0),
            created(0x62fc20d2, 1),
            created(0xfe65c1fe, 2),
            created(0x02067177, 3),
            created(0x8e62740b, 4),
        ],
        DEFAULT,
    );
    assert_eq!(
        stdout,
        "\
:
O 02067177 (master) create test3.txt
|
@ 8e62740b create test4.txt
"
    );
}

#[test]
fn test_non_adjacent_commits2() {
    // The commits of test1 and test2 were made without a branch;
    // 0x0e5ca9e3 stands for the commit of test3, which no row shows.
    let stdout = draw(
        vec![
            initial(),
            commit(0x62fc20d2, &[INITIAL], 1, "create test1.txt\n"),
            commit(0x96d1c37a, &[0x62fc20d2], 2, "create test2.txt\n"),
            commit(0x0e5ca9e3, &[INITIAL], 3, "create test3.txt\n"),
            commit(0x2b633ed7, &[0x0e5ca9e3], 4, "create test4.txt\n"),
            commit(0x13932989, &[0x2b633ed7], 5, "create test5.txt\n"),
        ],
        vec![local("master", 0x2b633ed7)],
        detached(0x13932989),
        "master",
        vec![
            created(INITIAL, 0),
            created(0x62fc20d2, 1),
            created(0x96d1c37a, 2),
            created(0x0e5ca9e3, 3),
            created(0x2b633ed7, 4),
            created(0x13932989, 5),
        ],
        DEFAULT,
    );
    assert_eq!(
        stdout,
        "\
:
O 2b633ed7 (master) create test4.txt
|
@ 13932989 create test5.txt
"
    );
}

#[test]
fn test_non_adjacent_commits3() {
    // The commits of test2 and test4 were made without a branch;
    // 0x5e7fa8b1 stands for the commit of test5, which no row shows.
    let stdout = draw(
        vec![
            initial(),
            commit(0x62fc20d2, &[INITIAL], 1, "create test1.txt\n"),
            commit(0x96d1c37a, &[0x62fc20d2], 2, "create test2.txt\n"),
            commit(0x4838e49b, &[0x62fc20d2], 3, "create test3.txt\n"),
            commit(0xa2482074, &[0x4838e49b], 4, "create test4.txt\n"),
            commit(0x5e7fa8b1, &[0x4838e49b], 5, "create test5.txt\n"),
            commit(0x500c9b3e, &[0x5e7fa8b1], 6, "create test6.txt\n"),
        ],
        vec![local("master", 0x500c9b3e)],
        on_branch("master"),
        "master",
        vec![
            created(INITIAL, 0),
            created(0x62fc20d2, 1),
            created(0x96d1c37a, 2),
            created(0x4838e49b, 3),
            created(0xa2482074, 4),
            created(0x5e7fa8b1, 5),
            created(0x500c9b3e, 6),
        ],
        DEFAULT,
    );
    assert_eq!(
        stdout,
        "\
:
@ 500c9b3e (> master) create test6.txt
"
    );
}

#[test]
fn test_show_only_branches() {
    // 0x5e7fa8b1 and 0x6a1b2c3d stand for the commits of test5 and test6,
    // which no row shows. The commits of test6 and test8 were made without
    // a branch; those of test4 and test6 were hidden.
    let commits = || {
        vec![
            initial(),
            commit(0x62fc20d2, &[INITIAL], 1, "create test1.txt\n"),
            commit(0x96d1c37a, &[0x62fc20d2], 2, "create test2.txt\n"),
            commit(0x4838e49b, &[0x62fc20d2], 3, "create test3.txt\n"),
            commit(0xa2482074, &[0x4838e49b], 4, "create test4.txt\n"),
            commit(0x5e7fa8b1, &[0x4838e49b], 5, "create test5.txt\n"),
            commit(0x6a1b2c3d, &[0x5e7fa8b1], 6, "create test6.txt\n"),
            commit(0x8577a964, &[0x5e7fa8b1], 7, "create test7.txt\n"),
            commit(0xe8b6a382, &[0x8577a964], 8, "create test8.txt\n"),
            commit(0x1b854edc, &[0x8577a964], 9, "create test9.txt\n"),
        ]
    };
    let branches = || {
        vec![
            local("branch-2", 0x96d1c37a),
            local("branch-4", 0xa2482074),
            local("master", 0x1b854edc),
        ]
    };
    let events = || vec![hidden(0xa2482074, 10), hidden(0x6a1b2c3d, 11)];

    // The branch is drawn; the hidden branch and the commits without a
    // branch are not.
    {
        let stdout = draw(
            commits(),
            branches(),
            on_branch("master"),
            "master",
            events(),
            DEFAULT,
        );
        assert_eq!(
            stdout,
            "\
:
O 62fc20d2 create test1.txt
|\\
| O 96d1c37a (branch-2) create test2.txt
|
O 4838e49b create test3.txt
:
@ 1b854edc (> master) create test9.txt
"
        );
    }

    {
        let stdout = draw(
            commits(),
            branches(),
            on_branch("master"),
            "master",
            events(),
            ONLY_BRANCHES,
        );
        assert_eq!(
            stdout,
            "\
:
O 62fc20d2 create test1.txt
|\\
| O 96d1c37a (branch-2) create test2.txt
|
O 4838e49b create test3.txt
:
@ 1b854edc (> master) create test9.txt
"
        );
    }
}

#[test]
fn history_beyond_the_horizon_is_not_walked() {
    let commits = || {
        vec![
            commit(0xaaaaaaaa, &[], 0, "A\n"),
            commit(0x11111111, &[0xaaaaaaaa], 10, "one\n"),
            commit(0x22222222, &[0x11111111], 20, "two\n"),
            commit(0x33333333, &[0x22222222], 30, "three\n"),
        ]
    };
    let branches = || vec![local("main", 0xaaaaaaaa), local("topic", 0x33333333)];
    assert_eq!(
        draw(commits(), branches(), on_branch("topic"), "main", vec![], DEFAULT),
        "\
O aaaaaaaa (main) A
|
O 11111111 one
|
O 22222222 two
|
@ 33333333 (> topic) three
"
    );
    // The commit made before the horizon is drawn, and nothing below it.
    let near = SmartlogOptions {
        include_hidden: false,
        only_branches: false,
        horizon: Some(25),
    };
    assert_eq!(
        draw(commits(), branches(), on_branch("topic"), "main", vec![], near),
        "\
O aaaaaaaa (main) A
:
O 22222222 two
|
@ 33333333 (> topic) three
"
    );
}

#[test]
fn rewritten_commit_on_the_main_branch_is_shown_on_request_only() {
    let commits = || {
        vec![
            initial(),
            commit(0x2ebe0950, &[INITIAL], 0, "test1 version 2\n"),
            commit(0x62fc20d2, &[INITIAL], 1, "create test1.txt\n"),
            commit(0x96d1c37a, &[0x62fc20d2], 2, "create test2.txt\n"),
        ]
    };
    let stdout = draw(
        commits(),
        vec![local("master", 0x96d1c37a)],
        detached(0x2ebe0950),
        "master",
        vec![rewritten(0x62fc20d2, 0x2ebe0950, 3)],
        HIDDEN,
    );
    assert_eq!(
        stdout,
        "\
O f777ecc9 create initial.txt
|\\
| @ 2ebe0950 test1 version 2
|
x 62fc20d2 (rewritten as 2ebe0950) create test1.txt
|
O 96d1c37a (master) create test2.txt
"
    );
}

#[test]
fn branch_labels_stand_in_order_however_the_branches_are_given() {
    let stdout = draw(
        vec![commit(0xaaaaaaaa, &[], 0, "A\n")],
        vec![
            remote("origin/main", 0xaaaaaaaa),
            local("topic", 0xaaaaaaaa),
            remote("fork/main", 0xaaaaaaaa),
            local("main", 0xaaaaaaaa),
        ],
        on_branch("topic"),
        "main",
        vec![],
        DEFAULT,
    );
    assert_eq!(
        stdout,
        "@ aaaaaaaa (main, > topic, remote fork/main, remote origin/main) A\n"
    );
}
