use branchless::init::{
    determine_hook_path, executable_mode, format_undo_warning, has_unterminated_block,
    install_alias, install_aliases, install_hook, install_hooks, undo_warning,
    update_between_lines, update_hook_contents, GitVersion, Hook, HookType, UPDATE_MARKER_END,
    UPDATE_MARKER_START,
};

#[test]
fn test_update_between_lines() {
    let input = format!(
        "\
hello, world
{}
contents 1
{}
goodbye, world
",
        UPDATE_MARKER_START, UPDATE_MARKER_END
    );
    let expected = format!(
        "\
hello, world
{}
contents 2
contents 3
{}
goodbye, world
",
        UPDATE_MARKER_START, UPDATE_MARKER_END
    );

    assert_eq!(
        update_between_lines(
            &input,
            "\
contents 2
contents 3
"
        ),
        expected
    )
}

#[test]
fn update_between_lines_matches_std_lines() {
    // A carriage return before the line feed belongs to the terminator; a
    // final line without a terminator gains one.
    assert_eq!(update_between_lines("a\r\nb\rc\n\nd", "x\n"), "a\nb\rc\n\nd\n");
    assert_eq!(update_between_lines("", "x\n"), "");
    assert_eq!(update_between_lines("tail\r", "x\n"), "tail\r\n");
}

#[test]
fn update_between_lines_unterminated_block_drops_the_rest() {
    let input = format!("keep\n{}\nold 1\nold 2", UPDATE_MARKER_START);
    let expected = format!("keep\n{}\nnew\n{}\n", UPDATE_MARKER_START, UPDATE_MARKER_END);
    assert_eq!(update_between_lines(&input, "new\n"), expected);
    assert!(has_unterminated_block(&input));
    assert!(!has_unterminated_block("keep\n"));
}

#[test]
fn hook_path_regular_and_multihook() {
    match determine_hook_path(false, "post-commit") {
        Hook::RegularHook { file } => assert_eq!(file, "post-commit"),
        other => panic!("unexpected {:?}", other),
    }
    match determine_hook_path(true, "post-commit") {
        Hook::MultiHook { dir, file } => {
            assert_eq!(dir, "post-commit.d");
            assert_eq!(file, "00_local_branchless");
        }
        other => panic!("unexpected {:?}", other),
    }
}

#[test]
fn hook_contents_for_a_new_regular_hook() {
    let hook = determine_hook_path(false, "post-commit");
    let script = HookType::PostCommit.script();
    assert_eq!(
        update_hook_contents(&hook, None, script),
        "#!/bin/sh\n## START BRANCHLESS CONFIG\n\ngit branchless hook-post-commit \"$@\"\n\n## END BRANCHLESS CONFIG\n"
    );
}

#[test]
fn hook_contents_for_an_existing_regular_hook() {
    let hook = determine_hook_path(false, "post-commit");
    let existing = format!(
        "#!/bin/sh\necho before\n{}\nold\n{}\necho after\n",
        UPDATE_MARKER_START, UPDATE_MARKER_END
    );
    assert_eq!(
        update_hook_contents(&hook, Some(&existing), "new line\n"),
        format!(
            "#!/bin/sh\necho before\n{}\nnew line\n{}\necho after\n",
            UPDATE_MARKER_START, UPDATE_MARKER_END
        )
    );
}

#[test]
fn hook_contents_for_a_multihook_is_the_script_alone() {
    let hook = determine_hook_path(true, "post-commit");
    assert_eq!(
        update_hook_contents(&hook, Some("whatever was there\n"), "script\n"),
        "script\n"
    );
    assert_eq!(update_hook_contents(&hook, None, "script\n"), "script\n");
}

#[test]
fn executable_mode_sets_the_three_execute_bits() {
    assert_eq!(executable_mode(0o644), 0o755);
    assert_eq!(executable_mode(0o600), 0o711);
    assert_eq!(executable_mode(0o755), 0o755);
}

#[test]
fn hooks_are_installed_in_order() {
    let hooks = install_hooks();
    let names: Vec<&str> = hooks.iter().map(|h| h.name()).collect();
    assert_eq!(
        names,
        vec![
            "post-commit",
            "post-rewrite",
            "post-checkout",
            "pre-auto-gc",
            "reference-transaction"
        ]
    );
    assert_eq!(
        HookType::PostRewrite.script(),
        "\ngit branchless hook-post-rewrite \"$@\"\n"
    );
    assert_eq!(
        HookType::ReferenceTransaction.script(),
        "
# Avoid canceling the reference transaction in the case that `branchless` fails
# for whatever reason.
git branchless hook-reference-transaction \"$@\" || (
    echo 'branchless: Failed to process reference transaction!'
    echo 'branchless: Some events (e.g. branch updates) may have been lost.'
    echo 'branchless: This is a bug. Please report it.'
)
"
    );
    assert_eq!(install_hook("pre-auto-gc"), "Installing hook: pre-auto-gc\n");
}

#[test]
fn aliases_are_installed_in_order() {
    assert_eq!(
        install_aliases(),
        vec!["smartlog", "sl", "hide", "unhide", "prev", "next", "restack", "undo"]
    );
    let install = install_alias("sl");
    assert_eq!(install.message, "Installing alias (non-global): git sl\n");
    assert_eq!(install.key, "alias.sl");
    assert_eq!(install.value, "branchless sl");
}

#[test]
fn git_version_is_parsed_and_compared() {
    assert_eq!(
        GitVersion::parse("git version 2.25.1\n"),
        Some(GitVersion(2, 25, 1))
    );
    assert_eq!(
        GitVersion::parse("git version 2.39.3 (Apple Git-145)"),
        Some(GitVersion(2, 39, 3))
    );
    assert_eq!(
        GitVersion::parse("git version 2.29.0.windows.1"),
        Some(GitVersion(2, 29, 0))
    );
    assert_eq!(GitVersion::parse("git version 2.29"), None);
    assert_eq!(GitVersion::parse("git version 2.x.0"), None);
    assert_eq!(GitVersion::parse("git 2.29.0"), None);
    assert_eq!(GitVersion::parse(""), None);
    assert_eq!(GitVersion::parse("git version 2.1234567890.0"), None);

    assert!(GitVersion(2, 28, 9).precedes(&GitVersion(2, 29, 0)));
    assert!(GitVersion(1, 99, 99).precedes(&GitVersion(2, 0, 0)));
    assert!(!GitVersion(2, 29, 0).precedes(&GitVersion(2, 29, 0)));
    assert!(!GitVersion(3, 0, 0).precedes(&GitVersion(2, 29, 0)));
    assert!(GitVersion(2, 28, 0).lacks_reference_transactions());
    assert!(!GitVersion(2, 29, 0).lacks_reference_transactions());
}

#[test]
fn undo_warning_only_for_old_versions() {
    assert_eq!(undo_warning(&GitVersion(2, 29, 0), "git version 2.29.0\n"), None);
    let plain = format_undo_warning("Warning", "git version 2.28.0\n");
    assert_eq!(
        plain,
        "\
Warning: the branchless workflow's `git undo` command requires Git
v2.29 or later, but your Git version is: git version 2.28.0


Some operations, such as branch updates, won't be correctly undone. Other
operations may be undoable. Attempt at your own risk.

Once you upgrade to Git v2.9, run `git branchless init` again. Any work you
do from then on will be correctly undoable.

This only applies to the `git undo` command. Other commands which are part of
the branchless workflow will work properly.
"
    );
    let coloured = format_undo_warning("\x1b[33m\x1b[1mWarning\x1b[0m", "git version 2.28.0\n");
    console::set_colors_enabled(false);
    assert_eq!(
        undo_warning(&GitVersion(2, 28, 0), "git version 2.28.0\n"),
        Some(plain)
    );
    console::set_colors_enabled(true);
    assert_eq!(
        undo_warning(&GitVersion(2, 28, 0), "git version 2.28.0\n"),
        Some(coloured)
    );
}
