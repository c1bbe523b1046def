//! Setting up a repository: the hook files and command aliases to install,
//! and how an existing hook file is rewritten.

use vstd::prelude::*;
use crate::text::{
    chars_of, extend, extend_str, line_views, same_chars, split, split_lines, split_on, string_of,
    text_lines,
};

verus! {

/// First line of a freshly written hook file.
pub const SHEBANG: &'static str = "#!/bin/sh";

/// Line that opens the managed block of a hook file.
pub const UPDATE_MARKER_START: &'static str = "## START BRANCHLESS CONFIG";

/// Line that closes the managed block of a hook file.
pub const UPDATE_MARKER_END: &'static str = "## END BRANCHLESS CONFIG";

/// The text that replaces `lines`, given that the managed block is to hold
/// `updated`. `ignoring` says whether the scan stands inside a managed block:
/// its old lines are dropped, the start marker is followed by `updated` and a
/// fresh end marker, and every other line is kept with a line feed after it.
pub open spec fn update_lines(lines: Seq<Seq<char>>, updated: Seq<char>, ignoring: bool) -> Seq<
    char,
>
    decreases lines.len(),
{
    if lines.len() == 0 {
        Seq::empty()
    } else if lines.first() == UPDATE_MARKER_START@ {
        UPDATE_MARKER_START@ + seq!['\n'] + updated + UPDATE_MARKER_END@ + seq!['\n']
            + update_lines(lines.drop_first(), updated, true)
    } else if lines.first() == UPDATE_MARKER_END@ {
        update_lines(lines.drop_first(), updated, false)
    } else if !ignoring {
        lines.first() + seq!['\n'] + update_lines(lines.drop_first(), updated, false)
    } else {
        update_lines(lines.drop_first(), updated, true)
    }
}

/// Whether a scan of `lines` that starts in state `ignoring` ends inside a
/// managed block, that is, after a start marker with no end marker behind it.
pub open spec fn ends_ignoring(lines: Seq<Seq<char>>, ignoring: bool) -> bool
    decreases lines.len(),
{
    if lines.len() == 0 {
        ignoring
    } else if lines.first() == UPDATE_MARKER_START@ {
        ends_ignoring(lines.drop_first(), true)
    } else if lines.first() == UPDATE_MARKER_END@ {
        ends_ignoring(lines.drop_first(), false)
    } else {
        ends_ignoring(lines.drop_first(), ignoring)
    }
}

/// Rewrites `text` line by line and reports whether it ended inside a
/// managed block.
fn scan_update(text: &Vec<char>, updated: &Vec<char>) -> (r: (Vec<char>, bool))
    ensures
        r.0@ == update_lines(split_lines(text@), updated@, false),
        r.1 == ends_ignoring(split_lines(text@), false),
{
    let marker_start = chars_of(UPDATE_MARKER_START);
    let marker_end = chars_of(UPDATE_MARKER_END);
    let lines = text_lines(text);
    let ghost all = line_views(lines@);
    let mut out: Vec<char> = Vec::new();
    let mut ignoring = false;
    let mut i: usize = 0;
    proof {
        assert(all.skip(0) == all);
    }
    while i < lines.len()
        invariant
            i <= lines.len(),
            all == line_views(lines@),
            marker_start@ == UPDATE_MARKER_START@,
            marker_end@ == UPDATE_MARKER_END@,
            out@ + update_lines(all.skip(i as int), updated@, ignoring) == update_lines(
                all,
                updated@,
                false,
            ),
            ends_ignoring(all.skip(i as int), ignoring) == ends_ignoring(all, false),
        decreases lines.len() - i,
    {
        let line = &lines[i];
        let ghost before = out@;
        let ghost tail = all.skip(i + 1);
        proof {
            assert(all.skip(i as int).first() == line@);
            assert(all.skip(i as int).drop_first() == tail);
        }
        if same_chars(line, &marker_start) {
            extend(&mut out, &marker_start);
            out.push('\n');
            extend(&mut out, updated);
            extend(&mut out, &marker_end);
            out.push('\n');
            ignoring = true;
            assert(out@ + update_lines(tail, updated@, true) == before + (UPDATE_MARKER_START@
                + seq!['\n'] + updated@ + UPDATE_MARKER_END@ + seq!['\n'] + update_lines(
                tail,
                updated@,
                true,
            )));
        } else if same_chars(line, &marker_end) {
            ignoring = false;
        } else if !ignoring {
            extend(&mut out, line);
            out.push('\n');
            assert(out@ + update_lines(tail, updated@, false) == before + (line@ + seq!['\n']
                + update_lines(tail, updated@, false)));
        }
        i += 1;
    }
    proof {
        assert(all.skip(i as int).len() == 0);
        assert(out@ + Seq::<char>::empty() == out@);
    }
    (out, ignoring)
}

/// The contents of a hook file after its managed block has been replaced.
///
/// Every line of `lines` outside a managed block is kept, each followed by a
/// line feed. A start-marker line is followed by `updated_lines` and an end
/// marker, and the lines up to the next end marker are dropped.
pub fn update_between_lines(lines: &str, updated_lines: &str) -> (new_lines: String)
    ensures
        new_lines@ == update_lines(split_lines(lines@), updated_lines@, false),
{
    let text = chars_of(lines);
    let updated = chars_of(updated_lines);
    let r = scan_update(&text, &updated);
    string_of(&r.0)
}

/// Whether `lines` ends inside a managed block: a start marker was seen and
/// no end marker follows it.
pub fn has_unterminated_block(lines: &str) -> (unterminated: bool)
    ensures
        unterminated == ends_ignoring(split_lines(lines@), false),
{
    let text = chars_of(lines);
    let updated: Vec<char> = Vec::new();
    let r = scan_update(&text, &updated);
    r.1
}

/// Where the hook of one type is installed.
#[derive(Debug)]
pub enum Hook {
    /// Regular hook: the file `file` in the repository's hooks directory.
    RegularHook { file: String },
    /// Multihook layout: the file `file` in the directory `dir` below the
    /// repository's `hook_multi` directory.
    MultiHook { dir: String, file: String },
}

/// Name of the directory, below the repository's own directory, whose
/// presence selects the multihook layout.
pub const MULTI_HOOKS_DIR: &'static str = "hook_multi";

/// File name of this tool's script inside a multihook directory.
pub const MULTI_HOOK_FILE: &'static str = "00_local_branchless";

/// The place of the hook of type `hook_type`: with a multihook directory the
/// file `00_local_branchless` in `<hook_type>.d`, else the file `<hook_type>`
/// in the hooks directory.
pub fn determine_hook_path(multi_hooks_dir_exists: bool, hook_type: &str) -> (hook: Hook)
    ensures
        match hook {
            Hook::MultiHook { dir, file } => multi_hooks_dir_exists && dir@ == hook_type@ + ".d"@
                && file@ == MULTI_HOOK_FILE@,
            Hook::RegularHook { file } => !multi_hooks_dir_exists && file@ == hook_type@,
        },
{
    if multi_hooks_dir_exists {
        let mut dir = chars_of(hook_type);
        extend_str(&mut dir, ".d");
        Hook::MultiHook { dir: string_of(&dir), file: string_of(&chars_of(MULTI_HOOK_FILE)) }
    } else {
        Hook::RegularHook { file: string_of(&chars_of(hook_type)) }
    }
}

/// Contents of a regular hook file that did not exist before: the shebang,
/// then the managed block holding `hook_contents` on a line of its own.
pub open spec fn fresh_hook_file(hook_contents: Seq<char>) -> Seq<char> {
    SHEBANG@ + seq!['\n'] + UPDATE_MARKER_START@ + seq!['\n'] + hook_contents + seq!['\n']
        + UPDATE_MARKER_END@ + seq!['\n']
}

/// What is written to the hook file: for a regular hook the existing file
/// with its managed block replaced, or a fresh file where none existed; for
/// a multihook `hook_contents` alone, whatever was there.
pub open spec fn hook_file_contents(
    hook: Hook,
    existing: Option<Seq<char>>,
    hook_contents: Seq<char>,
) -> Seq<char> {
    match hook {
        Hook::RegularHook { .. } => match existing {
            Some(lines) => update_lines(split_lines(lines), hook_contents, false),
            None => fresh_hook_file(hook_contents),
        },
        Hook::MultiHook { .. } => hook_contents,
    }
}

/// Computes the new contents of the hook file at `hook`. `existing` holds
/// what the file held before, or `None` where there was no such file.
pub fn update_hook_contents(hook: &Hook, existing: Option<&str>, hook_contents: &str) -> (contents:
    String)
    ensures
        contents@ == hook_file_contents(
            *hook,
            match existing {
                Some(lines) => Some(lines@),
                None => None,
            },
            hook_contents@,
        ),
{
    match hook {
        Hook::RegularHook { .. } => match existing {
            Some(lines) => update_between_lines(lines, hook_contents),
            None => {
                let mut out = chars_of(SHEBANG);
                out.push('\n');
                extend_str(&mut out, UPDATE_MARKER_START);
                out.push('\n');
                extend_str(&mut out, hook_contents);
                out.push('\n');
                extend_str(&mut out, UPDATE_MARKER_END);
                out.push('\n');
                string_of(&out)
            },
        },
        Hook::MultiHook { .. } => string_of(&chars_of(hook_contents)),
    }
}

/// The permission bits of a hook file once it has been made executable:
/// `mode` with the three execute bits set.
pub fn executable_mode(mode: u32) -> (new_mode: u32)
    ensures
        new_mode == mode | 0o111,
{
    mode | 0o111
}

/// The repository lifecycle points at which this tool is invoked.
#[derive(Clone, Copy, Debug, PartialEq, Eq, Structural)]
pub enum HookType {
    PostCommit,
    PostRewrite,
    PostCheckout,
    PreAutoGc,
    ReferenceTransaction,
}

impl HookType {
    /// The name under which the host system looks the hook up.
    pub open spec fn name_spec(self) -> Seq<char> {
        match self {
            HookType::PostCommit => "post-commit"@,
            HookType::PostRewrite => "post-rewrite"@,
            HookType::PostCheckout => "post-checkout"@,
            HookType::PreAutoGc => "pre-auto-gc"@,
            HookType::ReferenceTransaction => "reference-transaction"@,
        }
    }

    /// The shell lines placed in the managed block of the hook.
    pub open spec fn script_spec(self) -> Seq<char> {
        match self {
            HookType::PostCommit => "\ngit branchless hook-post-commit \"$@\"\n"@,
            HookType::PostRewrite => "\ngit branchless hook-post-rewrite \"$@\"\n"@,
            HookType::PostCheckout => "\ngit branchless hook-post-checkout \"$@\"\n"@,
            HookType::PreAutoGc => "\ngit branchless hook-pre-auto-gc \"$@\"\n"@,
            HookType::ReferenceTransaction =>
                "\n# Avoid canceling the reference transaction in the case that `branchless` fails\n# for whatever reason.\ngit branchless hook-reference-transaction \"$@\" || (\n    echo 'branchless: Failed to process reference transaction!'\n    echo 'branchless: Some events (e.g. branch updates) may have been lost.'\n    echo 'branchless: This is a bug. Please report it.'\n)\n"@,
        }
    }

    /// The name under which the host system looks the hook up.
    pub fn name(self) -> (name: &'static str)
        ensures
            name@ == self.name_spec(),
    {
        match self {
            HookType::PostCommit => "post-commit",
            HookType::PostRewrite => "post-rewrite",
            HookType::PostCheckout => "post-checkout",
            HookType::PreAutoGc => "pre-auto-gc",
            HookType::ReferenceTransaction => "reference-transaction",
        }
    }

    /// The shell lines placed in the managed block of the hook.
    pub fn script(self) -> (script: &'static str)
        ensures
            script@ == self.script_spec(),
    {
        match self {
            HookType::PostCommit => "\ngit branchless hook-post-commit \"$@\"\n",
            HookType::PostRewrite => "\ngit branchless hook-post-rewrite \"$@\"\n",
            HookType::PostCheckout => "\ngit branchless hook-post-checkout \"$@\"\n",
            HookType::PreAutoGc => "\ngit branchless hook-pre-auto-gc \"$@\"\n",
            HookType::ReferenceTransaction =>
                "\n# Avoid canceling the reference transaction in the case that `branchless` fails\n# for whatever reason.\ngit branchless hook-reference-transaction \"$@\" || (\n    echo 'branchless: Failed to process reference transaction!'\n    echo 'branchless: Some events (e.g. branch updates) may have been lost.'\n    echo 'branchless: This is a bug. Please report it.'\n)\n",
        }
    }
}

/// The hooks to install, in the order of installation.
pub fn install_hooks() -> (hooks: Vec<HookType>)
    ensures
        hooks@ == seq![
            HookType::PostCommit,
            HookType::PostRewrite,
            HookType::PostCheckout,
            HookType::PreAutoGc,
            HookType::ReferenceTransaction,
        ],
{
    let mut hooks: Vec<HookType> = Vec::new();
    hooks.push(HookType::PostCommit);
    hooks.push(HookType::PostRewrite);
    hooks.push(HookType::PostCheckout);
    hooks.push(HookType::PreAutoGc);
    hooks.push(HookType::ReferenceTransaction);
    hooks
}

/// The line reported before the hook of type `hook_type` is installed.
pub fn install_hook(hook_type: &str) -> (message: String)
    ensures
        message@ == "Installing hook: "@ + hook_type@ + seq!['\n'],
{
    let mut out = chars_of("Installing hook: ");
    extend_str(&mut out, hook_type);
    out.push('\n');
    string_of(&out)
}

/// One alias to set in the repository's configuration, with the line
/// reported before it is set.
#[derive(Debug)]
pub struct AliasInstall {
    pub message: String,
    pub key: String,
    pub value: String,
}

/// How the command `alias` is made available as `git <alias>`: the
/// configuration key `alias.<alias>` is set to `branchless <alias>`.
pub fn install_alias(alias: &str) -> (install: AliasInstall)
    ensures
        install.message@ == "Installing alias (non-global): git "@ + alias@ + seq!['\n'],
        install.key@ == "alias."@ + alias@,
        install.value@ == "branchless "@ + alias@,
{
    let mut message = chars_of("Installing alias (non-global): git ");
    extend_str(&mut message, alias);
    message.push('\n');
    let mut key = chars_of("alias.");
    extend_str(&mut key, alias);
    let mut value = chars_of("branchless ");
    extend_str(&mut value, alias);
    AliasInstall { message: string_of(&message), key: string_of(&key), value: string_of(&value) }
}

/// The commands that get an alias, in the order of installation.
pub open spec fn alias_names() -> Seq<Seq<char>> {
    seq![
        "smartlog"@,
        "sl"@,
        "hide"@,
        "unhide"@,
        "prev"@,
        "next"@,
        "restack"@,
        "undo"@,
    ]
}

/// The commands that get an alias, in the order of installation.
pub fn install_aliases() -> (aliases: Vec<&'static str>)
    ensures
        aliases@.len() == alias_names().len(),
        forall|i: int| 0 <= i < aliases@.len() ==> (#[trigger] aliases@[i])@ == alias_names()[i],
{
    let mut aliases: Vec<&'static str> = Vec::new();
    aliases.push("smartlog");
    aliases.push("sl");
    aliases.push("hide");
    aliases.push("unhide");
    aliases.push("prev");
    aliases.push("next");
    aliases.push("restack");
    aliases.push("undo");
    aliases
}

/// A version of the host system, as major, minor and patch number.
#[derive(Clone, Copy, Debug, PartialEq, Eq, Structural)]
pub struct GitVersion(pub isize, pub isize, pub isize);

impl GitVersion {
    /// Whether `self` is an earlier version than `other`: the numbers are
    /// compared from the major one down.
    pub open spec fn precedes_spec(self, other: GitVersion) -> bool {
        self.0 < other.0 || (self.0 == other.0 && (self.1 < other.1 || (self.1 == other.1 && self.2
            < other.2)))
    }

    /// Whether `self` is an earlier version than `other`.
    pub fn precedes(&self, other: &GitVersion) -> (r: bool)
        ensures
            r == self.precedes_spec(*other),
    {
        self.0 < other.0 || (self.0 == other.0 && (self.1 < other.1 || (self.1 == other.1 && self.2
            < other.2)))
    }

    /// Whether undoing is only partly supported with this version: it is
    /// earlier than 2.29.0.
    pub fn lacks_reference_transactions(&self) -> (r: bool)
        ensures
            r == self.precedes_spec(GitVersion(2, 29, 0)),
    {
        self.precedes(&GitVersion(2, 29, 0))
    }
}

/// Whether `s` is a number of one to nine decimal digits.
pub open spec fn is_decimal(s: Seq<char>) -> bool {
    1 <= s.len() <= 9 && forall|i: int| 0 <= i < s.len() ==> '0' <= (#[trigger] s[i]) <= '9'
}

/// The number that the decimal digits `s` denote.
pub open spec fn decimal_value(s: Seq<char>) -> nat
    decreases s.len(),
{
    if s.len() == 0 {
        0
    } else {
        (10 * decimal_value(s.drop_last()) + (s.last() as nat - '0' as nat)) as nat
    }
}

/// The version that `s` names: its first three pieces between dots, each a
/// number of at most nine digits. What follows them is ignored.
pub open spec fn parse_version_number(s: Seq<char>) -> Option<GitVersion> {
    let parts = split_on(s, '.');
    if parts.len() >= 3 && is_decimal(parts[0]) && is_decimal(parts[1]) && is_decimal(parts[2]) {
        Some(
            GitVersion(
                decimal_value(parts[0]) as isize,
                decimal_value(parts[1]) as isize,
                decimal_value(parts[2]) as isize,
            ),
        )
    } else {
        None
    }
}

/// The version that the host system reports with `output`, which reads
/// `git version <major>.<minor>.<patch>` on its first line, possibly with
/// more behind it.
pub open spec fn parse_git_version(output: Seq<char>) -> Option<GitVersion> {
    let lines = split_lines(output);
    if lines.len() == 0 {
        None
    } else {
        let words = split_on(lines[0], ' ');
        if words.len() >= 3 {
            parse_version_number(words[2])
        } else {
            None
        }
    }
}

/// 10 to the power of `n`.
spec fn pow10(n: nat) -> nat
    decreases n,
{
    if n == 0 {
        1
    } else {
        10 * pow10((n - 1) as nat)
    }
}

/// Reads a number of one to nine decimal digits.
fn read_decimal(s: &Vec<char>) -> (r: Option<isize>)
    ensures
        r is Some <==> is_decimal(s@),
        r is Some ==> r->0 == decimal_value(s@),
{
    if s.len() == 0 || s.len() > 9 {
        return None;
    }
    let mut acc: u64 = 0;
    let mut i: usize = 0;
    while i < s.len()
        invariant
            i <= s@.len() <= 9,
            forall|k: int| 0 <= k < i ==> '0' <= (#[trigger] s@[k]) <= '9',
            acc == decimal_value(s@.take(i as int)),
            acc < pow10(i as nat),
        decreases s.len() - i,
    {
        let c = s[i];
        proof {
            reveal_with_fuel(pow10, 11);
            assert(s@.take(i + 1).drop_last() == s@.take(i as int));
            assert(s@.take(i + 1).last() == c);
        }
        if !('0' <= c && c <= '9') {
            return None;
        }
        acc = acc * 10 + (c as u64 - '0' as u64);
        i += 1;
    }
    proof {
        reveal_with_fuel(pow10, 11);
        assert(s@.take(s@.len() as int) == s@);
    }
    Some(acc as isize)
}

impl GitVersion {
    /// Reads the version off what the host system prints when asked for
    /// it. `None` if the text does not have the expected shape.
    pub fn parse(output: &str) -> (version: Option<GitVersion>)
        ensures
            version == parse_git_version(output@),
    {
        let text = chars_of(output);
        let lines = text_lines(&text);
        assert(line_views(lines@).len() == lines@.len());
        if lines.len() == 0 {
            return None;
        }
        assert(line_views(lines@)[0] == lines@[0]@);
        let words = split(&lines[0], ' ');
        assert(line_views(words@).len() == words@.len());
        if words.len() < 3 {
            return None;
        }
        assert(line_views(words@)[2] == words@[2]@);
        let parts = split(&words[2], '.');
        assert(line_views(parts@).len() == parts@.len());
        if parts.len() < 3 {
            return None;
        }
        assert(line_views(parts@)[0] == parts@[0]@);
        assert(line_views(parts@)[1] == parts@[1]@);
        assert(line_views(parts@)[2] == parts@[2]@);
        let major = match read_decimal(&parts[0]) {
            Some(n) => n,
            None => { return None; },
        };
        let minor = match read_decimal(&parts[1]) {
            Some(n) => n,
            None => { return None; },
        };
        let patch = match read_decimal(&parts[2]) {
            Some(n) => n,
            None => { return None; },
        };
        Some(GitVersion(major, minor, patch))
    }
}

/// `text` as written to a terminal that shows colours: between the escape
/// sequences for yellow and for bold, and the sequence that resets both.
pub open spec fn yellow_bold(text: Seq<char>) -> Seq<char> {
    "\x1b[33m\x1b[1m"@ + text + "\x1b[0m"@
}

/// `console::style(text).yellow().bold()`, formatted: `text` alone where
/// colours are off for standard output, else `text` between the escape
/// sequences for yellow and bold and the reset sequence. Which of the two
/// depends on the terminal and the environment.
#[verifier::external_body]
fn style_yellow_bold(text: &str) -> (styled: String)
    ensures
        styled@ == text@ || styled@ == yellow_bold(text@),
{
    format!("{}", console::style(text).yellow().bold())
}

/// The notice shown when the host system is too old for undoing to work in
/// full. `warning_str` is the leading word as it is to appear, `version_str`
/// the version as the host system reported it.
pub open spec fn undo_warning_text(warning_str: Seq<char>, version_str: Seq<char>) -> Seq<char> {
    warning_str
        + ": the branchless workflow's `git undo` command requires Git\nv2.29 or later, but your Git version is: "@
        + version_str
        + "\n\nSome operations, such as branch updates, won't be correctly undone. Other\noperations may be undoable. Attempt at your own risk.\n\nOnce you upgrade to Git v2.9, run `git branchless init` again. Any work you\ndo from then on will be correctly undoable.\n\nThis only applies to the `git undo` command. Other commands which are part of\nthe branchless workflow will work properly.\n"@
}

/// Builds the notice for an outdated host system around the given leading
/// word.
pub fn format_undo_warning(warning_str: &str, version_str: &str) -> (notice: String)
    ensures
        notice@ == undo_warning_text(warning_str@, version_str@),
{
    let mut out = chars_of(warning_str);
    extend_str(
        &mut out,
        ": the branchless workflow's `git undo` command requires Git\nv2.29 or later, but your Git version is: ",
    );
    extend_str(&mut out, version_str);
    extend_str(
        &mut out,
        "\n\nSome operations, such as branch updates, won't be correctly undone. Other\noperations may be undoable. Attempt at your own risk.\n\nOnce you upgrade to Git v2.9, run `git branchless init` again. Any work you\ndo from then on will be correctly undoable.\n\nThis only applies to the `git undo` command. Other commands which are part of\nthe branchless workflow will work properly.\n",
    );
    string_of(&out)
}

/// What is reported after the aliases have been set, for a host system of
/// version `version` that announced itself as `version_str`: nothing from
/// 2.29.0 on, else the notice, whose leading word is coloured where the
/// terminal shows colours.
pub fn undo_warning(version: &GitVersion, version_str: &str) -> (notice: Option<String>)
    ensures
        !version.precedes_spec(GitVersion(2, 29, 0)) ==> notice is None,
        version.precedes_spec(GitVersion(2, 29, 0)) ==> notice is Some && (notice->0@
            == undo_warning_text("Warning"@, version_str@) || notice->0@ == undo_warning_text(
            yellow_bold("Warning"@),
            version_str@,
        )),
{
    if version.lacks_reference_transactions() {
        let styled = style_yellow_bold("Warning");
        Some(format_undo_warning(styled.as_str(), version_str))
    } else {
        None
    }
}

} // verus!
