//! What is done with a Git repository that is the target of an import.
//!
//! The repository itself is out of reach from here: it lives in the file
//! system and is changed by running Git. Here is decided what is run, and
//! what follows from what was found.
use vstd::prelude::*;
use crate::error::{ErrorKind, TargetRepositoryError};
use crate::text::{
    append_decimal_text,
    byte_strings,
    decimal_text,
    lemma_text_of_bytes,
    pieces,
    split_lines,
};
use vstd::utf8::{decode_utf8, valid_utf8};

verus! {

/// The file, inside the target, in which the importer keeps its marks.
pub const MARKS_FILE: &'static str = ".git/hg-git-fast-import.marks";

/// How the import into a target begins.
#[derive(Clone, Copy, Debug, PartialEq, Eq, Structural)]
pub enum StartPlan {
    /// The target is created and initialised, after what is in its place
    /// was removed, if `wipe` is set. There is no saved state.
    Create { wipe: bool },
    /// The target is there: its saved state is read.
    Load,
}

/// What is found at the place of a target.
#[derive(Clone, Copy, Debug, PartialEq, Eq, Structural)]
pub struct Found {
    pub exists: bool,
    pub is_dir: bool,
    pub has_saved_state: bool,
}

/// How the import into a target begins, if it can begin. A target that is
/// to be cleaned, or is not there, is created. One that is there must be a
/// directory and must hold a saved state.
pub open spec fn start_plan(found: Found, clean: bool) -> Result<StartPlan, TargetRepositoryError> {
    if !found.exists {
        Ok(StartPlan::Create { wipe: false })
    } else if clean {
        Ok(StartPlan::Create { wipe: true })
    } else if !found.is_dir {
        Err(TargetRepositoryError::IsNotDir)
    } else if !found.has_saved_state {
        Err(TargetRepositoryError::SavedStateDoesNotExist)
    } else {
        Ok(StartPlan::Load)
    }
}

/// Decides how the import into a target begins.
pub fn plan_start(found: Found, clean: bool) -> (plan: Result<StartPlan, TargetRepositoryError>)
    ensures
        plan == start_plan(found, clean),
{
    if !found.exists {
        Ok(StartPlan::Create { wipe: false })
    } else if clean {
        Ok(StartPlan::Create { wipe: true })
    } else if !found.is_dir {
        Err(TargetRepositoryError::IsNotDir)
    } else if !found.has_saved_state {
        Err(TargetRepositoryError::SavedStateDoesNotExist)
    } else {
        Ok(StartPlan::Load)
    }
}

/// The texts of some strings.
pub open spec fn words(strings: Seq<String>) -> Seq<Seq<char>> {
    Seq::new(strings.len(), |i: int| strings[i]@)
}

/// The arguments with which the importer is run: it writes its marks to
/// the marks file and reads them there if the file exists, says nothing,
/// and keeps at most `active_branches` branches active, if that is given.
pub open spec fn importer_arguments(active_branches: Option<nat>) -> Seq<Seq<char>> {
    seq![
        "fast-import"@,
        "--export-marks="@ + MARKS_FILE@,
        "--import-marks-if-exists="@ + MARKS_FILE@,
        "--quiet"@,
    ] + match active_branches {
        Some(n) => seq!["--active-branches="@ + decimal_text(n)],
        None => Seq::empty(),
    }
}

fn word(s: &str) -> (w: String)
    ensures
        w@ == s@,
{
    String::from_str(s)
}

fn joined(a: &str, b: &str) -> (w: String)
    ensures
        w@ == a@ + b@,
{
    let mut w = String::from_str(a);
    w.append(b);
    w
}

/// The arguments with which the importer is run.
pub fn fast_import_args(git_active_branches: Option<usize>) -> (args: Vec<String>)
    ensures
        words(args@) == importer_arguments(
            match git_active_branches {
                Some(n) => Some(n as nat),
                None => None,
            },
        ),
{
    let mut args: Vec<String> = Vec::new();
    args.push(word("fast-import"));
    args.push(joined("--export-marks=", MARKS_FILE));
    args.push(joined("--import-marks-if-exists=", MARKS_FILE));
    args.push(word("--quiet"));
    if let Some(n) = git_active_branches {
        let mut cap = String::from_str("--active-branches=");
        append_decimal_text(&mut cap, n as u128);
        args.push(cap);
    }
    assert(words(args@) =~= importer_arguments(
        match git_active_branches {
            Some(n) => Some(n as nat),
            None => None,
        },
    ));
    args
}

/// One run of Git in the target.
#[derive(Debug)]
pub struct GitCommand {
    pub args: Vec<String>,
    /// Whether the import cannot go on when the command fails.
    pub must_succeed: bool,
}

pub struct GitCommandView {
    pub args: Seq<Seq<char>>,
    pub must_succeed: bool,
}

impl View for GitCommand {
    type V = GitCommandView;

    open spec fn view(&self) -> GitCommandView {
        GitCommandView { args: words(self.args@), must_succeed: self.must_succeed }
    }
}

/// The views of some commands.
pub open spec fn commands_view(commands: Seq<GitCommand>) -> Seq<GitCommandView> {
    Seq::new(commands.len(), |i: int| commands[i]@)
}

/// A command that must succeed, and is told to say little if `quiet` is set.
pub open spec fn strict(args: Seq<Seq<char>>, quiet: bool) -> GitCommandView {
    GitCommandView {
        args: if quiet {
            args.push("--quiet"@)
        } else {
            args
        },
        must_succeed: true,
    }
}

/// The two commands that fetch everything: all remotes, then all tags.
/// An import goes on when they fail.
pub open spec fn fetch_commands() -> Seq<GitCommandView> {
    seq![
        GitCommandView { args: seq!["fetch"@, "-q"@, "--all"@], must_succeed: false },
        GitCommandView { args: seq!["fetch"@, "-q"@, "--tags"@], must_succeed: false },
    ]
}

/// What is run in the target once the importer has ended with success:
/// the working tree is brought to the imported state, then the target is
/// pulled and pushed, as far as that is asked for.
pub open spec fn finish_commands(cron: bool, target_pull: bool, target_push: bool) -> Seq<
    GitCommandView,
> {
    seq![
        strict(seq!["checkout"@, "HEAD"@], cron),
        strict(seq!["reset"@, "--hard"@], cron),
        strict(seq!["clean"@, "-d"@, "-x"@, "-f"@], cron),
    ] + (if target_pull {
        fetch_commands()
    } else {
        Seq::empty()
    }) + (if target_push {
        seq![strict(seq!["push"@, "--all"@], cron), strict(seq!["push"@, "--tags"@], cron)]
    } else {
        Seq::empty()
    })
}

/// What ends an import: the failure of the importer, or else the
/// commands that are run in the target.
pub open spec fn finish_plan(
    importer_succeeded: bool,
    importer_code: Option<i32>,
    cron: bool,
    target_pull: bool,
    target_push: bool,
) -> Result<Seq<GitCommandView>, TargetRepositoryError> {
    if importer_succeeded {
        Ok(finish_commands(cron, target_pull, target_push))
    } else {
        Err(TargetRepositoryError::ImportFailed(importer_code))
    }
}

fn strict_command(args: Vec<String>, quiet: bool) -> (command: GitCommand)
    ensures
        command@ == strict(words(args@), quiet),
{
    let mut args = args;
    let ghost given = words(args@);
    if quiet {
        args.push(word("--quiet"));
        assert(words(args@) =~= given.push("--quiet"@));
    }
    GitCommand { args, must_succeed: true }
}

fn two_words(a: &str, b: &str) -> (args: Vec<String>)
    ensures
        words(args@) == seq![a@, b@],
{
    let mut args: Vec<String> = Vec::new();
    args.push(word(a));
    args.push(word(b));
    assert(words(args@) =~= seq![a@, b@]);
    args
}

fn three_words(a: &str, b: &str, c: &str) -> (args: Vec<String>)
    ensures
        words(args@) == seq![a@, b@, c@],
{
    let mut args: Vec<String> = Vec::new();
    args.push(word(a));
    args.push(word(b));
    args.push(word(c));
    assert(words(args@) =~= seq![a@, b@, c@]);
    args
}

/// The two commands that fetch everything.
pub fn fetch_all_commands() -> (commands: Vec<GitCommand>)
    ensures
        commands_view(commands@) == fetch_commands(),
{
    let mut commands: Vec<GitCommand> = Vec::new();
    commands.push(GitCommand { args: three_words("fetch", "-q", "--all"), must_succeed: false });
    commands.push(GitCommand { args: three_words("fetch", "-q", "--tags"), must_succeed: false });
    assert(commands_view(commands@) =~= fetch_commands());
    commands
}

/// Decides what ends an import, given how the importer ended.
pub fn plan_finish(
    importer_succeeded: bool,
    importer_code: Option<i32>,
    cron: bool,
    target_pull: bool,
    target_push: bool,
) -> (plan: Result<Vec<GitCommand>, TargetRepositoryError>)
    ensures
        match finish_plan(importer_succeeded, importer_code, cron, target_pull, target_push) {
            Ok(expected) => plan matches Ok(commands) && commands_view(commands@) == expected,
            Err(e) => plan matches Err(f) && f == e,
        },
{
    if !importer_succeeded {
        return Err(TargetRepositoryError::ImportFailed(importer_code));
    }
    let mut commands: Vec<GitCommand> = Vec::new();
    commands.push(strict_command(two_words("checkout", "HEAD"), cron));
    commands.push(strict_command(two_words("reset", "--hard"), cron));
    let mut clean = three_words("clean", "-d", "-x");
    let ghost three = words(clean@);
    clean.push(word("-f"));
    assert(words(clean@) =~= three.push("-f"@));
    assert(words(clean@) =~= seq!["clean"@, "-d"@, "-x"@, "-f"@]);
    commands.push(strict_command(clean, cron));
    let ghost tree = commands_view(commands@);
    assert(tree =~= seq![
        strict(seq!["checkout"@, "HEAD"@], cron),
        strict(seq!["reset"@, "--hard"@], cron),
        strict(seq!["clean"@, "-d"@, "-x"@, "-f"@], cron),
    ]);
    if target_pull {
        let mut fetch = fetch_all_commands();
        let ghost before = commands@;
        let ghost added = fetch@;
        commands.append(&mut fetch);
        assert(commands_view(commands@) =~= commands_view(before) + commands_view(added));
    }
    let ghost pulled = commands_view(commands@);
    assert(pulled =~= tree + (if target_pull {
        fetch_commands()
    } else {
        Seq::empty()
    }));
    if target_push {
        commands.push(strict_command(two_words("push", "--all"), cron));
        commands.push(strict_command(two_words("push", "--tags"), cron));
        assert(commands_view(commands@) =~= pulled + seq![
            strict(seq!["push"@, "--all"@], cron),
            strict(seq!["push"@, "--tags"@], cron),
        ]);
    } else {
        assert(commands_view(commands@) =~= pulled + Seq::<GitCommandView>::empty());
    }
    Ok(commands)
}


/// The file, inside the target, that holds the saved state. That it is
/// there tells that the target was made by an import.
pub const SAVED_STATE_FILE: &'static str = ".git/hg-git-fast-import.lock";

fn push_word(args: &mut Vec<String>, w: &str)
    ensures
        words(final(args)@) == words(old(args)@).push(w@),
{
    args.push(word(w));
    assert(words(args@) =~= words(old(args)@).push(w@));
}

/// The arguments with which Git sets up a new target.
pub open spec fn config_arguments() -> Seq<Seq<char>> {
    seq!["config"@, "core.ignoreCase"@, "false"@]
}

/// The arguments with which Git sets up a new target: the case of file
/// names counts.
pub fn config_args() -> (args: Vec<String>)
    ensures
        words(args@) == config_arguments(),
{
    three_words("config", "core.ignoreCase", "false")
}

/// The arguments with which Mercurial pulls the source.
pub open spec fn pull_arguments(cron: bool) -> Seq<Seq<char>> {
    if cron {
        seq!["pull"@, "-u"@, "-q"@]
    } else {
        seq!["pull"@, "-u"@]
    }
}

/// The arguments with which Mercurial pulls the source and updates it,
/// saying little in an unattended run.
pub fn pull_args(cron: bool) -> (args: Vec<String>)
    ensures
        words(args@) == pull_arguments(cron),
{
    if cron {
        three_words("pull", "-u", "-q")
    } else {
        two_words("pull", "-u")
    }
}

/// The arguments with which the target is compared with the source: all
/// files, but for what belongs to Mercurial, to Git, or to the tools.
pub open spec fn verify_arguments(source: Seq<char>, target: Seq<char>) -> Seq<Seq<char>> {
    seq![
        "-ur"@,
        "--exclude=.hg"@,
        "--exclude=.idea"@,
        "--exclude=.git"@,
        "--exclude=*.iml"@,
        "--exclude=target"@,
        "--exclude=.hgtags"@,
        source,
        target,
    ]
}

/// The arguments with which `diff` compares the target with the source.
pub fn verify_args(verified_repo: &str, path: &str) -> (args: Vec<String>)
    ensures
        words(args@) == verify_arguments(verified_repo@, path@),
{
    let mut args: Vec<String> = Vec::new();
    assert(words(args@) =~= Seq::<Seq<char>>::empty());
    push_word(&mut args, "-ur");
    push_word(&mut args, "--exclude=.hg");
    push_word(&mut args, "--exclude=.idea");
    push_word(&mut args, "--exclude=.git");
    push_word(&mut args, "--exclude=*.iml");
    push_word(&mut args, "--exclude=target");
    push_word(&mut args, "--exclude=.hgtags");
    push_word(&mut args, verified_repo);
    push_word(&mut args, path);
    assert(words(args@) =~= verify_arguments(verified_repo@, path@));
    args
}

/// The arguments with which Git adds the remote `name` at `url`.
pub fn remote_add_args(name: &str, url: &str) -> (args: Vec<String>)
    ensures
        words(args@) == seq!["remote"@, "add"@, name@, url@],
{
    let mut args = three_words("remote", "add", name);
    push_word(&mut args, url);
    assert(words(args@) =~= seq!["remote"@, "add"@, name@, url@]);
    args
}

/// The arguments with which Git checks a branch out, creating it or
/// moving it if need be.
pub fn checkout_args(branch: &str) -> (args: Vec<String>)
    ensures
        words(args@) == seq!["checkout"@, "-B"@, branch@],
{
    three_words("checkout", "-B", branch)
}

/// The arguments with which Git merges branches whose histories are
/// unrelated: without a summary and without asking for a message.
pub open spec fn merge_arguments(branches: Seq<Seq<char>>) -> Seq<Seq<char>> {
    seq!["merge"@, "-n"@, "--allow-unrelated-histories"@, "--no-edit"@] + branches
}

/// The arguments with which Git merges branches whose histories are
/// unrelated.
pub fn merge_unrelated_args(branches: &Vec<String>) -> (args: Vec<String>)
    ensures
        words(args@) == merge_arguments(words(branches@)),
{
    let mut args = three_words("merge", "-n", "--allow-unrelated-histories");
    push_word(&mut args, "--no-edit");
    let ghost head = words(args@);
    assert(head =~= seq!["merge"@, "-n"@, "--allow-unrelated-histories"@, "--no-edit"@]);
    let mut i: usize = 0;
    while i < branches.len()
        invariant
            i <= branches.len(),
            words(args@) == head + words(branches@).take(i as int),
        decreases branches.len() - i,
    {
        push_word(&mut args, branches[i].as_str());
        assert(words(args@) =~= head + words(branches@).take(i as int + 1));
        i += 1;
    }
    assert(words(branches@).take(branches.len() as int) =~= words(branches@));
    args
}

/// The arguments with which Git prints the log that `load_git_revlog_lines`
/// reads: every commit that any ref or reflog reaches, the oldest first,
/// with its name, its time and its author in three lines.
pub open spec fn log_arguments() -> Seq<Seq<char>> {
    seq![
        "log"@,
        "--reflog"@,
        "--all"@,
        "--reverse"@,
        "--format=format:%H%n%at%n%an <%ae>"@,
    ]
}

/// The arguments with which Git prints the log of the target.
pub fn log_args() -> (args: Vec<String>)
    ensures
        words(args@) == log_arguments(),
{
    let mut args = three_words("log", "--reflog", "--all");
    push_word(&mut args, "--reverse");
    push_word(&mut args, "--format=format:%H%n%at%n%an <%ae>");
    assert(words(args@) =~= log_arguments());
    args
}

/// The arguments with which Git prints the message of a commit between
/// two full stops.
pub fn show_args(sha1: &str) -> (args: Vec<String>)
    ensures
        words(args@) == seq!["show"@, "-s"@, "--format=.%B."@, sha1@],
{
    let mut args = three_words("show", "-s", "--format=.%B.");
    push_word(&mut args, sha1);
    assert(words(args@) =~= seq!["show"@, "-s"@, "--format=.%B."@, sha1@]);
    args
}

/// The names that stand in some lines, one in each line that is not
/// empty. There are none where a line is not UTF-8.
pub open spec fn names_in(lines: Seq<Seq<u8>>) -> Option<Seq<Seq<char>>>
    decreases lines.len(),
{
    if lines.len() == 0 {
        Some(Seq::empty())
    } else {
        match names_in(lines.drop_last()) {
            Some(before) => if lines.last().len() == 0 {
                Some(before)
            } else if valid_utf8(lines.last()) {
                Some(before.push(decode_utf8(lines.last())))
            } else {
                None
            },
            None => None,
        }
    }
}

/// Reads the names of the remotes of a repository in what Git printed
/// when it was asked for them: one name in a line.
pub fn remote_names(stdout: &[u8]) -> (remotes: Result<Vec<String>, ErrorKind>)
    ensures
        match names_in(pieces(stdout@)) {
            Some(names) => remotes matches Ok(found) && words(found@) == names,
            None => remotes matches Err(e) && e is Encoding,
        },
{
    let lines = split_lines(stdout);
    let ghost all = byte_strings(lines@);
    let mut remotes: Vec<String> = Vec::new();
    let mut i: usize = 0;
    assert(all.take(0) =~= Seq::<Seq<u8>>::empty());
    assert(words(remotes@) =~= Seq::<Seq<char>>::empty());
    while i < lines.len()
        invariant
            i <= lines.len(),
            all == byte_strings(lines@),
            all == pieces(stdout@),
            names_in(all.take(i as int)) == Some(words(remotes@)),
        decreases lines.len() - i,
    {
        let line = &lines[i];
        proof {
            assert(all.take(i as int + 1).drop_last() =~= all.take(i as int));
            assert(all.take(i as int + 1).last() == line@);
        }
        if line.len() > 0 {
            match core::str::from_utf8(line.as_slice()) {
                Ok(name) => {
                    proof {
                        lemma_text_of_bytes(name, line@);
                    }
                    let ghost before = remotes@;
                    remotes.push(String::from_str(name));
                    assert(words(remotes@) =~= words(before).push(name@));
                },
                Err(_) => {
                    proof {
                        lemma_names_stay_absent(all, i as int + 1, all.len() as int);
                        assert(all.take(all.len() as int) =~= all);
                    }
                    return Err(ErrorKind::Encoding);
                },
            }
        }
        i += 1;
    }
    assert(all.take(all.len() as int) =~= all);
    Ok(remotes)
}

/// A line that is not UTF-8 spoils the lines behind it too.
proof fn lemma_names_stay_absent(lines: Seq<Seq<u8>>, i: int, n: int)
    requires
        0 <= i <= n <= lines.len(),
        names_in(lines.take(i)) is None,
    ensures
        names_in(lines.take(n)) is None,
    decreases n - i,
{
    if i < n {
        assert(lines.take(n).drop_last() =~= lines.take(n - 1));
        lemma_names_stay_absent(lines, i, n - 1);
    }
}

} // verus!
