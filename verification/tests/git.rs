use hg_git_fast_import::error::{ErrorKind, TargetRepositoryError};
use hg_git_fast_import::git::{
    checkout_args, config_args, fast_import_args, fetch_all_commands, log_args,
    merge_unrelated_args, plan_finish, plan_start, pull_args, remote_add_args, remote_names,
    show_args, verify_args, Found, GitCommand, StartPlan, MARKS_FILE, SAVED_STATE_FILE,
};

fn found(exists: bool, is_dir: bool, has_saved_state: bool) -> Found {
    Found { exists, is_dir, has_saved_state }
}

#[test]
fn target_that_is_not_there_is_created() {
    for clean in [false, true] {
        assert_eq!(
            plan_start(found(false, false, false), clean).unwrap(),
            StartPlan::Create { wipe: false }
        );
    }
}

#[test]
fn target_that_is_cleaned_is_wiped_and_created() {
    for is_dir in [false, true] {
        for has_state in [false, true] {
            assert_eq!(
                plan_start(found(true, is_dir, has_state), true).unwrap(),
                StartPlan::Create { wipe: true }
            );
        }
    }
}

#[test]
fn target_that_is_kept_must_be_a_directory_with_saved_state() {
    assert!(matches!(
        plan_start(found(true, false, false), false),
        Err(TargetRepositoryError::IsNotDir)
    ));
    assert!(matches!(
        plan_start(found(true, false, true), false),
        Err(TargetRepositoryError::IsNotDir)
    ));
    assert!(matches!(
        plan_start(found(true, true, false), false),
        Err(TargetRepositoryError::SavedStateDoesNotExist)
    ));
    assert_eq!(plan_start(found(true, true, true), false).unwrap(), StartPlan::Load);
}

#[test]
fn importer_keeps_its_marks_in_the_marks_file() {
    assert_eq!(MARKS_FILE, ".git/hg-git-fast-import.marks");
    assert_eq!(SAVED_STATE_FILE, ".git/hg-git-fast-import.lock");
    assert_eq!(
        fast_import_args(None),
        [
            "fast-import",
            "--export-marks=.git/hg-git-fast-import.marks",
            "--import-marks-if-exists=.git/hg-git-fast-import.marks",
            "--quiet",
        ]
    );
    assert_eq!(
        fast_import_args(Some(12)),
        [
            "fast-import",
            "--export-marks=.git/hg-git-fast-import.marks",
            "--import-marks-if-exists=.git/hg-git-fast-import.marks",
            "--quiet",
            "--active-branches=12",
        ]
    );
    assert_eq!(fast_import_args(Some(0))[4], "--active-branches=0");
}

fn shown(commands: &[GitCommand]) -> Vec<String> {
    commands
        .iter()
        .map(|c| format!("{}{}", if c.must_succeed { "!" } else { "?" }, c.args.join(" ")))
        .collect()
}

#[test]
fn failed_importer_ends_the_import() {
    for code in [Some(1), Some(128), None] {
        let plan = plan_finish(false, code, false, true, true);
        assert!(matches!(plan, Err(TargetRepositoryError::ImportFailed(c)) if c == code));
    }
}

#[test]
fn finished_import_brings_the_working_tree_up() {
    assert_eq!(
        shown(&plan_finish(true, Some(0), false, false, false).unwrap()),
        ["!checkout HEAD", "!reset --hard", "!clean -d -x -f"]
    );
    assert_eq!(
        shown(&plan_finish(true, Some(0), true, false, false).unwrap()),
        [
            "!checkout HEAD --quiet",
            "!reset --hard --quiet",
            "!clean -d -x -f --quiet"
        ]
    );
}

#[test]
fn pull_comes_before_push() {
    assert_eq!(
        shown(&plan_finish(true, Some(0), true, true, true).unwrap()),
        [
            "!checkout HEAD --quiet",
            "!reset --hard --quiet",
            "!clean -d -x -f --quiet",
            "?fetch -q --all",
            "?fetch -q --tags",
            "!push --all --quiet",
            "!push --tags --quiet",
        ]
    );
    assert_eq!(
        shown(&plan_finish(true, None, false, false, true).unwrap()),
        [
            "!checkout HEAD",
            "!reset --hard",
            "!clean -d -x -f",
            "!push --all",
            "!push --tags",
        ]
    );
    assert_eq!(
        shown(&plan_finish(true, None, false, true, false).unwrap())[3..],
        ["?fetch -q --all", "?fetch -q --tags"]
    );
    assert_eq!(shown(&fetch_all_commands()), ["?fetch -q --all", "?fetch -q --tags"]);
}

#[test]
fn arguments_of_the_commands() {
    assert_eq!(config_args(), ["config", "core.ignoreCase", "false"]);
    assert_eq!(pull_args(false), ["pull", "-u"]);
    assert_eq!(pull_args(true), ["pull", "-u", "-q"]);
    assert_eq!(
        verify_args("src dir", "dst/sub"),
        [
            "-ur",
            "--exclude=.hg",
            "--exclude=.idea",
            "--exclude=.git",
            "--exclude=*.iml",
            "--exclude=target",
            "--exclude=.hgtags",
            "src dir",
            "dst/sub",
        ]
    );
    assert_eq!(remote_add_args("one", "/x/y"), ["remote", "add", "one", "/x/y"]);
    assert_eq!(checkout_args("main"), ["checkout", "-B", "main"]);
    assert_eq!(
        merge_unrelated_args(&vec!["a/x".to_string(), "b/y".to_string()]),
        ["merge", "-n", "--allow-unrelated-histories", "--no-edit", "a/x", "b/y"]
    );
    assert_eq!(
        merge_unrelated_args(&vec![]),
        ["merge", "-n", "--allow-unrelated-histories", "--no-edit"]
    );
    assert_eq!(
        log_args(),
        ["log", "--reflog", "--all", "--reverse", "--format=format:%H%n%at%n%an <%ae>"]
    );
    assert_eq!(show_args("abc"), ["show", "-s", "--format=.%B.", "abc"]);
}

#[test]
fn remotes_are_the_lines_that_are_not_empty() {
    assert_eq!(remote_names(b"").unwrap(), Vec::<String>::new());
    assert_eq!(remote_names(b"\n\n").unwrap(), Vec::<String>::new());
    assert_eq!(remote_names(b"origin\n").unwrap(), ["origin"]);
    assert_eq!(
        remote_names("one\n\ntw\u{f6}\nthree".as_bytes()).unwrap(),
        ["one", "tw\u{f6}", "three"]
    );
    assert!(matches!(remote_names(b"one\n\xff\nthree\n"), Err(ErrorKind::Encoding)));
}
