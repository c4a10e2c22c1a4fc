use hg_git_fast_import::changeset::{Changeset, ChangesetFile, ChangesetHeader, EntryKind, Tag};
use hg_git_fast_import::config::{RepositoryConfig, RepositorySavedState};
use hg_git_fast_import::env::Environment;
use hg_git_fast_import::error::ErrorKind;
use hg_git_fast_import::export::MercurialRepo;
use hg_git_fast_import::names::NameMap;
use hg_git_fast_import::single::{check_heads, ImportAction, ImportSession};

fn environment() -> Environment {
    Environment {
        no_clean_closed_branches: false,
        authors: None,
        clean: false,
        cron: false,
        target_push: false,
        target_pull: false,
        source_pull: false,
        fix_wrong_branchname: false,
    }
}

fn changeset(revision: usize, user: &str) -> Changeset {
    Changeset {
        revision,
        header: ChangesetHeader {
            p1: if revision > 0 { Some(revision - 1) } else { None },
            p2: None,
            user: user.as_bytes().to_vec(),
            time: 1_600_000_000 + revision as i64,
            tz_offset: 0,
            extra: vec![],
            comment: format!("r{revision}").into_bytes(),
        },
        files: vec![ChangesetFile {
            path: b"README".to_vec(),
            data: Some(b"hello".to_vec()),
            manifest_entry: Some(EntryKind::Regular),
        }],
    }
}

/// What a driver saw of an import.
struct Seen {
    bytes: Vec<u8>,
    saved: Vec<RepositorySavedState>,
    finished: bool,
    verified: bool,
    result: Result<(), String>,
}

/// Drives a session over the changesets of `users`, one revision each.
fn drive(
    config: &RepositoryConfig,
    users: &[&str],
    tags: &[Tag],
    saved: Option<RepositorySavedState>,
    verify: bool,
) -> Seen {
    let env = environment();
    let repo = MercurialRepo::new(config, &env);
    let mut session = ImportSession::begin(repo, verify, users.len(), saved);
    let mut brmap = NameMap::new();
    let mut seen = Seen {
        bytes: vec![],
        saved: vec![],
        finished: false,
        verified: false,
        result: Ok(()),
    };
    let tags: Vec<Tag> = tags
        .iter()
        .map(|t| Tag { revision: t.revision, name: t.name.clone() })
        .collect();
    let mut error = None;
    for _ in 0..1000 {
        match session.action() {
            ImportAction::Export(revision) => {
                let cs = changeset(revision, users[revision]);
                if let Err(e) = session.export(&cs, &mut brmap, &mut seen.bytes, "master") {
                    error = Some(e);
                }
            }
            ImportAction::ExportTags => session.tags(&tags, &mut seen.bytes),
            ImportAction::SaveState(state) => {
                seen.saved.push(state);
                session.completed();
            }
            ImportAction::Finish => {
                seen.finished = true;
                session.completed();
            }
            ImportAction::Verify => {
                seen.verified = true;
                session.completed();
            }
            ImportAction::Done => return seen,
            ImportAction::Fail => {
                seen.result = Err(match error.take().unwrap() {
                    ErrorKind::WrongUser(u) => u,
                    other => format!("{other:?}"),
                });
                return seen;
            }
        }
    }
    panic!("the session does not end");
}

const JOHN: &str = "John Doe <john@example.com>";

#[test]
fn root_commit_then_saved_state() {
    let config = RepositoryConfig::default();
    let seen = drive(&config, &[JOHN], &[], None, false);
    assert_eq!(
        String::from_utf8(seen.bytes).unwrap(),
        "commit refs/heads/master\n\
         mark :1\n\
         author John Doe <john@example.com> 1600000000 +0000\n\
         committer John Doe <john@example.com> 1600000000 +0000\n\
         data 3\n\
         r0\n\
         \n\
         M 100644 inline README\n\
         data 5\n\
         hello"
    );
    assert_eq!(seen.saved, vec![RepositorySavedState::OffsetedRevision(1, 1)]);
    assert!(seen.finished && !seen.verified);
    assert_eq!(seen.result, Ok(()));
}

#[test]
fn resume_without_new_revisions() {
    let config = RepositoryConfig::default();
    let tags = [Tag { revision: 0, name: "v1".into() }];
    let seen = drive(
        &config,
        &[JOHN],
        &tags,
        Some(RepositorySavedState::OffsetedRevision(1, 1)),
        true,
    );
    assert!(seen.bytes.is_empty());
    assert_eq!(seen.saved, vec![RepositorySavedState::OffsetedRevision(1, 1)]);
    assert!(seen.finished && seen.verified);
    assert_eq!(seen.result, Ok(()));
}

#[test]
fn two_runs_write_what_one_run_writes() {
    let config = RepositoryConfig {
        offset: Some(10),
        ..RepositoryConfig::default()
    };
    let users = [JOHN, "Ann <a@x>", JOHN, "Bob <b@x>"];
    let tags = [
        Tag { revision: 0, name: "a".into() },
        Tag { revision: 2, name: "b".into() },
        Tag { revision: 3, name: "c".into() },
    ];
    let whole = drive(&config, &users, &tags, None, false);
    assert_eq!(whole.saved, vec![RepositorySavedState::OffsetedRevision(14, 14)]);
    let commits_end = whole
        .bytes
        .windows(16)
        .position(|w| w == b"reset refs/tags/")
        .unwrap();

    let limited = RepositoryConfig {
        offset: Some(10),
        limit_high: Some(2),
        ..RepositoryConfig::default()
    };
    let first = drive(&limited, &users, &tags, None, false);
    assert_eq!(first.saved, vec![RepositorySavedState::OffsetedRevision(12, 12)]);
    let second = drive(&config, &users, &tags, Some(first.saved[0]), false);
    assert_eq!(second.saved, vec![RepositorySavedState::OffsetedRevision(14, 14)]);

    let first_commits_end = first
        .bytes
        .windows(16)
        .position(|w| w == b"reset refs/tags/")
        .unwrap();
    let second_commits_end = second
        .bytes
        .windows(16)
        .position(|w| w == b"reset refs/tags/")
        .unwrap();
    let mut commits = first.bytes[..first_commits_end].to_vec();
    commits.extend_from_slice(&second.bytes[..second_commits_end]);
    assert_eq!(commits, &whole.bytes[..commits_end]);
    let mut tag_lines = first.bytes[first_commits_end..].to_vec();
    tag_lines.extend_from_slice(&second.bytes[second_commits_end..]);
    assert_eq!(tag_lines, &whole.bytes[commits_end..]);
    assert_eq!(
        String::from_utf8(tag_lines).unwrap(),
        "reset refs/tags/a\nfrom :11\n\nreset refs/tags/b\nfrom :13\n\nreset refs/tags/c\nfrom :14\n\n"
    );
}

#[test]
fn tags_are_written_after_all_commits() {
    let config = RepositoryConfig::default();
    let tags = [
        Tag { revision: 0, name: "first".into() },
        Tag { revision: 1, name: "second".into() },
    ];
    let seen = drive(&config, &[JOHN, JOHN, JOHN], &tags, None, false);
    let out = String::from_utf8(seen.bytes).unwrap();
    let last_commit = out.rfind("commit refs/heads/").unwrap();
    let first_tag = out.find("reset refs/tags/").unwrap();
    assert!(last_commit < first_tag);
    assert!(out.ends_with(
        "reset refs/tags/first\nfrom :1\n\nreset refs/tags/second\nfrom :2\n\n"
    ));
}

#[test]
fn failure_behind_the_first_revision_saves_the_state_before_it() {
    let config = RepositoryConfig {
        offset: Some(100),
        ..RepositoryConfig::default()
    };
    let tags = [Tag { revision: 0, name: "v".into() }];
    let seen = drive(&config, &[JOHN, JOHN, "Alice", JOHN], &tags, None, true);
    assert_eq!(seen.result, Err("Alice".to_string()));
    assert_eq!(seen.saved, vec![RepositorySavedState::OffsetedRevision(102, 100)]);
    assert!(!seen.finished && !seen.verified);
    let out = String::from_utf8(seen.bytes).unwrap();
    assert!(out.contains("mark :102\n") && !out.contains("mark :103\n"));
    assert!(!out.contains("refs/tags/"));

    // the next import begins at the revision that failed, its tags where they were
    let seen = drive(&config, &[JOHN, JOHN, JOHN, JOHN], &tags, Some(seen.saved[0]), false);
    let out = String::from_utf8(seen.bytes).unwrap();
    assert!(out.starts_with("reset refs/heads/master\ncommit refs/heads/master\nmark :103\n"));
    assert!(out.ends_with("reset refs/tags/v\nfrom :101\n\n"));
    assert_eq!(seen.saved, vec![RepositorySavedState::OffsetedRevision(104, 104)]);
}

#[test]
fn failure_at_the_first_revision_saves_nothing() {
    let config = RepositoryConfig::default();
    let seen = drive(&config, &["Alice", JOHN], &[], None, false);
    assert_eq!(seen.result, Err("Alice".to_string()));
    assert!(seen.saved.is_empty());
    assert!(!seen.finished);
    assert!(seen.bytes.is_empty());
}

#[test]
fn limit_and_saved_state_bound_the_revisions() {
    let config = RepositoryConfig {
        limit_high: Some(2),
        ..RepositoryConfig::default()
    };
    let env = environment();
    let session = ImportSession::begin(MercurialRepo::new(&config, &env), false, 5, None);
    assert_eq!(session.action(), ImportAction::Export(0));
    assert_eq!(session.counter(), 0);
    // the state lies behind the limit: no commit is written
    let mut session = ImportSession::begin(
        MercurialRepo::new(&config, &env),
        false,
        5,
        Some(RepositorySavedState::OffsetedRevision(3, 1)),
    );
    assert_eq!(session.action(), ImportAction::ExportTags);
    let mut out = Vec::new();
    let tags = vec![
        Tag { revision: 0, name: "a".into() },
        Tag { revision: 1, name: "b".into() },
        Tag { revision: 2, name: "c".into() },
    ];
    session.tags(&tags, &mut out);
    assert_eq!(String::from_utf8(out).unwrap(), "reset refs/tags/b\nfrom :2\n\n");
    assert_eq!(session.counter(), 1);
    assert_eq!(
        session.action(),
        ImportAction::SaveState(RepositorySavedState::OffsetedRevision(2, 2))
    );
    // a limit behind the end of the repository does not count
    let config = RepositoryConfig {
        limit_high: Some(9),
        offset: Some(5),
        ..RepositoryConfig::default()
    };
    let mut session = ImportSession::begin(
        MercurialRepo::new(&config, &env),
        false,
        3,
        Some(RepositorySavedState::OffsetedRevision(8, 8)),
    );
    session.tags(&vec![], &mut Vec::new());
    assert_eq!(
        session.action(),
        ImportAction::SaveState(RepositorySavedState::OffsetedRevision(8, 8))
    );
}

#[test]
fn steps_out_of_turn_change_nothing() {
    let config = RepositoryConfig::default();
    let env = environment();
    let mut session = ImportSession::begin(MercurialRepo::new(&config, &env), false, 1, None);
    let mut out = Vec::new();
    session.tags(&vec![Tag { revision: 0, name: "a".into() }], &mut out);
    session.completed();
    assert!(out.is_empty());
    assert_eq!(session.action(), ImportAction::Export(0));
    let mut brmap = NameMap::new();
    session
        .export(&changeset(0, JOHN), &mut brmap, &mut out, "master")
        .unwrap();
    assert_eq!(session.action(), ImportAction::ExportTags);
    let written = out.len();
    session
        .export(&changeset(1, JOHN), &mut brmap, &mut out, "master")
        .unwrap();
    assert_eq!(out.len(), written);
    assert_eq!(session.counter(), 1);
}

#[test]
fn heads_are_checked_unless_unnamed_heads_are_allowed() {
    let mut config = RepositoryConfig::default();
    assert!(check_heads(&config, true).is_ok());
    assert!(check_heads(&config, false).is_ok());
    config.allow_unnamed_heads = false;
    assert!(check_heads(&config, true).is_ok());
    assert!(matches!(
        check_heads(&config, false),
        Err(ErrorKind::VerifyFailure(ref reason)) if reason == "Verify heads failed"
    ));
}

#[test]
fn marks_of_a_run_are_distinct_and_rise() {
    let config = RepositoryConfig {
        offset: Some(7),
        ..RepositoryConfig::default()
    };
    let seen = drive(&config, &[JOHN, JOHN, JOHN, JOHN, JOHN], &[], None, false);
    let out = String::from_utf8(seen.bytes).unwrap();
    let marks: Vec<u64> = out
        .lines()
        .filter_map(|line| line.strip_prefix("mark :"))
        .map(|n| n.parse().unwrap())
        .collect();
    assert_eq!(marks, [8, 9, 10, 11, 12]);
}
