use hg_git_fast_import::changeset::{
    Changeset, ChangesetFile, ChangesetHeader, EntryKind, ExtraEntry, Tag,
};
use hg_git_fast_import::config::RepositoryConfig;
use hg_git_fast_import::env::Environment;
use hg_git_fast_import::error::ErrorKind;
use hg_git_fast_import::export::MercurialRepo;
use hg_git_fast_import::marks::mark;
use hg_git_fast_import::names::NameMap;

fn environment() -> Environment {
    Environment {
        no_clean_closed_branches: false,
        authors: None,
        clean: false,
        cron: false,
        target_push: false,
        target_pull: false,
        source_pull: false,
        fix_wrong_branchname: false,
    }
}

fn changeset(revision: usize, p1: Option<usize>, p2: Option<usize>) -> Changeset {
    Changeset {
        revision,
        header: ChangesetHeader {
            p1,
            p2,
            user: b"John Doe <john@example.com>".to_vec(),
            time: 1_600_000_000,
            tz_offset: 0,
            extra: vec![],
            comment: b"init".to_vec(),
        },
        files: vec![],
    }
}

fn extra(key: &str, value: &str) -> ExtraEntry {
    ExtraEntry {
        key: key.as_bytes().to_vec(),
        value: value.as_bytes().to_vec(),
    }
}

fn text(bytes: &[u8]) -> String {
    String::from_utf8(bytes.to_vec()).unwrap()
}

#[test]
fn mark_is_revision_plus_one_plus_offset() {
    assert_eq!(mark(0, 0), 1);
    assert_eq!(mark(41, 1000), 1042);
    assert_eq!(
        mark(usize::MAX, usize::MAX),
        2 * (usize::MAX as u128) + 1
    );
}

#[test]
fn root_commit_with_one_file() {
    let config = RepositoryConfig::default();
    let env = environment();
    let repo = MercurialRepo::new(&config, &env);
    let mut cs = changeset(0, None, None);
    cs.files.push(ChangesetFile {
        path: b"README".to_vec(),
        data: Some(b"hello".to_vec()),
        manifest_entry: Some(EntryKind::Regular),
    });
    let mut brmap = NameMap::new();
    let mut out = Vec::new();
    let count = repo
        .export_commit(&cs, 0, &mut brmap, &mut out, "master")
        .unwrap();
    assert_eq!(count, 1);
    assert_eq!(
        text(&out),
        "commit refs/heads/master\n\
         mark :1\n\
         author John Doe <john@example.com> 1600000000 +0000\n\
         committer John Doe <john@example.com> 1600000000 +0000\n\
         data 5\n\
         init\n\
         \n\
         M 100644 inline README\n\
         data 5\n\
         hello"
    );
    assert_eq!(brmap.get("master").map(|s| s.as_str()), Some("master"));
}

#[test]
fn branch_is_closed_then_merged() {
    let config = RepositoryConfig::default();
    let env = environment();
    let repo = MercurialRepo::new(&config, &env);
    let mut brmap = NameMap::new();
    let mut out = Vec::new();

    let r0 = changeset(0, None, None);
    let mut r1 = changeset(1, Some(0), None);
    r1.header.extra.push(extra("branch", "feature"));
    r1.header.extra.push(extra("close", "1"));
    let r2 = changeset(2, Some(0), Some(1));

    let mut count = 0;
    for cs in [&r0, &r1, &r2] {
        count = repo
            .export_commit(cs, count, &mut brmap, &mut out, "master")
            .unwrap();
    }
    assert_eq!(count, 3);
    let who = "John Doe <john@example.com> 1600000000 +0000\n";
    let expected = format!(
        "commit refs/heads/master\nmark :1\nauthor {who}committer {who}data 5\ninit\n\n\
         reset refs/heads/feature\ncommit refs/heads/feature\nmark :2\nauthor {who}committer {who}data 5\ninit\n\n\
         from :1\n\
         reset refs/tags/archive/feature\nfrom :2\n\n\
         reset refs/heads/feature\nfrom 0000000000000000000000000000000000000000\n\n\
         reset refs/heads/master\ncommit refs/heads/master\nmark :3\nauthor {who}committer {who}data 5\ninit\n\n\
         from :1\nmerge :2\n"
    );
    assert_eq!(text(&out), expected);
}

#[test]
fn merge_commit_has_one_from_and_one_merge() {
    let config = RepositoryConfig {
        offset: Some(100),
        ..RepositoryConfig::default()
    };
    let env = environment();
    let repo = MercurialRepo::new(&config, &env);
    let cs = changeset(7, Some(5), Some(6));
    let mut out = Vec::new();
    repo.export_commit(&cs, 0, &mut NameMap::new(), &mut out, "master")
        .unwrap();
    let out = text(&out);
    assert_eq!(out.matches("from :").count(), 1);
    assert_eq!(out.matches("merge :").count(), 1);
    assert!(out.contains("mark :108\n"));
    assert!(out.ends_with("from :106\nmerge :107\n"));
    assert!(out.starts_with("reset refs/heads/master\ncommit refs/heads/master\n"));
}

#[test]
fn only_second_parent_is_written_as_from() {
    let config = RepositoryConfig::default();
    let env = environment();
    let repo = MercurialRepo::new(&config, &env);
    let cs = changeset(3, None, Some(1));
    let mut out = Vec::new();
    repo.export_commit(&cs, 0, &mut NameMap::new(), &mut out, "master")
        .unwrap();
    assert!(text(&out).ends_with("init\n\nfrom :2\n"));
}

#[test]
fn root_commit_has_no_reset_and_no_from() {
    let config = RepositoryConfig::default();
    let env = environment();
    let repo = MercurialRepo::new(&config, &env);
    let cs = changeset(0, None, None);
    let mut out = Vec::new();
    repo.export_commit(&cs, 0, &mut NameMap::new(), &mut out, "master")
        .unwrap();
    let out = text(&out);
    assert!(out.starts_with("commit refs/heads/master\n"));
    assert!(!out.contains("reset "));
    assert!(!out.contains("from "));
}

#[test]
fn symlink_executable_tree_and_deletion() {
    let config = RepositoryConfig {
        path_prefix: Some("sub".into()),
        ..RepositoryConfig::default()
    };
    let env = environment();
    let repo = MercurialRepo::new(&config, &env);
    let mut cs = changeset(1, Some(0), None);
    cs.files = vec![
        ChangesetFile {
            path: b"link".to_vec(),
            data: Some(b"target/file".to_vec()),
            manifest_entry: Some(EntryKind::Symlink),
        },
        ChangesetFile {
            path: b"run.sh".to_vec(),
            data: Some(b"#!/bin/sh\n".to_vec()),
            manifest_entry: Some(EntryKind::Executable),
        },
        ChangesetFile {
            path: b"dir".to_vec(),
            data: Some(b"".to_vec()),
            manifest_entry: Some(EntryKind::Tree),
        },
        ChangesetFile {
            path: b"gone".to_vec(),
            data: None,
            manifest_entry: None,
        },
    ];
    let mut out = Vec::new();
    repo.export_commit(&cs, 0, &mut NameMap::new(), &mut out, "master")
        .unwrap();
    assert!(text(&out).ends_with(
        "from :1\n\
         M 120000 inline sub/link\ndata 11\ntarget/file\
         M 100755 inline sub/run.sh\ndata 10\n#!/bin/sh\n\
         M 100644 inline sub/dir\ndata 0\n\
         D sub/gone\n"
    ));
}

#[test]
fn stored_header_is_left_out_of_the_content() {
    let config = RepositoryConfig::default();
    let env = environment();
    let repo = MercurialRepo::new(&config, &env);
    let mut cs = changeset(0, None, None);
    cs.files = vec![
        ChangesetFile {
            path: b"copied".to_vec(),
            data: Some(b"\x01\ncopy: a\ncopyrev: 00\n\x01\nraw body".to_vec()),
            manifest_entry: Some(EntryKind::Regular),
        },
        ChangesetFile {
            path: b"open".to_vec(),
            data: Some(b"\x01\nnever closed".to_vec()),
            manifest_entry: Some(EntryKind::Regular),
        },
        ChangesetFile {
            path: b"plain".to_vec(),
            data: Some(b"x\x01\ny".to_vec()),
            manifest_entry: Some(EntryKind::Regular),
        },
    ];
    let mut out = Vec::new();
    repo.export_commit(&cs, 0, &mut NameMap::new(), &mut out, "master")
        .unwrap();
    assert!(text(&out).ends_with(
        "M 100644 inline copied\ndata 8\nraw body\
         M 100644 inline open\ndata 12\nnever closed\
         M 100644 inline plain\ndata 4\nx\x01\ny"
    ));
}

#[test]
fn inconsistent_file_is_refused_after_the_files_before_it() {
    let config = RepositoryConfig::default();
    let env = environment();
    let repo = MercurialRepo::new(&config, &env);
    let mut cs = changeset(0, None, None);
    cs.header.extra.push(extra("close", "1"));
    cs.files = vec![
        ChangesetFile {
            path: b"ok".to_vec(),
            data: Some(b"1".to_vec()),
            manifest_entry: Some(EntryKind::Regular),
        },
        ChangesetFile {
            path: b"bad/file".to_vec(),
            data: Some(b"2".to_vec()),
            manifest_entry: None,
        },
        ChangesetFile {
            path: b"never".to_vec(),
            data: None,
            manifest_entry: None,
        },
    ];
    let mut out = Vec::new();
    let mut brmap = NameMap::new();
    let result = repo.export_commit(&cs, 0, &mut brmap, &mut out, "master");
    assert!(matches!(result, Err(ErrorKind::WrongFileData(ref p)) if p == "bad/file"));
    assert!(text(&out).ends_with("init\n\nM 100644 inline ok\ndata 1\n1"));
    assert!(brmap.contains_key("master"));

    let mut cs = changeset(0, None, None);
    cs.files = vec![ChangesetFile {
        path: b"bad".to_vec(),
        data: None,
        manifest_entry: Some(EntryKind::Regular),
    }];
    let result = repo.export_commit(&cs, 0, &mut NameMap::new(), &mut Vec::new(), "master");
    assert!(matches!(result, Err(ErrorKind::WrongFileData(ref p)) if p == "bad"));
}

#[test]
fn user_and_branch_must_be_utf8() {
    let config = RepositoryConfig::default();
    let env = environment();
    let repo = MercurialRepo::new(&config, &env);
    let mut cs = changeset(0, None, None);
    cs.header.user = vec![0xff, b'<', b'a', b'>'];
    let mut out = Vec::new();
    let result = repo.export_commit(&cs, 0, &mut NameMap::new(), &mut out, "master");
    assert!(matches!(result, Err(ErrorKind::Encoding)));
    assert!(out.is_empty());

    let mut cs = changeset(0, None, None);
    cs.header.extra.push(ExtraEntry {
        key: b"branch".to_vec(),
        value: vec![b'a', 0xc3],
    });
    let mut brmap = NameMap::new();
    let result = repo.export_commit(&cs, 0, &mut brmap, &mut out, "master");
    assert!(matches!(result, Err(ErrorKind::Encoding)));
    assert!(out.is_empty());
    assert!(!brmap.contains_key("master"));
}

#[test]
fn user_without_address_is_refused_before_anything_is_written() {
    let config = RepositoryConfig::default();
    let env = environment();
    let repo = MercurialRepo::new(&config, &env);
    let mut cs = changeset(0, None, None);
    cs.header.user = b"Alice".to_vec();
    let mut out = Vec::new();
    let result = repo.export_commit(&cs, 5, &mut NameMap::new(), &mut out, "master");
    assert!(matches!(result, Err(ErrorKind::WrongUser(ref u)) if u == "Alice"));
    assert!(out.is_empty());
}

#[test]
fn last_branch_property_wins_and_the_map_is_asked_first() {
    let config = RepositoryConfig {
        branch_prefix: Some("hg-".into()),
        ..RepositoryConfig::default()
    };
    let mut env = environment();
    env.fix_wrong_branchname = true;
    let repo = MercurialRepo::new(&config, &env);
    let mut brmap = NameMap::new();
    brmap.insert("old name".into(), "renamed".into());

    let mut cs = changeset(1, Some(0), None);
    cs.header.extra.push(extra("branch", "first"));
    cs.header.extra.push(extra("branch", "my branch"));
    let mut out = Vec::new();
    repo.export_commit(&cs, 0, &mut brmap, &mut out, "master")
        .unwrap();
    assert!(text(&out).starts_with("reset refs/heads/hg-my-branch\ncommit refs/heads/hg-my-branch\n"));
    assert_eq!(brmap.get("my branch").map(|s| s.as_str()), Some("hg-my-branch"));
    assert!(!brmap.contains_key("first"));

    let mut cs = changeset(2, Some(1), None);
    cs.header.extra.push(extra("branch", "old name"));
    let mut out = Vec::new();
    repo.export_commit(&cs, 0, &mut brmap, &mut out, "master")
        .unwrap();
    assert!(text(&out).starts_with("reset refs/heads/renamed\ncommit refs/heads/renamed\n"));

    // the default branch goes without the prefix unless asked otherwise
    let cs = changeset(3, Some(2), None);
    let mut out = Vec::new();
    repo.export_commit(&cs, 0, &mut brmap, &mut out, "master")
        .unwrap();
    assert!(text(&out).starts_with("reset refs/heads/master\n"));
    let config = RepositoryConfig {
        branch_prefix: Some("hg-".into()),
        prefix_default_branch: true,
        ..RepositoryConfig::default()
    };
    let repo = MercurialRepo::new(&config, &env);
    let mut out = Vec::new();
    repo.export_commit(&cs, 0, &mut NameMap::new(), &mut out, "master")
        .unwrap();
    assert!(text(&out).starts_with("reset refs/heads/hg-master\n"));
}

#[test]
fn close_needs_the_value_one() {
    let config = RepositoryConfig::default();
    let env = environment();
    let repo = MercurialRepo::new(&config, &env);
    let mut cs = changeset(1, Some(0), None);
    cs.header.extra.push(extra("close", "0"));
    let mut out = Vec::new();
    repo.export_commit(&cs, 0, &mut NameMap::new(), &mut out, "master")
        .unwrap();
    assert!(!text(&out).contains("archive"));
}

fn zone(tz_offset: i32) -> String {
    let config = RepositoryConfig::default();
    let env = environment();
    let repo = MercurialRepo::new(&config, &env);
    let mut cs = changeset(0, None, None);
    cs.header.tz_offset = tz_offset;
    cs.header.time = -5;
    let mut out = Vec::new();
    repo.export_commit(&cs, 0, &mut NameMap::new(), &mut out, "master")
        .unwrap();
    let out = text(&out);
    let line = out.lines().nth(2).unwrap().to_string();
    line.strip_prefix("author John Doe <john@example.com> -5 ")
        .unwrap()
        .to_string()
}

#[test]
fn time_zone_is_written_east_of_utc() {
    assert_eq!(zone(0), "+0000");
    assert_eq!(zone(-3600), "+0100");
    assert_eq!(zone(-19800), "+0530");
    assert_eq!(zone(-45900), "+1245");
    assert_eq!(zone(18000), "-0500");
    assert_eq!(zone(-60), "+0001");
    assert_eq!(zone(-59), "+0000");
    // hours and minutes each carry their own sign
    assert_eq!(zone(12600), "-03-30");
    assert_eq!(zone(1800), "+00-30");
    assert_eq!(zone(300), "+00-5");
    for tz in [0, -3600, -19800, 18000, 12600, 1800, 300, 86399, -86399] {
        let east = -tz;
        assert_eq!(zone(tz), format!("{:+03}{:02}", east / 3600, (east % 3600) / 60));
    }
}

#[test]
fn message_is_written_as_it_is() {
    let config = RepositoryConfig::default();
    let env = environment();
    let repo = MercurialRepo::new(&config, &env);
    let mut cs = changeset(0, None, None);
    cs.header.comment = "two\nlines é".as_bytes().to_vec();
    let mut out = Vec::new();
    repo.export_commit(&cs, 0, &mut NameMap::new(), &mut out, "master")
        .unwrap();
    assert!(text(&out).ends_with("data 13\ntwo\nlines é\n\n"));
}

#[test]
fn tags_of_the_range_are_written_in_order() {
    let config = RepositoryConfig {
        offset: Some(10),
        tag_prefix: Some("hg-".into()),
        ..RepositoryConfig::default()
    };
    let env = environment();
    let repo = MercurialRepo::new(&config, &env);
    let tags = vec![
        Tag { revision: 0, name: "v0".into() },
        Tag { revision: 2, name: "v 1".into() },
        Tag { revision: 3, name: "v2".into() },
        Tag { revision: 5, name: "v3".into() },
    ];
    let mut out = Vec::new();
    let count = repo.export_tags(2..5, 7, &tags, &mut out);
    assert_eq!(count, 9);
    assert_eq!(
        text(&out),
        "reset refs/tags/hg-v 1\nfrom :13\n\nreset refs/tags/hg-v2\nfrom :14\n\n"
    );
    let mut out = Vec::new();
    assert_eq!(repo.export_tags(1..1, 7, &tags, &mut out), 7);
    assert!(out.is_empty());
}
