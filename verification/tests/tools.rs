use hg_git_fast_import::cli::{BuildMarksArgs, Common};
use hg_git_fast_import::env::load_environment;
use hg_git_fast_import::names::NameMap;
use hg_git_fast_import::text::{parse_number, split_lines, trim_end};
use hg_git_fast_import::tools::{
    commit_message, find_matching_sha1_index, load_git_revlog_lines, load_marks, save_marks,
    select_from_matching, BuildMarks, Lookup, MarkTable,
};

fn table(table: &MarkTable) -> Vec<(usize, String)> {
    table.marks().iter().map(|m| (m.mark, m.sha1.clone())).collect()
}

#[test]
fn lines_are_cut_at_line_feeds() {
    assert_eq!(split_lines(b""), [b"".to_vec()]);
    assert_eq!(split_lines(b"a"), [b"a".to_vec()]);
    assert_eq!(split_lines(b"a\n"), [b"a".to_vec(), b"".to_vec()]);
    assert_eq!(
        split_lines(b"\nab\n\nc"),
        [b"".to_vec(), b"ab".to_vec(), b"".to_vec(), b"c".to_vec()]
    );
    for text in ["", "a", "a\n", "\nab\n\nc", "\n\n", "x\r\ny"] {
        let expected: Vec<Vec<u8>> = text.as_bytes().split(|&b| b == b'\n').map(|l| l.to_vec()).collect();
        assert_eq!(split_lines(text.as_bytes()), expected);
    }
}

#[test]
fn numbers_are_read_as_the_language_reads_them() {
    assert_eq!(parse_number(b"0"), Some(0));
    assert_eq!(parse_number(b"007"), Some(7));
    assert_eq!(parse_number(b"+15"), Some(15));
    assert_eq!(parse_number(b"1600000000"), Some(1_600_000_000));
    assert_eq!(parse_number(usize::MAX.to_string().as_bytes()), Some(usize::MAX));
    for text in [
        "", "+", "-1", "1 ", " 1", "1a", "++1", "1+", "18446744073709551616",
        "99999999999999999999999", "0x10", "1_000",
    ] {
        assert_eq!(parse_number(text.as_bytes()), text.parse::<usize>().ok(), "{text:?}");
    }
    for n in [1usize, 9, 10, 99, 100, 12345, usize::MAX - 1, usize::MAX / 10, usize::MAX / 10 + 1] {
        assert_eq!(parse_number(n.to_string().as_bytes()), Some(n));
    }
}

#[test]
fn whitespace_at_the_end_is_trimmed() {
    for text in ["", "a", "a ", "a \t\n", " a b  ", "\u{2003}x\u{2003}\u{a0}", "  "] {
        assert_eq!(trim_end(text), text.trim_end());
    }
}

#[test]
fn log_is_read_three_lines_a_commit() {
    let log = load_git_revlog_lines(
        b"aaaa\n1600000000\nJohn Doe <john@example.com>\nbbbb\n1600000001\nAnn <a@x>",
    )
    .unwrap();
    assert_eq!(log.len(), 2);
    assert_eq!(log[0].sha1, "aaaa");
    assert_eq!(log[0].date, 1_600_000_000);
    assert_eq!(log[0].user, "John Doe <john@example.com>");
    assert!(!log[0].taken);
    assert_eq!(log[1].sha1, "bbbb");
    assert_eq!(log[1].date, 1_600_000_001);
    assert_eq!(log[1].user, "Ann <a@x>");
    // lines that are left over describe no commit
    assert!(load_git_revlog_lines(b"").unwrap().is_empty());
    assert!(load_git_revlog_lines(b"aaaa\n12").unwrap().is_empty());
    assert_eq!(load_git_revlog_lines(b"a\n1\nu\nb\n2").unwrap().len(), 1);
    // what is not UTF-8 is replaced
    let log = load_git_revlog_lines(b"a\xff\n1\nu\xff").unwrap();
    assert_eq!(log[0].sha1, "a\u{fffd}");
    assert_eq!(log[0].user, "u\u{fffd}");
    // a time must be a number
    assert!(load_git_revlog_lines(b"a\nnow\nu").is_none());
    assert!(load_git_revlog_lines(b"a\n1\nu\nb\n\nv").is_none());
}

#[test]
fn marks_are_read_and_written_in_rising_order() {
    let marks = load_marks(b":3 cccc\n:1 aaaa\n\n:2 bbbb\n:1 zzzz\n").unwrap();
    assert_eq!(
        table(&marks),
        [(1, "zzzz".to_string()), (2, "bbbb".to_string()), (3, "cccc".to_string())]
    );
    assert_eq!(save_marks(&marks), b":1 zzzz\n:2 bbbb\n:3 cccc\n");
    assert_eq!(marks.get(2).map(|s| s.as_str()), Some("bbbb"));
    assert_eq!(marks.get(4), None);
    assert_eq!(marks.get(0), None);
    assert!(table(&load_marks(b"").unwrap()).is_empty());
    assert_eq!(save_marks(&MarkTable::new()), b"");
}

#[test]
fn lines_of_a_marks_file() {
    // a line with less than two words says nothing
    assert!(table(&load_marks(b":1\n\n   \nword\n").unwrap()).is_empty());
    // blanks around the words do not count, nor do more words
    assert_eq!(
        table(&load_marks(b"  :12\t abcd  more words \r\n").unwrap()),
        [(12, "abcd".to_string())]
    );
    // the first byte of the first word is not looked at
    assert_eq!(table(&load_marks(b"x7 abcd").unwrap()), [(7, "abcd".to_string())]);
    // the mark must be a number
    assert!(load_marks(b":x abcd\n").is_none());
    assert!(load_marks(b": abcd efgh\n").is_none());
    assert!(load_marks(b":1 aaaa\n:-2 bbbb\n:3 cccc\n").is_none());
}

#[test]
fn marks_are_bound_in_place_or_in_order() {
    let mut marks = MarkTable::new();
    marks.insert(5, "e".into());
    marks.insert(1, "a".into());
    marks.insert(9, "i".into());
    marks.insert(3, "c".into());
    marks.insert(5, "E".into());
    marks.insert(1, "A".into());
    marks.insert(9, "I".into());
    assert_eq!(
        table(&marks),
        [
            (1, "A".to_string()),
            (3, "c".to_string()),
            (5, "E".to_string()),
            (9, "I".to_string())
        ]
    );
}

fn reconciler() -> BuildMarks {
    let revlog = load_git_revlog_lines(
        b"s1\n10\nAnn <a@x>\ns2\n10\nAnn <a@x>\ns3\n20\nBob <b@x>\ns4\n10\nAnn <a@x>",
    )
    .unwrap();
    let marks = load_marks(b":1 s3\n:2 gone\n").unwrap();
    BuildMarks { revlog, marks }
}

#[test]
fn lookup_finds_what_is_left_for_a_revision() {
    let mut state = reconciler();
    assert_eq!(state.revlog_position("s3"), Some(2));
    assert_eq!(state.revlog_position("gone"), None);
    // the mark points to a commit of the log
    assert!(matches!(state.lookup(1, "Ann <a@x>", 10), Lookup::Kept));
    assert!(matches!(state.lookup(1, "nobody", 0), Lookup::Kept));
    // the mark points to a commit that is not in the log
    assert!(matches!(state.lookup(2, "Bob <b@x>", 20), Lookup::Single(2)));
    assert!(matches!(state.lookup(2, "Bob <b@x>", 21), Lookup::Unknown));
    assert!(matches!(state.lookup(2, "Bob", 20), Lookup::Unknown));
    assert!(matches!(state.lookup(3, "Ann <a@x>", 10), Lookup::Several(ref c) if c == &[0, 1, 3]));

    state.bind(3, 1);
    assert!(state.revlog[1].taken);
    assert_eq!(state.marks.get(3).map(|s| s.as_str()), Some("s2"));
    assert!(matches!(state.lookup(3, "Ann <a@x>", 10), Lookup::Kept));
    assert!(matches!(state.lookup(4, "Ann <a@x>", 10), Lookup::Several(ref c) if c == &[0, 3]));
    state.bind(4, 0);
    assert!(matches!(state.lookup(5, "Ann <a@x>", 10), Lookup::Single(3)));
    state.bind(5, 3);
    assert!(matches!(state.lookup(6, "Ann <a@x>", 10), Lookup::Exhausted));
    state.bind(2, 2);
    assert_eq!(
        save_marks(&state.marks),
        b":1 s3\n:2 s3\n:3 s2\n:4 s1\n:5 s4\n"
    );
}

#[test]
fn message_stands_between_the_full_stops() {
    assert_eq!(commit_message(b".init\n.\n"), Some(b"init".to_vec()));
    assert_eq!(commit_message(b".a.b\n\nc.\n.\n"), Some(b"a.b\n\nc.".to_vec()));
    assert_eq!(commit_message(b"warning\n.msg\n."), Some(b"msg".to_vec()));
    assert_eq!(commit_message(b".\n."), Some(b"".to_vec()));
    assert_eq!(commit_message(b".x."), Some(b"".to_vec()));
    assert_eq!(commit_message(b".."), None);
    assert_eq!(commit_message(b"."), None);
    assert_eq!(commit_message(b""), None);
    assert_eq!(commit_message(b"no stop"), None);
}

#[test]
fn candidates_are_matched_by_their_message() {
    let outputs = vec![
        b".fix\n.\n".to_vec(),
        b".fix bug\n.\n".to_vec(),
        b"none".to_vec(),
        b".fix\n.\n".to_vec(),
    ];
    assert_eq!(find_matching_sha1_index(b"fix bug", &outputs), [1]);
    assert_eq!(find_matching_sha1_index(b"fix", &outputs), [0, 3]);
    assert!(find_matching_sha1_index(b"other", &outputs).is_empty());
    assert!(find_matching_sha1_index(b"fix", &vec![]).is_empty());
    assert_eq!(select_from_matching(&vec![1]), Some(1));
    assert_eq!(select_from_matching(&vec![0, 3]), None);
    assert_eq!(select_from_matching(&vec![]), None);
}

#[test]
fn command_line_settings() {
    let common = Common {
        authors: None,
        no_clean_closed_branches: true,
        verify: true,
        git_active_branches: Some(3),
        log: None,
        clean: false,
        cron: true,
        target_push: false,
        target_pull: true,
        source_pull: false,
        fix_wrong_branchname: true,
        ignore_unknown_requirements: false,
    };
    let mut authors = NameMap::new();
    authors.insert("a".into(), "A <a@a>".into());
    let env = load_environment(&common, Some(authors));
    assert!(env.no_clean_closed_branches && env.cron && env.target_pull && env.fix_wrong_branchname);
    assert!(!env.clean && !env.target_push && !env.source_pull);
    assert_eq!(env.authors.unwrap().get("a").map(|s| s.as_str()), Some("A <a@a>"));
    assert!(load_environment(&common, None).authors.is_none());

    let args = BuildMarksArgs {
        authors: None,
        hg_repo: "hg".into(),
        git_repo: "git".into(),
        offset: Some(1000),
        no_backup: false,
    };
    assert_eq!(args.mark_shift(), 1001);
    assert!(args.backup());
    let args = BuildMarksArgs { offset: None, no_backup: true, ..args };
    assert_eq!(args.mark_shift(), 1);
    assert!(!args.backup());
}

#[test]
fn whitespace_is_the_unicode_property() {
    let white = |c: char| {
        ('\u{9}'..='\u{d}').contains(&c)
            || c == ' '
            || c == '\u{85}'
            || c == '\u{a0}'
            || c == '\u{1680}'
            || ('\u{2000}'..='\u{200a}').contains(&c)
            || c == '\u{2028}'
            || c == '\u{2029}'
            || c == '\u{202f}'
            || c == '\u{205f}'
            || c == '\u{3000}'
    };
    for c in '\0'..=char::MAX {
        assert_eq!(c.is_whitespace(), white(c), "{:?}", c);
    }
    assert_eq!(trim_end("John Doe   "), "John Doe");
    assert_eq!(trim_end("x\u{3000}\u{2028}\t"), "x");
    assert_eq!(trim_end("x\u{200b}"), "x\u{200b}");
}
