use hg_git_fast_import::author::{author_from_groups, fixup_user, lookup_author, AUTHOR_PATTERN};
use hg_git_fast_import::error::{wrong_user_message, ErrorKind};
use hg_git_fast_import::names::NameMap;

fn names(pairs: &[(&str, &str)]) -> Option<NameMap> {
    let mut map = NameMap::new();
    for (name, value) in pairs {
        map.insert(name.to_string(), value.to_string());
    }
    Some(map)
}

#[test]
fn user_with_address_is_kept() {
    assert_eq!(
        fixup_user(&None, &None, "John Doe <john@example.com>").unwrap(),
        "John Doe <john@example.com>"
    );
    // the address may follow the name at once, and whitespace before it goes
    assert_eq!(fixup_user(&None, &None, "John<j@x>").unwrap(), "John <j@x>");
    assert_eq!(
        fixup_user(&None, &None, "John Doe  \t <j@x>").unwrap(),
        "John Doe <j@x>"
    );
    assert_eq!(fixup_user(&None, &None, "a <>").unwrap(), "a <>");
    // the search goes on behind an address that does not end the name
    assert_eq!(fixup_user(&None, &None, "a <b> c <d>").unwrap(), "b> c <d>");
    assert_eq!(fixup_user(&None, &None, "a <b<c>").unwrap(), "a <b<c>");
}

#[test]
fn user_without_address_is_refused_with_advice() {
    let result = fixup_user(&None, &None, "Alice");
    assert!(matches!(result, Err(ErrorKind::WrongUser(ref u)) if u == "Alice"));
    let message = wrong_user_message("Alice");
    assert!(message.contains("    'Alice' = 'My <my@normal.xyz>'\n"));
    assert_eq!(
        message,
        "wrong name of Mercurial user 'Alice'.\n\
         Must be in form 'Username <username@email.xyz>'.\n\
         Use --authors option to specify mapping file in TOML format.\n\
         Or use [authors] section in config.\n\
         \n\
         Example:\n\
         \n    'Alice' = 'My <my@normal.xyz>'\n\
         \n\
         will replace Mercurial 'Alice' with 'My <my@normal.xyz>' in Git.\n"
    );
}

#[test]
fn users_that_do_not_have_the_shape_are_refused() {
    for user in ["", "   ", "<a@b>", "a <b> ", "a <b>\n", "a <b>>", "a@b"] {
        let result = fixup_user(&None, &None, user);
        assert!(
            matches!(result, Err(ErrorKind::WrongUser(ref u)) if u == user),
            "{user:?}"
        );
    }
}

#[test]
fn empty_author_after_trimming_is_refused() {
    for user in [" <a@b>", "  \t<a@b>", "\u{a0}<a@b>"] {
        let result = fixup_user(&None, &None, user);
        assert!(
            matches!(result, Err(ErrorKind::WrongUser(ref u)) if u == user),
            "{user:?}"
        );
    }
}

#[test]
fn maps_come_before_the_pattern_and_the_local_one_first() {
    let local = names(&[("aaa", "Bbb <bbb@company.xyz>"), ("x <y>", "Local <l@l>")]);
    let global = names(&[("aaa", "Global <g@g>"), ("ccc", "Qqq <qqq@another.dom>")]);
    assert_eq!(fixup_user(&local, &global, "aaa").unwrap(), "Bbb <bbb@company.xyz>");
    assert_eq!(fixup_user(&local, &global, "ccc").unwrap(), "Qqq <qqq@another.dom>");
    assert_eq!(fixup_user(&None, &global, "aaa").unwrap(), "Global <g@g>");
    assert_eq!(fixup_user(&local, &global, "x <y>").unwrap(), "Local <l@l>");
    assert_eq!(fixup_user(&local, &global, "z <y>").unwrap(), "z <y>");
    assert!(fixup_user(&local, &global, "zzz").is_err());
    assert_eq!(lookup_author(&local, &global, "zzz"), None);
    assert_eq!(
        lookup_author(&local, &global, "ccc"),
        Some("Qqq <qqq@another.dom>".to_string())
    );
}

#[test]
fn author_is_made_of_the_first_and_second_group() {
    let groups = Some(vec![
        Some("whole".to_string()),
        Some("Name \u{2003} ".to_string()),
        Some("<mail>".to_string()),
    ]);
    assert_eq!(author_from_groups("u", &groups).unwrap(), "Name <mail>");
    for groups in [
        None,
        Some(vec![]),
        Some(vec![Some("a <b>".to_string()), Some("a".to_string())]),
        Some(vec![Some("w".to_string()), None, Some("<b>".to_string())]),
        Some(vec![Some("w".to_string()), Some("a".to_string()), None]),
        Some(vec![Some("w".to_string()), Some(" ".to_string()), Some("<b>".to_string())]),
        Some(vec![
            Some("w".to_string()),
            Some("a".to_string()),
            Some("<b>".to_string()),
            Some("c".to_string()),
        ]),
    ] {
        let result = author_from_groups("the user", &groups);
        assert!(matches!(result, Err(ErrorKind::WrongUser(ref u)) if u == "the user"));
    }
}

#[test]
fn pattern_is_the_documented_one() {
    assert_eq!(AUTHOR_PATTERN, "([^<]+) ?(<[^>]*>)$");
}
