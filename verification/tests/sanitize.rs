use hg_git_fast_import::sanitize::{sanitize_branchname, sanitize_name, strip_leading_slash};

#[test]
fn sanitize_branchnames() {
    assert_eq!(&sanitize_branchname("normal", None, false), "normal");
    assert_eq!(&sanitize_branchname("normal", None, true), "normal");
    assert_eq!(&sanitize_branchname("////normal", None, true), "////normal");
    assert_eq!(
        &sanitize_branchname("with spaces  ", None, true),
        "with-spaces--"
    );
    assert_eq!(
        &sanitize_branchname("with spaces  ", Some(&"prefix-".into()), true),
        "prefix-with-spaces--"
    );
    assert_eq!(
        &sanitize_branchname(".dotatstart", None, true),
        "-dotatstart"
    );
    assert_eq!(
        &sanitize_branchname("dots.in.the.middle", None, true),
        "dots.in.the.middle"
    );
    assert_eq!(
        &sanitize_branchname("doubledots..", None, true),
        "doubledots.-"
    );
    assert_eq!(&sanitize_branchname("...", None, true), "---");
    assert_eq!(
        &sanitize_branchname("branch.lock", None, true),
        "branch-lock"
    );
    assert_eq!(&sanitize_branchname("//qqq//", None, true), "//qqq/-");
}

#[test]
fn sanitize_lock_suffix_after_rewrite() {
    assert_eq!(&sanitize_branchname("feature .lock", None, true), "feature--lock");
    assert_eq!(&sanitize_branchname("release.lock", None, true), "release-lock");
}

#[test]
fn sanitize_forbidden_characters() {
    assert_eq!(&sanitize_branchname("a~b^c:d\\e\tf\0g", None, true), "a-b-c-d-e-f-g");
    assert_eq!(&sanitize_branchname("a~b^c:d\\e\tf", None, false), "a~b^c:d\\e\tf");
    assert_eq!(&sanitize_branchname("/", None, true), "-");
    assert_eq!(&sanitize_branchname("//", None, true), "/-");
    assert_eq!(&sanitize_branchname("/.hidden", None, true), "/-hidden");
    assert_eq!(&sanitize_branchname("//.hidden", None, true), "//-hidden");
    assert_eq!(&sanitize_branchname("//a/.hidden", None, true), "//a/.hidden");
    assert_eq!(&sanitize_branchname("/..", None, true), "/--");
    assert_eq!(&sanitize_branchname("", None, true), "");
    assert_eq!(&sanitize_branchname(".lock", None, true), "-lock");
    assert_eq!(&sanitize_branchname("a.lock/", None, true), "a.lock-");
}

#[test]
fn sanitize_is_idempotent_on_examples() {
    let prefix: String = "p/".into();
    for name in [
        "normal",
        "with spaces  ",
        "...",
        "branch.lock",
        "//qqq//",
        "feature .lock",
        "/",
        "a..b/.c",
        "//.hidden",
        "/.lock",
        "x.lock.lock",
    ] {
        let once = sanitize_branchname(name, Some(&prefix), true);
        let twice = sanitize_branchname(&once, None, true);
        assert_eq!(once, twice);
    }
}

#[test]
fn sanitize_name_puts_prefix_in_front() {
    assert_eq!(&sanitize_name("v1.0 rc", None), "v1.0 rc");
    assert_eq!(&sanitize_name("v1.0 rc", Some(&"hg-".into())), "hg-v1.0 rc");
}

#[test]
fn strip_leading_slash_joins_with_slash() {
    assert_eq!(&strip_leading_slash(None, "a/b"), "a/b");
    assert_eq!(&strip_leading_slash(Some(&"sub".into()), "a/b"), "sub/a/b");
    assert_eq!(&strip_leading_slash(Some(&"sub".into()), ""), "sub/");
}
