use hg_git_fast_import::config::{resolved_default_branch, RepositoryConfig, RepositorySavedState};

#[test]
fn repository_saved_state_to_toml() {
    let expected = "type = \"OffsetedRevision\"\nvalue = [100, 200]\n";
    let result = RepositorySavedState::OffsetedRevision(100, 200).to_toml();
    assert_eq!(expected, result);
}

#[test]
fn saved_state_is_read_back() {
    for (commits, tags) in [(0, 0), (1, 1), (100, 200), (i64::MAX as usize, 7)] {
        let state = RepositorySavedState::OffsetedRevision(commits, tags);
        assert_eq!(RepositorySavedState::from_toml(&state.to_toml()), Some(state));
    }
    assert_eq!(
        RepositorySavedState::from_toml("value = [ 3,\n 4 ]\ntype = 'OffsetedRevision'"),
        Some(RepositorySavedState::OffsetedRevision(3, 4))
    );
}

#[test]
fn state_above_the_largest_signed_number_has_no_document() {
    assert!(RepositorySavedState::OffsetedRevision(0, 0).can_be_stored());
    assert!(RepositorySavedState::OffsetedRevision(i64::MAX as usize, i64::MAX as usize).can_be_stored());
    assert!(!RepositorySavedState::OffsetedRevision(i64::MAX as usize + 1, 0).can_be_stored());
    assert!(!RepositorySavedState::OffsetedRevision(0, usize::MAX).can_be_stored());
    assert_eq!(
        RepositorySavedState::from_toml("type = \"OffsetedRevision\"\nvalue = [9223372036854775808, 0]\n"),
        None
    );
}

#[test]
fn legacy_saved_state_is_accepted() {
    assert_eq!(
        RepositorySavedState::from_toml("type = \"OffsetedRevisionSet\"\nvalue = [12, 5, 9]\n"),
        Some(RepositorySavedState::OffsetedRevision(12, 12))
    );
    assert_eq!(
        RepositorySavedState::from_parts("OffsetedRevisionSet", &vec![4]),
        Some(RepositorySavedState::OffsetedRevision(4, 4))
    );
    assert_eq!(RepositorySavedState::from_parts("OffsetedRevisionSet", &vec![]), None);
    assert_eq!(RepositorySavedState::from_parts("OffsetedRevisionSet", &vec![-1, 4]), None);
}

#[test]
fn other_documents_are_no_saved_state() {
    for text in [
        "",
        "type = \"OffsetedRevision\"",
        "value = [1, 2]",
        "type = \"OffsetedRevision\"\nvalue = [1]",
        "type = \"OffsetedRevision\"\nvalue = [1, 2, 3]",
        "type = \"OffsetedRevision\"\nvalue = [1, -2]",
        "type = \"OffsetedRevision\"\nvalue = [1, \"2\"]",
        "type = \"OffsetedRevision\"\nvalue = 1",
        "type = \"Other\"\nvalue = [1, 2]",
        "type = 1\nvalue = [1, 2]",
        "type = \"OffsetedRevision\"\nvalue = [1, 2",
    ] {
        assert_eq!(RepositorySavedState::from_toml(text), None, "{text:?}");
    }
    assert_eq!(RepositorySavedState::from_parts("OffsetedRevision", &vec![1, 2, 3]), None);
    assert_eq!(RepositorySavedState::from_parts("offsetedrevision", &vec![1, 2]), None);
    assert_eq!(
        RepositorySavedState::from_parts("OffsetedRevision", &vec![i64::MAX, 0]),
        Some(RepositorySavedState::OffsetedRevision(i64::MAX as usize, 0))
    );
}

#[test]
fn default_config_allows_unnamed_heads() {
    let config = RepositoryConfig::default();
    assert!(config.allow_unnamed_heads);
    assert!(!config.prefix_default_branch);
    assert!(config.offset.is_none() && config.limit_high.is_none());
    assert!(config.authors.is_none() && config.branches.is_none());
    assert!(config.path_prefix.is_none() && config.branch_prefix.is_none());
    assert!(config.tag_prefix.is_none() && config.default_branch.is_none());
    assert_eq!(config.mark_offset(), 0);
    let config = RepositoryConfig {
        offset: Some(1000),
        ..RepositoryConfig::default()
    };
    assert_eq!(config.mark_offset(), 1000);
}

#[test]
fn default_branch_is_master_unless_named() {
    assert_eq!(resolved_default_branch(None), "master");
    assert_eq!(resolved_default_branch(Some("main")), "main");
    assert_eq!(resolved_default_branch(Some("")), "");
}
