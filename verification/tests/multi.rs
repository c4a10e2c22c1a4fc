use hg_git_fast_import::config::{
    MergedBranch, MultiConfig, PathRepositoryConfig, RepositoryConfig,
};
use hg_git_fast_import::interleave::{
    chronological_order, earliest_source, earliest_time, is_at_time, merge_by_time,
};
use hg_git_fast_import::names::NameSet;
use hg_git_fast_import::multi::{multi2git, GitStep, MultiAction, MultiRun};

fn repository(alias: Option<&str>, prefix: Option<&str>, merged: &[(&str, &str)]) -> PathRepositoryConfig {
    PathRepositoryConfig {
        alias: alias.map(String::from),
        path_hg: "hg".into(),
        path_git: "git".into(),
        config: RepositoryConfig {
            path_prefix: prefix.map(String::from),
            ..RepositoryConfig::default()
        },
        merged_branches: if merged.is_empty() {
            None
        } else {
            Some(
                merged
                    .iter()
                    .map(|(to, from)| MergedBranch {
                        branch_to: to.to_string(),
                        branch_from: from.to_string(),
                    })
                    .collect(),
            )
        },
    }
}

fn config() -> MultiConfig {
    MultiConfig {
        path_git: "000_git".into(),
        repositories: vec![
            repository(None, Some("prefix1"), &[("branch_in_git", "branch2"), ("other", "x")]),
            repository(Some("another_002"), Some("p"), &[("branch_in_git", "branch_in_hg")]),
            repository(Some("third"), None, &[]),
        ],
    }
}

fn shown(steps: &[GitStep]) -> Vec<String> {
    steps
        .iter()
        .map(|step| match step {
            GitStep::CreateRepo => "create".to_string(),
            GitStep::RemoteAdd { alias, repository } => format!("remote {alias} {repository}"),
            GitStep::FetchAll => "fetch".to_string(),
            GitStep::Checkout(branch) => format!("checkout {branch}"),
            GitStep::MergeUnrelated(branches) => format!("merge {}", branches.join(" ")),
        })
        .collect()
}

#[test]
fn new_repository_merges_one_by_one() {
    let config = config();
    assert!(config.is_named());
    assert_eq!(
        shown(&multi2git(&config, None)),
        [
            "create",
            "remote prefix1 0",
            "remote another_002 1",
            "remote third 2",
            "fetch",
            "checkout branch_in_git",
            "merge prefix1/branch2",
            "merge another_002/branch_in_hg",
            "checkout other",
            "merge prefix1/x",
        ]
    );
}

#[test]
fn old_repository_merges_at_once_and_keeps_its_remotes() {
    let mut remotes = NameSet::new();
    assert!(remotes.insert("origin".to_string()));
    assert!(remotes.insert("another_002".to_string()));
    assert!(!remotes.insert("origin".to_string()));
    assert!(remotes.contains("origin") && !remotes.contains("prefix1"));
    assert_eq!(
        shown(&multi2git(&config(), Some(&remotes))),
        [
            "remote prefix1 0",
            "remote third 2",
            "fetch",
            "checkout branch_in_git",
            "merge prefix1/branch2 another_002/branch_in_hg",
            "checkout other",
            "merge prefix1/x",
        ]
    );
}

#[test]
fn nothing_to_merge_still_fetches() {
    let config = MultiConfig {
        path_git: "g".into(),
        repositories: vec![],
    };
    assert!(config.is_named());
    assert_eq!(shown(&multi2git(&config, Some(&NameSet::new()))), ["fetch"]);
    assert_eq!(shown(&multi2git(&config, None)), ["create", "fetch"]);
}

#[test]
fn repository_without_alias_and_prefix_is_not_named() {
    let config = MultiConfig {
        path_git: "g".into(),
        repositories: vec![repository(Some("a"), None, &[]), repository(None, None, &[])],
    };
    assert!(!config.is_named());
}

#[test]
fn two_sources_are_interleaved_by_time() {
    let order = chronological_order(&vec![vec![10, 30], vec![20]]);
    assert_eq!(order, [(0, 0), (1, 0), (0, 1)]);
}

#[test]
fn earlier_listed_source_goes_first_on_equal_times() {
    let order = chronological_order(&vec![vec![5, 5, 9], vec![5, 7], vec![], vec![1, 5]]);
    assert_eq!(
        order,
        [(3, 0), (0, 0), (0, 1), (1, 0), (3, 1), (1, 1), (0, 2)]
    );
    assert!(chronological_order(&vec![]).is_empty());
    assert!(chronological_order(&vec![vec![], vec![]]).is_empty());
    // a source that is not in the order of its times is walked as it is
    assert_eq!(
        chronological_order(&vec![vec![5, 3], vec![3]]),
        [(1, 0), (0, 0), (0, 1)]
    );
}

#[test]
fn earliest_source_is_the_first_with_the_least_time() {
    assert_eq!(earliest_source(&[]), None);
    assert_eq!(earliest_source(&[None, None]), None);
    assert_eq!(earliest_source(&[None, Some(4), Some(2), Some(2)]), Some(2));
    assert_eq!(earliest_source(&[Some(-1), None, Some(-1)]), Some(0));
    assert_eq!(earliest_source(&[Some(i64::MAX), Some(i64::MIN)]), Some(1));
}

#[test]
fn sources_are_imported_in_order_before_the_aggregation() {
    let config = config();
    let mut run = MultiRun::begin(&config);
    for source in 0..3 {
        assert_eq!(run.action(), MultiAction::Export(source));
        run.exported(true);
    }
    assert_eq!(run.action(), MultiAction::Aggregate);
    run.exported(false);
    assert_eq!(run.action(), MultiAction::Aggregate);
    let empty = MultiConfig { path_git: "g".into(), repositories: vec![] };
    assert_eq!(MultiRun::begin(&empty).action(), MultiAction::Aggregate);
}

#[test]
fn failed_import_stops_the_run() {
    let config = config();
    let mut run = MultiRun::begin(&config);
    run.exported(true);
    assert_eq!(run.action(), MultiAction::Export(1));
    run.exported(false);
    assert_eq!(run.action(), MultiAction::Fail);
    run.exported(true);
    assert_eq!(run.action(), MultiAction::Fail);
}

#[test]
fn walk_by_time_yields_the_chronological_order() {
    let sources = vec![
        vec![(5, "a0"), (5, "a1"), (9, "a2")],
        vec![(5, "b0"), (7, "b1")],
        vec![],
        vec![(1, "d0"), (5, "d1")],
    ];
    let times: Vec<Vec<i64>> = sources
        .iter()
        .map(|source| source.iter().map(|item| item.0).collect())
        .collect();
    let expected: Vec<(i64, &str)> = chronological_order(&times)
        .into_iter()
        .map(|(source, index)| sources[source][index])
        .collect();
    let merged = merge_by_time(sources);
    assert_eq!(merged, expected);
    assert_eq!(
        merged,
        [(1, "d0"), (5, "a0"), (5, "a1"), (5, "b0"), (5, "d1"), (7, "b1"), (9, "a2")]
    );
    assert!(merge_by_time(Vec::<Vec<(i64, u8)>>::new()).is_empty());
    assert_eq!(merge_by_time(vec![vec![(10, 'a'), (30, 'c')], vec![(20, 'b')]]), [(10, 'a'), (20, 'b'), (30, 'c')]);
}

#[test]
fn least_time_of_the_heads() {
    let (a, b) = ((4i64, 'a'), (2i64, 'b'));
    assert_eq!(earliest_time(&[None, Some(&a), Some(&b)]), Some(2));
    assert_eq!(earliest_time::<char>(&[None, None]), None);
    assert_eq!(earliest_time::<char>(&[]), None);
    assert!(is_at_time(&Some(&a), &Some(4)));
    assert!(!is_at_time(&Some(&a), &Some(2)));
    assert!(!is_at_time(&Some(&a), &None));
    assert!(!is_at_time::<char>(&None, &Some(2)));
    assert!(is_at_time::<char>(&None, &None));
}
