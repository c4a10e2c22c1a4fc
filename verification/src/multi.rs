//! Bringing several imported repositories together in one Git repository.
//!
//! Each repository is imported into a Git repository of its own. The common
//! repository then gets each of them as a remote, fetches them, and merges
//! their branches as the configuration asks. What is to be done in the
//! common repository is worked out here, as a list of steps; who carries
//! them out runs Git.
use vstd::prelude::*;
use crate::config::{text_view, MultiConfig, PathRepositoryConfig};
use crate::names::NameSet;
use crate::text::{chars_of, same_text, string_of};

verus! {

/// One thing to do in the common repository.
#[derive(Debug)]
pub enum GitStep {
    /// Create the repository and initialise it.
    CreateRepo,
    /// Add the Git repository of the source with this index as a remote.
    RemoteAdd { alias: String, repository: usize },
    /// Fetch all remotes.
    FetchAll,
    /// Check this branch out, creating it if need be.
    Checkout(String),
    /// Merge these branches, whose histories are unrelated, in one merge.
    MergeUnrelated(Vec<String>),
}

pub enum GitStepView {
    CreateRepo,
    RemoteAdd { alias: Seq<char>, repository: nat },
    FetchAll,
    Checkout(Seq<char>),
    MergeUnrelated(Seq<Seq<char>>),
}

/// The texts of some strings.
pub open spec fn texts(strings: Seq<String>) -> Seq<Seq<char>> {
    Seq::new(strings.len(), |i: int| strings[i]@)
}

impl View for GitStep {
    type V = GitStepView;

    open spec fn view(&self) -> GitStepView {
        match self {
            GitStep::CreateRepo => GitStepView::CreateRepo,
            GitStep::RemoteAdd { alias, repository } => GitStepView::RemoteAdd {
                alias: alias@,
                repository: *repository as nat,
            },
            GitStep::FetchAll => GitStepView::FetchAll,
            GitStep::Checkout(branch) => GitStepView::Checkout(branch@),
            GitStep::MergeUnrelated(branches) => GitStepView::MergeUnrelated(texts(branches@)),
        }
    }
}

/// The views of some steps.
pub open spec fn steps_view(steps: Seq<GitStep>) -> Seq<GitStepView> {
    Seq::new(steps.len(), |i: int| steps[i]@)
}

/// A branch of the common repository and a branch of a remote that is to
/// be merged into it.
pub struct MergeRequest {
    pub branch_to: Seq<char>,
    pub branch_from: Seq<char>,
}

/// What the aggregation reads of a repository.
pub struct SourceView {
    pub alias: Option<Seq<char>>,
    pub path_prefix: Option<Seq<char>>,
    pub merged_branches: Seq<MergeRequest>,
}

impl View for PathRepositoryConfig {
    type V = SourceView;

    open spec fn view(&self) -> SourceView {
        SourceView {
            alias: text_view(self.alias),
            path_prefix: self.config@.path_prefix,
            merged_branches: match self.merged_branches {
                Some(merged) => Seq::new(
                    merged@.len(),
                    |i: int|
                        MergeRequest {
                            branch_to: merged@[i].branch_to@,
                            branch_from: merged@[i].branch_from@,
                        },
                ),
                None => Seq::empty(),
            },
        }
    }
}

impl View for MultiConfig {
    type V = Seq<SourceView>;

    open spec fn view(&self) -> Seq<SourceView> {
        Seq::new(self.repositories@.len(), |i: int| self.repositories@[i]@)
    }
}

/// Whether a repository can be named as a remote: by its alias, or by its
/// path prefix.
pub open spec fn is_named(source: SourceView) -> bool {
    source.alias is Some || source.path_prefix is Some
}

/// The name of a repository as a remote: its alias, or else its path prefix.
pub open spec fn remote_name(source: SourceView) -> Seq<char> {
    match source.alias {
        Some(alias) => alias,
        None => source.path_prefix->0,
    }
}

/// The steps that add as remotes the repositories whose names are not
/// among `remotes`, in the order of the configuration.
pub open spec fn remote_steps(sources: Seq<SourceView>, remotes: Set<Seq<char>>) -> Seq<
    GitStepView,
>
    decreases sources.len(),
{
    if sources.len() == 0 {
        Seq::empty()
    } else {
        let before = remote_steps(sources.drop_last(), remotes);
        if remotes.contains(remote_name(sources.last())) {
            before
        } else {
            before.push(
                GitStepView::RemoteAdd {
                    alias: remote_name(sources.last()),
                    repository: (sources.len() - 1) as nat,
                },
            )
        }
    }
}

/// The merges that one repository asks for, each branch of it named as the
/// branch of a remote.
pub open spec fn requests_of(source: SourceView) -> Seq<MergeRequest> {
    Seq::new(
        source.merged_branches.len(),
        |i: int|
            MergeRequest {
                branch_to: source.merged_branches[i].branch_to,
                branch_from: remote_name(source) + seq!['/'] + source.merged_branches[i].branch_from,
            },
    )
}

/// The merges that all repositories ask for, in the order of the
/// configuration.
pub open spec fn all_requests(sources: Seq<SourceView>) -> Seq<MergeRequest>
    decreases sources.len(),
{
    if sources.len() == 0 {
        Seq::empty()
    } else {
        all_requests(sources.drop_last()) + requests_of(sources.last())
    }
}

/// The branches to merge into one branch of the common repository.
pub struct MergeGroup {
    pub branch_to: Seq<char>,
    pub branches_from: Seq<Seq<char>>,
}

/// The place of the group of a branch among some groups, or their number
/// where the branch has no group yet.
pub open spec fn group_index(groups: Seq<MergeGroup>, branch_to: Seq<char>) -> int
    decreases groups.len(),
{
    if groups.len() == 0 {
        0
    } else {
        let before = group_index(groups.drop_last(), branch_to);
        if before < groups.len() - 1 {
            before
        } else if groups.last().branch_to == branch_to {
            groups.len() - 1
        } else {
            groups.len() as int
        }
    }
}

/// Some groups with one more request: it joins the group of its branch,
/// or opens a new group behind the others.
pub open spec fn with_request(groups: Seq<MergeGroup>, request: MergeRequest) -> Seq<MergeGroup> {
    let i = group_index(groups, request.branch_to);
    if i < groups.len() {
        groups.update(
            i,
            MergeGroup {
                branch_to: groups[i].branch_to,
                branches_from: groups[i].branches_from.push(request.branch_from),
            },
        )
    } else {
        groups.push(
            MergeGroup { branch_to: request.branch_to, branches_from: seq![request.branch_from] },
        )
    }
}

/// The requests grouped by the branch they merge into: the groups in the
/// order in which their branches first occur, the branches of a group in
/// the order of the requests.
pub open spec fn grouped(requests: Seq<MergeRequest>) -> Seq<MergeGroup>
    decreases requests.len(),
{
    if requests.len() == 0 {
        Seq::empty()
    } else {
        with_request(grouped(requests.drop_last()), requests.last())
    }
}

/// The branches that the requests ask to merge into `branch_to`, in the
/// order of the requests.
pub open spec fn sources_for(requests: Seq<MergeRequest>, branch_to: Seq<char>) -> Seq<Seq<char>>
    decreases requests.len(),
{
    if requests.len() == 0 {
        Seq::empty()
    } else {
        let before = sources_for(requests.drop_last(), branch_to);
        if requests.last().branch_to == branch_to {
            before.push(requests.last().branch_from)
        } else {
            before
        }
    }
}

/// The place that `group_index` gives is that of the first group of the
/// branch, and where there is none, no group is the branch's.
pub proof fn lemma_group_index(groups: Seq<MergeGroup>, branch_to: Seq<char>)
    ensures
        0 <= group_index(groups, branch_to) <= groups.len(),
        group_index(groups, branch_to) < groups.len() ==> groups[group_index(
            groups,
            branch_to,
        )].branch_to == branch_to,
        forall|i: int|
            0 <= i < group_index(groups, branch_to) ==> (#[trigger] groups[i]).branch_to
                != branch_to,
    decreases groups.len(),
{
    if groups.len() > 0 {
        let rest = groups.drop_last();
        lemma_group_index(rest, branch_to);
        assert(forall|i: int| 0 <= i < rest.len() ==> rest[i] == groups[i]);
    }
}

/// What grouping does: every branch that a request merges into has one
/// group, and the group holds the branches that the requests ask to merge
/// into it, in the order of the requests.
pub proof fn lemma_grouped(requests: Seq<MergeRequest>)
    ensures
        forall|i: int, j: int|
            0 <= i < j < grouped(requests).len() ==> (#[trigger] grouped(requests)[i]).branch_to != (
            #[trigger] grouped(requests)[j]).branch_to,
        forall|i: int|
            0 <= i < grouped(requests).len() ==> (#[trigger] grouped(requests)[i]).branches_from
                == sources_for(requests, grouped(requests)[i].branch_to) && grouped(
                requests,
            )[i].branches_from.len() > 0,
        forall|r: int|
            0 <= r < requests.len() ==> group_index(
                grouped(requests),
                (#[trigger] requests[r]).branch_to,
            ) < grouped(requests).len(),
    decreases requests.len(),
{
    if requests.len() > 0 {
        let rest = requests.drop_last();
        let last = requests.last();
        lemma_grouped(rest);
        let before = grouped(rest);
        let after = grouped(requests);
        lemma_group_index(before, last.branch_to);
        let at = group_index(before, last.branch_to);
        assert forall|i: int, j: int| 0 <= i < j < after.len() implies (#[trigger] after[i]).branch_to
            != (#[trigger] after[j]).branch_to by {
            if at < before.len() {
                assert(after[i].branch_to == before[i].branch_to);
                assert(after[j].branch_to == before[j].branch_to);
            } else if j < before.len() {
                assert(after[i] == before[i] && after[j] == before[j]);
            } else {
                assert(after[i] == before[i]);
            }
        }
        assert forall|i: int| 0 <= i < after.len() implies (#[trigger] after[i]).branches_from
            == sources_for(requests, after[i].branch_to) && after[i].branches_from.len() > 0 by {
            if i < before.len() {
                assert(before[i].branches_from == sources_for(rest, before[i].branch_to));
                if at < before.len() && i != at {
                    assert(before[i].branch_to != before[at].branch_to);
                }
            } else {
                // a new group: no request before asked for its branch
                lemma_no_sources(rest, last.branch_to);
            }
        }
        assert forall|r: int| 0 <= r < requests.len() implies group_index(
            after,
            (#[trigger] requests[r]).branch_to,
        ) < after.len() by {
            let wanted = requests[r].branch_to;
            lemma_group_index(after, wanted);
            if r < rest.len() {
                assert(rest[r] == requests[r]);
                lemma_group_index(before, wanted);
                let k = group_index(before, wanted);
                assert(after[k].branch_to == wanted);
            } else if at < before.len() {
                assert(after[at].branch_to == wanted);
            } else {
                assert(after[before.len() as int].branch_to == wanted);
            }
        }
    }
}

/// A branch that has no group was asked for by no request.
proof fn lemma_no_sources(requests: Seq<MergeRequest>, branch_to: Seq<char>)
    requires
        group_index(grouped(requests), branch_to) >= grouped(requests).len(),
    ensures
        sources_for(requests, branch_to) == Seq::<Seq<char>>::empty(),
    decreases requests.len(),
{
    if requests.len() > 0 {
        let rest = requests.drop_last();
        let last = requests.last();
        let before = grouped(rest);
        let after = grouped(requests);
        lemma_group_index(before, last.branch_to);
        lemma_group_index(before, branch_to);
        lemma_group_index(after, branch_to);
        let at = group_index(before, last.branch_to);
        let k = group_index(before, branch_to);
        if k < before.len() {
            // the group of the branch is still there
            assert(after[k].branch_to == branch_to);
        }
        if last.branch_to == branch_to {
            if at < before.len() {
                assert(after[at].branch_to == branch_to);
            } else {
                assert(after[before.len() as int].branch_to == branch_to);
            }
        }
        lemma_no_sources(rest, branch_to);
    }
}

/// The steps for one group: the branch is checked out, then its branches
/// are merged, one by one in a new repository, all at once in an old one.
pub open spec fn group_steps(group: MergeGroup, is_new: bool) -> Seq<GitStepView> {
    seq![GitStepView::Checkout(group.branch_to)] + (if is_new {
        Seq::new(
            group.branches_from.len(),
            |i: int| GitStepView::MergeUnrelated(seq![group.branches_from[i]]),
        )
    } else {
        seq![GitStepView::MergeUnrelated(group.branches_from)]
    })
}

/// The steps for some groups, in their order.
pub open spec fn merge_steps(groups: Seq<MergeGroup>, is_new: bool) -> Seq<GitStepView>
    decreases groups.len(),
{
    if groups.len() == 0 {
        Seq::empty()
    } else {
        merge_steps(groups.drop_last(), is_new) + group_steps(groups.last(), is_new)
    }
}

/// What is done in the common repository. A repository that does not
/// exist yet is created, and has no remotes. Then the sources that are not
/// remotes yet are added, all remotes are fetched, and the merges are made.
pub open spec fn aggregation_steps(sources: Seq<SourceView>, remotes: Option<Set<Seq<char>>>)
    -> Seq<GitStepView> {
    (match remotes {
        None => seq![GitStepView::CreateRepo] + remote_steps(sources, Set::empty()),
        Some(known) => remote_steps(sources, known),
    }) + seq![GitStepView::FetchAll] + merge_steps(grouped(all_requests(sources)), remotes is None)
}

/// The merges of one branch of the common repository, as they are collected.
struct Group {
    branch_to: String,
    branches_from: Vec<String>,
}

impl View for Group {
    type V = MergeGroup;

    closed spec fn view(&self) -> MergeGroup {
        MergeGroup { branch_to: self.branch_to@, branches_from: texts(self.branches_from@) }
    }
}

spec fn groups_view(groups: Seq<Group>) -> Seq<MergeGroup> {
    Seq::new(groups.len(), |i: int| groups[i]@)
}

/// The name of a repository as a remote.
fn alias_of(repo: &PathRepositoryConfig) -> (alias: &String)
    requires
        is_named(repo@),
    ensures
        alias@ == remote_name(repo@),
{
    match &repo.alias {
        Some(alias) => alias,
        None => match &repo.config.path_prefix {
            Some(prefix) => prefix,
            None => vstd::pervasive::unreached(),
        },
    }
}

fn copy_of(s: &str) -> (copy: String)
    ensures
        copy@ == s@,
{
    String::from_str(s)
}

/// Adds the steps for the remotes that are missing.
fn add_remote_steps(steps: &mut Vec<GitStep>, config: &MultiConfig, remotes: &NameSet)
    requires
        forall|i: int| 0 <= i < config@.len() ==> is_named(#[trigger] config@[i]),
    ensures
        steps_view(final(steps)@) == steps_view(old(steps)@) + remote_steps(
            config@,
            remotes@,
        ),
{
    let ghost start = steps_view(steps@);
    let ghost sources = config@;
    let mut i: usize = 0;
    assert(sources.take(0) =~= Seq::<SourceView>::empty());
    assert(steps_view(steps@) =~= start + remote_steps(sources.take(0), remotes@));
    while i < config.repositories.len()
        invariant
            i <= config.repositories.len(),
            sources == config@,
            sources.len() == config.repositories.len(),
            forall|i: int| 0 <= i < sources.len() ==> is_named(#[trigger] sources[i]),
            steps_view(steps@) == start + remote_steps(sources.take(i as int), remotes@),
        decreases config.repositories.len() - i,
    {
        let repo = &config.repositories[i];
        assert(sources[i as int] == repo@);
        assert(sources.take(i as int + 1).drop_last() =~= sources.take(i as int));
        let alias = alias_of(repo);
        let ghost before = steps@;
        if !remotes.contains(alias.as_str()) {
            steps.push(GitStep::RemoteAdd { alias: alias.clone(), repository: i });
            assert(steps_view(steps@) =~= steps_view(before).push(steps@.last()@));
        }
        assert(steps_view(steps@) =~= start + remote_steps(
            sources.take(i as int + 1),
            remotes@,
        ));
        i += 1;
    }
    assert(sources.take(sources.len() as int) =~= sources);
}

fn find_group(groups: &Vec<Group>, branch_to: &str) -> (i: usize)
    ensures
        i == group_index(groups_view(groups@), branch_to@),
        i <= groups@.len(),
{
    let ghost all = groups_view(groups@);
    let mut i: usize = 0;
    assert(all.take(0) =~= Seq::<MergeGroup>::empty());
    while i < groups.len()
        invariant
            i <= groups.len(),
            all == groups_view(groups@),
            group_index(all.take(i as int), branch_to@) == i,
        decreases groups.len() - i,
    {
        assert(all.take(i as int + 1).drop_last() =~= all.take(i as int));
        if same_text(groups[i].branch_to.as_str(), branch_to) {
            proof {
                lemma_group_index_found(all, i as int, all.len() as int, branch_to@);
                assert(all.take(all.len() as int) =~= all);
            }
            return i;
        }
        i += 1;
    }
    assert(all.take(all.len() as int) =~= all);
    i
}

/// Once the group of a branch is found, groups behind it do not matter.
proof fn lemma_group_index_found(groups: Seq<MergeGroup>, i: int, n: int, branch_to: Seq<char>)
    requires
        0 <= i < n <= groups.len(),
        group_index(groups.take(i), branch_to) == i,
        groups[i].branch_to == branch_to,
    ensures
        group_index(groups.take(n), branch_to) == i,
    decreases n,
{
    assert(groups.take(n).drop_last() =~= groups.take(n - 1));
    if n > i + 1 {
        lemma_group_index_found(groups, i, n - 1, branch_to);
    }
}

/// Puts one request into its group.
fn add_request(groups: &mut Vec<Group>, branch_to: &str, branch_from: String)
    ensures
        groups_view(final(groups)@) == with_request(
            groups_view(old(groups)@),
            MergeRequest { branch_to: branch_to@, branch_from: branch_from@ },
        ),
{
    let ghost before = groups_view(groups@);
    let i = find_group(groups, branch_to);
    if i < groups.len() {
        let ghost froms = groups@[i as int].branches_from@;
        groups[i].branches_from.push(branch_from);
        assert(texts(groups@[i as int].branches_from@) =~= texts(froms).push(branch_from@));
        assert(groups_view(groups@) =~= with_request(
            before,
            MergeRequest { branch_to: branch_to@, branch_from: branch_from@ },
        ));
    } else {
        let mut branches_from: Vec<String> = Vec::new();
        branches_from.push(branch_from);
        assert(texts(branches_from@) =~= seq![branch_from@]);
        groups.push(Group { branch_to: copy_of(branch_to), branches_from });
        assert(groups_view(groups@) =~= with_request(
            before,
            MergeRequest { branch_to: branch_to@, branch_from: branch_from@ },
        ));
    }
}

/// The branch `branch` of the remote `alias`.
fn remote_branch(alias: &str, branch: &str) -> (name: String)
    ensures
        name@ == alias@ + seq!['/'] + branch@,
{
    let mut chars = chars_of(alias);
    chars.push('/');
    let mut rest = chars_of(branch);
    chars.append(&mut rest);
    string_of(&chars)
}

/// Puts the requests of one repository into their groups.
fn add_requests_of(groups: &mut Vec<Group>, repo: &PathRepositoryConfig)
    requires
        is_named(repo@),
    ensures
        groups_view(final(groups)@) == grouped_onto(groups_view(old(groups)@), requests_of(repo@)),
{
    let ghost start = groups_view(groups@);
    let ghost requests = requests_of(repo@);
    assert(requests.take(0) =~= Seq::<MergeRequest>::empty());
    if let Some(merged) = &repo.merged_branches {
        let alias = alias_of(repo);
        let mut i: usize = 0;
        while i < merged.len()
            invariant
                i <= merged.len(),
                requests == requests_of(repo@),
                requests.len() == merged.len(),
                repo.merged_branches == Some(*merged),
                alias@ == remote_name(repo@),
                groups_view(groups@) == grouped_onto(start, requests.take(i as int)),
            decreases merged.len() - i,
        {
            let from = remote_branch(alias.as_str(), merged[i].branch_from.as_str());
            assert(requests.take(i as int + 1).drop_last() =~= requests.take(i as int));
            assert(requests.take(i as int + 1).last() == MergeRequest {
                branch_to: merged[i as int].branch_to@,
                branch_from: from@,
            });
            add_request(groups, merged[i].branch_to.as_str(), from);
            i += 1;
        }
        assert(requests.take(requests.len() as int) =~= requests);
    } else {
        assert(requests =~= Seq::<MergeRequest>::empty());
    }
}

/// Some groups with more requests, each put into its group in turn.
pub open spec fn grouped_onto(groups: Seq<MergeGroup>, requests: Seq<MergeRequest>) -> Seq<
    MergeGroup,
>
    decreases requests.len(),
{
    if requests.len() == 0 {
        groups
    } else {
        with_request(grouped_onto(groups, requests.drop_last()), requests.last())
    }
}

/// Grouping all requests is grouping the first of them and putting the
/// others onto the groups.
proof fn lemma_grouped_onto(first: Seq<MergeRequest>, more: Seq<MergeRequest>)
    ensures
        grouped(first + more) == grouped_onto(grouped(first), more),
    decreases more.len(),
{
    if more.len() == 0 {
        assert(first + more =~= first);
    } else {
        lemma_grouped_onto(first, more.drop_last());
        assert((first + more).drop_last() =~= first + more.drop_last());
        assert((first + more).last() == more.last());
    }
}

/// The groups of all merges that the repositories ask for.
fn collect_groups(config: &MultiConfig) -> (groups: Vec<Group>)
    requires
        forall|i: int| 0 <= i < config@.len() ==> is_named(#[trigger] config@[i]),
    ensures
        groups_view(groups@) == grouped(all_requests(config@)),
{
    let ghost sources = config@;
    let mut groups: Vec<Group> = Vec::new();
    let mut i: usize = 0;
    assert(sources.take(0) =~= Seq::<SourceView>::empty());
    assert(groups_view(groups@) =~= grouped(all_requests(sources.take(0))));
    while i < config.repositories.len()
        invariant
            i <= config.repositories.len(),
            sources == config@,
            sources.len() == config.repositories.len(),
            forall|i: int| 0 <= i < sources.len() ==> is_named(#[trigger] sources[i]),
            groups_view(groups@) == grouped(all_requests(sources.take(i as int))),
        decreases config.repositories.len() - i,
    {
        let repo = &config.repositories[i];
        assert(sources[i as int] == repo@);
        assert(sources.take(i as int + 1).drop_last() =~= sources.take(i as int));
        proof {
            lemma_grouped_onto(all_requests(sources.take(i as int)), requests_of(repo@));
        }
        add_requests_of(&mut groups, repo);
        i += 1;
    }
    assert(sources.take(sources.len() as int) =~= sources);
    groups
}

/// Adds the steps for one group.
fn add_group_steps(steps: &mut Vec<GitStep>, group: Group, is_new: bool)
    ensures
        steps_view(final(steps)@) == steps_view(old(steps)@) + group_steps(group@, is_new),
{
    let ghost start = steps_view(steps@);
    let ghost expected = group_steps(group@, is_new);
    let Group { branch_to, branches_from } = group;
    let ghost before = steps@;
    steps.push(GitStep::Checkout(branch_to));
    assert(steps_view(steps@) =~= start + seq![GitStepView::Checkout(branch_to@)]);
    if is_new {
        let ghost froms = texts(branches_from@);
        let ghost singles = Seq::new(
            froms.len(),
            |i: int| GitStepView::MergeUnrelated(seq![froms[i]]),
        );
        let mut i: usize = 0;
        while i < branches_from.len()
            invariant
                i <= branches_from.len(),
                froms == texts(branches_from@),
                singles == Seq::new(froms.len(), |i: int| GitStepView::MergeUnrelated(seq![froms[i]])),
                steps_view(steps@) == start + seq![GitStepView::Checkout(branch_to@)]
                    + singles.take(i as int),
            decreases branches_from.len() - i,
        {
            let mut single: Vec<String> = Vec::new();
            single.push(branches_from[i].clone());
            assert(texts(single@) =~= seq![froms[i as int]]);
            let ghost before = steps@;
            steps.push(GitStep::MergeUnrelated(single));
            assert(steps_view(steps@) =~= steps_view(before).push(steps@.last()@));
            assert(steps_view(steps@) =~= start + seq![GitStepView::Checkout(branch_to@)]
                + singles.take(i as int + 1));
            i += 1;
        }
        assert(singles.take(singles.len() as int) =~= singles);
        assert(steps_view(steps@) =~= start + expected);
    } else {
        let ghost before = steps@;
        steps.push(GitStep::MergeUnrelated(branches_from));
        assert(steps_view(steps@) =~= steps_view(before).push(steps@.last()@));
        assert(steps_view(steps@) =~= start + expected);
    }
}

/// Adds the steps for all groups.
fn add_merge_steps(steps: &mut Vec<GitStep>, groups: Vec<Group>, is_new: bool)
    ensures
        steps_view(final(steps)@) == steps_view(old(steps)@) + merge_steps(
            groups_view(groups@),
            is_new,
        ),
{
    let ghost start = steps_view(steps@);
    let ghost all = groups_view(groups@);
    let ghost n = groups@.len();
    // the groups are taken from the end of a reversed list, the first one first
    let mut rest = reverse_groups(groups);
    assert(all.take(0) =~= Seq::<MergeGroup>::empty());
    assert(steps_view(steps@) =~= start + merge_steps(all.take(0), is_new));
    while rest.len() > 0
        invariant
            rest@.len() <= n,
            n == all.len(),
            forall|j: int| 0 <= j < rest@.len() ==> (#[trigger] rest@[j])@ == all[n - 1 - j],
            steps_view(steps@) == start + merge_steps(all.take(n - rest@.len()), is_new),
        decreases rest.len(),
    {
        let ghost done = n - rest@.len();
        let group = rest.pop().unwrap();
        assert(group@ == all[done]);
        assert(all.take(done + 1).drop_last() =~= all.take(done));
        add_group_steps(steps, group, is_new);
        assert(steps_view(steps@) =~= start + merge_steps(all.take(done + 1), is_new));
    }
    assert(all.take(n as int) =~= all);
}

fn reverse_groups(groups: Vec<Group>) -> (reversed: Vec<Group>)
    ensures
        reversed@.len() == groups@.len(),
        forall|j: int|
            0 <= j < reversed@.len() ==> (#[trigger] reversed@[j])@ == groups_view(
                groups@,
            )[groups@.len() - 1 - j],
{
    let mut groups = groups;
    let ghost all = groups@;
    let mut reversed: Vec<Group> = Vec::new();
    while groups.len() > 0
        invariant
            groups@.len() <= all.len(),
            groups@ == all.take(groups@.len() as int),
            reversed@.len() == all.len() - groups@.len(),
            forall|j: int| 0 <= j < reversed@.len() ==> reversed@[j] == all[all.len() - 1 - j],
        decreases groups.len(),
    {
        let group = groups.pop().unwrap();
        reversed.push(group);
    }
    reversed
}

/// What the driver of a run over several sources does next.
#[derive(Clone, Copy, Debug, PartialEq, Eq, Structural)]
pub enum MultiAction {
    /// Import the source at this place of the configuration into its own
    /// Git repository, then call `exported`.
    Export(usize),
    /// Every source is imported: carry out the steps of `multi2git`.
    Aggregate,
    /// End with the error of the import that failed.
    Fail,
}

/// Where a run over several sources stands.
pub struct MultiRunView {
    /// The number of sources.
    pub sources: nat,
    /// The number of sources that are imported: the sources before this
    /// place, in the order of the configuration.
    pub imported: nat,
    /// Whether the import of the source at that place failed.
    pub failed: bool,
}

/// What a run calls for. The sources are imported one after another, in
/// the order of the configuration. Once one of them fails, no other source
/// is imported and nothing is done in the common repository. The common
/// repository has its turn when every source is imported.
pub open spec fn multi_action_of(run: MultiRunView) -> MultiAction {
    if run.failed {
        MultiAction::Fail
    } else if run.imported < run.sources {
        MultiAction::Export(run.imported as usize)
    } else {
        MultiAction::Aggregate
    }
}

/// A run after the import that it called for has ended. Where the run
/// called for no import, nothing changes.
pub open spec fn after_export(run: MultiRunView, succeeded: bool) -> MultiRunView {
    if run.failed || run.imported >= run.sources {
        run
    } else if succeeded {
        MultiRunView { imported: run.imported + 1, ..run }
    } else {
        MultiRunView { failed: true, ..run }
    }
}

/// A run that failed stays failed, whatever is reported to it: it calls
/// for no import and for no step in the common repository.
pub proof fn lemma_failed_run_stops(run: MultiRunView, succeeded: bool)
    requires
        run.failed,
    ensures
        multi_action_of(run) == MultiAction::Fail,
        after_export(run, succeeded) == run,
{
}

/// The sources are imported in the order of the configuration: a run that
/// calls for the import of a source has imported every source before it,
/// and the common repository has its turn only when all are imported.
pub proof fn lemma_sources_in_order(run: MultiRunView, succeeded: bool)
    requires
        run.imported <= run.sources <= usize::MAX,
    ensures
        multi_action_of(run) matches MultiAction::Export(i) ==> i == run.imported && (succeeded
            ==> after_export(run, succeeded).imported == i + 1) && (!succeeded
            ==> multi_action_of(after_export(run, succeeded)) == MultiAction::Fail),
        multi_action_of(run) == MultiAction::Aggregate ==> run.imported == run.sources
            && !run.failed,
{
}

/// The run over the sources of a configuration.
pub struct MultiRun {
    sources: usize,
    imported: usize,
    failed: bool,
}

impl View for MultiRun {
    type V = MultiRunView;

    closed spec fn view(&self) -> MultiRunView {
        MultiRunView {
            sources: self.sources as nat,
            imported: self.imported as nat,
            failed: self.failed,
        }
    }
}

impl MultiRun {
    #[verifier::type_invariant]
    spec fn is_within(&self) -> bool {
        self.imported <= self.sources
    }

    /// Begins the run over the sources of a configuration.
    pub fn begin(multi_config: &MultiConfig) -> (run: MultiRun)
        ensures
            run@ == (MultiRunView { sources: multi_config@.len(), imported: 0, failed: false }),
    {
        MultiRun { sources: multi_config.repositories.len(), imported: 0, failed: false }
    }

    /// What the driver does next.
    pub fn action(&self) -> (action: MultiAction)
        ensures
            action == multi_action_of(self@),
            self@.imported <= self@.sources,
    {
        proof {
            use_type_invariant(self);
        }
        if self.failed {
            MultiAction::Fail
        } else if self.imported < self.sources {
            MultiAction::Export(self.imported)
        } else {
            MultiAction::Aggregate
        }
    }

    /// Takes note of how the import that the run called for has ended.
    pub fn exported(&mut self, succeeded: bool)
        ensures
            final(self)@ == after_export(old(self)@, succeeded),
    {
        proof {
            use_type_invariant(&*self);
        }
        if !self.failed && self.imported < self.sources {
            if succeeded {
                *self = MultiRun {
                    sources: self.sources,
                    imported: self.imported + 1,
                    failed: false,
                };
            } else {
                *self = MultiRun { sources: self.sources, imported: self.imported, failed: true };
            }
        }
    }
}

impl MultiConfig {
    /// Whether every repository can be named as a remote.
    pub fn is_named(&self) -> (named: bool)
        ensures
            named == forall|i: int| 0 <= i < self@.len() ==> is_named(#[trigger] self@[i]),
    {
        let mut i: usize = 0;
        while i < self.repositories.len()
            invariant
                i <= self.repositories.len(),
                forall|j: int| 0 <= j < i ==> is_named(#[trigger] self@[j]),
            decreases self.repositories.len() - i,
        {
            let repo = &self.repositories[i];
            assert(self@[i as int] == repo@);
            if repo.alias.is_none() && repo.config.path_prefix.is_none() {
                return false;
            }
            i += 1;
        }
        true
    }
}

/// Works out what is to be done in the common repository, once every
/// source is imported into its own.
///
/// `remotes` holds the names of the remotes that the common repository
/// has, and is absent where that repository does not exist yet.
pub fn multi2git(multi_config: &MultiConfig, remotes: Option<&NameSet>) -> (steps: Vec<GitStep>)
    requires
        forall|i: int| 0 <= i < multi_config@.len() ==> is_named(#[trigger] multi_config@[i]),
    ensures
        steps_view(steps@) == aggregation_steps(
            multi_config@,
            match remotes {
                Some(known) => Some(known@),
                None => None,
            },
        ),
{
    let mut steps: Vec<GitStep> = Vec::new();
    assert(steps_view(steps@) =~= Seq::<GitStepView>::empty());
    let is_new = remotes.is_none();
    match remotes {
        Some(known) => {
            add_remote_steps(&mut steps, multi_config, known);
        },
        None => {
            steps.push(GitStep::CreateRepo);
            assert(steps_view(steps@) =~= seq![GitStepView::CreateRepo]);
            let none = NameSet::new();
            add_remote_steps(&mut steps, multi_config, &none);
        },
    }
    let ghost with_remotes = steps@;
    steps.push(GitStep::FetchAll);
    assert(steps_view(steps@) =~= steps_view(with_remotes) + seq![GitStepView::FetchAll]);
    let groups = collect_groups(multi_config);
    add_merge_steps(&mut steps, groups, is_new);
    assert(steps_view(steps@) =~= aggregation_steps(
        multi_config@,
        match remotes {
            Some(known) => Some(known@),
            None => None,
        },
    ));
    steps
}

} // verus!
