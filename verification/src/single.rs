//! The import of one Mercurial repository, step by step.
//!
//! An import reads from a repository and writes to a target, and neither
//! can be done from here. So the import is a session: it says what is to be
//! done next, is handed what was read, writes the commands into a buffer,
//! and is told when a step on the target was carried out. Whoever drives
//! the session does the reading and the writing.
use vstd::prelude::*;
use crate::changeset::{is_tag_table, tags_view, Changeset, ChangesetView, Tag, TagView};
use crate::config::{RepositoryConfig, RepositoryConfigView, RepositorySavedState};
use crate::env::EnvironmentView;
use crate::error::ErrorKind;
use crate::export::{
    commit_head,
    commit_lines,
    emission,
    git_branch,
    is_tag_within,
    tags_lines,
    tags_within,
    Emission,
    Failure,
    MercurialRepo,
};
use crate::marks::mark_of;
use crate::names::NameMap;

verus! {

/// Where an import stands.
#[derive(Clone, Copy, Debug, PartialEq, Eq, Structural)]
pub enum Phase {
    /// Changesets are being written.
    Commits,
    /// All changesets are written; the tags are next.
    Tags,
    /// The tags are written; the state is to be saved.
    Save,
    /// The state is saved; the target is to be finished.
    Finish,
    /// The target is finished and is to be compared with the source.
    Verify,
    /// Nothing is left to do.
    Done,
    /// A changeset failed; the state before it is to be saved.
    Checkpoint,
    /// The import has failed.
    Failed,
}

/// What the driver of a session does next.
#[derive(Clone, Copy, Debug, PartialEq, Eq, Structural)]
pub enum ImportAction {
    /// Read the changeset of this revision and hand it to `export`.
    Export(usize),
    /// Read the tag table and hand it to `tags`.
    ExportTags,
    /// Save this state in the target, then call `completed`.
    SaveState(RepositorySavedState),
    /// Finish the target, then call `completed`.
    Finish,
    /// Compare the target with the source, then call `completed`.
    Verify,
    /// End with success.
    Done,
    /// End with the error that `export` returned.
    Fail,
}

/// The revisions that an import covers.
pub struct ImportRange {
    /// The first revision whose commit is written.
    pub from: nat,
    /// The first revision that is not imported.
    pub to: nat,
    /// The first revision whose tags are written.
    pub from_tag: nat,
}

/// The revisions to import: from where the saved state says the last
/// import ended, or from the start, up to the end of the repository or to
/// the limit, whichever is less.
pub open spec fn import_range(
    offset: nat,
    limit_high: Option<nat>,
    tip: nat,
    saved: Option<RepositorySavedState>,
) -> ImportRange {
    ImportRange {
        from: match saved {
            Some(RepositorySavedState::OffsetedRevision(commits, tags)) => (commits - offset) as nat,
            None => 0,
        },
        to: match limit_high {
            Some(limit) => if tip <= limit {
                tip
            } else {
                limit
            },
            None => tip,
        },
        from_tag: match saved {
            Some(RepositorySavedState::OffsetedRevision(commits, tags)) => (tags - offset) as nat,
            None => 0,
        },
    }
}

/// Whether a saved state was written under this offset or a smaller one.
pub open spec fn is_saved_under(saved: Option<RepositorySavedState>, offset: nat) -> bool {
    match saved {
        Some(RepositorySavedState::OffsetedRevision(commits, tags)) => commits >= offset && tags
            >= offset,
        None => true,
    }
}

/// The state that is saved when all revisions before `to` are imported.
pub open spec fn final_state(to: nat, offset: nat) -> (nat, nat) {
    (to + offset, to + offset)
}

/// The state that is saved when the changeset of revision `at` failed:
/// the commits before `at` are imported, the tags are where they were.
pub open spec fn checkpoint_state(at: nat, from_tag: nat, offset: nat) -> (nat, nat) {
    (at + offset, from_tag + offset)
}

/// The phase in which the commits of `next` up to `to` are written, or
/// the one behind it if there are none.
pub open spec fn commits_phase(next: nat, to: nat) -> Phase {
    if next < to {
        Phase::Commits
    } else {
        Phase::Tags
    }
}

/// What a session is, to its driver.
pub struct SessionView {
    pub cfg: RepositoryConfigView,
    pub env: EnvironmentView,
    pub range: ImportRange,
    /// Whether the target is compared with the source at the end.
    pub verify: bool,
    /// The revision whose changeset is written next.
    pub next: nat,
    /// The number of commands written.
    pub counter: nat,
    pub phase: Phase,
}

/// The action that a session in a given state calls for.
pub open spec fn action_of(s: SessionView) -> ImportAction {
    match s.phase {
        Phase::Commits => ImportAction::Export(s.next as usize),
        Phase::Tags => ImportAction::ExportTags,
        Phase::Save => ImportAction::SaveState(
            RepositorySavedState::OffsetedRevision(
                final_state(s.range.to, s.cfg.offset).0 as usize,
                final_state(s.range.to, s.cfg.offset).1 as usize,
            ),
        ),
        Phase::Finish => ImportAction::Finish,
        Phase::Verify => ImportAction::Verify,
        Phase::Done => ImportAction::Done,
        Phase::Checkpoint => ImportAction::SaveState(
            RepositorySavedState::OffsetedRevision(
                checkpoint_state(s.next, s.range.from_tag, s.cfg.offset).0 as usize,
                checkpoint_state(s.next, s.range.from_tag, s.cfg.offset).1 as usize,
            ),
        ),
        Phase::Failed => ImportAction::Fail,
    }
}

/// The phase that follows when the driver has carried out the action of a
/// phase on the target.
pub open spec fn phase_after(phase: Phase, verify: bool) -> Phase {
    match phase {
        Phase::Save => Phase::Finish,
        Phase::Finish => if verify {
            Phase::Verify
        } else {
            Phase::Done
        },
        Phase::Verify => Phase::Done,
        Phase::Checkpoint => Phase::Failed,
        other => other,
    }
}

/// A session after the changeset it asked for was written.
pub open spec fn after_commit(s: SessionView) -> SessionView {
    SessionView {
        next: s.next + 1,
        counter: s.counter + 1,
        phase: commits_phase(s.next + 1, s.range.to),
        ..s
    }
}

/// A session after the changeset it asked for failed: the state before
/// that revision is to be saved, unless it is the first revision of all.
pub open spec fn after_failure(s: SessionView) -> SessionView {
    SessionView {
        phase: if s.next > 0 {
            Phase::Checkpoint
        } else {
            Phase::Failed
        },
        ..s
    }
}

/// A session after `written` tags were written.
pub open spec fn after_tags(s: SessionView, written: nat) -> SessionView {
    SessionView { counter: s.counter + written, phase: Phase::Save, ..s }
}

/// A session after its driver carried out the action it called for.
pub open spec fn after_action(s: SessionView) -> SessionView {
    SessionView { phase: phase_after(s.phase, s.verify), ..s }
}

/// Whether the result of a step is the one that `failure` calls for.
pub open spec fn is_export_result(result: Result<(), ErrorKind>, failure: Option<Failure>) -> bool {
    match failure {
        None => result is Ok,
        Some(Failure::Encoding) => result matches Err(ErrorKind::Encoding),
        Some(Failure::WrongUser(u)) => result matches Err(ErrorKind::WrongUser(s)) && s@ == u,
        Some(Failure::WrongFileData(p)) => result matches Err(ErrorKind::WrongFileData(s)) && s@
            == p,
    }
}

/// Whether a phase belongs to an import that failed.
pub open spec fn is_failing(phase: Phase) -> bool {
    phase == Phase::Checkpoint || phase == Phase::Failed
}

/// What holds of every session: every number that it may have to save
/// fits the machine, and the commits are all written once the phase of
/// the commits is left without a failure.
pub open spec fn is_session(s: SessionView) -> bool {
    &&& s.range.to + s.cfg.offset <= usize::MAX
    &&& s.range.from_tag + s.cfg.offset <= usize::MAX
    &&& s.range.from <= s.next
    &&& s.counter <= usize::MAX
    &&& s.phase == Phase::Commits ==> s.next < s.range.to && s.counter == s.next - s.range.from
    &&& s.phase == Phase::Checkpoint ==> 0 < s.next < s.range.to
    &&& s.phase == Phase::Failed ==> s.next < s.range.to
    &&& !is_failing(s.phase) && s.phase != Phase::Commits ==> s.next >= s.range.to
}

/// Refuses a repository whose heads are not as they must be, unless it is
/// allowed to have unnamed heads.
pub fn check_heads(config: &RepositoryConfig, heads_ok: bool) -> (result: Result<(), ErrorKind>)
    ensures
        heads_ok || config.allow_unnamed_heads ==> result is Ok,
        !(heads_ok || config.allow_unnamed_heads) ==> (result matches Err(
            ErrorKind::VerifyFailure(reason),
        ) && reason@ == "Verify heads failed"@),
{
    if heads_ok || config.allow_unnamed_heads {
        Ok(())
    } else {
        Err(ErrorKind::VerifyFailure(String::from_str("Verify heads failed")))
    }
}

/// The import of one repository.
pub struct ImportSession<'a> {
    repo: MercurialRepo<'a>,
    from: usize,
    to: usize,
    from_tag: usize,
    verify: bool,
    next: usize,
    counter: usize,
    phase: Phase,
}

impl<'a> View for ImportSession<'a> {
    type V = SessionView;

    closed spec fn view(&self) -> SessionView {
        SessionView {
            cfg: self.repo.config@,
            env: self.repo.env@,
            range: ImportRange {
                from: self.from as nat,
                to: self.to as nat,
                from_tag: self.from_tag as nat,
            },
            verify: self.verify,
            next: self.next as nat,
            counter: self.counter as nat,
            phase: self.phase,
        }
    }
}

impl<'a> ImportSession<'a> {
    #[verifier::type_invariant]
    spec fn is_valid(&self) -> bool {
        is_session(self@)
    }

    /// Whether the import of a repository that has `tip` revisions can
    /// begin from the state `saved`: the state was saved under the offset
    /// of the repository, and the state that ends the import fits the machine.
    pub fn can_begin(repo: &MercurialRepo<'a>, tip: usize, saved: Option<RepositorySavedState>) -> (ok:
        bool)
        ensures
            ok == (is_saved_under(saved, repo.config@.offset) && import_range(
                repo.config@.offset,
                repo.config@.limit_high,
                tip as nat,
                saved,
            ).to + repo.config@.offset <= usize::MAX),
    {
        let offset = repo.config.mark_offset();
        let to = match repo.config.limit_high {
            Some(limit) => if tip <= limit {
                tip
            } else {
                limit
            },
            None => tip,
        };
        let under = match saved {
            Some(RepositorySavedState::OffsetedRevision(commits, tags)) => commits >= offset
                && tags >= offset,
            None => true,
        };
        under && to <= usize::MAX - offset
    }

    /// Begins the import of a repository that has `tip` revisions, into a
    /// target that holds the state `saved`.
    pub fn begin(
        repo: MercurialRepo<'a>,
        verify: bool,
        tip: usize,
        saved: Option<RepositorySavedState>,
    ) -> (session: ImportSession<'a>)
        requires
            is_saved_under(saved, repo.config@.offset),
            import_range(repo.config@.offset, repo.config@.limit_high, tip as nat, saved).to
                + repo.config@.offset <= usize::MAX,
        ensures
            session@.cfg == repo.config@,
            session@.env == repo.env@,
            session@.range == import_range(
                repo.config@.offset,
                repo.config@.limit_high,
                tip as nat,
                saved,
            ),
            session@.verify == verify,
            session@.next == session@.range.from,
            session@.counter == 0,
            session@.phase == commits_phase(session@.range.from, session@.range.to),
    {
        let offset = repo.config.mark_offset();
        let to = match repo.config.limit_high {
            Some(limit) => if tip <= limit {
                tip
            } else {
                limit
            },
            None => tip,
        };
        let (from, from_tag) = match saved {
            Some(RepositorySavedState::OffsetedRevision(commits, tags)) => (
                commits - offset,
                tags - offset,
            ),
            None => (0, 0),
        };
        let phase = if from < to {
            Phase::Commits
        } else {
            Phase::Tags
        };
        ImportSession { repo, from, to, from_tag, verify, next: from, counter: 0, phase }
    }

    /// What the driver does next.
    pub fn action(&self) -> (action: ImportAction)
        ensures
            action == action_of(self@),
            is_session(self@),
    {
        proof {
            use_type_invariant(self);
        }
        let offset = self.repo.config.mark_offset();
        match self.phase {
            Phase::Commits => ImportAction::Export(self.next),
            Phase::Tags => ImportAction::ExportTags,
            Phase::Save => ImportAction::SaveState(
                RepositorySavedState::OffsetedRevision(self.to + offset, self.to + offset),
            ),
            Phase::Finish => ImportAction::Finish,
            Phase::Verify => ImportAction::Verify,
            Phase::Done => ImportAction::Done,
            Phase::Checkpoint => ImportAction::SaveState(
                RepositorySavedState::OffsetedRevision(
                    self.next + offset,
                    self.from_tag + offset,
                ),
            ),
            Phase::Failed => ImportAction::Fail,
        }
    }

    /// The first revision that is not imported.
    pub fn end(&self) -> (to: usize)
        ensures
            to == self@.range.to,
    {
        self.to
    }

    /// The number of commands written so far.
    pub fn counter(&self) -> (counter: usize)
        ensures
            counter == self@.counter,
    {
        self.counter
    }

    /// Writes the commands for the changeset that the session asked for:
    /// the one of the revision that `action` named.
    ///
    /// Where the changeset is written, the session goes on to the next
    /// revision, or to the tags behind the last one. Where it fails, the
    /// session stays at this revision and has failed: the state before the
    /// revision is still to be saved, unless the revision is the first of all.
    /// Outside the phase of the commits nothing is done.
    pub fn export(
        &mut self,
        changeset: &Changeset,
        brmap: &mut NameMap,
        output: &mut Vec<u8>,
        default_branch: &str,
    ) -> (result: Result<(), ErrorKind>)
        requires
            old(self)@.phase == Phase::Commits ==> changeset@.revision == old(self)@.next,
        ensures
            old(self)@.phase != Phase::Commits ==> {
                &&& result is Ok
                &&& final(self)@ == old(self)@
                &&& final(output)@ == old(output)@
                &&& final(brmap)@ == old(brmap)@
            },
            old(self)@.phase == Phase::Commits ==> ({
                let e = emission(
                    changeset@,
                    old(self)@.cfg,
                    old(self)@.env,
                    default_branch@,
                    old(brmap)@,
                );
                &&& final(output)@ == old(output)@ + e.bytes
                &&& final(brmap)@ == e.branches
                &&& is_export_result(result, e.failure)
                &&& final(self)@ == if e.failure is None {
                    after_commit(old(self)@)
                } else {
                    after_failure(old(self)@)
                }
            }),
    {
        proof {
            use_type_invariant(&*self);
        }
        if self.phase != Phase::Commits {
            return Ok(());
        }
        match self.repo.export_commit(changeset, self.counter, brmap, output, default_branch) {
            Ok(counter) => {
                let next = self.next + 1;
                let phase = if next < self.to {
                    Phase::Commits
                } else {
                    Phase::Tags
                };
                *self = self.at(next, counter, phase);
                Ok(())
            },
            Err(e) => {
                let phase = if self.next > 0 {
                    Phase::Checkpoint
                } else {
                    Phase::Failed
                };
                *self = self.at(self.next, self.counter, phase);
                Err(e)
            },
        }
    }

    /// This session at another point of its course.
    fn at(&self, next: usize, counter: usize, phase: Phase) -> (session: ImportSession<'a>)
        requires
            is_session(SessionView { next: next as nat, counter: counter as nat, phase, ..self@ }),
        ensures
            session@ == (SessionView {
                next: next as nat,
                counter: counter as nat,
                phase,
                ..self@
            }),
    {
        ImportSession {
            repo: MercurialRepo { config: self.repo.config, env: self.repo.env },
            from: self.from,
            to: self.to,
            from_tag: self.from_tag,
            verify: self.verify,
            next,
            counter,
            phase,
        }
    }

    /// Writes the commands for the tags of the revisions that the import
    /// covers, once all its changesets are written. In another phase
    /// nothing is done.
    pub fn tags(&mut self, tags: &Vec<Tag>, output: &mut Vec<u8>)
        requires
            old(self)@.counter + tags@.len() <= usize::MAX,
        ensures
            old(self)@.phase != Phase::Tags ==> final(self)@ == old(self)@ && final(output)@ == old(
                output,
            )@,
            old(self)@.phase == Phase::Tags ==> {
                &&& final(output)@ == old(output)@ + tags_lines(
                    tags_view(tags@),
                    old(self)@.range.from_tag,
                    old(self)@.range.to,
                    old(self)@.cfg.tag_prefix,
                    old(self)@.cfg.offset,
                )
                &&& final(self)@ == after_tags(
                    old(self)@,
                    tags_within(tags_view(tags@), old(self)@.range.from_tag, old(self)@.range.to),
                )
            },
    {
        proof {
            use_type_invariant(&*self);
        }
        if self.phase != Phase::Tags {
            return ;
        }
        let counter = self.repo.export_tags(self.from_tag..self.to, self.counter, tags, output);
        *self = self.at(self.next, counter, Phase::Save);
    }

    /// Takes note that the driver has carried out the action that the
    /// session called for on the target.
    pub fn completed(&mut self)
        ensures
            final(self)@ == after_action(old(self)@),
    {
        proof {
            use_type_invariant(&*self);
        }
        let phase = match self.phase {
            Phase::Save => Phase::Finish,
            Phase::Finish => if self.verify {
                Phase::Verify
            } else {
                Phase::Done
            },
            Phase::Verify => Phase::Done,
            Phase::Checkpoint => Phase::Failed,
            other => other,
        };
        *self = self.at(self.next, self.counter, phase);
    }
}

/// Writing changesets one after another, each from the branch map that
/// the one before it left, up to the first that fails.
pub open spec fn commits_emission(
    changesets: Seq<ChangesetView>,
    cfg: RepositoryConfigView,
    env: EnvironmentView,
    default_branch: Seq<char>,
    brmap: Map<Seq<char>, Seq<char>>,
) -> Emission
    decreases changesets.len(),
{
    if changesets.len() == 0 {
        Emission { bytes: Seq::empty(), branches: brmap, failure: None }
    } else {
        let before = commits_emission(changesets.drop_last(), cfg, env, default_branch, brmap);
        if before.failure is Some {
            before
        } else {
            let e = emission(changesets.last(), cfg, env, default_branch, before.branches);
            Emission { bytes: before.bytes + e.bytes, branches: e.branches, failure: e.failure }
        }
    }
}

/// Whether two branch maps give every branch the same Git name.
pub open spec fn name_alike(
    cfg: RepositoryConfigView,
    env: EnvironmentView,
    default_branch: Seq<char>,
    a: Map<Seq<char>, Seq<char>>,
    b: Map<Seq<char>, Seq<char>>,
) -> bool {
    forall|key: Seq<char>| #[trigger]
        git_branch(cfg, env, default_branch, a, key) == git_branch(cfg, env, default_branch, b, key)
}

/// A changeset is written alike from two branch maps that name alike, and
/// the maps name alike afterwards, with each other and with those before.
proof fn lemma_emission_alike(
    cs: ChangesetView,
    cfg: RepositoryConfigView,
    env: EnvironmentView,
    default_branch: Seq<char>,
    a: Map<Seq<char>, Seq<char>>,
    b: Map<Seq<char>, Seq<char>>,
)
    requires
        name_alike(cfg, env, default_branch, a, b),
    ensures
        emission(cs, cfg, env, default_branch, a).bytes == emission(
            cs,
            cfg,
            env,
            default_branch,
            b,
        ).bytes,
        emission(cs, cfg, env, default_branch, a).failure == emission(
            cs,
            cfg,
            env,
            default_branch,
            b,
        ).failure,
        name_alike(
            cfg,
            env,
            default_branch,
            emission(cs, cfg, env, default_branch, a).branches,
            b,
        ),
{
    reveal(emission);
    let ea = emission(cs, cfg, env, default_branch, a);
    let raw = crate::export::raw_branch(cs, default_branch);
    let key = vstd::utf8::decode_utf8(raw);
    assert(git_branch(cfg, env, default_branch, a, key) == git_branch(
        cfg,
        env,
        default_branch,
        b,
        key,
    ));
    assert forall|k: Seq<char>| #[trigger]
        git_branch(cfg, env, default_branch, ea.branches, k) == git_branch(
            cfg,
            env,
            default_branch,
            b,
            k,
        ) by {
        assert(git_branch(cfg, env, default_branch, a, k) == git_branch(
            cfg,
            env,
            default_branch,
            b,
            k,
        ));
    }
}

/// Changesets are written alike from two branch maps that name alike.
proof fn lemma_commits_alike(
    changesets: Seq<ChangesetView>,
    cfg: RepositoryConfigView,
    env: EnvironmentView,
    default_branch: Seq<char>,
    a: Map<Seq<char>, Seq<char>>,
    b: Map<Seq<char>, Seq<char>>,
)
    requires
        name_alike(cfg, env, default_branch, a, b),
    ensures
        commits_emission(changesets, cfg, env, default_branch, a).bytes == commits_emission(
            changesets,
            cfg,
            env,
            default_branch,
            b,
        ).bytes,
        commits_emission(changesets, cfg, env, default_branch, a).failure == commits_emission(
            changesets,
            cfg,
            env,
            default_branch,
            b,
        ).failure,
        name_alike(
            cfg,
            env,
            default_branch,
            commits_emission(changesets, cfg, env, default_branch, a).branches,
            b,
        ),
        name_alike(
            cfg,
            env,
            default_branch,
            commits_emission(changesets, cfg, env, default_branch, a).branches,
            commits_emission(changesets, cfg, env, default_branch, b).branches,
        ),
    decreases changesets.len(),
{
    if changesets.len() > 0 {
        let rest = changesets.drop_last();
        lemma_commits_alike(rest, cfg, env, default_branch, a, b);
        let ra = commits_emission(rest, cfg, env, default_branch, a);
        let rb = commits_emission(rest, cfg, env, default_branch, b);
        if ra.failure is None {
            lemma_emission_alike(changesets.last(), cfg, env, default_branch, ra.branches, rb.branches);
            lemma_emission_alike(changesets.last(), cfg, env, default_branch, rb.branches, rb.branches);
            let ea = emission(changesets.last(), cfg, env, default_branch, ra.branches);
            let eb = emission(changesets.last(), cfg, env, default_branch, rb.branches);
            assert forall|k: Seq<char>| #[trigger]
                git_branch(cfg, env, default_branch, ea.branches, k) == git_branch(
                    cfg,
                    env,
                    default_branch,
                    b,
                    k,
                ) by {
                assert(git_branch(cfg, env, default_branch, ea.branches, k) == git_branch(
                    cfg,
                    env,
                    default_branch,
                    rb.branches,
                    k,
                ));
                assert(git_branch(cfg, env, default_branch, ra.branches, k) == git_branch(
                    cfg,
                    env,
                    default_branch,
                    b,
                    k,
                ));
                assert(git_branch(cfg, env, default_branch, ra.branches, k) == git_branch(
                    cfg,
                    env,
                    default_branch,
                    rb.branches,
                    k,
                ));
            }
            assert forall|k: Seq<char>| #[trigger]
                git_branch(cfg, env, default_branch, ea.branches, k) == git_branch(
                    cfg,
                    env,
                    default_branch,
                    eb.branches,
                    k,
                ) by {
                assert(git_branch(cfg, env, default_branch, ea.branches, k) == git_branch(
                    cfg,
                    env,
                    default_branch,
                    rb.branches,
                    k,
                ));
                assert(git_branch(cfg, env, default_branch, eb.branches, k) == git_branch(
                    cfg,
                    env,
                    default_branch,
                    rb.branches,
                    k,
                ));
            }
        }
    }
}

/// Writing a sequence of changesets is writing its first part and then, from
/// the branch map that this leaves, the rest.
proof fn lemma_commits_split(
    changesets: Seq<ChangesetView>,
    k: int,
    cfg: RepositoryConfigView,
    env: EnvironmentView,
    default_branch: Seq<char>,
    brmap: Map<Seq<char>, Seq<char>>,
)
    requires
        0 <= k <= changesets.len(),
        commits_emission(changesets, cfg, env, default_branch, brmap).failure is None,
    ensures
        ({
            let first = commits_emission(changesets.take(k), cfg, env, default_branch, brmap);
            let second = commits_emission(
                changesets.skip(k),
                cfg,
                env,
                default_branch,
                first.branches,
            );
            let whole = commits_emission(changesets, cfg, env, default_branch, brmap);
            &&& first.failure is None
            &&& second.failure is None
            &&& first.bytes + second.bytes == whole.bytes
            &&& second.branches == whole.branches
        }),
    decreases changesets.len() - k,
{
    let first = commits_emission(changesets.take(k), cfg, env, default_branch, brmap);
    if k == changesets.len() {
        assert(changesets.take(k) =~= changesets);
        assert(changesets.skip(k) =~= Seq::<ChangesetView>::empty());
        assert(first.bytes + Seq::<u8>::empty() =~= first.bytes);
    } else {
        let shorter = changesets.drop_last();
        lemma_commits_split(shorter, k, cfg, env, default_branch, brmap);
        assert(shorter.take(k) =~= changesets.take(k));
        assert(changesets.skip(k).drop_last() =~= shorter.skip(k));
        assert(changesets.skip(k).last() == changesets.last());
        let before = commits_emission(shorter, cfg, env, default_branch, brmap);
        let tail = commits_emission(shorter.skip(k), cfg, env, default_branch, first.branches);
        let e = emission(changesets.last(), cfg, env, default_branch, before.branches);
        assert(first.bytes + (tail.bytes + e.bytes) =~= (first.bytes + tail.bytes) + e.bytes);
    }
}

/// Resume closure, for the commits: where all changesets can be written in
/// one run, they can be written in two, the second run beginning with the
/// branch map that the first began with, and the bytes of the two runs, one
/// after the other, are the bytes of the one.
pub proof fn lemma_resume_commits(
    changesets: Seq<ChangesetView>,
    k: int,
    cfg: RepositoryConfigView,
    env: EnvironmentView,
    default_branch: Seq<char>,
    brmap: Map<Seq<char>, Seq<char>>,
)
    requires
        0 <= k <= changesets.len(),
        commits_emission(changesets, cfg, env, default_branch, brmap).failure is None,
    ensures
        ({
            let first = commits_emission(changesets.take(k), cfg, env, default_branch, brmap);
            let second = commits_emission(changesets.skip(k), cfg, env, default_branch, brmap);
            let whole = commits_emission(changesets, cfg, env, default_branch, brmap);
            &&& first.failure is None
            &&& second.failure is None
            &&& first.bytes + second.bytes == whole.bytes
        }),
{
    lemma_commits_split(changesets, k, cfg, env, default_branch, brmap);
    let first = commits_emission(changesets.take(k), cfg, env, default_branch, brmap);
    lemma_commits_alike(changesets.take(k), cfg, env, default_branch, brmap, brmap);
    lemma_commits_alike(changesets.skip(k), cfg, env, default_branch, first.branches, brmap);
}

/// Whether the changesets are those of the revisions from `from` on, one
/// after another: the changesets that a session asks for.
pub open spec fn are_consecutive(changesets: Seq<ChangesetView>, from: nat) -> bool {
    forall|i: int| 0 <= i < changesets.len() ==> (#[trigger] changesets[i]).revision == from + i
}

/// The marks that the commits of some changesets carry, in their order.
pub open spec fn marks_written(changesets: Seq<ChangesetView>, offset: nat) -> Seq<nat> {
    Seq::new(changesets.len(), |i: int| mark_of(changesets[i].revision, offset))
}

/// The commands of some changesets, each on its branch and by its author,
/// one block after another.
pub open spec fn commit_blocks(
    changesets: Seq<ChangesetView>,
    cfg: RepositoryConfigView,
    branches: Seq<Seq<char>>,
    authors: Seq<Seq<char>>,
) -> Seq<u8>
    decreases changesets.len(),
{
    if changesets.len() == 0 {
        Seq::empty()
    } else {
        commit_blocks(changesets.drop_last(), cfg, branches.drop_last(), authors.drop_last())
            + commit_lines(changesets.last(), cfg, branches.last(), authors.last())
    }
}

/// A changeset that is written without failure is written as its commands
/// on one branch and by one author.
pub proof fn lemma_emission_is_block(
    cs: ChangesetView,
    cfg: RepositoryConfigView,
    env: EnvironmentView,
    default_branch: Seq<char>,
    brmap: Map<Seq<char>, Seq<char>>,
) -> (who: (Seq<char>, Seq<char>))
    requires
        emission(cs, cfg, env, default_branch, brmap).failure is None,
    ensures
        emission(cs, cfg, env, default_branch, brmap).bytes == commit_lines(cs, cfg, who.0, who.1),
{
    reveal(emission);
    let user = vstd::utf8::decode_utf8(cs.header.user);
    let author = crate::author::author_of(
        cfg.authors,
        env.authors,
        user,
        crate::author::captured_groups(crate::author::AUTHOR_PATTERN@, user),
    )->0;
    let key = vstd::utf8::decode_utf8(crate::export::raw_branch(cs, default_branch));
    (git_branch(cfg, env, default_branch, brmap, key), author)
}

/// What a run writes for its commits: for every changeset one block of
/// commands, in the order of the changesets, and nothing else.
pub proof fn lemma_run_is_blocks(
    changesets: Seq<ChangesetView>,
    cfg: RepositoryConfigView,
    env: EnvironmentView,
    default_branch: Seq<char>,
    brmap: Map<Seq<char>, Seq<char>>,
) -> (who: (Seq<Seq<char>>, Seq<Seq<char>>))
    requires
        commits_emission(changesets, cfg, env, default_branch, brmap).failure is None,
    ensures
        who.0.len() == changesets.len(),
        who.1.len() == changesets.len(),
        commits_emission(changesets, cfg, env, default_branch, brmap).bytes == commit_blocks(
            changesets,
            cfg,
            who.0,
            who.1,
        ),
    decreases changesets.len(),
{
    if changesets.len() == 0 {
        (Seq::empty(), Seq::empty())
    } else {
        let rest = changesets.drop_last();
        let before = commits_emission(rest, cfg, env, default_branch, brmap);
        let earlier = lemma_run_is_blocks(rest, cfg, env, default_branch, brmap);
        let last = lemma_emission_is_block(
            changesets.last(),
            cfg,
            env,
            default_branch,
            before.branches,
        );
        let who = (earlier.0.push(last.0), earlier.1.push(last.1));
        assert(who.0.drop_last() =~= earlier.0);
        assert(who.1.drop_last() =~= earlier.1);
        who
    }
}

/// Marks over a run: the commits of a run carry marks that rise from one
/// commit to the next, so no two are the same. The commit of the `i`-th
/// changeset of a run from `from` on carries the mark `from + i + 1` and
/// the offset; it stands in the head of the block of that changeset, and
/// there are as many blocks as changesets.
pub proof fn lemma_run_marks(
    changesets: Seq<ChangesetView>,
    from: nat,
    offset: nat,
    branches: Seq<Seq<char>>,
    authors: Seq<Seq<char>>,
)
    requires
        are_consecutive(changesets, from),
    ensures
        marks_written(changesets, offset).len() == changesets.len(),
        forall|i: int|
            0 <= i < changesets.len() ==> #[trigger] marks_written(changesets, offset)[i] == from
                + i + 1 + offset,
        forall|i: int, j: int|
            0 <= i < j < changesets.len() ==> marks_written(changesets, offset)[i] < marks_written(
                changesets,
                offset,
            )[j],
        forall|i: int|
            0 <= i < changesets.len() && i < branches.len() && i < authors.len()
                ==> #[trigger] commit_head(changesets[i], offset, branches[i], authors[i])
                == commit_head_with_mark(
                changesets[i],
                marks_written(changesets, offset)[i],
                branches[i],
                authors[i],
            ),
{
    assert forall|i: int|
        0 <= i < changesets.len() && i < branches.len() && i < authors.len()
            implies #[trigger] commit_head(changesets[i], offset, branches[i], authors[i])
        == commit_head_with_mark(
        changesets[i],
        marks_written(changesets, offset)[i],
        branches[i],
        authors[i],
    ) by {
        assert(mark_of(changesets[i].revision, 0) + offset == mark_of(
            changesets[i].revision,
            offset,
        ));
    }
}

/// The head of a commit that carries the mark `mark`.
pub open spec fn commit_head_with_mark(
    cs: ChangesetView,
    mark: nat,
    branch: Seq<char>,
    author: Seq<char>,
) -> Seq<u8> {
    (if crate::export::has_ancestry(cs) {
        crate::export::reset_line(branch)
    } else {
        Seq::<u8>::empty()
    }) + crate::export::commit_line(branch) + (crate::export::lit("mark :")
        + crate::text::decimal(mark) + crate::export::lit("\n")) + crate::export::person_line(
        "author ",
        author,
        cs.header.time,
        cs.header.tz_offset,
    ) + crate::export::person_line("committer ", author, cs.header.time, cs.header.tz_offset)
        + crate::export::message_lines(cs.header.comment)
}

/// No tag of a table whose revisions all lie before `from` is written.
proof fn lemma_no_tags_before(
    tags: Seq<TagView>,
    from: nat,
    to: nat,
    tag_prefix: Option<Seq<char>>,
    offset: nat,
)
    requires
        forall|i: int| 0 <= i < tags.len() ==> tags[i].revision < from,
    ensures
        tags_lines(tags, from, to, tag_prefix, offset) == Seq::<u8>::empty(),
        tags_within(tags, from, to) == 0,
    decreases tags.len(),
{
    if tags.len() > 0 {
        lemma_no_tags_before(tags.drop_last(), from, to, tag_prefix, offset);
        assert(Seq::<u8>::empty() + Seq::<u8>::empty() =~= Seq::<u8>::empty());
    }
}

/// Resume closure, for the tags: the tags of the revisions before `k` and
/// then those of the revisions from `k` on are the tags of all the
/// revisions, in the same order.
pub proof fn lemma_resume_tags(
    tags: Seq<TagView>,
    from: nat,
    k: nat,
    to: nat,
    tag_prefix: Option<Seq<char>>,
    offset: nat,
)
    requires
        is_tag_table(tags),
        from <= k <= to,
    ensures
        tags_lines(tags, from, k, tag_prefix, offset) + tags_lines(tags, k, to, tag_prefix, offset)
            == tags_lines(tags, from, to, tag_prefix, offset),
        tags_within(tags, from, k) + tags_within(tags, k, to) == tags_within(tags, from, to),
    decreases tags.len(),
{
    let empty = Seq::<u8>::empty();
    if tags.len() == 0 {
        assert(empty + empty =~= empty);
    } else {
        let rest = tags.drop_last();
        let last = tags.last();
        lemma_resume_tags(rest, from, k, to, tag_prefix, offset);
        let low = tags_lines(rest, from, k, tag_prefix, offset);
        let high = tags_lines(rest, k, to, tag_prefix, offset);
        let line = crate::export::tag_lines(
            crate::sanitize::prefixed(last.name, tag_prefix),
            last.revision,
            offset,
        );
        if is_tag_within(last, from, k) {
            assert forall|i: int| 0 <= i < rest.len() implies rest[i].revision < k by {
                assert(rest[i] == tags[i]);
            }
            lemma_no_tags_before(rest, k, to, tag_prefix, offset);
            assert((low + line) + (empty + empty) =~= (low + empty) + line);
        } else if is_tag_within(last, k, to) {
            assert((low + empty) + (high + line) =~= (low + high) + line);
        } else {
            assert((low + empty) + (high + empty) =~= (low + high) + empty);
        }
    }
}

/// Resume closure, for the cursor: an import that ended at revision `k`
/// saved a state from which the next import begins at `k`, for the
/// commits and for the tags.
pub proof fn lemma_resume_cursor(k: nat, offset: nat, limit_high: Option<nat>, tip: nat)
    requires
        k + offset <= usize::MAX,
    ensures
        ({
            let saved = RepositorySavedState::OffsetedRevision(
                final_state(k, offset).0 as usize,
                final_state(k, offset).1 as usize,
            );
            let range = import_range(offset, limit_high, tip, Some(saved));
            range.from == k && range.from_tag == k && is_saved_under(Some(saved), offset)
        }),
{
}

/// Tags come after commits: a session calls for the tags only when the
/// changesets of all revisions that it covers are written, and from then on
/// it calls for no changeset.
pub proof fn lemma_tags_follow_commits(s: SessionView, written: nat)
    requires
        is_session(s),
        s.phase != Phase::Commits,
    ensures
        action_of(s) == ImportAction::ExportTags ==> s.next >= s.range.to,
        !(action_of(after_action(s)) is Export),
        !(action_of(after_tags(s, written)) is Export),
{
}

/// Failure checkpoint: when the changeset of a revision behind the first
/// fails, the session calls for saving the state that names this revision
/// as the next to import, with the tags where they were; and whatever is
/// done afterwards, it never calls for finishing the target.
pub proof fn lemma_failure_checkpoint(s: SessionView)
    requires
        is_session(s),
        s.phase == Phase::Commits,
    ensures
        s.next > 0 ==> action_of(after_failure(s)) == ImportAction::SaveState(
            RepositorySavedState::OffsetedRevision(
                (s.next + s.cfg.offset) as usize,
                (s.range.from_tag + s.cfg.offset) as usize,
            ),
        ),
        s.next > 0 ==> action_of(after_action(after_failure(s))) == ImportAction::Fail,
        s.next == 0 ==> action_of(after_failure(s)) == ImportAction::Fail,
        is_failing(after_failure(s).phase),
        forall|t: SessionView| is_failing(t.phase) ==> is_failing(#[trigger] after_action(t).phase),
        forall|t: SessionView|
            is_failing(t.phase) ==> #[trigger] action_of(t) != ImportAction::Finish,
{
}

} // verus!
