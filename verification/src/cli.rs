//! What the command line holds.
use vstd::prelude::*;

verus! {

/// What the command that rebuilds marks is given.
pub struct BuildMarksArgs {
    /// File with replacements for user names.
    pub authors: Option<std::path::PathBuf>,
    /// The Mercurial repository that was imported.
    pub hg_repo: std::path::PathBuf,
    /// The Git repository whose marks are rebuilt.
    pub git_repo: std::path::PathBuf,
    /// Added to every mark; nothing is added where it is absent.
    pub offset: Option<usize>,
    /// Keep no copy of the old marks.
    pub no_backup: bool,
}

/// What every import is given.
pub struct Common {
    /// File with replacements for user names.
    pub authors: Option<std::path::PathBuf>,
    /// Leave closed Mercurial branches as they are.
    pub no_clean_closed_branches: bool,
    /// Compare the target with the source when the import is done.
    pub verify: bool,
    /// The number of branches that Git keeps active at once.
    pub git_active_branches: Option<usize>,
    /// File to which a log of the run is written.
    pub log: Option<std::path::PathBuf>,
    /// Remove the target before the import.
    pub clean: bool,
    /// Say little: the run is unattended.
    pub cron: bool,
    /// Push the target when the import is done.
    pub target_push: bool,
    /// Pull the target before pushing it.
    pub target_pull: bool,
    /// Pull the source before the import.
    pub source_pull: bool,
    /// Replace in branch names what Git does not accept in a ref.
    pub fix_wrong_branchname: bool,
    /// Read a repository that requires what is not known here.
    pub ignore_unknown_requirements: bool,
}

impl BuildMarksArgs {
    /// The number that is added to a revision to get its mark: its place
    /// counted from one, and the offset.
    pub fn mark_shift(&self) -> (shift: u128)
        ensures
            shift == 1 + match self.offset {
                Some(offset) => offset as nat,
                None => 0,
            },
    {
        match self.offset {
            Some(offset) => offset as u128 + 1,
            None => 1,
        }
    }

    /// Whether a copy of the old marks is kept.
    pub fn backup(&self) -> (backup: bool)
        ensures
            backup == !self.no_backup,
    {
        !self.no_backup
    }
}

} // verus!
