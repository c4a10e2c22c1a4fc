//! Settings of one run, shared by all repositories.
use vstd::prelude::*;
use crate::cli::Common;
use crate::names::{NameMap, names_view};

verus! {

/// What was asked for on the command line.
pub struct Environment {
    /// Leave closed Mercurial branches as they are.
    pub no_clean_closed_branches: bool,
    /// Authors known to every repository, consulted after a repository's own.
    pub authors: Option<NameMap>,
    /// Remove the target before the import.
    pub clean: bool,
    /// Say little: the run is unattended.
    pub cron: bool,
    /// Push the target when the import is done.
    pub target_push: bool,
    /// Pull the target before pushing it.
    pub target_pull: bool,
    /// Pull the source before the import.
    pub source_pull: bool,
    /// Replace in branch names what Git does not accept in a ref.
    pub fix_wrong_branchname: bool,
}

/// What the writing of commands reads of an `Environment`.
pub struct EnvironmentView {
    pub authors: Option<Map<Seq<char>, Seq<char>>>,
    pub fix_wrong_branchname: bool,
}

impl View for Environment {
    type V = EnvironmentView;

    open spec fn view(&self) -> EnvironmentView {
        EnvironmentView {
            authors: names_view(self.authors),
            fix_wrong_branchname: self.fix_wrong_branchname,
        }
    }
}


/// The settings of a run that the command line asks for, with the authors
/// that were read for it.
pub fn load_environment(common: &Common, authors: Option<NameMap>) -> (env: Environment)
    ensures
        env.no_clean_closed_branches == common.no_clean_closed_branches,
        env.authors == authors,
        env.clean == common.clean,
        env.cron == common.cron,
        env.target_push == common.target_push,
        env.target_pull == common.target_pull,
        env.source_pull == common.source_pull,
        env.fix_wrong_branchname == common.fix_wrong_branchname,
{
    Environment {
        no_clean_closed_branches: common.no_clean_closed_branches,
        authors,
        clean: common.clean,
        cron: common.cron,
        target_push: common.target_push,
        target_pull: common.target_pull,
        source_pull: common.source_pull,
        fix_wrong_branchname: common.fix_wrong_branchname,
    }
}

} // verus!
