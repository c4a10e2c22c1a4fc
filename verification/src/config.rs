//! Settings of a repository, of a set of repositories, and the state that a
//! target keeps between two imports.
use vstd::prelude::*;
use crate::names::{NameMap, names_view};
use crate::text::{append_decimal_text, decimal_text, same_text};

verus! {

/// A path of the file system; the library carries it and reads nothing in it.
#[verifier::external_type_specification]
#[verifier::external_body]
pub struct ExPathBuf(std::path::PathBuf);

/// How one Mercurial repository is imported.
pub struct RepositoryConfig {
    /// Added to every mark of this repository.
    pub offset: Option<usize>,
    /// Replacements for user names.
    pub authors: Option<NameMap>,
    /// Replacements for branch names.
    pub branches: Option<NameMap>,
    pub allow_unnamed_heads: bool,
    /// The first revision that is not imported.
    pub limit_high: Option<usize>,
    /// Directory below which the files are put.
    pub path_prefix: Option<String>,
    pub branch_prefix: Option<String>,
    pub tag_prefix: Option<String>,
    /// Put the branch prefix before the default branch too.
    pub prefix_default_branch: bool,
    /// The Git branch that stands for Mercurial's unnamed branch.
    pub default_branch: Option<String>,
}

/// The text of a string that may be absent.
pub open spec fn text_view(s: Option<String>) -> Option<Seq<char>> {
    match s {
        Some(s) => Some(s@),
        None => None,
    }
}

pub struct RepositoryConfigView {
    pub offset: nat,
    pub authors: Option<Map<Seq<char>, Seq<char>>>,
    pub branches: Option<Map<Seq<char>, Seq<char>>>,
    pub allow_unnamed_heads: bool,
    pub limit_high: Option<nat>,
    pub path_prefix: Option<Seq<char>>,
    pub branch_prefix: Option<Seq<char>>,
    pub tag_prefix: Option<Seq<char>>,
    pub prefix_default_branch: bool,
    pub default_branch: Option<Seq<char>>,
}

impl View for RepositoryConfig {
    type V = RepositoryConfigView;

    open spec fn view(&self) -> RepositoryConfigView {
        RepositoryConfigView {
            offset: match self.offset {
                Some(o) => o as nat,
                None => 0,
            },
            authors: names_view(self.authors),
            branches: names_view(self.branches),
            allow_unnamed_heads: self.allow_unnamed_heads,
            limit_high: match self.limit_high {
                Some(l) => Some(l as nat),
                None => None,
            },
            path_prefix: text_view(self.path_prefix),
            branch_prefix: text_view(self.branch_prefix),
            tag_prefix: text_view(self.tag_prefix),
            prefix_default_branch: self.prefix_default_branch,
            default_branch: text_view(self.default_branch),
        }
    }
}

impl Default for RepositoryConfig {
    fn default() -> (config: RepositoryConfig)
        ensures
            config.offset is None,
            config.authors is None,
            config.branches is None,
            config.allow_unnamed_heads,
            config.limit_high is None,
            config.path_prefix is None,
            config.branch_prefix is None,
            config.tag_prefix is None,
            !config.prefix_default_branch,
            config.default_branch is None,
    {
        RepositoryConfig {
            offset: None,
            authors: None,
            branches: None,
            allow_unnamed_heads: true,
            limit_high: None,
            path_prefix: None,
            branch_prefix: None,
            tag_prefix: None,
            prefix_default_branch: false,
            default_branch: None,
        }
    }
}

/// The Git branch that stands for Mercurial's unnamed branch where the
/// configuration names none.
pub const DEFAULT_BRANCH: &'static str = "master";

/// The Git branch that stands for Mercurial's unnamed branch: the one that
/// is named, or else `master`.
pub fn resolved_default_branch(default_branch: Option<&str>) -> (name: String)
    ensures
        name@ == match default_branch {
            Some(branch) => branch@,
            None => DEFAULT_BRANCH@,
        },
{
    match default_branch {
        Some(branch) => String::from_str(branch),
        None => String::from_str(DEFAULT_BRANCH),
    }
}

impl RepositoryConfig {
    /// The number added to the marks of this repository.
    pub fn mark_offset(&self) -> (offset: usize)
        ensures
            offset == self@.offset,
    {
        match self.offset {
            Some(o) => o,
            None => 0,
        }
    }
}

/// A branch of the target and the branch of a source that is merged into it.
pub struct MergedBranch {
    pub branch_to: String,
    pub branch_from: String,
}

/// One of several repositories that are brought together.
pub struct PathRepositoryConfig {
    /// The name of the repository as a remote of the common target.
    pub alias: Option<String>,
    pub path_hg: std::path::PathBuf,
    pub path_git: std::path::PathBuf,
    pub config: RepositoryConfig,
    pub merged_branches: Option<Vec<MergedBranch>>,
}

/// Several repositories and the Git repository that brings them together.
pub struct MultiConfig {
    pub path_git: std::path::PathBuf,
    pub repositories: Vec<PathRepositoryConfig>,
}

/// What a target remembers of the last import: the first revision whose
/// commit was not imported, and the first whose tags were not, both with the
/// repository's offset added.
#[derive(Clone, Copy, Debug, PartialEq, Eq, Structural)]
pub enum RepositorySavedState {
    OffsetedRevision(usize, usize),
}


/// The word that marks the current shape of a saved state.
pub const CURRENT_SHAPE: &'static str = "OffsetedRevision";

/// The word that marks the shape that older versions wrote: a list of
/// which only the first number counts.
pub const LEGACY_SHAPE: &'static str = "OffsetedRevisionSet";

/// The key of the shape in the document that holds a saved state.
pub const SHAPE_KEY: &'static str = "type";

/// The key of the numbers in the document that holds a saved state.
pub const VALUE_KEY: &'static str = "value";

/// The document that holds a saved state: its shape under one key, its
/// two numbers under the other.
pub open spec fn saved_state_text(commits: nat, tags: nat) -> Seq<char> {
    "type = \"OffsetedRevision\"\nvalue = ["@ + decimal_text(commits) + ", "@ + decimal_text(tags)
        + "]\n"@
}

/// What the `toml` crate reads in the document `text` under two keys: the
/// string under `tag_key` and the integers of the array under `value_key`.
/// There is nothing where the text is no document, where a key is missing,
/// or where a value is of another kind.
pub uninterp spec fn tagged_integers(text: Seq<char>, tag_key: Seq<char>, value_key: Seq<char>)
    -> Option<(Seq<char>, Seq<i64>)>;

/// A tag and integers, as plain values.
pub open spec fn tagged_view(tagged: Option<(String, Vec<i64>)>) -> Option<(Seq<char>, Seq<i64>)> {
    match tagged {
        Some((tag, values)) => Some((tag@, values@)),
        None => None,
    }
}

/// Parses `text` as a `toml::Table` and reads with `Table::get`,
/// `Value::as_str`, `Value::as_array` and `Value::as_integer` what stands
/// under the two keys. The contract only names the result: what a
/// document holds is the `toml` crate's to say.
#[verifier::external_body]
fn read_tagged_integers(text: &str, tag_key: &str, value_key: &str) -> (tagged: Option<
    (String, Vec<i64>),
>)
    ensures
        tagged_view(tagged) == tagged_integers(text@, tag_key@, value_key@),
{
    let table = text.parse::<toml::Table>().ok()?;
    let tag = table.get(tag_key)?.as_str()?.to_string();
    let values = table.get(value_key)?.as_array()?;
    Some((tag, values.iter().map(|v| v.as_integer()).collect::<Option<Vec<i64>>>()?))
}

/// Whether an integer of a document is a revision number of this machine.
pub open spec fn is_revision(v: i64) -> bool {
    0 <= v <= usize::MAX
}

/// The saved state that a shape and its numbers stand for. The current
/// shape has two numbers. The legacy shape has one or more, of which the
/// first is both the commit and the tag revision.
pub open spec fn state_of_parts(tag: Seq<char>, values: Seq<i64>) -> Option<RepositorySavedState> {
    if tag == CURRENT_SHAPE@ && values.len() == 2 && is_revision(values[0]) && is_revision(
        values[1],
    ) {
        Some(RepositorySavedState::OffsetedRevision(values[0] as usize, values[1] as usize))
    } else if tag == LEGACY_SHAPE@ && values.len() >= 1 && is_revision(values[0]) {
        Some(RepositorySavedState::OffsetedRevision(values[0] as usize, values[0] as usize))
    } else {
        None
    }
}

/// The saved state that a document stands for, given what was read in it.
pub open spec fn state_of_document(tagged: Option<(Seq<char>, Seq<i64>)>) -> Option<
    RepositorySavedState,
> {
    match tagged {
        Some((tag, values)) => state_of_parts(tag, values),
        None => None,
    }
}

fn revision_of(v: i64) -> (revision: Option<usize>)
    ensures
        revision == if is_revision(v) {
            Some(v as usize)
        } else {
            None::<usize>
        },
{
    if v >= 0 && v as u64 <= usize::MAX as u64 {
        Some(v as usize)
    } else {
        None
    }
}

impl RepositorySavedState {
    /// Whether a document can hold this state: `from_parts` reads back the
    /// two numbers that `to_toml` writes.
    pub open spec fn is_storable(&self) -> bool {
        self matches RepositorySavedState::OffsetedRevision(commits, tags) && commits <= i64::MAX
            && tags <= i64::MAX
    }

    /// Whether a document can hold this state.
    pub fn can_be_stored(&self) -> (storable: bool)
        ensures
            storable == self.is_storable(),
    {
        match self {
            RepositorySavedState::OffsetedRevision(commits, tags) => *commits as u128
                <= 0x7fff_ffff_ffff_ffffu128 && *tags as u128 <= 0x7fff_ffff_ffff_ffffu128,
        }
    }

    /// A state that can be stored is the one that its shape and numbers
    /// stand for.
    pub proof fn lemma_parts_of_stored(&self)
        requires
            self.is_storable(),
        ensures
            self matches RepositorySavedState::OffsetedRevision(commits, tags) && state_of_parts(
                CURRENT_SHAPE@,
                seq![commits as i64, tags as i64],
            ) == Some(*self),
    {
    }

    /// The document that holds this state. A document holds no number
    /// above the largest signed one of 64 bits, so a state with such a
    /// number has no document.
    pub fn to_toml(&self) -> (text: String)
        requires
            self.is_storable(),
        ensures
            self matches RepositorySavedState::OffsetedRevision(commits, tags) && text@
                == saved_state_text(commits as nat, tags as nat),
    {
        match self {
            RepositorySavedState::OffsetedRevision(commits, tags) => {
                let mut text = String::from_str("type = \"OffsetedRevision\"\nvalue = [");
                append_decimal_text(&mut text, *commits as u128);
                text.append(", ");
                append_decimal_text(&mut text, *tags as u128);
                text.append("]\n");
                text
            },
        }
    }

    /// The state that a shape and its numbers stand for, in the current
    /// shape or in the legacy one.
    pub fn from_parts(tag: &str, values: &Vec<i64>) -> (state: Option<RepositorySavedState>)
        ensures
            state == state_of_parts(tag@, values@),
    {
        if same_text(tag, CURRENT_SHAPE) {
            if values.len() == 2 {
                if let Some(commits) = revision_of(values[0]) {
                    if let Some(tags) = revision_of(values[1]) {
                        return Some(RepositorySavedState::OffsetedRevision(commits, tags));
                    }
                }
            }
            proof {
                reveal_strlit("OffsetedRevision");
                reveal_strlit("OffsetedRevisionSet");
                assert(CURRENT_SHAPE@ != LEGACY_SHAPE@) by {
                    assert(CURRENT_SHAPE@.len() != LEGACY_SHAPE@.len());
                }
            }
            None
        } else if same_text(tag, LEGACY_SHAPE) {
            if values.len() >= 1 {
                if let Some(commits) = revision_of(values[0]) {
                    return Some(RepositorySavedState::OffsetedRevision(commits, commits));
                }
            }
            None
        } else {
            None
        }
    }

    /// Reads a saved state in a document.
    pub fn from_toml(text: &str) -> (state: Option<RepositorySavedState>)
        ensures
            state == state_of_document(tagged_integers(text@, SHAPE_KEY@, VALUE_KEY@)),
    {
        match read_tagged_integers(text, SHAPE_KEY, VALUE_KEY) {
            Some((tag, values)) => RepositorySavedState::from_parts(tag.as_str(), &values),
            None => None,
        }
    }
}

} // verus!
