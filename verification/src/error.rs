//! The failures of an import.
use vstd::prelude::*;

verus! {

/// Failure on the side of the Mercurial repository.
#[derive(Debug)]
pub enum SourceRepositoryError {
    /// The repository could not be pulled; the text says which.
    PullFail(String),
}

/// Failure on the side of the Git repository. Where a command failed, its
/// exit code is kept, if it had one.
#[derive(Debug)]
pub enum TargetRepositoryError {
    Nope,
    /// The target exists and is no directory.
    IsNotDir,
    /// The target exists and holds no saved state.
    SavedStateDoesNotExist,
    CannotInitRepo(Option<i32>),
    CannotConfigRepo(Option<i32>),
    /// The importer ended with a failure.
    ImportFailed(Option<i32>),
    GitFailure(Option<i32>, String),
    IOError(String),
    /// The target differs from the source.
    VerifyFail,
}

/// Why an import stopped.
#[derive(Debug)]
pub enum ErrorKind {
    Source(SourceRepositoryError),
    Target(TargetRepositoryError),
    /// Bytes that had to be UTF-8 were not.
    Encoding,
    /// A condition that must hold before the import does not.
    VerifyFailure(String),
    /// A file of a changeset has data and no manifest entry, or the reverse.
    WrongFileData(String),
    /// The name of a Mercurial user has no e-mail address and no replacement.
    WrongUser(String),
}

/// What is said of a user name that cannot be used, with the way to mend it.
pub open spec fn wrong_user_text(user: Seq<char>) -> Seq<char> {
    "wrong name of Mercurial user '"@ + user
        + "'.\nMust be in form 'Username <username@email.xyz>'.\nUse --authors option to specify mapping file in TOML format.\nOr use [authors] section in config.\n\nExample:\n\n    '"@
        + user + "' = 'My <my@normal.xyz>'\n\nwill replace Mercurial '"@ + user
        + "' with 'My <my@normal.xyz>' in Git.\n"@
}

/// Says why a user name cannot be used, and shows the line of a mapping
/// that would replace it.
pub fn wrong_user_message(user: &str) -> (message: String)
    ensures
        message@ == wrong_user_text(user@),
{
    let mut message = String::from_str("wrong name of Mercurial user '");
    message.append(user);
    message.append(
        "'.\nMust be in form 'Username <username@email.xyz>'.\nUse --authors option to specify mapping file in TOML format.\nOr use [authors] section in config.\n\nExample:\n\n    '",
    );
    message.append(user);
    message.append("' = 'My <my@normal.xyz>'\n\nwill replace Mercurial '");
    message.append(user);
    message.append("' with 'My <my@normal.xyz>' in Git.\n");
    message
}

} // verus!
