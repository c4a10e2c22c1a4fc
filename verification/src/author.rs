//! Normalising the name of a Mercurial user to `Name <email>`.
use vstd::prelude::*;
use crate::error::ErrorKind;
use crate::names::NameMap;
use crate::text::{chars_of, string_of, trim_end, trimmed_end};

verus! {

/// The shape of a user name that needs no replacement: a name, then an
/// address in angle brackets at the end.
pub const AUTHOR_PATTERN: &'static str = "([^<]+) ?(<[^>]*>)$";

/// What the `regex` crate captures when it searches `text` for the regular
/// expression `pattern`: nothing where the pattern does not compile or
/// matches nowhere, else the text of each group of the leftmost match, the
/// whole match first, a group that took no part being absent.
pub uninterp spec fn captured_groups(pattern: Seq<char>, text: Seq<char>) -> Option<
    Seq<Option<Seq<char>>>,
>;

/// The texts of captured groups.
pub open spec fn groups_view(groups: Option<Vec<Option<String>>>) -> Option<
    Seq<Option<Seq<char>>>,
> {
    match groups {
        Some(g) => Some(
            Seq::new(
                g@.len(),
                |i: int|
                    match g@[i] {
                        Some(s) => Some(s@),
                        None => None,
                    },
            ),
        ),
        None => None,
    }
}

/// Compiles `pattern` with `regex::Regex::new` and searches `text` with
/// `Regex::captures`. The contract only names the result: what a pattern
/// matches is the `regex` crate's to say.
#[verifier::external_body]
fn capture_groups(pattern: &str, text: &str) -> (groups: Option<Vec<Option<String>>>)
    ensures
        groups_view(groups) == captured_groups(pattern@, text@),
{
    let expression = regex::Regex::new(pattern).ok()?;
    let found = expression.captures(text)?;
    Some(found.iter().map(|g| g.map(|m| m.as_str().to_string())).collect())
}

/// The replacement that the maps hold for a user: the repository's own map
/// is asked first, the common one second.
pub open spec fn mapped_author(
    local: Option<Map<Seq<char>, Seq<char>>>,
    global: Option<Map<Seq<char>, Seq<char>>>,
    user: Seq<char>,
) -> Option<Seq<char>> {
    if local is Some && local->0.contains_key(user) {
        Some(local->0[user])
    } else if global is Some && global->0.contains_key(user) {
        Some(global->0[user])
    } else {
        None
    }
}

/// The author that captured groups give: the name without the whitespace
/// at its end, a space, and the address. There is none where the pattern
/// did not match, or where nothing is left of the name.
pub open spec fn parsed_author(groups: Option<Seq<Option<Seq<char>>>>) -> Option<Seq<char>> {
    match groups {
        Some(g) => if g.len() == 3 && g[1] is Some && g[2] is Some && trimmed_end(g[1]->0).len()
            > 0 {
            Some(trimmed_end(g[1]->0) + seq![' '] + g[2]->0)
        } else {
            None
        },
        None => None,
    }
}

/// The author that stands for a user, if there is one, given what the
/// pattern captured in the user's name.
pub open spec fn author_of(
    local: Option<Map<Seq<char>, Seq<char>>>,
    global: Option<Map<Seq<char>, Seq<char>>>,
    user: Seq<char>,
    groups: Option<Seq<Option<Seq<char>>>>,
) -> Option<Seq<char>> {
    match mapped_author(local, global, user) {
        Some(a) => Some(a),
        None => parsed_author(groups),
    }
}

/// A user for whom the maps hold nothing, and of whose name nothing is left
/// without the whitespace at its end, has no author.
pub proof fn lemma_empty_name_refused(
    local: Option<Map<Seq<char>, Seq<char>>>,
    global: Option<Map<Seq<char>, Seq<char>>>,
    user: Seq<char>,
    groups: Seq<Option<Seq<char>>>,
)
    requires
        mapped_author(local, global, user) is None,
        groups.len() == 3,
        groups[1] is Some,
        trimmed_end(groups[1]->0).len() == 0,
    ensures
        author_of(local, global, user, Some(groups)) is None,
{
}

/// Whether a result is the author `expected`, or the refusal of `user`.
pub open spec fn is_author_result(
    result: Result<String, ErrorKind>,
    expected: Option<Seq<char>>,
    user: Seq<char>,
) -> bool {
    match expected {
        Some(a) => result matches Ok(s) && s@ == a,
        None => result matches Err(ErrorKind::WrongUser(u)) && u@ == user,
    }
}

/// Looks a user up in the two maps.
pub fn lookup_author(local: &Option<NameMap>, global: &Option<NameMap>, user: &str) -> (author:
    Option<String>)
    ensures
        match mapped_author(crate::names::names_view(*local), crate::names::names_view(*global), user@) {
            Some(a) => author matches Some(s) && s@ == a,
            None => author is None,
        },
{
    if let Some(authors) = local {
        if let Some(remap) = authors.get(user) {
            return Some(remap.clone());
        }
    }
    if let Some(authors) = global {
        if let Some(remap) = authors.get(user) {
            return Some(remap.clone());
        }
    }
    None
}

/// Makes an author of what the pattern captured in a user's name, or
/// refuses the user.
pub fn author_from_groups(user: &str, groups: &Option<Vec<Option<String>>>) -> (result: Result<
    String,
    ErrorKind,
>)
    ensures
        is_author_result(result, parsed_author(groups_view(*groups)), user@),
{
    if let Some(g) = groups {
        if g.len() == 3 {
            if let Some(name) = &g[1] {
                if let Some(email) = &g[2] {
                    let ghost captured = groups_view(*groups)->0;
                    assert(captured[1] == Some(name@) && captured[2] == Some(email@));
                    let trimmed = trim_end(name.as_str());
                    let mut author = chars_of(trimmed.as_str());
                    if author.len() > 0 {
                        author.push(' ');
                        let mut address = chars_of(email.as_str());
                        author.append(&mut address);
                        assert(author@ =~= trimmed_end(name@) + seq![' '] + email@);
                        return Ok(string_of(&author));
                    }
                }
            }
        }
    }
    let refused = chars_of(user);
    Err(ErrorKind::WrongUser(string_of(&refused)))
}

/// The author that stands for a Mercurial user: the replacement that one
/// of the maps holds, else the user's own name and address, if the name
/// has that shape.
pub fn fixup_user(local: &Option<NameMap>, global: &Option<NameMap>, user: &str) -> (result:
    Result<String, ErrorKind>)
    ensures
        is_author_result(
            result,
            author_of(
                crate::names::names_view(*local),
                crate::names::names_view(*global),
                user@,
                captured_groups(AUTHOR_PATTERN@, user@),
            ),
            user@,
        ),
{
    match lookup_author(local, global, user) {
        Some(author) => Ok(author),
        None => {
            let groups = capture_groups(AUTHOR_PATTERN, user);
            author_from_groups(user, &groups)
        },
    }
}

} // verus!
