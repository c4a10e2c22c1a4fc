//! Mapping of Mercurial branch and tag names to names that Git accepts as refs.
use vstd::prelude::*;
use crate::text::{chars_of, string_of};

verus! {

/// A name with its optional prefix put in front, unchanged otherwise.
pub open spec fn prefixed(name: Seq<char>, prefix: Option<Seq<char>>) -> Seq<char> {
    match prefix {
        Some(p) => p + name,
        None => name,
    }
}

/// `x` below an optional directory prefix, the two joined by a slash.
pub open spec fn under_prefix(prefix: Option<Seq<char>>, x: Seq<char>) -> Seq<char> {
    match prefix {
        Some(p) => p + seq!['/'] + x,
        None => x,
    }
}

/// Characters that Git never accepts in a ref: controls and space, `~`, `^`, `:`, `\`.
pub open spec fn is_forbidden(c: char) -> bool {
    c <= ' ' || c == '~' || c == '^' || c == ':' || c == '\\'
}

/// Number of `/` characters at the start of `s`.
pub open spec fn leading_slashes(s: Seq<char>) -> nat
    decreases s.len(),
{
    if s.len() > 0 && s[0] == '/' {
        1 + leading_slashes(s.drop_first())
    } else {
        0
    }
}

/// The character that stands at position `i` once every character of `s` was rewritten.
///
/// The leading run of slashes stays as it is. Behind it a forbidden character
/// becomes `-`, and so does a `.` that stands first behind the slashes or
/// follows another `.` of `s`: the character before it is the one that `s`
/// has there, whether it was itself rewritten or not, and the first
/// character behind the slashes has none before it.
pub open spec fn rewritten_at(s: Seq<char>, i: int) -> char
    recommends
        0 <= i < s.len(),
{
    if i < leading_slashes(s) {
        s[i]
    } else if is_forbidden(s[i]) {
        '-'
    } else if s[i] == '.' && (i == leading_slashes(s) || s[i - 1] == '.') {
        '-'
    } else {
        s[i]
    }
}

/// Every character of `s` rewritten.
pub open spec fn rewritten(s: Seq<char>) -> Seq<char> {
    Seq::new(s.len(), |i: int| rewritten_at(s, i))
}

/// `s` with a final `/` replaced by `-`.
pub open spec fn without_trailing_slash(s: Seq<char>) -> Seq<char> {
    if s.len() > 0 && s.last() == '/' {
        s.update(s.len() - 1, '-')
    } else {
        s
    }
}

/// Whether `s` ends in `.lock`.
pub open spec fn ends_with_dot_lock(s: Seq<char>) -> bool {
    &&& s.len() >= 5
    &&& s[s.len() - 5] == '.'
    &&& s[s.len() - 4] == 'l'
    &&& s[s.len() - 3] == 'o'
    &&& s[s.len() - 2] == 'c'
    &&& s[s.len() - 1] == 'k'
}

/// `s` with the `.` of a final `.lock` replaced by `-`.
pub open spec fn without_lock_suffix(s: Seq<char>) -> Seq<char> {
    if ends_with_dot_lock(s) {
        s.update(s.len() - 5, '-')
    } else {
        s
    }
}

/// A name made valid as a Git ref: characters rewritten, then a final `/`
/// and a final `.lock` taken care of, in that order.
pub open spec fn fixed_ref_name(s: Seq<char>) -> Seq<char> {
    without_lock_suffix(without_trailing_slash(rewritten(s)))
}

/// The Git name of a Mercurial branch.
pub open spec fn branch_ref_name(name: Seq<char>, prefix: Option<Seq<char>>, fix: bool) -> Seq<
    char,
> {
    if fix {
        fixed_ref_name(prefixed(name, prefix))
    } else {
        prefixed(name, prefix)
    }
}

/// Whether a name is left alone by `fixed_ref_name`.
pub open spec fn is_fixed_ref_name(s: Seq<char>) -> bool {
    &&& forall|i: int| 0 <= i < s.len() ==> #[trigger] rewritten_at(s, i) == s[i]
    &&& !(s.len() > 0 && s.last() == '/')
    &&& !ends_with_dot_lock(s)
}

proof fn lemma_leading_slashes_bound(s: Seq<char>)
    ensures
        leading_slashes(s) <= s.len(),
        forall|i: int| 0 <= i < leading_slashes(s) ==> s[i] == '/',
        leading_slashes(s) < s.len() ==> s[leading_slashes(s) as int] != '/',
    decreases s.len(),
{
    if s.len() > 0 && s[0] == '/' {
        let t = s.drop_first();
        lemma_leading_slashes_bound(t);
        assert forall|i: int| 0 <= i < leading_slashes(s) implies s[i] == '/' by {
            if i > 0 {
                assert(s[i] == t[i - 1]);
            }
        }
        if leading_slashes(s) < s.len() {
            assert(s[leading_slashes(s) as int] == t[leading_slashes(t) as int]);
        }
    }
}

proof fn lemma_leading_slashes_extend(s: Seq<char>, c: char)
    ensures
        leading_slashes(s.push(c)) == if leading_slashes(s) == s.len() && c == '/' {
            s.len() + 1
        } else {
            leading_slashes(s)
        },
    decreases s.len(),
{
    if s.len() == 0 {
        assert(s.push(c).drop_first() =~= Seq::<char>::empty());
        assert(leading_slashes(Seq::<char>::empty()) == 0);
    } else if s[0] == '/' {
        assert(s.push(c).drop_first() =~= s.drop_first().push(c));
        lemma_leading_slashes_extend(s.drop_first(), c);
    }
}

/// A fixed name has none of the traits that the fixing removes.
pub proof fn lemma_fixed_name_is_fixed(s: Seq<char>)
    ensures
        is_fixed_ref_name(fixed_ref_name(s)),
        fixed_ref_name(s).len() == s.len(),
{
    let r = rewritten(s);
    let t = without_trailing_slash(r);
    let y = without_lock_suffix(t);
    let n = leading_slashes(s) as int;
    lemma_leading_slashes_bound(s);
    lemma_leading_slashes_bound(y);
    if n < s.len() {
        // the run of slashes is as long in the fixed name as in `s`
        assert(r[n] == rewritten_at(s, n));
        assert forall|j: int| 0 <= j < n implies y[j] == '/' by {
            assert(r[j] == rewritten_at(s, j));
        }
        lemma_leading_slashes_is(y, n);
    }
    assert forall|i: int| 0 <= i < y.len() implies #[trigger] rewritten_at(y, i) == y[i] by {
        assert(r[i] == rewritten_at(s, i));
        assert(y[i] == r[i] || y[i] == '-');
        assert(!is_forbidden(y[i]));
        if i > 0 {
            assert(r[i - 1] == rewritten_at(s, i - 1));
            assert(y[i - 1] == r[i - 1] || y[i - 1] == '-');
        }
    }
}

/// Where slashes stand at the first `n` places of `s` and none behind
/// them, `s` has `n` leading slashes.
proof fn lemma_leading_slashes_is(s: Seq<char>, n: int)
    requires
        0 <= n <= s.len(),
        forall|j: int| 0 <= j < n ==> s[j] == '/',
        n < s.len() ==> s[n] != '/',
    ensures
        leading_slashes(s) == n,
{
    lemma_slashes_of_prefix(s, n);
    lemma_leading_slashes_bound(s);
}

/// Fixing a name twice gives what fixing it once gives.
pub proof fn lemma_fixed_ref_name_idempotent(s: Seq<char>)
    ensures
        fixed_ref_name(fixed_ref_name(s)) == fixed_ref_name(s),
{
    lemma_fixed_name_is_fixed(s);
    let y = fixed_ref_name(s);
    assert(rewritten(y) =~= y);
}

/// The sanitizer is idempotent: a branch name that was sanitized with fixing
/// on is not changed when it is sanitized again, without a prefix.
pub proof fn lemma_sanitize_idempotent(name: Seq<char>, prefix: Option<Seq<char>>)
    ensures
        branch_ref_name(branch_ref_name(name, prefix, true), None, true) == branch_ref_name(
            name,
            prefix,
            true,
        ),
{
    lemma_fixed_ref_name_idempotent(prefixed(name, prefix));
}

/// Puts `x` below the directory `prefix`, if there is one.
pub fn strip_leading_slash(prefix: Option<&String>, x: &str) -> (path: String)
    ensures
        path@ == under_prefix(
            match prefix {
                Some(p) => Some(p@),
                None => None,
            },
            x@,
        ),
{
    match prefix {
        Some(p) => {
            let mut chars = chars_of(p.as_str());
            chars.push('/');
            let mut rest = chars_of(x);
            chars.append(&mut rest);
            string_of(&chars)
        },
        None => {
            let chars = chars_of(x);
            string_of(&chars)
        },
    }
}

/// Puts the prefix, if there is one, in front of a branch or tag name.
pub fn sanitize_name(name: &str, prefix: Option<&String>) -> (sanitized: String)
    ensures
        sanitized@ == prefixed(
            name@,
            match prefix {
                Some(p) => Some(p@),
                None => None,
            },
        ),
{
    match prefix {
        Some(p) => {
            let mut chars = chars_of(p.as_str());
            let mut rest = chars_of(name);
            chars.append(&mut rest);
            string_of(&chars)
        },
        None => {
            let chars = chars_of(name);
            string_of(&chars)
        },
    }
}

fn is_forbidden_char(c: char) -> (b: bool)
    ensures
        b == is_forbidden(c),
{
    c <= ' ' || c == '~' || c == '^' || c == ':' || c == '\\'
}

/// The Git name of a Mercurial branch: the prefix is put in front and, with
/// `fix_branch_name` on, what Git does not accept in a ref is replaced.
pub fn sanitize_branchname(name: &str, prefix: Option<&String>, fix_branch_name: bool) -> (branch:
    String)
    ensures
        branch@ == branch_ref_name(
            name@,
            match prefix {
                Some(p) => Some(p@),
                None => None,
            },
            fix_branch_name,
        ),
        fix_branch_name ==> is_fixed_ref_name(branch@),
{
    let branchname = sanitize_name(name, prefix);
    if !fix_branch_name {
        return branchname;
    }
    let source = chars_of(branchname.as_str());
    let ghost s = source@;
    let mut result: Vec<char> = Vec::new();
    let mut in_slashes = true;
    let mut i: usize = 0;
    while i < source.len()
        invariant
            i <= source.len(),
            source@ == s,
            result@ == rewritten(s).take(i as int),
            in_slashes <==> leading_slashes(s.take(i as int)) == i,
            leading_slashes(s.take(i as int)) <= i,
            leading_slashes(s.take(i as int)) < i ==> leading_slashes(s) == leading_slashes(
                s.take(i as int),
            ),
            leading_slashes(s.take(i as int)) <= leading_slashes(s),
        decreases source.len() - i,
    {
        let c = source[i];
        proof {
            assert(s.take(i as int + 1) =~= s.take(i as int).push(c));
            lemma_leading_slashes_extend(s.take(i as int), c);
            lemma_leading_slashes_bound(s);
            lemma_leading_slashes_bound(s.take(i as int + 1));
            if in_slashes && c != '/' {
                // the run of slashes ends here, in `s` as in its prefix
                assert(forall|j: int| 0 <= j < i ==> s[j] == s.take(i as int + 1)[j]);
                if leading_slashes(s) > i {
                    assert(s[i as int] == '/');
                }
                lemma_leading_slashes_bound(s.take(i as int));
                assert(forall|j: int| 0 <= j < i ==> s[j] == s.take(i as int)[j]);
                lemma_leading_slashes_is(s, i as int);
            }
            if in_slashes && c == '/' {
                lemma_slashes_of_prefix(s, i as int + 1);
            }
        }
        if in_slashes && c == '/' {
            result.push(c);
        } else {
            // the first character behind the slashes has none before it
            let first = in_slashes;
            in_slashes = false;
            let out = if is_forbidden_char(c) {
                '-'
            } else if c == '.' && (first || source[i - 1] == '.') {
                '-'
            } else {
                c
            };
            result.push(out);
        }
        proof {
            assert(result@ =~= rewritten(s).take(i as int + 1));
        }
        i += 1;
    }
    proof {
        assert(result@ =~= rewritten(s));
    }
    let n = result.len();
    if n > 0 && result[n - 1] == '/' {
        result.set(n - 1, '-');
    }
    if n >= 5 && result[n - 5] == '.' && result[n - 4] == 'l' && result[n - 3] == 'o' && result[n
        - 2] == 'c' && result[n - 1] == 'k' {
        result.set(n - 5, '-');
    }
    proof {
        lemma_fixed_name_is_fixed(s);
    }
    string_of(&result)
}

/// While a prefix of `s` is all slashes, `s` has at least as many leading slashes.
proof fn lemma_slashes_of_prefix(s: Seq<char>, n: int)
    requires
        0 <= n <= s.len(),
        forall|j: int| 0 <= j < n ==> s[j] == '/',
    ensures
        leading_slashes(s) >= n,
        leading_slashes(s.take(n)) == n,
    decreases n,
{
    if n > 0 {
        let t = s.drop_first();
        lemma_slashes_of_prefix(t, n - 1);
        assert(s.take(n).drop_first() =~= t.take(n - 1));
    }
}

} // verus!
