//! The fast-import commands that a changeset and a tag become.
use vstd::prelude::*;
use vstd::utf8::{decode_utf8, encode_utf8, valid_utf8};
use crate::author::{author_of, captured_groups, fixup_user, is_author_result, AUTHOR_PATTERN};
use crate::changeset::{
    tags_view,
    Changeset,
    ChangesetFile,
    ChangesetView,
    EntryKind,
    ExtraEntry,
    ExtraView,
    FileView,
    Tag,
    TagView,
};
use std::ops::Range;
use crate::config::{RepositoryConfig, RepositoryConfigView};
use crate::env::{Environment, EnvironmentView};
use crate::error::ErrorKind;
use crate::marks::{mark, mark_of};
use crate::names::NameMap;
use crate::sanitize::{branch_ref_name, prefixed, sanitize_branchname, under_prefix};
use crate::text::{
    append_bytes,
    append_decimal,
    append_signed_decimal,
    append_str,
    append_zero_padded,
    decimal,
    lemma_text_of_bytes,
    text_of,
    same_bytes,
    same_text,
    signed_decimal,
    lossy,
    zero_padded,
};

verus! {

/// The bytes of a piece of text.
pub open spec fn lit(s: &str) -> Seq<u8> {
    encode_utf8(s@)
}

/// Whether the two bytes that open and close the header of a stored file
/// stand at position `i` of `data`.
pub open spec fn has_marker_at(data: Seq<u8>, i: int) -> bool {
    0 <= i && i + 2 <= data.len() && data[i] == 1 && data[i + 1] == 10
}

/// Whether `i` is the first position from `from` on at which a marker stands.
pub open spec fn is_first_marker_from(data: Seq<u8>, from: int, i: int) -> bool {
    &&& from <= i
    &&& has_marker_at(data, i)
    &&& forall|j: int| from <= j < i ==> !has_marker_at(data, j)
}

/// The content of a file as Mercurial stores it. A stored file that opens
/// with a marker has a header, which ends behind the next marker; where no
/// second marker follows, only the first one is left out.
pub open spec fn file_content_of(data: Seq<u8>) -> Seq<u8> {
    if !has_marker_at(data, 0) {
        data
    } else if exists|i: int| is_first_marker_from(data, 2, i) {
        data.skip((choose|i: int| is_first_marker_from(data, 2, i)) + 2)
    } else {
        data.skip(2)
    }
}

/// `hg_parser::file_content` returns the part of a stored file behind its
/// header: the whole where the file does not open with the two marker
/// bytes, else what follows the first marker found from the third byte on,
/// or what follows the opening marker where there is no other.
#[verifier::external_body]
fn file_content<'a>(data: &'a [u8]) -> (content: &'a [u8])
    ensures
        content@ == file_content_of(data@),
{
    hg_parser::file_content(data)
}

/// The branch that the extra properties name: the value of the last
/// property called `branch`.
pub open spec fn named_branch(extra: Seq<ExtraView>) -> Option<Seq<u8>>
    decreases extra.len(),
{
    if extra.len() == 0 {
        None
    } else if extra.last().key == lit("branch") {
        Some(extra.last().value)
    } else {
        named_branch(extra.drop_last())
    }
}

/// Whether the extra properties say that the changeset closes its branch.
pub open spec fn closes_branch(extra: Seq<ExtraView>) -> bool {
    exists|i: int|
        0 <= i < extra.len() && (#[trigger] extra[i]).key == lit("close") && extra[i].value == lit(
            "1",
        )
}

/// The Git name of the Mercurial branch `key`: what the branch map holds
/// for it, else its sanitized name, with the branch prefix unless it is the
/// default branch and that one goes without.
pub open spec fn git_branch(
    cfg: RepositoryConfigView,
    env: EnvironmentView,
    default_branch: Seq<char>,
    brmap: Map<Seq<char>, Seq<char>>,
    key: Seq<char>,
) -> Seq<char> {
    if brmap.contains_key(key) {
        brmap[key]
    } else {
        branch_ref_name(
            key,
            if key != default_branch || cfg.prefix_default_branch {
                cfg.branch_prefix
            } else {
                None
            },
            env.fix_wrong_branchname,
        )
    }
}

/// The time zone as Git writes it: sign, two digits of hours, two of
/// minutes. Mercurial counts the seconds west of UTC, Git those east of
/// it. Hours and minutes are each rounded toward zero and each carry their
/// own sign, the hours always, the minutes a minus only.
pub open spec fn tz_text(tz_offset: int) -> Seq<u8> {
    let east = -tz_offset;
    let size = if east < 0 {
        -east
    } else {
        east
    };
    let hours = (size / 3600) as nat;
    let minutes = ((size % 3600) / 60) as nat;
    (if east < 0 && hours > 0 {
        seq![45u8]
    } else {
        seq![43u8]
    }) + zero_padded(hours, 2) + (if east < 0 && minutes > 0 {
        seq![45u8] + decimal(minutes)
    } else {
        zero_padded(minutes, 2)
    })
}

/// Who made a commit and when: author, seconds since the epoch, time zone.
pub open spec fn signature(author: Seq<char>, time: int, tz_offset: int) -> Seq<u8> {
    encode_utf8(author) + lit(" ") + signed_decimal(time) + lit(" ") + tz_text(tz_offset) + lit(
        "\n",
    )
}

/// Whether a changeset has a parent or is not the first revision.
pub open spec fn has_ancestry(cs: ChangesetView) -> bool {
    cs.header.p1 is Some || cs.header.p2 is Some || cs.revision != 0
}

/// The command that points a branch somewhere else.
pub open spec fn reset_line(branch: Seq<char>) -> Seq<u8> {
    lit("reset refs/heads/") + encode_utf8(branch) + lit("\n")
}

/// The line that opens a commit on a branch.
pub open spec fn commit_line(branch: Seq<char>) -> Seq<u8> {
    lit("commit refs/heads/") + encode_utf8(branch) + lit("\n")
}

/// The line of the author or of the committer.
pub open spec fn person_line(role: &str, author: Seq<char>, time: int, tz_offset: int) -> Seq<u8> {
    lit(role) + signature(author, time, tz_offset)
}

/// The message of a commit, counted with the line end that follows it,
/// and an empty line.
pub open spec fn message_lines(comment: Seq<u8>) -> Seq<u8> {
    lit("data ") + decimal(comment.len() + 1) + lit("\n") + comment + lit("\n\n")
}

/// The commands that open a commit: a reset of the branch unless the
/// changeset is a first revision without parents, then the commit with its
/// mark, author, committer and message.
pub open spec fn commit_head(cs: ChangesetView, offset: nat, branch: Seq<char>, author: Seq<char>)
    -> Seq<u8> {
    (if has_ancestry(cs) {
        reset_line(branch)
    } else {
        Seq::<u8>::empty()
    }) + commit_line(branch) + mark_line("mark :", cs.revision, offset) + person_line(
        "author ",
        author,
        cs.header.time,
        cs.header.tz_offset,
    ) + person_line("committer ", author, cs.header.time, cs.header.tz_offset) + message_lines(
        cs.header.comment,
    )
}

/// A line that names the mark of a revision.
pub open spec fn mark_line(word: &str, revision: nat, offset: nat) -> Seq<u8> {
    lit(word) + decimal(mark_of(revision, offset)) + lit("\n")
}

/// The parents of a commit: `from` for the only or the first one, `merge`
/// for the second.
pub open spec fn parent_lines(p1: Option<nat>, p2: Option<nat>, offset: nat) -> Seq<u8> {
    match (p1, p2) {
        (Some(a), Some(b)) => mark_line("from :", a, offset) + mark_line("merge :", b, offset),
        (Some(p), None) => mark_line("from :", p, offset),
        (None, Some(p)) => mark_line("from :", p, offset),
        (None, None) => Seq::<u8>::empty(),
    }
}

/// The file mode that Git knows for a manifest entry.
pub open spec fn mode_text(kind: EntryKind) -> Seq<u8> {
    match kind {
        EntryKind::Symlink => lit("120000"),
        EntryKind::Executable => lit("100755"),
        EntryKind::Regular => lit("100644"),
        EntryKind::Tree => lit("100644"),
    }
}

/// The directory below which files are put, with the slash that ends it.
pub open spec fn directory(path_prefix: Option<Seq<char>>) -> Seq<u8> {
    encode_utf8(under_prefix(path_prefix, Seq::<char>::empty()))
}

/// Whether a file has both data and a manifest entry, or neither.
pub open spec fn is_consistent(f: FileView) -> bool {
    f.data is Some <==> f.manifest_entry is Some
}

/// The line that names a file that was added or changed.
pub open spec fn modify_line(kind: EntryKind, dir: Seq<u8>, path: Seq<u8>) -> Seq<u8> {
    lit("M ") + mode_text(kind) + lit(" inline ") + dir + path
}

/// The content of a file, behind its length.
pub open spec fn content_block(content: Seq<u8>) -> Seq<u8> {
    lit("\ndata ") + decimal(content.len()) + lit("\n") + content
}

/// The line that deletes a file.
pub open spec fn delete_line(dir: Seq<u8>, path: Seq<u8>) -> Seq<u8> {
    lit("D ") + dir + path + lit("\n")
}

/// The command for one file: a deletion where the file has neither data
/// nor manifest entry, else its mode, path and content.
pub open spec fn file_lines(f: FileView, dir: Seq<u8>) -> Seq<u8> {
    match (f.data, f.manifest_entry) {
        (Some(data), Some(kind)) => modify_line(kind, dir, f.path) + content_block(
            file_content_of(data),
        ),
        _ => delete_line(dir, f.path),
    }
}

/// The commands for some files, in their order.
pub open spec fn files_lines(files: Seq<FileView>, dir: Seq<u8>) -> Seq<u8>
    decreases files.len(),
{
    if files.len() == 0 {
        Seq::<u8>::empty()
    } else {
        files_lines(files.drop_last(), dir) + file_lines(files.last(), dir)
    }
}

/// The number of files before the first inconsistent one.
pub open spec fn leading_consistent(files: Seq<FileView>) -> nat
    decreases files.len(),
{
    if files.len() == 0 {
        0
    } else {
        let before = leading_consistent(files.drop_last());
        if before == files.len() - 1 && is_consistent(files.last()) {
            files.len()
        } else {
            before
        }
    }
}

/// The command that keeps the tip of a branch under `archive/`.
pub open spec fn archive_lines(branch: Seq<char>, tip: nat) -> Seq<u8> {
    lit("reset refs/tags/archive/") + encode_utf8(branch) + lit("\n") + lit("from :") + decimal(
        tip,
    ) + lit("\n\n")
}

/// What retires a closed branch: its tip is kept under `archive/`, and the
/// branch itself is pointed at the null commit.
pub open spec fn closing_lines(branch: Seq<char>, tip: nat) -> Seq<u8> {
    archive_lines(branch, tip) + reset_line(branch) + lit(
        "from 0000000000000000000000000000000000000000\n\n",
    )
}

/// The command that sets a tag on a revision.
pub open spec fn tag_lines(tag: Seq<char>, revision: nat, offset: nat) -> Seq<u8> {
    lit("reset refs/tags/") + encode_utf8(tag) + lit("\n") + lit("from :") + decimal(
        mark_of(revision, offset),
    ) + lit("\n") + lit("\n")
}

/// Whether a tag is on a revision from `from` on and before `to`.
pub open spec fn is_tag_within(tag: TagView, from: nat, to: nat) -> bool {
    from <= tag.revision < to
}

/// The commands for the tags on the revisions from `from` on and before
/// `to`, in the order of the table, each tag under the tag prefix.
pub open spec fn tags_lines(
    tags: Seq<TagView>,
    from: nat,
    to: nat,
    tag_prefix: Option<Seq<char>>,
    offset: nat,
) -> Seq<u8>
    decreases tags.len(),
{
    if tags.len() == 0 {
        Seq::<u8>::empty()
    } else {
        tags_lines(tags.drop_last(), from, to, tag_prefix, offset) + (if is_tag_within(
            tags.last(),
            from,
            to,
        ) {
            tag_lines(prefixed(tags.last().name, tag_prefix), tags.last().revision, offset)
        } else {
            Seq::<u8>::empty()
        })
    }
}

/// The number of tags on the revisions from `from` on and before `to`.
pub open spec fn tags_within(tags: Seq<TagView>, from: nat, to: nat) -> nat
    decreases tags.len(),
{
    if tags.len() == 0 {
        0
    } else {
        tags_within(tags.drop_last(), from, to) + (if is_tag_within(tags.last(), from, to) {
            1nat
        } else {
            0nat
        })
    }
}

/// A first revision without parents is written without a reset before
/// its commit and without a parent behind it.
pub proof fn lemma_root_commit(cs: ChangesetView, offset: nat, branch: Seq<char>, author: Seq<char>)
    requires
        cs.revision == 0,
        cs.header.p1 is None,
        cs.header.p2 is None,
    ensures
        commit_head(cs, offset, branch, author) == commit_line(branch) + mark_line(
            "mark :",
            0,
            offset,
        ) + person_line("author ", author, cs.header.time, cs.header.tz_offset) + person_line(
            "committer ",
            author,
            cs.header.time,
            cs.header.tz_offset,
        ) + message_lines(cs.header.comment),
        parent_lines(cs.header.p1, cs.header.p2, offset) == Seq::<u8>::empty(),
{
    assert(Seq::<u8>::empty() + commit_line(branch) =~= commit_line(branch));
}

/// Every other changeset is written with a reset of its branch before
/// its commit.
pub proof fn lemma_later_commit(cs: ChangesetView, offset: nat, branch: Seq<char>, author: Seq<char>)
    requires
        has_ancestry(cs),
    ensures
        commit_head(cs, offset, branch, author).subrange(0, reset_line(branch).len() as int)
            == reset_line(branch),
{
    let head = commit_head(cs, offset, branch, author);
    assert(head.subrange(0, reset_line(branch).len() as int) =~= reset_line(branch));
}

/// A merge names its first parent with one `from` and its second with
/// one `merge`, in this order.
pub proof fn lemma_merge_commit(first: nat, second: nat, offset: nat)
    ensures
        parent_lines(Some(first), Some(second), offset) == lit("from :") + decimal(
            mark_of(first, offset),
        ) + lit("\n") + (lit("merge :") + decimal(mark_of(second, offset)) + lit("\n")),
{
}

/// A changeset that closes its branch is followed at once by what
/// retires the branch: the tip is kept under `archive/`, then the branch is
/// pointed at the null commit.
pub proof fn lemma_closed_branch(
    cs: ChangesetView,
    cfg: RepositoryConfigView,
    branch: Seq<char>,
    author: Seq<char>,
)
    requires
        closes_branch(cs.header.extra),
        file_failure(cs) is None,
    ensures
        commit_lines(cs, cfg, branch, author) == commit_head(cs, cfg.offset, branch, author)
            + parent_lines(cs.header.p1, cs.header.p2, cfg.offset) + files_lines(
            cs.files,
            directory(cfg.path_prefix),
        ) + closing_lines(branch, mark_of(cs.revision, cfg.offset)),
        closing_lines(branch, mark_of(cs.revision, cfg.offset)) == archive_lines(
            branch,
            mark_of(cs.revision, cfg.offset),
        ) + reset_line(branch) + lit("from 0000000000000000000000000000000000000000\n\n"),
{
    lemma_leading_consistent_bound(cs.files);
    assert(cs.files.take(cs.files.len() as int) =~= cs.files);
}

/// No more files are consistent than there are files.
pub proof fn lemma_leading_consistent_bound(files: Seq<FileView>)
    ensures
        leading_consistent(files) <= files.len(),
    decreases files.len(),
{
    if files.len() > 0 {
        lemma_leading_consistent_bound(files.drop_last());
    }
}

/// A symbolic link is written with the mode `120000`, and its content is
/// what it points to.
pub proof fn lemma_symlink(f: FileView, dir: Seq<u8>)
    requires
        f.data is Some,
        f.manifest_entry == Some(EntryKind::Symlink),
    ensures
        file_lines(f, dir) == lit("M ") + lit("120000") + lit(" inline ") + dir + f.path
            + content_block(file_content_of(f.data->0)),
{
}

/// Why a changeset could not be written.
pub enum Failure {
    /// The user's or the branch's name is not UTF-8.
    Encoding,
    WrongUser(Seq<char>),
    WrongFileData(Seq<char>),
}

/// What writing one changeset does: the bytes it adds to the output, the
/// branch map it leaves, and its failure, if it fails.
pub struct Emission {
    pub bytes: Seq<u8>,
    pub branches: Map<Seq<char>, Seq<char>>,
    pub failure: Option<Failure>,
}

/// The bytes that name the branch of a changeset: those of the extra
/// property `branch`, else those of the default branch.
pub open spec fn raw_branch(cs: ChangesetView, default_branch: Seq<char>) -> Seq<u8> {
    match named_branch(cs.header.extra) {
        Some(b) => b,
        None => encode_utf8(default_branch),
    }
}

/// The failure that the files of a changeset cause: the first file that has
/// data without a manifest entry, or the reverse, is refused by its path.
pub open spec fn file_failure(cs: ChangesetView) -> Option<Failure> {
    let good = leading_consistent(cs.files);
    if good < cs.files.len() {
        Some(Failure::WrongFileData(text_of(cs.files[good as int].path)))
    } else {
        None
    }
}

/// The commands that a changeset becomes on the branch `branch`: the head
/// of the commit, its parents, its files up to the first inconsistent one,
/// and, behind the files of a changeset that closes its branch, what
/// retires the branch.
pub open spec fn commit_lines(
    cs: ChangesetView,
    cfg: RepositoryConfigView,
    branch: Seq<char>,
    author: Seq<char>,
) -> Seq<u8> {
    let good = leading_consistent(cs.files);
    commit_head(cs, cfg.offset, branch, author) + parent_lines(
        cs.header.p1,
        cs.header.p2,
        cfg.offset,
    ) + files_lines(cs.files.take(good as int), directory(cfg.path_prefix)) + (if good
        == cs.files.len() && closes_branch(cs.header.extra) {
        closing_lines(branch, mark_of(cs.revision, cfg.offset))
    } else {
        Seq::<u8>::empty()
    })
}

/// Writing a changeset whose author is known.
///
/// The branch's name must be UTF-8, else nothing is written. The branch
/// map learns the branch, and the commands of the changeset are written;
/// at the first inconsistent file the writing stops with a failure.
pub open spec fn emission_as(
    cs: ChangesetView,
    cfg: RepositoryConfigView,
    env: EnvironmentView,
    default_branch: Seq<char>,
    brmap: Map<Seq<char>, Seq<char>>,
    author: Seq<char>,
) -> Emission {
    let raw = raw_branch(cs, default_branch);
    if !valid_utf8(raw) {
        Emission { bytes: Seq::empty(), branches: brmap, failure: Some(Failure::Encoding) }
    } else {
        let key = decode_utf8(raw);
        let branch = git_branch(cfg, env, default_branch, brmap, key);
        Emission {
            bytes: commit_lines(cs, cfg, branch, author),
            branches: brmap.insert(key, branch),
            failure: file_failure(cs),
        }
    }
}

/// Writing a changeset. Nothing is written where the name of its user is
/// not UTF-8, or where no author stands for the user: neither a replacement
/// in the maps nor what the author pattern captures in the name.
#[verifier::opaque]
pub open spec fn emission(
    cs: ChangesetView,
    cfg: RepositoryConfigView,
    env: EnvironmentView,
    default_branch: Seq<char>,
    brmap: Map<Seq<char>, Seq<char>>,
) -> Emission {
    if !valid_utf8(cs.header.user) {
        Emission { bytes: Seq::empty(), branches: brmap, failure: Some(Failure::Encoding) }
    } else {
        let user = decode_utf8(cs.header.user);
        match author_of(cfg.authors, env.authors, user, captured_groups(AUTHOR_PATTERN@, user)) {
            Some(author) => emission_as(cs, cfg, env, default_branch, brmap, author),
            None => Emission {
                bytes: Seq::empty(),
                branches: brmap,
                failure: Some(Failure::WrongUser(user)),
            },
        }
    }
}

/// Whether the result of writing a changeset is the one that `failure`
/// calls for: the counter raised by one, or the matching error.
pub open spec fn is_outcome(result: Result<usize, ErrorKind>, failure: Option<Failure>, count: usize)
    -> bool {
    match failure {
        None => result matches Ok(c) && c == count + 1,
        Some(Failure::Encoding) => result matches Err(ErrorKind::Encoding),
        Some(Failure::WrongUser(u)) => result matches Err(ErrorKind::WrongUser(s)) && s@ == u,
        Some(Failure::WrongFileData(p)) => result matches Err(ErrorKind::WrongFileData(s)) && s@
            == p,
    }
}


/// Finds among the extra properties the one that names the branch, and
/// whether the branch is closed.
fn scan_extra(extra: &Vec<ExtraEntry>) -> (found: (Option<usize>, bool))
    ensures
        match named_branch(Seq::new(extra@.len(), |i: int| extra@[i]@)) {
            Some(b) => found.0 matches Some(i) && i < extra@.len() && extra@[i as int].value@ == b,
            None => found.0 is None,
        },
        found.1 == closes_branch(Seq::new(extra@.len(), |i: int| extra@[i]@)),
{
    let ghost all = Seq::new(extra@.len(), |i: int| extra@[i]@);
    let mut branch: Option<usize> = None;
    let mut closed = false;
    let mut i: usize = 0;
    while i < extra.len()
        invariant
            i <= extra.len(),
            all == Seq::new(extra@.len(), |i: int| extra@[i]@),
            match named_branch(all.take(i as int)) {
                Some(b) => branch matches Some(k) && k < i && extra@[k as int].value@ == b,
                None => branch is None,
            },
            closed == closes_branch(all.take(i as int)),
        decreases extra.len() - i,
    {
        let entry = &extra[i];
        proof {
            assert(all.take(i as int + 1).drop_last() =~= all.take(i as int));
            assert(all.take(i as int + 1).last() == entry@);
        }
        let ghost before = closed;
        if same_bytes(entry.key.as_slice(), "branch".as_bytes()) {
            branch = Some(i);
        }
        if same_bytes(entry.key.as_slice(), "close".as_bytes()) && same_bytes(
            entry.value.as_slice(),
            "1".as_bytes(),
        ) {
            closed = true;
        }
        proof {
            let shorter = all.take(i as int);
            let longer = all.take(i as int + 1);
            if closes_branch(shorter) {
                let k = choose|k: int|
                    0 <= k < shorter.len() && (#[trigger] shorter[k]).key == lit("close")
                        && shorter[k].value == lit("1");
                assert(longer[k] == shorter[k]);
            }
            if closes_branch(longer) && !before {
                let k = choose|k: int|
                    0 <= k < longer.len() && (#[trigger] longer[k]).key == lit("close")
                        && longer[k].value == lit("1");
                if k < i {
                    assert(shorter[k] == longer[k]);
                }
            }
            if closed && !before {
                assert(longer[i as int] == entry@);
            }
        }
        i += 1;
    }
    proof {
        assert(all.take(extra.len() as int) =~= all);
    }
    (branch, closed)
}

fn append_tz(out: &mut Vec<u8>, tz_offset: i32)
    ensures
        final(out)@ == old(out)@ + tz_text(tz_offset as int),
{
    let ghost start = out@;
    let east: i64 = -(tz_offset as i64);
    let size: u64 = if east < 0 {
        (-east) as u64
    } else {
        east as u64
    };
    let hours: u64 = size / 3600;
    let minutes: u64 = (size % 3600) / 60;
    if east < 0 && hours > 0 {
        out.push(45);
    } else {
        out.push(43);
    }
    append_zero_padded(out, hours as u128, 2);
    if east < 0 && minutes > 0 {
        out.push(45);
        append_decimal(out, minutes as u128);
    } else {
        append_zero_padded(out, minutes as u128, 2);
    }
    assert(out@ =~= start + tz_text(tz_offset as int));
}

fn append_signature(out: &mut Vec<u8>, author: &str, time: i64, tz_offset: i32)
    ensures
        final(out)@ == old(out)@ + signature(author@, time as int, tz_offset as int),
{
    let ghost start = out@;
    append_str(out, author);
    append_str(out, " ");
    append_signed_decimal(out, time);
    append_str(out, " ");
    append_tz(out, tz_offset);
    append_str(out, "\n");
    assert(out@ =~= start + signature(author@, time as int, tz_offset as int));
}

fn append_reset(out: &mut Vec<u8>, branch: &str)
    ensures
        final(out)@ == old(out)@ + reset_line(branch@),
{
    let ghost start = out@;
    append_str(out, "reset refs/heads/");
    append_str(out, branch);
    append_str(out, "\n");
    assert(out@ =~= start + reset_line(branch@));
}

fn append_commit_line(out: &mut Vec<u8>, branch: &str)
    ensures
        final(out)@ == old(out)@ + commit_line(branch@),
{
    let ghost start = out@;
    append_str(out, "commit refs/heads/");
    append_str(out, branch);
    append_str(out, "\n");
    assert(out@ =~= start + commit_line(branch@));
}

fn append_person_line(out: &mut Vec<u8>, role: &str, author: &str, time: i64, tz_offset: i32)
    ensures
        final(out)@ == old(out)@ + person_line(role, author@, time as int, tz_offset as int),
{
    let ghost start = out@;
    append_str(out, role);
    append_signature(out, author, time, tz_offset);
    assert(out@ =~= start + person_line(role, author@, time as int, tz_offset as int));
}

fn append_message(out: &mut Vec<u8>, comment: &Vec<u8>)
    ensures
        final(out)@ == old(out)@ + message_lines(comment@),
{
    let ghost start = out@;
    append_str(out, "data ");
    append_decimal(out, comment.len() as u128 + 1);
    append_str(out, "\n");
    append_bytes(out, comment.as_slice());
    append_str(out, "\n\n");
    assert(out@ =~= start + message_lines(comment@));
}

fn append_head(out: &mut Vec<u8>, cs: &Changeset, offset: usize, branch: &str, author: &str)
    ensures
        final(out)@ == old(out)@ + commit_head(cs@, offset as nat, branch@, author@),
{
    let ghost start = out@;
    if cs.header.p1.is_some() || cs.header.p2.is_some() || cs.revision != 0 {
        append_reset(out, branch);
    }
    append_commit_line(out, branch);
    append_mark_line(out, "mark :", cs.revision, offset);
    append_person_line(out, "author ", author, cs.header.time, cs.header.tz_offset);
    append_person_line(out, "committer ", author, cs.header.time, cs.header.tz_offset);
    append_message(out, &cs.header.comment);
    assert(out@ =~= start + commit_head(cs@, offset as nat, branch@, author@));
}

fn append_mark_line(out: &mut Vec<u8>, word: &str, revision: usize, offset: usize)
    ensures
        final(out)@ == old(out)@ + mark_line(word, revision as nat, offset as nat),
{
    let ghost start = out@;
    append_str(out, word);
    append_decimal(out, mark(revision, offset));
    append_str(out, "\n");
    assert(out@ =~= start + mark_line(word, revision as nat, offset as nat));
}

fn append_parents(out: &mut Vec<u8>, cs: &Changeset, offset: usize)
    ensures
        final(out)@ == old(out)@ + parent_lines(cs@.header.p1, cs@.header.p2, offset as nat),
{
    let ghost start = out@;
    match (cs.header.p1, cs.header.p2) {
        (Some(a), Some(b)) => {
            append_mark_line(out, "from :", a, offset);
            append_mark_line(out, "merge :", b, offset);
        },
        (Some(p), None) => {
            append_mark_line(out, "from :", p, offset);
        },
        (None, Some(p)) => {
            append_mark_line(out, "from :", p, offset);
        },
        (None, None) => {},
    }
    assert(out@ =~= start + parent_lines(cs@.header.p1, cs@.header.p2, offset as nat));
}

fn append_modify_line(out: &mut Vec<u8>, kind: EntryKind, dir: &str, path: &Vec<u8>)
    ensures
        final(out)@ == old(out)@ + modify_line(kind, encode_utf8(dir@), path@),
{
    let ghost start = out@;
    append_str(out, "M ");
    match kind {
        EntryKind::Symlink => append_str(out, "120000"),
        EntryKind::Executable => append_str(out, "100755"),
        EntryKind::Regular => append_str(out, "100644"),
        EntryKind::Tree => append_str(out, "100644"),
    }
    append_str(out, " inline ");
    append_str(out, dir);
    append_bytes(out, path.as_slice());
    assert(out@ =~= start + modify_line(kind, encode_utf8(dir@), path@));
}

fn append_content(out: &mut Vec<u8>, content: &[u8])
    ensures
        final(out)@ == old(out)@ + content_block(content@),
{
    let ghost start = out@;
    append_str(out, "\ndata ");
    append_decimal(out, content.len() as u128);
    append_str(out, "\n");
    append_bytes(out, content);
    assert(out@ =~= start + content_block(content@));
}

fn append_delete_line(out: &mut Vec<u8>, dir: &str, path: &Vec<u8>)
    ensures
        final(out)@ == old(out)@ + delete_line(encode_utf8(dir@), path@),
{
    let ghost start = out@;
    append_str(out, "D ");
    append_str(out, dir);
    append_bytes(out, path.as_slice());
    append_str(out, "\n");
    assert(out@ =~= start + delete_line(encode_utf8(dir@), path@));
}

fn append_file(out: &mut Vec<u8>, file: &ChangesetFile, dir: &str)
    requires
        is_consistent(file@),
    ensures
        final(out)@ == old(out)@ + file_lines(file@, encode_utf8(dir@)),
{
    let ghost start = out@;
    match (&file.data, &file.manifest_entry) {
        (Some(data), Some(kind)) => {
            append_modify_line(out, *kind, dir, &file.path);
            append_content(out, file_content(data.as_slice()));
        },
        _ => {
            append_delete_line(out, dir, &file.path);
        },
    }
    assert(out@ =~= start + file_lines(file@, encode_utf8(dir@)));
}

fn append_archive(out: &mut Vec<u8>, branch: &str, revision: usize, offset: usize)
    ensures
        final(out)@ == old(out)@ + archive_lines(
            branch@,
            mark_of(revision as nat, offset as nat),
        ),
{
    let ghost start = out@;
    append_str(out, "reset refs/tags/archive/");
    append_str(out, branch);
    append_str(out, "\n");
    append_str(out, "from :");
    append_decimal(out, mark(revision, offset));
    append_str(out, "\n\n");
    assert(out@ =~= start + archive_lines(branch@, mark_of(revision as nat, offset as nat)));
}

fn append_closing(out: &mut Vec<u8>, branch: &str, revision: usize, offset: usize)
    ensures
        final(out)@ == old(out)@ + closing_lines(
            branch@,
            mark_of(revision as nat, offset as nat),
        ),
{
    let ghost start = out@;
    append_archive(out, branch, revision, offset);
    append_reset(out, branch);
    append_str(out, "from 0000000000000000000000000000000000000000\n\n");
    assert(out@ =~= start + closing_lines(branch@, mark_of(revision as nat, offset as nat)));
}

/// Once a file is inconsistent, the count of consistent files before it
/// does not grow with the files behind it.
proof fn lemma_leading_consistent_stops(files: Seq<FileView>, i: int, n: int)
    requires
        0 <= i < n <= files.len(),
        leading_consistent(files.take(i)) == i,
        !is_consistent(files[i]),
    ensures
        leading_consistent(files.take(n)) == i,
    decreases n,
{
    assert(files.take(n).drop_last() =~= files.take(n - 1));
    if n > i + 1 {
        lemma_leading_consistent_stops(files, i, n - 1);
    }
}


/// A Mercurial repository as an import sees it: how it is configured
/// and in what run.
pub struct MercurialRepo<'a> {
    pub config: &'a RepositoryConfig,
    pub env: &'a Environment,
}

impl<'a> MercurialRepo<'a> {
    /// The repository under `config` in the run `env`.
    pub fn new(config: &'a RepositoryConfig, env: &'a Environment) -> (repo: MercurialRepo<'a>)
        ensures
            repo.config == config,
            repo.env == env,
    {
        MercurialRepo { config, env }
    }

    /// The author that stands for a Mercurial user.
    pub fn fixup_user(&self, user: &str) -> (result: Result<String, ErrorKind>)
        ensures
            is_author_result(
                result,
                author_of(
                    self.config@.authors,
                    self.env@.authors,
                    user@,
                    captured_groups(AUTHOR_PATTERN@, user@),
                ),
                user@,
            ),
    {
        fixup_user(&self.config.authors, &self.env.authors, user)
    }

    /// The mark of a revision of this repository.
    pub fn mark(&self, revision: usize) -> (m: u128)
        ensures
            m == mark_of(revision as nat, self.config@.offset),
    {
        mark(revision, self.config.mark_offset())
    }

    /// The Git name of the branch that a changeset is on, by the branch map
    /// or by sanitizing, and the map that knows it.
    fn resolve_branch(&self, key: String, brmap: &mut NameMap, default_branch: &str) -> (branch:
        String)
        ensures
            branch@ == git_branch(self.config@, self.env@, default_branch@, old(brmap)@, key@),
            final(brmap)@ == old(brmap)@.insert(key@, branch@),
    {
        match brmap.get(key.as_str()) {
            Some(known) => {
                let branch = known.clone();
                assert(brmap@ =~= brmap@.insert(key@, branch@));
                branch
            },
            None => {
                let prefix = if !same_text(key.as_str(), default_branch)
                    || self.config.prefix_default_branch {
                    self.config.branch_prefix.as_ref()
                } else {
                    None
                };
                let branch = sanitize_branchname(
                    key.as_str(),
                    prefix,
                    self.env.fix_wrong_branchname,
                );
                brmap.insert(key, branch.clone());
                branch
            },
        }
    }

    /// Writes the commands for the files of a changeset, up to the first
    /// inconsistent one.
    fn export_files(&self, changeset: &Changeset, output: &mut Vec<u8>) -> (result: Result<
        (),
        ErrorKind,
    >)
        ensures
            final(output)@ == old(output)@ + files_lines(
                changeset@.files.take(leading_consistent(changeset@.files) as int),
                directory(self.config@.path_prefix),
            ),
            leading_consistent(changeset@.files) <= changeset@.files.len(),
            match result {
                Ok(_) => leading_consistent(changeset@.files) == changeset@.files.len(),
                Err(e) => leading_consistent(changeset@.files) < changeset@.files.len() && (
                e matches ErrorKind::WrongFileData(p) && p@ == text_of(
                    changeset@.files[leading_consistent(changeset@.files) as int].path,
                )),
            },
    {
        let dir = crate::sanitize::strip_leading_slash(self.config.path_prefix.as_ref(), "");
        proof {
            reveal_strlit("");
            assert(""@ =~= Seq::<char>::empty());
            assert(encode_utf8(dir@) == directory(self.config@.path_prefix));
        }
        let ghost files = changeset@.files;
        let ghost start = output@;
        let mut i: usize = 0;
        assert(files.take(0) =~= Seq::<FileView>::empty());
        while i < changeset.files.len()
            invariant
                i <= changeset.files.len(),
                files == changeset@.files,
                files.len() == changeset.files.len(),
                leading_consistent(files.take(i as int)) == i,
                start == old(output)@,
                encode_utf8(dir@) == directory(self.config@.path_prefix),
                output@ == start + files_lines(files.take(i as int), encode_utf8(dir@)),
            decreases changeset.files.len() - i,
        {
            let file = &changeset.files[i];
            assert(files[i as int] == file@);
            assert(files.take(i as int + 1).drop_last() =~= files.take(i as int));
            if file.data.is_some() != file.manifest_entry.is_some() {
                proof {
                    lemma_leading_consistent_stops(files, i as int, files.len() as int);
                    assert(files.take(files.len() as int) =~= files);
                }
                return Err(ErrorKind::WrongFileData(lossy(file.path.as_slice())));
            }
            append_file(output, file, dir.as_str());
            assert(output@ =~= start + files_lines(files.take(i as int + 1), encode_utf8(dir@)));
            i += 1;
        }
        assert(files.take(files.len() as int) =~= files);
        Ok(())
    }

    /// The name of the branch that a changeset is on, as Mercurial has it.
    fn branch_key(&self, changeset: &Changeset, default_branch: &str) -> (found: (
        Result<String, ErrorKind>,
        bool,
    ))
        ensures
            found.1 == closes_branch(changeset@.header.extra),
            match found.0 {
                Ok(key) => valid_utf8(raw_branch(changeset@, default_branch@)) && key@
                    == decode_utf8(raw_branch(changeset@, default_branch@)),
                Err(e) => !valid_utf8(raw_branch(changeset@, default_branch@))
                    && e is Encoding,
            },
    {
        let (branch_at, closed) = scan_extra(&changeset.header.extra);
        match branch_at {
            Some(i) => match core::str::from_utf8(changeset.header.extra[i].value.as_slice()) {
                Ok(name) => {
                    proof {
                        lemma_text_of_bytes(name, changeset.header.extra@[i as int].value@);
                    }
                    (Ok(String::from_str(name)), closed)
                },
                Err(_) => (Err(ErrorKind::Encoding), closed),
            },
            None => {
                proof {
                    vstd::utf8::encode_utf8_decode_utf8(default_branch@);
                    vstd::utf8::encode_utf8_valid_utf8(default_branch@);
                }
                (Ok(String::from_str(default_branch)), closed)
            },
        }
    }

    /// Writes the commands of a changeset on a branch that is known.
    fn write_commit(
        &self,
        changeset: &Changeset,
        author: &str,
        branch: &str,
        closed: bool,
        count: usize,
        output: &mut Vec<u8>,
    ) -> (result: Result<usize, ErrorKind>)
        requires
            count < usize::MAX,
            closed == closes_branch(changeset@.header.extra),
        ensures
            final(output)@ == old(output)@ + commit_lines(
                changeset@,
                self.config@,
                branch@,
                author@,
            ),
            is_outcome(result, file_failure(changeset@), count),
    {
        let ghost start = output@;
        let offset = self.config.mark_offset();
        append_head(output, changeset, offset, branch, author);
        append_parents(output, changeset, offset);
        let ghost head = commit_head(changeset@, offset as nat, branch@, author@) + parent_lines(
            changeset@.header.p1,
            changeset@.header.p2,
            offset as nat,
        );
        assert(output@ =~= start + head);
        let ghost good = changeset@.files.take(leading_consistent(changeset@.files) as int);
        let ghost dir = directory(self.config@.path_prefix);
        match self.export_files(changeset, output) {
            Ok(_) => {},
            Err(e) => {
                assert(output@ =~= start + (head + files_lines(good, dir) + Seq::<u8>::empty()));
                return Err(e);
            },
        }
        if closed {
            append_closing(output, branch, changeset.revision, offset);
            assert(output@ =~= start + (head + files_lines(good, dir) + closing_lines(
                branch@,
                mark_of(changeset@.revision, offset as nat),
            )));
        } else {
            assert(output@ =~= start + (head + files_lines(good, dir) + Seq::<u8>::empty()));
        }
        Ok(count + 1)
    }

    /// Writes the commands for one changeset whose author is known.
    pub fn export_commit_as(
        &self,
        changeset: &Changeset,
        author: &str,
        count: usize,
        brmap: &mut NameMap,
        output: &mut Vec<u8>,
        default_branch: &str,
    ) -> (result: Result<usize, ErrorKind>)
        requires
            count < usize::MAX,
        ensures
            ({
                let e = emission_as(
                    changeset@,
                    self.config@,
                    self.env@,
                    default_branch@,
                    old(brmap)@,
                    author@,
                );
                &&& final(output)@ == old(output)@ + e.bytes
                &&& final(brmap)@ == e.branches
                &&& is_outcome(result, e.failure, count)
            }),
    {
        let (key, closed) = self.branch_key(changeset, default_branch);
        match key {
            Ok(key) => {
                let branch = self.resolve_branch(key, brmap, default_branch);
                self.write_commit(changeset, author, branch.as_str(), closed, count, output)
            },
            Err(e) => {
                assert(output@ =~= old(output)@ + Seq::<u8>::empty());
                Err(e)
            },
        }
    }

    /// Writes the commands for one changeset: resolves its author, then
    /// writes it as `export_commit_as` does.
    pub fn export_commit(
        &self,
        changeset: &Changeset,
        count: usize,
        brmap: &mut NameMap,
        output: &mut Vec<u8>,
        default_branch: &str,
    ) -> (result: Result<usize, ErrorKind>)
        requires
            count < usize::MAX,
        ensures
            ({
                let e = emission(
                    changeset@,
                    self.config@,
                    self.env@,
                    default_branch@,
                    old(brmap)@,
                );
                &&& final(output)@ == old(output)@ + e.bytes
                &&& final(brmap)@ == e.branches
                &&& is_outcome(result, e.failure, count)
            }),
    {
        reveal(emission);
        let user = match core::str::from_utf8(changeset.header.user.as_slice()) {
            Ok(user) => user,
            Err(_) => {
                assert(output@ =~= old(output)@ + Seq::<u8>::empty());
                return Err(ErrorKind::Encoding);
            },
        };
        proof {
            lemma_text_of_bytes(user, changeset.header.user@);
        }
        match self.fixup_user(user) {
            Ok(author) => self.export_commit_as(
                changeset,
                author.as_str(),
                count,
                brmap,
                output,
                default_branch,
            ),
            Err(e) => {
                assert(output@ =~= old(output)@ + Seq::<u8>::empty());
                Err(e)
            },
        }
    }

    /// Writes the commands for the tags on the revisions of `range`, and
    /// counts them.
    pub fn export_tags(
        &self,
        range: Range<usize>,
        count: usize,
        tags: &Vec<Tag>,
        output: &mut Vec<u8>,
    ) -> (counted: usize)
        requires
            count + tags@.len() <= usize::MAX,
        ensures
            final(output)@ == old(output)@ + tags_lines(
                tags_view(tags@),
                range.start as nat,
                range.end as nat,
                self.config@.tag_prefix,
                self.config@.offset,
            ),
            counted == count + tags_within(
                tags_view(tags@),
                range.start as nat,
                range.end as nat,
            ),
    {
        let ghost all = tags_view(tags@);
        let ghost start = output@;
        let (from, to) = (range.start, range.end);
        let offset = self.config.mark_offset();
        let mut counted = count;
        let mut i: usize = 0;
        assert(all.take(0) =~= Seq::<TagView>::empty());
        while i < tags.len()
            invariant
                i <= tags.len(),
                all == tags_view(tags@),
                start == old(output)@,
                offset == self.config@.offset,
                count + tags@.len() <= usize::MAX,
                counted == count + tags_within(all.take(i as int), from as nat, to as nat),
                counted <= count + i,
                output@ == start + tags_lines(
                    all.take(i as int),
                    from as nat,
                    to as nat,
                    self.config@.tag_prefix,
                    offset as nat,
                ),
            decreases tags.len() - i,
        {
            let tag = &tags[i];
            proof {
                assert(all.take(i as int + 1).drop_last() =~= all.take(i as int));
                assert(all.take(i as int + 1).last() == tag@);
            }
            if from <= tag.revision && tag.revision < to {
                let name = crate::sanitize::sanitize_name(
                    tag.name.as_str(),
                    self.config.tag_prefix.as_ref(),
                );
                append_tag(output, name.as_str(), tag.revision, offset);
                counted += 1;
            }
            assert(output@ =~= start + tags_lines(
                all.take(i as int + 1),
                from as nat,
                to as nat,
                self.config@.tag_prefix,
                offset as nat,
            ));
            i += 1;
        }
        assert(all.take(tags.len() as int) =~= all);
        counted
    }
}

fn append_tag(out: &mut Vec<u8>, tag: &str, revision: usize, offset: usize)
    ensures
        final(out)@ == old(out)@ + tag_lines(tag@, revision as nat, offset as nat),
{
    let ghost start = out@;
    append_str(out, "reset refs/tags/");
    append_str(out, tag);
    append_str(out, "\n");
    append_str(out, "from :");
    append_decimal(out, mark(revision, offset));
    append_str(out, "\n");
    append_str(out, "\n");
    assert(out@ =~= start + tag_lines(tag@, revision as nat, offset as nat));
}

} // verus!
