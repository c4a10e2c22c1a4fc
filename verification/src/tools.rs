//! Rebuilding the marks of a target whose history was made elsewhere.
//!
//! The commits of the target are matched with the revisions of the source
//! by author and time. Where several commits share both, their messages
//! decide, or else whoever runs the tool. Here the log of the target and
//! the marks file are read, the candidates of a revision are found, and a
//! choice is recorded; Git is run elsewhere.
use vstd::prelude::*;
use vstd::utf8::encode_utf8;
pub use crate::mark_table::MarkTable;
use crate::text::{
    append_decimal,
    append_str,
    byte_strings,
    decimal,
    text_of,
    number_of,
    parse_number,
    pieces,
    same_bytes,
    same_text,
    split_lines,
    lossy,
};

verus! {

/// A commit of the target, as its log shows it.
#[derive(Debug)]
pub struct GitCommit {
    pub sha1: String,
    /// Seconds since the epoch.
    pub date: usize,
    /// Name and address of the author.
    pub user: String,
    /// Whether the commit is bound to a mark already.
    pub taken: bool,
}

pub struct CommitView {
    pub sha1: Seq<char>,
    pub date: nat,
    pub user: Seq<char>,
    pub taken: bool,
}

impl View for GitCommit {
    type V = CommitView;

    open spec fn view(&self) -> CommitView {
        CommitView { sha1: self.sha1@, date: self.date as nat, user: self.user@, taken: self.taken }
    }
}

/// The views of some commits.
pub open spec fn commits_view(commits: Seq<GitCommit>) -> Seq<CommitView> {
    Seq::new(commits.len(), |i: int| commits[i]@)
}

/// The commits that a log shows. Every three lines of the log describe a
/// commit: its name, its time, its author; lines that are left over
/// describe none. There is no result where a time is not a number.
pub open spec fn commits_in(lines: Seq<Seq<u8>>, n: nat) -> Option<Seq<CommitView>>
    decreases n,
{
    if n == 0 {
        Some(Seq::empty())
    } else {
        let at = 3 * (n - 1);
        match (commits_in(lines, (n - 1) as nat), number_of(lines[at + 1])) {
            (Some(before), Some(date)) => Some(
                before.push(
                    CommitView {
                        sha1: text_of(lines[at]),
                        date: date as nat,
                        user: text_of(lines[at + 2]),
                        taken: false,
                    },
                ),
            ),
            _ => None,
        }
    }
}

/// The commits that the log `stdout` shows.
pub open spec fn log_commits(stdout: Seq<u8>) -> Option<Seq<CommitView>> {
    commits_in(pieces(stdout), pieces(stdout).len() / 3)
}

/// Once a time is not a number, the log shows nothing.
proof fn lemma_commits_stay_absent(lines: Seq<Seq<u8>>, i: nat, n: nat)
    requires
        i <= n,
        commits_in(lines, i) is None,
    ensures
        commits_in(lines, n) is None,
    decreases n - i,
{
    if i < n {
        lemma_commits_stay_absent(lines, i, (n - 1) as nat);
    }
}

/// Reads the log of the target: for each commit a line with its name, a
/// line with its time and a line with its author.
pub fn load_git_revlog_lines(stdout: &[u8]) -> (log: Option<Vec<GitCommit>>)
    ensures
        match log_commits(stdout@) {
            Some(commits) => log matches Some(found) && commits_view(found@) == commits,
            None => log is None,
        },
{
    let lines = split_lines(stdout);
    let ghost all = byte_strings(lines@);
    let total = lines.len();
    let count = total / 3;
    let mut log: Vec<GitCommit> = Vec::new();
    let mut i: usize = 0;
    assert(commits_view(log@) =~= Seq::<CommitView>::empty());
    while i < count
        invariant
            i <= count,
            total == lines@.len(),
            count == total / 3,
            all == byte_strings(lines@),
            all == pieces(stdout@),
            commits_in(all, i as nat) == Some(commits_view(log@)),
        decreases count - i,
    {
        let at = 3 * i;
        assert(all[at as int] == lines@[at as int]@);
        assert(all[at + 1] == lines@[at + 1]@);
        assert(all[at + 2] == lines@[at + 2]@);
        match parse_number(lines[at + 1].as_slice()) {
            Some(date) => {
                let ghost before = log@;
                log.push(
                    GitCommit {
                        sha1: lossy(lines[at].as_slice()),
                        date,
                        user: lossy(lines[at + 2].as_slice()),
                        taken: false,
                    },
                );
                assert(commits_view(log@) =~= commits_view(before).push(log@.last()@));
            },
            None => {
                proof {
                    lemma_commits_stay_absent(all, (i + 1) as nat, count as nat);
                }
                return None;
            },
        }
        i += 1;
    }
    Some(log)
}

/// The place of the first commit with the given name, if there is one.
pub open spec fn position_of(log: Seq<CommitView>, sha1: Seq<char>) -> Option<int>
    decreases log.len(),
{
    if log.len() == 0 {
        None
    } else {
        match position_of(log.drop_last(), sha1) {
            Some(i) => Some(i),
            None => if log.last().sha1 == sha1 {
                Some(log.len() - 1)
            } else {
                None
            },
        }
    }
}

/// Whether a commit has the given author and time.
pub open spec fn is_by(commit: CommitView, user: Seq<char>, date: nat) -> bool {
    commit.user == user && commit.date == date
}

/// Whether the log has a commit with the given author and time.
pub open spec fn is_known(log: Seq<CommitView>, user: Seq<char>, date: nat) -> bool {
    exists|i: int| 0 <= i < log.len() && is_by(#[trigger] log[i], user, date)
}

/// The places of the commits with the given author and time that are not
/// bound to a mark yet, in the order of the log.
pub open spec fn candidates(log: Seq<CommitView>, user: Seq<char>, date: nat) -> Seq<int>
    decreases log.len(),
{
    if log.len() == 0 {
        Seq::empty()
    } else {
        let before = candidates(log.drop_last(), user, date);
        if is_by(log.last(), user, date) && !log.last().taken {
            before.push(log.len() - 1)
        } else {
            before
        }
    }
}

/// A mark and the commit it is bound to.
#[derive(Debug)]
pub struct Mark {
    pub mark: usize,
    pub sha1: String,
}

pub struct MarkView {
    pub mark: nat,
    pub sha1: Seq<char>,
}

impl View for Mark {
    type V = MarkView;

    open spec fn view(&self) -> MarkView {
        MarkView { mark: self.mark as nat, sha1: self.sha1@ }
    }
}

/// The views of some marks.
pub open spec fn marks_view(marks: Seq<Mark>) -> Seq<MarkView> {
    Seq::new(marks.len(), |i: int| marks[i]@)
}

/// Whether marks are in rising order, each mark occurring once.
pub open spec fn are_rising(marks: Seq<MarkView>) -> bool {
    forall|i: int, j: int| 0 <= i < j < marks.len() ==> marks[i].mark < marks[j].mark
}

/// The commit that a mark is bound to, if it is bound.
pub open spec fn bound_to(marks: Seq<MarkView>, mark: nat) -> Option<Seq<char>>
    decreases marks.len(),
{
    if marks.len() == 0 {
        None
    } else if marks.last().mark == mark {
        Some(marks.last().sha1)
    } else {
        bound_to(marks.drop_last(), mark)
    }
}

/// The number of marks that are less than `mark`.
pub open spec fn rank_of(marks: Seq<MarkView>, mark: nat) -> int
    decreases marks.len(),
{
    if marks.len() == 0 {
        0
    } else {
        rank_of(marks.drop_last(), mark) + if marks.last().mark < mark {
            1int
        } else {
            0int
        }
    }
}

/// Marks with one mark bound anew: in place of the old binding, or at the
/// place that keeps the order.
pub open spec fn with_mark(marks: Seq<MarkView>, mark: nat, sha1: Seq<char>) -> Seq<MarkView> {
    let at = rank_of(marks, mark);
    if at < marks.len() && marks[at].mark == mark {
        marks.update(at, MarkView { mark, sha1 })
    } else {
        marks.insert(at, MarkView { mark, sha1 })
    }
}

/// In rising marks, the marks below the rank of a mark are less than it
/// and the others are not.
pub proof fn lemma_rank(marks: Seq<MarkView>, mark: nat)
    requires
        are_rising(marks),
    ensures
        0 <= rank_of(marks, mark) <= marks.len(),
        forall|i: int| 0 <= i < rank_of(marks, mark) ==> (#[trigger] marks[i]).mark < mark,
        forall|i: int| rank_of(marks, mark) <= i < marks.len() ==> (#[trigger] marks[i]).mark >= mark,
    decreases marks.len(),
{
    if marks.len() > 0 {
        let rest = marks.drop_last();
        assert forall|i: int, j: int| 0 <= i < j < rest.len() implies rest[i].mark
            < rest[j].mark by {
            assert(rest[i] == marks[i] && rest[j] == marks[j]);
        }
        lemma_rank(rest, mark);
        assert forall|i: int| 0 <= i < rank_of(marks, mark) implies (#[trigger] marks[i]).mark
            < mark by {
            if i < rest.len() {
                assert(marks[i] == rest[i]);
                if i >= rank_of(rest, mark) {
                    assert(marks[i].mark < marks.last().mark);
                }
            }
        }
        assert forall|i: int| rank_of(marks, mark) <= i < marks.len() implies (
        #[trigger] marks[i]).mark >= mark by {
            if i < rest.len() {
                assert(marks[i] == rest[i]);
                if marks.last().mark < mark {
                    // then every mark is below `mark`, and the rank is the length
                    assert(rest[rank_of(rest, mark)].mark < marks.last().mark);
                }
            }
        }
    }
}

/// In rising marks a mark is bound to what stands at its rank, if the mark
/// stands there.
pub proof fn lemma_bound_at_rank(marks: Seq<MarkView>, mark: nat)
    requires
        are_rising(marks),
    ensures
        bound_to(marks, mark) == if rank_of(marks, mark) < marks.len() && marks[rank_of(
            marks,
            mark,
        )].mark == mark {
            Some(marks[rank_of(marks, mark)].sha1)
        } else {
            None
        },
    decreases marks.len(),
{
    lemma_rank(marks, mark);
    if marks.len() > 0 {
        let rest = marks.drop_last();
        assert forall|i: int, j: int| 0 <= i < j < rest.len() implies rest[i].mark
            < rest[j].mark by {
            assert(rest[i] == marks[i] && rest[j] == marks[j]);
        }
        lemma_bound_at_rank(rest, mark);
        lemma_rank(rest, mark);
        let r = rank_of(rest, mark);
        if marks.last().mark != mark && r < rest.len() {
            assert(rest[r] == marks[r]);
        }
        if marks.last().mark == mark && r < rest.len() {
            assert(rest[r].mark < marks.last().mark);
        }
    }
}

/// The line of a marks file that binds a mark.
pub open spec fn mark_line(mark: MarkView) -> Seq<u8> {
    seq![58u8] + decimal(mark.mark) + seq![32u8] + encode_utf8(mark.sha1) + seq![10u8]
}

/// The marks file that holds some marks: a line for each, in their order.
pub open spec fn marks_text(marks: Seq<MarkView>) -> Seq<u8>
    decreases marks.len(),
{
    if marks.len() == 0 {
        Seq::empty()
    } else {
        marks_text(marks.drop_last()) + mark_line(marks.last())
    }
}

/// Writes the marks file: for each mark, in rising order, a colon, the
/// mark, a space, and the commit.
pub fn save_marks(table: &MarkTable) -> (text: Vec<u8>)
    ensures
        text@ == marks_text(table@),
{
    let marks = table.marks();
    let ghost all = table@;
    let mut text: Vec<u8> = Vec::new();
    let mut i: usize = 0;
    assert(all.take(0) =~= Seq::<MarkView>::empty());
    while i < marks.len()
        invariant
            i <= marks.len(),
            all == marks_view(marks@),
            text@ == marks_text(all.take(i as int)),
        decreases marks.len() - i,
    {
        let ghost before = text@;
        text.push(58);
        append_decimal(&mut text, marks[i].mark as u128);
        text.push(32);
        append_str(&mut text, marks[i].sha1.as_str());
        text.push(10);
        proof {
            assert(all.take(i as int + 1).drop_last() =~= all.take(i as int));
            assert(all.take(i as int + 1).last() == marks@[i as int]@);
            assert(text@ =~= before + mark_line(marks@[i as int]@));
        }
        i += 1;
    }
    assert(all.take(all.len() as int) =~= all);
    text
}

/// What separates the words of a line of a marks file: a space, a tab, a
/// line feed, a form feed or a carriage return.
pub open spec fn is_blank(b: u8) -> bool {
    b == 32 || b == 9 || b == 10 || b == 12 || b == 13
}

/// The number of bytes at the start of a line that are blank, or that are
/// not, as `blank` says.
pub open spec fn run_len(line: Seq<u8>, blank: bool) -> int
    decreases line.len(),
{
    if line.len() == 0 || is_blank(line[0]) != blank {
        0
    } else {
        1 + run_len(line.drop_first(), blank)
    }
}

/// The first word of a line, behind the blanks before it.
pub open spec fn first_word(line: Seq<u8>) -> Seq<u8> {
    let rest = line.skip(run_len(line, true));
    rest.take(run_len(rest, false))
}

/// What follows the first word of a line.
pub open spec fn after_first_word(line: Seq<u8>) -> Seq<u8> {
    let rest = line.skip(run_len(line, true));
    rest.skip(run_len(rest, false))
}

/// What a line of a marks file says. A line with less than two words says
/// nothing. In another line the first word, without its first byte, must be
/// the number of a mark, and the second word, as text, names the commit.
pub enum MarkLine {
    Nothing,
    Binding(MarkView),
    Broken,
}

/// What a line of a marks file says.
pub open spec fn read_mark_line(line: Seq<u8>) -> MarkLine {
    let mark = first_word(line);
    let sha1 = first_word(after_first_word(line));
    if mark.len() == 0 || sha1.len() == 0 {
        MarkLine::Nothing
    } else {
        match number_of(mark.drop_first()) {
            Some(number) => MarkLine::Binding(
                MarkView { mark: number as nat, sha1: text_of(sha1) },
            ),
            None => MarkLine::Broken,
        }
    }
}

/// The marks that some lines hold, a later line for a mark replacing an
/// earlier one. There is no result where a line is broken.
pub open spec fn marks_in(lines: Seq<Seq<u8>>) -> Option<Seq<MarkView>>
    decreases lines.len(),
{
    if lines.len() == 0 {
        Some(Seq::empty())
    } else {
        match (marks_in(lines.drop_last()), read_mark_line(lines.last())) {
            (Some(before), MarkLine::Nothing) => Some(before),
            (Some(before), MarkLine::Binding(m)) => Some(with_mark(before, m.mark, m.sha1)),
            _ => None,
        }
    }
}

proof fn lemma_run_len(line: Seq<u8>, blank: bool)
    ensures
        0 <= run_len(line, blank) <= line.len(),
    decreases line.len(),
{
    if line.len() > 0 && is_blank(line[0]) == blank {
        lemma_run_len(line.drop_first(), blank);
    }
}

/// The length of the run of bytes, blank or not, at `from`.
fn run_at(line: &[u8], from: usize, blank: bool) -> (n: usize)
    requires
        from <= line@.len(),
    ensures
        n == run_len(line@.skip(from as int), blank),
        from + n <= line@.len(),
{
    let mut n: usize = 0;
    let size = line.len();
    proof {
        lemma_run_len(line@.skip(from as int), blank);
    }
    while from + n < size && is_blank_byte(line[from + n]) == blank
        invariant
            size == line@.len(),
            from + n <= line@.len(),
            run_len(line@.skip(from as int), blank) == n + run_len(
                line@.skip(from + n),
                blank,
            ),
        decreases size - n,
    {
        proof {
            let rest = line@.skip(from + n);
            assert(rest[0] == line@[from + n]);
            assert(rest.drop_first() =~= line@.skip(from + n + 1));
        }
        n += 1;
    }
    proof {
        let rest = line@.skip(from + n);
        if from + n < line@.len() {
            assert(rest[0] == line@[from + n]);
        }
    }
    n
}

fn is_blank_byte(b: u8) -> (blank: bool)
    ensures
        blank == is_blank(b),
{
    b == 32 || b == 9 || b == 10 || b == 12 || b == 13
}

/// The bytes of `line` from `from` up to `to`.
fn slice_of(line: &[u8], from: usize, to: usize) -> (part: Vec<u8>)
    requires
        from <= to <= line@.len(),
    ensures
        part@ == line@.subrange(from as int, to as int),
{
    let mut part: Vec<u8> = Vec::new();
    let mut i: usize = from;
    while i < to
        invariant
            from <= i <= to <= line@.len(),
            part@ == line@.subrange(from as int, i as int),
        decreases to - i,
    {
        part.push(line[i]);
        assert(part@ =~= line@.subrange(from as int, i as int + 1));
        i += 1;
    }
    part
}

/// Reads one line of a marks file.
fn parse_mark_line(line: &[u8]) -> (read: Option<Option<Mark>>)
    ensures
        match read_mark_line(line@) {
            MarkLine::Nothing => read == Some(None::<Mark>),
            MarkLine::Binding(m) => read matches Some(Some(found)) && found@ == m,
            MarkLine::Broken => read is None,
        },
{
    let size = line.len();
    let a = run_at(line, 0, true);
    assert(line@.skip(0) =~= line@);
    let b = run_at(line, a, false);
    let c = run_at(line, a + b, true);
    let d = run_at(line, a + b + c, false);
    let mark = slice_of(line, a, a + b);
    let sha1 = slice_of(line, a + b + c, a + b + c + d);
    proof {
        let rest = line@.skip(a as int);
        assert(mark@ =~= first_word(line@));
        assert(rest.skip(b as int) =~= line@.skip(a + b));
        let tail = after_first_word(line@);
        assert(tail =~= line@.skip(a + b));
        assert(tail.skip(c as int) =~= line@.skip(a + b + c));
        assert(sha1@ =~= first_word(tail));
    }
    if mark.len() == 0 || sha1.len() == 0 {
        return Some(None);
    }
    let digits = slice_of(mark.as_slice(), 1, mark.len());
    assert(digits@ =~= mark@.drop_first());
    match parse_number(digits.as_slice()) {
        Some(number) => Some(Some(Mark { mark: number, sha1: lossy(sha1.as_slice()) })),
        None => None,
    }
}

/// Once a line is broken, the lines hold no marks.
proof fn lemma_marks_stay_absent(lines: Seq<Seq<u8>>, i: int, n: int)
    requires
        0 <= i <= n <= lines.len(),
        marks_in(lines.take(i)) is None,
    ensures
        marks_in(lines.take(n)) is None,
    decreases n - i,
{
    if i < n {
        assert(lines.take(n).drop_last() =~= lines.take(n - 1));
        lemma_marks_stay_absent(lines, i, n - 1);
    }
}

/// Reads a marks file: in each line a colon and a mark, and the commit
/// that the mark is bound to.
pub fn load_marks(text: &[u8]) -> (table: Option<MarkTable>)
    ensures
        match marks_in(pieces(text@)) {
            Some(marks) => table matches Some(found) && found@ == marks,
            None => table is None,
        },
{
    let lines = split_lines(text);
    let ghost all = byte_strings(lines@);
    let mut table = MarkTable::new();
    let mut i: usize = 0;
    assert(all.take(0) =~= Seq::<Seq<u8>>::empty());
    while i < lines.len()
        invariant
            i <= lines.len(),
            all == byte_strings(lines@),
            all == pieces(text@),
            marks_in(all.take(i as int)) == Some(table@),
        decreases lines.len() - i,
    {
        proof {
            assert(all.take(i as int + 1).drop_last() =~= all.take(i as int));
            assert(all.take(i as int + 1).last() == lines@[i as int]@);
        }
        match parse_mark_line(lines[i].as_slice()) {
            Some(Some(mark)) => {
                let Mark { mark, sha1 } = mark;
                table.insert(mark, sha1);
            },
            Some(None) => {},
            None => {
                proof {
                    lemma_marks_stay_absent(all, i as int + 1, all.len() as int);
                    assert(all.take(all.len() as int) =~= all);
                }
                return None;
            },
        }
        i += 1;
    }
    assert(all.take(all.len() as int) =~= all);
    Some(table)
}


/// What is found for a revision of the source.
#[derive(Debug)]
pub enum Lookup {
    /// The mark of the revision is bound to a commit of the log: nothing
    /// is to be done.
    Kept,
    /// No commit of the log has the author and the time of the revision.
    Unknown,
    /// Every commit with that author and time is bound to another mark.
    Exhausted,
    /// One commit is left for the revision: the one at this place of the log.
    Single(usize),
    /// Several commits are left: those at these places of the log.
    Several(Vec<usize>),
}

pub enum LookupView {
    Kept,
    Unknown,
    Exhausted,
    Single(int),
    Several(Seq<int>),
}

/// The places as plain numbers.
pub open spec fn places(indexes: Seq<usize>) -> Seq<int> {
    Seq::new(indexes.len(), |i: int| indexes[i] as int)
}

impl View for Lookup {
    type V = LookupView;

    open spec fn view(&self) -> LookupView {
        match self {
            Lookup::Kept => LookupView::Kept,
            Lookup::Unknown => LookupView::Unknown,
            Lookup::Exhausted => LookupView::Exhausted,
            Lookup::Single(i) => LookupView::Single(*i as int),
            Lookup::Several(indexes) => LookupView::Several(places(indexes@)),
        }
    }
}

/// What is found for the revision with the mark `mark`, made by `user` at
/// the time `date`. A mark that is bound to a commit of the log is kept.
/// Else the commits with that author and time that are not taken yet are
/// the candidates.
pub open spec fn lookup_of(
    log: Seq<CommitView>,
    marks: Seq<MarkView>,
    mark: nat,
    user: Seq<char>,
    date: nat,
) -> LookupView {
    if bound_to(marks, mark) is Some && position_of(log, bound_to(marks, mark)->0) is Some {
        LookupView::Kept
    } else if !is_known(log, user, date) {
        LookupView::Unknown
    } else {
        let found = candidates(log, user, date);
        if found.len() == 0 {
            LookupView::Exhausted
        } else if found.len() == 1 {
            LookupView::Single(found[0])
        } else {
            LookupView::Several(found)
        }
    }
}

/// The log after the commit at `at` was taken.
pub open spec fn log_with_taken(log: Seq<CommitView>, at: int) -> Seq<CommitView> {
    log.update(at, CommitView { taken: true, ..log[at] })
}

/// The log of a target and its marks, while the marks are rebuilt.
pub struct BuildMarks {
    pub revlog: Vec<GitCommit>,
    pub marks: MarkTable,
}

impl BuildMarks {
    /// The place of a commit in the log.
    pub fn revlog_position(&self, sha1: &str) -> (position: Option<usize>)
        ensures
            match position_of(commits_view(self.revlog@), sha1@) {
                Some(i) => position == Some(i as usize) && 0 <= i < self.revlog@.len(),
                None => position is None,
            },
    {
        let ghost log = commits_view(self.revlog@);
        let mut i: usize = 0;
        assert(log.take(0) =~= Seq::<CommitView>::empty());
        while i < self.revlog.len()
            invariant
                i <= self.revlog.len(),
                log == commits_view(self.revlog@),
                position_of(log.take(i as int), sha1@) is None,
            decreases self.revlog.len() - i,
        {
            assert(log.take(i as int + 1).drop_last() =~= log.take(i as int));
            assert(log.take(i as int + 1).last() == self.revlog@[i as int]@);
            if same_text(self.revlog[i].sha1.as_str(), sha1) {
                proof {
                    lemma_position_stays(log, sha1@, i as int + 1, log.len() as int);
                    assert(log.take(log.len() as int) =~= log);
                }
                return Some(i);
            }
            i += 1;
        }
        assert(log.take(log.len() as int) =~= log);
        None
    }

    /// The commits that are left for a revision, and whether any commit
    /// has its author and time.
    fn candidates(&self, user: &str, date: usize) -> (found: (Vec<usize>, bool))
        ensures
            places(found.0@) == candidates(commits_view(self.revlog@), user@, date as nat),
            found.1 == is_known(commits_view(self.revlog@), user@, date as nat),
    {
        let ghost log = commits_view(self.revlog@);
        let mut found: Vec<usize> = Vec::new();
        let mut known = false;
        let mut i: usize = 0;
        assert(log.take(0) =~= Seq::<CommitView>::empty());
        assert(places(found@) =~= Seq::<int>::empty());
        while i < self.revlog.len()
            invariant
                i <= self.revlog.len(),
                log == commits_view(self.revlog@),
                places(found@) == candidates(log.take(i as int), user@, date as nat),
                known == is_known(log.take(i as int), user@, date as nat),
            decreases self.revlog.len() - i,
        {
            let commit = &self.revlog[i];
            let ghost shorter = log.take(i as int);
            let ghost longer = log.take(i as int + 1);
            assert(longer.drop_last() =~= shorter);
            assert(longer.last() == commit@);
            let by = commit.date == date && same_text(commit.user.as_str(), user);
            proof {
                if is_known(shorter, user@, date as nat) {
                    let k = choose|k: int|
                        0 <= k < shorter.len() && is_by(#[trigger] shorter[k], user@, date as nat);
                    assert(longer[k] == shorter[k]);
                }
                if by {
                    assert(is_by(longer[i as int], user@, date as nat));
                }
                if is_known(longer, user@, date as nat) && !by {
                    let k = choose|k: int|
                        0 <= k < longer.len() && is_by(#[trigger] longer[k], user@, date as nat);
                    assert(shorter[k] == longer[k]);
                }
            }
            if by {
                known = true;
                if !commit.taken {
                    let ghost before = found@;
                    found.push(i);
                    assert(places(found@) =~= places(before).push(i as int));
                }
            }
            i += 1;
        }
        assert(log.take(log.len() as int) =~= log);
        (found, known)
    }

    /// Looks up what is found for a revision of the source.
    pub fn lookup(&self, mark: usize, user: &str, date: usize) -> (found: Lookup)
        ensures
            found@ == lookup_of(
                commits_view(self.revlog@),
                self.marks@,
                mark as nat,
                user@,
                date as nat,
            ),
    {
        if let Some(old) = self.marks.get(mark) {
            if self.revlog_position(old.as_str()).is_some() {
                return Lookup::Kept;
            }
        }
        let (mut found, known) = self.candidates(user, date);
        if !known {
            Lookup::Unknown
        } else if found.len() == 0 {
            Lookup::Exhausted
        } else if found.len() == 1 {
            Lookup::Single(found[0])
        } else {
            Lookup::Several(found)
        }
    }

    /// Binds a mark to the commit at a place of the log, and takes the
    /// commit.
    pub fn bind(&mut self, mark: usize, at: usize)
        requires
            at < old(self).revlog@.len(),
        ensures
            commits_view(final(self).revlog@) == log_with_taken(
                commits_view(old(self).revlog@),
                at as int,
            ),
            final(self).marks@ == with_mark(
                old(self).marks@,
                mark as nat,
                old(self).revlog@[at as int].sha1@,
            ),
    {
        let ghost before = commits_view(self.revlog@);
        let sha1 = self.revlog[at].sha1.clone();
        self.revlog[at].taken = true;
        assert(commits_view(self.revlog@) =~= log_with_taken(before, at as int));
        self.marks.insert(mark, sha1);
    }
}

/// Once a commit with a name is found, it stays the first with that name.
proof fn lemma_position_stays(log: Seq<CommitView>, sha1: Seq<char>, i: int, n: int)
    requires
        0 <= i <= n <= log.len(),
        position_of(log.take(i), sha1) is Some,
    ensures
        position_of(log.take(n), sha1) == position_of(log.take(i), sha1),
    decreases n - i,
{
    if i < n {
        assert(log.take(n).drop_last() =~= log.take(n - 1));
        lemma_position_stays(log, sha1, i, n - 1);
    }
}

/// Whether the first full stop of `s` stands at `i`.
pub open spec fn is_first_stop(s: Seq<u8>, i: int) -> bool {
    &&& 0 <= i < s.len()
    &&& s[i] == 46
    &&& forall|j: int| 0 <= j < i ==> s[j] != 46
}

/// Whether the last full stop of `s` stands at `i`.
pub open spec fn is_last_stop(s: Seq<u8>, i: int) -> bool {
    &&& 0 <= i < s.len()
    &&& s[i] == 46
    &&& forall|j: int| i < j < s.len() ==> s[j] != 46
}

/// Whether a message stands in `s` between the first full stop, at `i`,
/// and the last one, at `j`, with a line end before the last one.
pub open spec fn is_framed(s: Seq<u8>, i: int, j: int) -> bool {
    is_first_stop(s, i) && is_last_stop(s, j) && i + 1 <= j - 1
}

/// The message that Git printed between two full stops: what stands
/// behind the first full stop and before the byte that precedes the last
/// one. There is none where the full stops are missing or too close.
pub open spec fn message_of(s: Seq<u8>) -> Option<Seq<u8>> {
    if exists|i: int, j: int| is_framed(s, i, j) {
        let (i, j) = choose|i: int, j: int| is_framed(s, i, j);
        Some(s.subrange(i + 1, j - 1))
    } else {
        None
    }
}

/// Reads the message that Git printed between two full stops.
pub fn commit_message(output: &[u8]) -> (message: Option<Vec<u8>>)
    ensures
        match message_of(output@) {
            Some(m) => message matches Some(found) && found@ == m,
            None => message is None,
        },
{
    let size = output.len();
    let mut from: usize = 0;
    while from < size && output[from] != 46
        invariant
            from <= size,
            size == output@.len(),
            forall|j: int| 0 <= j < from ==> output@[j] != 46,
        decreases size - from,
    {
        from += 1;
    }
    if from == size {
        assert(forall|i: int, j: int| !is_framed(output@, i, j));
        return None;
    }
    let mut to: usize = size - 1;
    while output[to] != 46
        invariant
            from <= to < size,
            size == output@.len(),
            output@[from as int] == 46,
            forall|j: int| to < j < size ==> output@[j] != 46,
        decreases to,
    {
        to -= 1;
    }
    assert(is_first_stop(output@, from as int));
    assert(is_last_stop(output@, to as int));
    assert forall|i: int, j: int| is_framed(output@, i, j) implies i == from && j == to by {
        if i < from {
            assert(output@[i] != 46);
        }
        if i > from {
            assert(output@[from as int] == 46);
        }
        if j < to {
            assert(output@[to as int] == 46);
        }
        if j > to {
            assert(output@[j] != 46);
        }
    }
    if to == 0 || from + 1 > to - 1 {
        return None;
    }
    assert(is_framed(output@, from as int, to as int));
    let mut message: Vec<u8> = Vec::new();
    let mut i: usize = from + 1;
    while i < to - 1
        invariant
            from + 1 <= i <= to - 1,
            to < size,
            size == output@.len(),
            message@ == output@.subrange(from + 1, i as int),
        decreases to - i,
    {
        message.push(output[i]);
        assert(message@ =~= output@.subrange(from + 1, i as int + 1));
        i += 1;
    }
    Some(message)
}

/// The candidates whose message is the comment of the revision: the
/// places, among the candidates, of those for which Git printed that
/// comment.
pub open spec fn matching(comment: Seq<u8>, outputs: Seq<Seq<u8>>) -> Seq<int>
    decreases outputs.len(),
{
    if outputs.len() == 0 {
        Seq::empty()
    } else {
        let before = matching(comment, outputs.drop_last());
        if message_of(outputs.last()) == Some(comment) {
            before.push(outputs.len() - 1)
        } else {
            before
        }
    }
}

/// Finds the candidates whose message is the comment of the revision,
/// given what Git printed for each candidate.
pub fn find_matching_sha1_index(comment: &[u8], outputs: &Vec<Vec<u8>>) -> (indexes: Vec<usize>)
    ensures
        places(indexes@) == matching(comment@, byte_strings(outputs@)),
{
    let ghost all = byte_strings(outputs@);
    let mut indexes: Vec<usize> = Vec::new();
    let mut i: usize = 0;
    assert(all.take(0) =~= Seq::<Seq<u8>>::empty());
    assert(places(indexes@) =~= Seq::<int>::empty());
    while i < outputs.len()
        invariant
            i <= outputs.len(),
            all == byte_strings(outputs@),
            places(indexes@) == matching(comment@, all.take(i as int)),
        decreases outputs.len() - i,
    {
        assert(all.take(i as int + 1).drop_last() =~= all.take(i as int));
        assert(all.take(i as int + 1).last() == outputs@[i as int]@);
        if let Some(message) = commit_message(outputs[i].as_slice()) {
            if same_bytes(message.as_slice(), comment) {
                let ghost before = indexes@;
                indexes.push(i);
                assert(places(indexes@) =~= places(before).push(i as int));
            }
        }
        i += 1;
    }
    assert(all.take(all.len() as int) =~= all);
    indexes
}

/// The candidate that is taken without asking: the only one whose
/// message matches, if there is exactly one.
pub fn select_from_matching(indexes: &Vec<usize>) -> (selected: Option<usize>)
    ensures
        selected == if indexes@.len() == 1 {
            Some(indexes@[0])
        } else {
            None::<usize>
        },
{
    if indexes.len() == 1 {
        Some(indexes[0])
    } else {
        None
    }
}

} // verus!
