//! One Mercurial revision as an import reads it.
use vstd::prelude::*;

verus! {

/// What the manifest says a file is.
#[derive(Clone, Copy, Debug, PartialEq, Eq, Structural)]
pub enum EntryKind {
    Regular,
    Executable,
    Symlink,
    Tree,
}

/// A file that a changeset touches. A file that was deleted has neither
/// data nor a manifest entry; one that was added or changed has both.
#[derive(Debug)]
pub struct ChangesetFile {
    pub path: Vec<u8>,
    /// The file as Mercurial stores it: its content, behind a header if it has one.
    pub data: Option<Vec<u8>>,
    pub manifest_entry: Option<EntryKind>,
}

/// An extra property of a changeset, such as its branch.
#[derive(Debug)]
pub struct ExtraEntry {
    pub key: Vec<u8>,
    pub value: Vec<u8>,
}

/// What describes a changeset, apart from its files.
#[derive(Debug)]
pub struct ChangesetHeader {
    pub p1: Option<usize>,
    pub p2: Option<usize>,
    pub user: Vec<u8>,
    /// Seconds since the epoch, in UTC.
    pub time: i64,
    /// Seconds to add to local time to get UTC.
    pub tz_offset: i32,
    pub extra: Vec<ExtraEntry>,
    pub comment: Vec<u8>,
}

/// One revision: its number, its header and its files.
#[derive(Debug)]
pub struct Changeset {
    pub revision: usize,
    pub header: ChangesetHeader,
    pub files: Vec<ChangesetFile>,
}

pub struct FileView {
    pub path: Seq<u8>,
    pub data: Option<Seq<u8>>,
    pub manifest_entry: Option<EntryKind>,
}

pub struct ExtraView {
    pub key: Seq<u8>,
    pub value: Seq<u8>,
}

pub struct HeaderView {
    pub p1: Option<nat>,
    pub p2: Option<nat>,
    pub user: Seq<u8>,
    pub time: int,
    pub tz_offset: int,
    pub extra: Seq<ExtraView>,
    pub comment: Seq<u8>,
}

pub struct ChangesetView {
    pub revision: nat,
    pub header: HeaderView,
    pub files: Seq<FileView>,
}

impl View for ChangesetFile {
    type V = FileView;

    open spec fn view(&self) -> FileView {
        FileView {
            path: self.path@,
            data: match self.data {
                Some(d) => Some(d@),
                None => None,
            },
            manifest_entry: self.manifest_entry,
        }
    }
}

impl View for ExtraEntry {
    type V = ExtraView;

    open spec fn view(&self) -> ExtraView {
        ExtraView { key: self.key@, value: self.value@ }
    }
}

impl View for ChangesetHeader {
    type V = HeaderView;

    open spec fn view(&self) -> HeaderView {
        HeaderView {
            p1: match self.p1 {
                Some(p) => Some(p as nat),
                None => None,
            },
            p2: match self.p2 {
                Some(p) => Some(p as nat),
                None => None,
            },
            user: self.user@,
            time: self.time as int,
            tz_offset: self.tz_offset as int,
            extra: Seq::new(self.extra@.len(), |i: int| self.extra@[i]@),
            comment: self.comment@,
        }
    }
}

impl View for Changeset {
    type V = ChangesetView;

    open spec fn view(&self) -> ChangesetView {
        ChangesetView {
            revision: self.revision as nat,
            header: self.header@,
            files: Seq::new(self.files@.len(), |i: int| self.files@[i]@),
        }
    }
}

/// A tag and the revision that carries it.
#[derive(Debug)]
pub struct Tag {
    pub revision: usize,
    pub name: String,
}

pub struct TagView {
    pub revision: nat,
    pub name: Seq<char>,
}

impl View for Tag {
    type V = TagView;

    open spec fn view(&self) -> TagView {
        TagView { revision: self.revision as nat, name: self.name@ }
    }
}

/// The views of the tags of a table, in its order.
pub open spec fn tags_view(tags: Seq<Tag>) -> Seq<TagView> {
    Seq::new(tags.len(), |i: int| tags[i]@)
}

/// Whether a tag table is in the order of its revisions, each revision
/// occurring once.
pub open spec fn is_tag_table(tags: Seq<TagView>) -> bool {
    forall|i: int, j: int| 0 <= i < j < tags.len() ==> tags[i].revision < tags[j].revision
}

} // verus!
