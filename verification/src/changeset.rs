//! The commit data model: changeset identifiers, file changes and changesets,
//! together with their mathematical views.

use vstd::prelude::*;

use crate::paths::RepoPath;
use crate::paths::copy_bytes;

verus! {

/// An opaque changeset identifier, unique within one graph.
#[derive(Clone, Copy, PartialEq, Eq, Structural, Debug)]
pub struct ChangesetId {
    pub value: u64,
}

/// One change to a file. A copy records the path and changeset it came from
/// beside the resulting content.
pub enum FileChange {
    Added { content: Vec<u8> },
    Modified { content: Vec<u8> },
    Deleted,
    Copied { content: Vec<u8>, from_path: RepoPath, from_id: ChangesetId },
}

/// A changed path together with what happened to it.
pub struct FileChangeEntry {
    pub path: RepoPath,
    pub change: FileChange,
}

/// An immutable commit node: parents are ordered, empty for a root, and of
/// length two or more for a merge.
pub struct Changeset {
    pub id: ChangesetId,
    pub parents: Vec<ChangesetId>,
    pub file_changes: Vec<FileChangeEntry>,
    pub message: Vec<u8>,
    pub author: Vec<u8>,
    pub timestamp: i64,
}

/// Mathematical view of a file change.
pub enum ChangeView {
    Added { content: Seq<u8> },
    Modified { content: Seq<u8> },
    Deleted,
    Copied { content: Seq<u8>, from_path: Seq<Seq<u8>>, from_id: ChangesetId },
}

/// Mathematical view of a changed-path entry.
pub struct ChangeEntryView {
    pub path: Seq<Seq<u8>>,
    pub change: ChangeView,
}

/// Mathematical view of a changeset.
pub struct ChangesetView {
    pub id: ChangesetId,
    pub parents: Seq<ChangesetId>,
    pub file_changes: Seq<ChangeEntryView>,
    pub message: Seq<u8>,
    pub author: Seq<u8>,
    pub timestamp: i64,
}

impl View for FileChange {
    type V = ChangeView;

    open spec fn view(&self) -> ChangeView {
        match self {
            FileChange::Added { content } => ChangeView::Added { content: content@ },
            FileChange::Modified { content } => ChangeView::Modified { content: content@ },
            FileChange::Deleted => ChangeView::Deleted,
            FileChange::Copied { content, from_path, from_id } => ChangeView::Copied {
                content: content@,
                from_path: from_path@,
                from_id: *from_id,
            },
        }
    }
}

impl View for FileChangeEntry {
    type V = ChangeEntryView;

    open spec fn view(&self) -> ChangeEntryView {
        ChangeEntryView { path: self.path@, change: self.change@ }
    }
}

impl View for Changeset {
    type V = ChangesetView;

    open spec fn view(&self) -> ChangesetView {
        ChangesetView {
            id: self.id,
            parents: self.parents@,
            file_changes: self.file_changes@.map(|i: int, e: FileChangeEntry| e@),
            message: self.message@,
            author: self.author@,
            timestamp: self.timestamp,
        }
    }
}

/// A copy of a sequence of changeset ids.
pub fn copy_ids(v: &Vec<ChangesetId>) -> (r: Vec<ChangesetId>)
    ensures
        r@ == v@,
{
    let mut r: Vec<ChangesetId> = Vec::new();
    let mut i: usize = 0;
    while i < v.len()
        invariant
            i <= v@.len(),
            r@ == v@.take(i as int),
        decreases v@.len() - i,
    {
        r.push(v[i]);
        proof {
            assert(r@ =~= v@.take(i as int + 1));
        }
        i = i + 1;
    }
    proof {
        assert(r@ =~= v@);
    }
    r
}

/// `true` iff `v` holds `id`.
pub fn ids_contain(v: &Vec<ChangesetId>, id: ChangesetId) -> (r: bool)
    ensures
        r == v@.contains(id),
{
    let mut i: usize = 0;
    while i < v.len()
        invariant
            i <= v@.len(),
            forall|j: int| 0 <= j < i ==> v@[j] != id,
        decreases v@.len() - i,
    {
        if v[i].value == id.value {
            return true;
        }
        i = i + 1;
    }
    false
}

impl FileChange {
    /// A deep copy with the same view.
    pub fn duplicate(&self) -> (r: FileChange)
        ensures
            r@ == self@,
    {
        match self {
            FileChange::Added { content } => FileChange::Added {
                content: copy_bytes(content.as_slice()),
            },
            FileChange::Modified { content } => FileChange::Modified {
                content: copy_bytes(content.as_slice()),
            },
            FileChange::Deleted => FileChange::Deleted,
            FileChange::Copied { content, from_path, from_id } => FileChange::Copied {
                content: copy_bytes(content.as_slice()),
                from_path: from_path.duplicate(),
                from_id: *from_id,
            },
        }
    }
}

impl FileChangeEntry {
    /// A deep copy with the same view.
    pub fn duplicate(&self) -> (r: FileChangeEntry)
        ensures
            r@ == self@,
    {
        FileChangeEntry { path: self.path.duplicate(), change: self.change.duplicate() }
    }
}

impl Changeset {
    /// A deep copy with the same view.
    pub fn duplicate(&self) -> (r: Changeset)
        ensures
            r@ == self@,
    {
        let mut file_changes: Vec<FileChangeEntry> = Vec::new();
        let mut i: usize = 0;
        while i < self.file_changes.len()
            invariant
                i <= self.file_changes@.len(),
                file_changes@.len() == i,
                forall|j: int| 0 <= j < i ==> file_changes@[j]@ == self.file_changes@[j]@,
            decreases self.file_changes@.len() - i,
        {
            file_changes.push(self.file_changes[i].duplicate());
            i = i + 1;
        }
        let r = Changeset {
            id: self.id,
            parents: copy_ids(&self.parents),
            file_changes,
            message: copy_bytes(self.message.as_slice()),
            author: copy_bytes(self.author.as_slice()),
            timestamp: self.timestamp,
        };
        proof {
            assert(r@.file_changes =~= self@.file_changes);
        }
        r
    }
}

} // verus!
