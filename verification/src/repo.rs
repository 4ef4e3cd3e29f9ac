//! What changed in a repository, and the before/after contents of each change.
use vstd::prelude::*;

use std::sync::Arc;

use crate::bytes::{copy, same};
use crate::diff;
use crate::diff::{is_binary, FileDiff, DEFAULT_CONTEXT, MAX_LINES};
use crate::order;

verus! {

/// Files larger than this are listed but not diffed.
pub const MAX_DIFF_BYTES: u64 = 0x100_0000;

/// Why a repository could not be read.
#[derive(Debug)]
pub enum Error {
    NotARepository(String),
    Bare(String),
    Git(String),
    Io(String),
}

/// Where a change lives relative to git's three trees.
#[derive(Debug, Clone, Copy, PartialEq, Eq, PartialOrd, Ord, Hash, Structural)]
pub enum Section {
    /// HEAD → index (`git diff --cached`).
    Staged,
    /// Index → worktree (`git diff`).
    Unstaged,
    /// Not tracked by git and not ignored.
    Untracked,
    /// Between two snapshots (an agent turn); read-only.
    Snapshot,
}

#[derive(Debug, Clone, Copy, PartialEq, Eq, Structural)]
pub enum ChangeStatus {
    Added,
    Modified,
    Deleted,
    Renamed,
    Copied,
    TypeChanged,
    Conflicted,
}

/// What an entry of a tree or the index is.
#[derive(Debug, Clone, Copy, PartialEq, Eq, Structural)]
pub enum EntryKind {
    Tree,
    Blob,
    BlobExecutable,
    Link,
    Commit,
}

/// One side of a change.
#[derive(Debug)]
pub enum Source {
    Absent,
    /// An object by its id (raw bytes).
    Blob { id: Vec<u8>, kind: EntryKind },
    Worktree,
}

#[derive(Debug)]
pub struct FileChange {
    pub section: Section,
    pub status: ChangeStatus,
    /// Repository-relative path, `/`-separated.
    pub path: Vec<u8>,
    /// Source path of a rename or copy.
    pub old_path: Option<Vec<u8>>,
    pub old: Source,
    pub new: Source,
}

/// One side of a change, as a sequence.
pub enum SourceView {
    Absent,
    Blob { id: Seq<u8>, kind: EntryKind },
    Worktree,
}

impl DeepView for Source {
    type V = SourceView;

    open spec fn deep_view(&self) -> SourceView {
        match *self {
            Source::Absent => SourceView::Absent,
            Source::Blob { id, kind } => SourceView::Blob { id: id@, kind },
            Source::Worktree => SourceView::Worktree,
        }
    }
}

/// A change, as sequences.
pub struct ChangeView {
    pub section: Section,
    pub status: ChangeStatus,
    pub path: Seq<u8>,
    pub old_path: Option<Seq<u8>>,
    pub old: SourceView,
    pub new: SourceView,
}

impl DeepView for FileChange {
    type V = ChangeView;

    open spec fn deep_view(&self) -> ChangeView {
        ChangeView {
            section: self.section,
            status: self.status,
            path: self.path@,
            old_path: match self.old_path {
                Some(path) => Some(path@),
                None => None,
            },
            old: self.old.deep_view(),
            new: self.new.deep_view(),
        }
    }
}

/// Whether two sides name the same content.
pub open spec fn same_source(a: Source, b: Source) -> bool {
    match (a, b) {
        (Source::Absent, Source::Absent) => true,
        (Source::Worktree, Source::Worktree) => true,
        (Source::Blob { id: x, kind: k }, Source::Blob { id: y, kind: l }) => x@ == y@ && k == l,
        _ => false,
    }
}

/// Whether two optional paths are the same.
pub open spec fn same_old_path(a: Option<Vec<u8>>, b: Option<Vec<u8>>) -> bool {
    match (a, b) {
        (None, None) => true,
        (Some(x), Some(y)) => x@ == y@,
        _ => false,
    }
}

/// Whether two changes are the same: section, status, paths and sides.
pub open spec fn same_change(a: FileChange, b: FileChange) -> bool {
    &&& a.section == b.section
    &&& a.status == b.status
    &&& a.path@ == b.path@
    &&& same_old_path(a.old_path, b.old_path)
    &&& same_source(a.old, b.old)
    &&& same_source(a.new, b.new)
}

impl Source {
    /// Whether two sides name the same content.
    pub fn same(&self, other: &Source) -> (result: bool)
        ensures
            result == same_source(*self, *other),
    {
        match (self, other) {
            (Source::Absent, Source::Absent) => true,
            (Source::Worktree, Source::Worktree) => true,
            (Source::Blob { id: x, kind: k }, Source::Blob { id: y, kind: l }) => same(
                x.as_slice(),
                y.as_slice(),
            ) && *k == *l,
            _ => false,
        }
    }

    /// A copy.
    pub fn copy(&self) -> (result: Source)
        ensures
            same_source(result, *self),
    {
        match self {
            Source::Absent => Source::Absent,
            Source::Worktree => Source::Worktree,
            Source::Blob { id, kind } => Source::Blob { id: copy(id.as_slice()), kind: *kind },
        }
    }
}

impl FileChange {
    /// Whether two changes are the same.
    pub fn same(&self, other: &FileChange) -> (result: bool)
        ensures
            result == same_change(*self, *other),
    {
        let old_paths = match (&self.old_path, &other.old_path) {
            (None, None) => true,
            (Some(x), Some(y)) => same(x.as_slice(), y.as_slice()),
            _ => false,
        };
        old_paths && self.section == other.section && self.status == other.status && same(
            self.path.as_slice(),
            other.path.as_slice(),
        ) && self.old.same(&other.old) && self.new.same(&other.new)
    }

    /// A copy.
    pub fn copy(&self) -> (result: FileChange)
        ensures
            same_change(result, *self),
    {
        FileChange {
            section: self.section,
            status: self.status,
            path: copy(self.path.as_slice()),
            old_path: match &self.old_path {
                Some(p) => Some(copy(p.as_slice())),
                None => None,
            },
            old: self.old.copy(),
            new: self.new.copy(),
        }
    }

    /// The path as text; what is not UTF-8 is replaced.
    pub fn path_lossy(&self) -> (text: String)
        ensures
            text@ == crate::text::str_lossy(self.path@),
    {
        crate::text::to_str_lossy(self.path.as_slice())
    }
}

// ---------------------------------------------------------------------------
// Status.

/// A change between HEAD and the index.
#[derive(Debug)]
pub enum IndexChange {
    Addition { path: Vec<u8>, id: Vec<u8>, kind: EntryKind },
    Deletion { path: Vec<u8>, id: Vec<u8>, kind: EntryKind },
    Modification {
        path: Vec<u8>,
        old_id: Vec<u8>,
        old_kind: EntryKind,
        id: Vec<u8>,
        kind: EntryKind,
    },
    Rewrite {
        old_path: Vec<u8>,
        old_id: Vec<u8>,
        old_kind: EntryKind,
        path: Vec<u8>,
        id: Vec<u8>,
        kind: EntryKind,
        is_copy: bool,
    },
}

/// How a tracked file in the worktree differs from the index.
#[derive(Debug, Clone, Copy, PartialEq, Eq, Structural)]
pub enum EntryStatus {
    Conflict,
    Removed,
    TypeChanged,
    Modified,
    SubmoduleModified,
    IntentToAdd,
    /// Only the index's own record is out of date.
    NeedsUpdate,
}

/// A difference between the index and the worktree.
#[derive(Debug)]
pub enum WorktreeItem {
    Modification { path: Vec<u8>, id: Vec<u8>, kind: EntryKind, status: EntryStatus },
    /// A file that is not in the index.
    DirectoryContents { path: Vec<u8>, untracked: bool },
    /// A rename within the worktree; `git diff` doesn't show these.
    Rewrite,
}

/// The kind of an entry with its executable bit ignored.
pub open spec fn plain_kind(kind: EntryKind) -> EntryKind {
    if kind == EntryKind::BlobExecutable {
        EntryKind::Blob
    } else {
        kind
    }
}

/// Executable-bit flips are modifications; file ↔ symlink ↔ submodule are type changes.
pub fn is_type_change(a: EntryKind, b: EntryKind) -> (result: bool)
    ensures
        result == (plain_kind(a) != plain_kind(b)),
{
    let x = match a {
        EntryKind::BlobExecutable => EntryKind::Blob,
        other => other,
    };
    let y = match b {
        EntryKind::BlobExecutable => EntryKind::Blob,
        other => other,
    };
    x != y
}

/// A staged change.
pub fn convert_tree_index(change: IndexChange) -> (result: FileChange)
    ensures
        result.section == Section::Staged,
        match change {
            IndexChange::Addition { path, id, kind } => {
                &&& result.status == ChangeStatus::Added
                &&& result.path == path
                &&& result.old_path is None
                &&& result.old is Absent
                &&& result.new == (Source::Blob { id, kind })
            },
            IndexChange::Deletion { path, id, kind } => {
                &&& result.status == ChangeStatus::Deleted
                &&& result.path == path
                &&& result.old_path is None
                &&& result.old == (Source::Blob { id, kind })
                &&& result.new is Absent
            },
            IndexChange::Modification { path, old_id, old_kind, id, kind } => {
                &&& result.status == (if plain_kind(old_kind) == plain_kind(kind) {
                    ChangeStatus::Modified
                } else {
                    ChangeStatus::TypeChanged
                })
                &&& result.path == path
                &&& result.old_path is None
                &&& result.old == (Source::Blob { id: old_id, kind: old_kind })
                &&& result.new == (Source::Blob { id, kind })
            },
            IndexChange::Rewrite { old_path, old_id, old_kind, path, id, kind, is_copy } => {
                &&& result.status == (if is_copy {
                    ChangeStatus::Copied
                } else {
                    ChangeStatus::Renamed
                })
                &&& result.path == path
                &&& result.old_path == Some(old_path)
                &&& result.old == (Source::Blob { id: old_id, kind: old_kind })
                &&& result.new == (Source::Blob { id, kind })
            },
        },
{
    let (status, path, old_path, old, new) = match change {
        IndexChange::Addition { path, id, kind } => (
            ChangeStatus::Added,
            path,
            None,
            Source::Absent,
            Source::Blob { id, kind },
        ),
        IndexChange::Deletion { path, id, kind } => (
            ChangeStatus::Deleted,
            path,
            None,
            Source::Blob { id, kind },
            Source::Absent,
        ),
        IndexChange::Modification { path, old_id, old_kind, id, kind } => {
            let status = if is_type_change(old_kind, kind) {
                ChangeStatus::TypeChanged
            } else {
                ChangeStatus::Modified
            };
            (
                status,
                path,
                None,
                Source::Blob { id: old_id, kind: old_kind },
                Source::Blob { id, kind },
            )
        },
        IndexChange::Rewrite { old_path, old_id, old_kind, path, id, kind, is_copy } => (
            if is_copy {
                ChangeStatus::Copied
            } else {
                ChangeStatus::Renamed
            },
            path,
            Some(old_path),
            Source::Blob { id: old_id, kind: old_kind },
            Source::Blob { id, kind },
        ),
    };
    FileChange { section: Section::Staged, status, path, old_path, old, new }
}

/// Status and new side of a tracked file that differs from the index.
pub open spec fn worktree_outcome(status: EntryStatus) -> (ChangeStatus, Source) {
    match status {
        EntryStatus::Conflict => (ChangeStatus::Conflicted, Source::Worktree),
        EntryStatus::Removed => (ChangeStatus::Deleted, Source::Absent),
        EntryStatus::TypeChanged => (ChangeStatus::TypeChanged, Source::Worktree),
        EntryStatus::Modified | EntryStatus::SubmoduleModified => (
            ChangeStatus::Modified,
            Source::Worktree,
        ),
        EntryStatus::IntentToAdd | EntryStatus::NeedsUpdate => (
            ChangeStatus::Added,
            Source::Worktree,
        ),
    }
}

/// An unstaged or untracked change, if the item is one.
pub fn convert_index_worktree(item: WorktreeItem) -> (result: Option<FileChange>)
    ensures
        match item {
            WorktreeItem::Modification { path, id, kind, status } => {
                if status == EntryStatus::NeedsUpdate {
                    result is None
                } else {
                    &&& result matches Some(change)
                    &&& change.section == Section::Unstaged
                    &&& change.status == worktree_outcome(status).0
                    &&& change.path == path
                    &&& change.old_path is None
                    &&& change.old == (if status == EntryStatus::IntentToAdd {
                        Source::Absent
                    } else {
                        Source::Blob { id, kind }
                    })
                    &&& change.new == worktree_outcome(status).1
                }
            },
            WorktreeItem::DirectoryContents { path, untracked } => {
                if untracked {
                    &&& result matches Some(change)
                    &&& change.section == Section::Untracked
                    &&& change.status == ChangeStatus::Added
                    &&& change.path == path
                    &&& change.old_path is None
                    &&& change.old is Absent
                    &&& change.new is Worktree
                } else {
                    result is None
                }
            },
            WorktreeItem::Rewrite => result is None,
        },
{
    match item {
        WorktreeItem::Modification { path, id, kind, status } => {
            let old = Source::Blob { id, kind };
            let (status, old, new) = match status {
                EntryStatus::Conflict => (ChangeStatus::Conflicted, old, Source::Worktree),
                EntryStatus::Removed => (ChangeStatus::Deleted, old, Source::Absent),
                EntryStatus::TypeChanged => (ChangeStatus::TypeChanged, old, Source::Worktree),
                EntryStatus::Modified | EntryStatus::SubmoduleModified => (
                    ChangeStatus::Modified,
                    old,
                    Source::Worktree,
                ),
                EntryStatus::IntentToAdd => (
                    ChangeStatus::Added,
                    Source::Absent,
                    Source::Worktree,
                ),
                EntryStatus::NeedsUpdate => {
                    return None;
                },
            };
            Some(
                FileChange { section: Section::Unstaged, status, path, old_path: None, old, new },
            )
        },
        WorktreeItem::DirectoryContents { path, untracked } => {
            if !untracked {
                return None;
            }
            Some(
                FileChange {
                    section: Section::Untracked,
                    status: ChangeStatus::Added,
                    path,
                    old_path: None,
                    old: Source::Absent,
                    new: Source::Worktree,
                },
            )
        },
        WorktreeItem::Rewrite => None,
    }
}

/// Position of a section in the review.
pub open spec fn section_rank(section: Section) -> int {
    match section {
        Section::Staged => 0,
        Section::Unstaged => 1,
        Section::Untracked => 2,
        Section::Snapshot => 3,
    }
}

fn rank(section: Section) -> (rank: u8)
    ensures
        rank == section_rank(section),
{
    match section {
        Section::Staged => 0,
        Section::Unstaged => 1,
        Section::Untracked => 2,
        Section::Snapshot => 3,
    }
}

/// Whether a place in the review comes before another: by section, then path.
pub open spec fn place_before(s: Section, p: Seq<u8>, t: Section, q: Seq<u8>) -> bool {
    section_rank(s) < section_rank(t) || (s == t && order::before(p, q))
}

/// Whether a change comes before another.
pub open spec fn change_before(a: FileChange, b: FileChange) -> bool {
    place_before(a.section, a.path@, b.section, b.path@)
}

/// Whether two changes are in the same place.
pub open spec fn same_place(a: FileChange, b: FileChange) -> bool {
    a.section == b.section && a.path@ == b.path@
}

/// Whether a place in the review comes before another.
pub fn is_place_before(s: Section, p: &[u8], t: Section, q: &[u8]) -> (result: bool)
    ensures
        result == place_before(s, p@, t, q@),
{
    rank(s) < rank(t) || (s == t && order::is_before(p, q))
}

/// Changes sorted by section and path, one per place: the first that was listed.
pub open spec fn sorted_changes(listed: Seq<FileChange>, sorted: Seq<FileChange>) -> bool {
    &&& forall|i: int, j: int|
        #![trigger sorted[i], sorted[j]]
        0 <= i < j < sorted.len() ==> change_before(sorted[i], sorted[j])
    &&& forall|i: int| 0 <= i < sorted.len() ==> is_first(listed, #[trigger] sorted[i])
    &&& forall|k: int| 0 <= k < listed.len() ==> has_place(sorted, #[trigger] listed[k])
}

/// Whether a change is in the list, first in its place.
pub open spec fn is_first(listed: Seq<FileChange>, change: FileChange) -> bool {
    exists|k: int| #[trigger] first_at(listed, k, change)
}

/// Whether one of the changes is in the place of `change`.
pub open spec fn has_place(sorted: Seq<FileChange>, change: FileChange) -> bool {
    exists|i: int| 0 <= i < sorted.len() && same_place(#[trigger] sorted[i], change)
}

/// Whether `change` is the change `k` of the list, and the first in its place.
pub open spec fn first_at(listed: Seq<FileChange>, k: int, change: FileChange) -> bool {
    &&& 0 <= k < listed.len()
    &&& listed[k] == change
    &&& forall|j: int| 0 <= j < k ==> !same_place(#[trigger] listed[j], change)
}

proof fn lemma_change_transitive(a: FileChange, b: FileChange, c: FileChange)
    requires
        change_before(a, b),
        change_before(b, c),
    ensures
        change_before(a, c),
{
    if a.section == b.section && b.section == c.section {
        order::lemma_transitive(a.path@, b.path@, c.path@);
    }
}

/// Sorts changes by section and then path, and drops repetitions.
pub fn sort_changes(changes: Vec<FileChange>) -> (sorted: Vec<FileChange>)
    ensures
        sorted_changes(changes@, sorted@),
{
    let ghost listed = changes@;
    let mut sorted: Vec<FileChange> = Vec::new();
    assert(listed.take(0) =~= Seq::<FileChange>::empty());
    for change in iter: changes
        invariant
            iter.seq() == listed,
            sorted_changes(listed.take(iter.index() as int), sorted@),
    {
        let ghost n = iter.index() as int;
        let ghost seen = listed.take(n);
        let ghost more = listed.take(n + 1);
        let ghost prior = sorted@;
        assert(more.drop_last() =~= seen);
        assert(more.last() == change);
        assert forall|k: int| 0 <= k < n implies more[k] == seen[k] by {}
        let mut at: usize = sorted.len();
        while at > 0 && is_place_before(
            change.section,
            change.path.as_slice(),
            sorted[at - 1].section,
            sorted[at - 1].path.as_slice(),
        )
            invariant
                at <= sorted@.len(),
                sorted@ == prior,
                forall|i: int| at <= i < prior.len() ==> change_before(change, #[trigger] prior[i]),
            decreases at,
        {
            at = at - 1;
        }
        let repeated = at > 0 && sorted[at - 1].section == change.section && same(
            sorted[at - 1].path.as_slice(),
            change.path.as_slice(),
        );
        if repeated {
            proof {
                lemma_repeated(seen, more, prior, at - 1);
            }
        } else {
            let ghost added = change;
            sorted.insert(at, change);
            proof {
                if at > 0 {
                    order::lemma_total(prior[at - 1].path@, added.path@);
                    assert(change_before(prior[at - 1], added));
                }
                lemma_inserted(seen, more, prior, sorted@, at as int);
            }
        }
    }
    assert(listed.take(listed.len() as int) =~= listed);
    sorted
}

proof fn lemma_first_kept(seen: Seq<FileChange>, more: Seq<FileChange>, k: int, change: FileChange)
    requires
        more.len() == seen.len() + 1,
        more.drop_last() == seen,
        first_at(seen, k, change),
    ensures
        first_at(more, k, change),
{
    assert forall|j: int| 0 <= j < k implies !same_place(#[trigger] more[j], change) by {
        assert(more[j] == seen[j]);
    }
    assert(more[k] == seen[k]);
}

proof fn lemma_repeated(
    seen: Seq<FileChange>,
    more: Seq<FileChange>,
    sorted: Seq<FileChange>,
    at: int,
)
    requires
        more.len() == seen.len() + 1,
        more.drop_last() == seen,
        sorted_changes(seen, sorted),
        0 <= at < sorted.len(),
        same_place(sorted[at], more.last()),
    ensures
        sorted_changes(more, sorted),
{
    assert forall|i: int| 0 <= i < sorted.len() implies is_first(
        more,
        #[trigger] sorted[i],
    ) by {
        let k = choose|k: int| #[trigger] first_at(seen, k, sorted[i]);
        lemma_first_kept(seen, more, k, sorted[i]);
    }
    assert forall|k: int| 0 <= k < more.len() implies has_place(
        sorted,
        #[trigger] more[k],
    ) by {
        if k < seen.len() {
            assert(more[k] == seen[k]);
            let i = choose|i: int| 0 <= i < sorted.len() && same_place(#[trigger] sorted[i], seen[k]);
            assert(same_place(sorted[i], more[k]));
        } else {
            assert(same_place(sorted[at], more[k]));
        }
    }
}

/// Strictly ascending.
spec fn ascending(sorted: Seq<FileChange>) -> bool {
    forall|i: int, j: int|
        #![trigger sorted[i], sorted[j]]
        0 <= i < j < sorted.len() ==> change_before(sorted[i], sorted[j])
}

proof fn lemma_inserted_order(prior: Seq<FileChange>, change: FileChange, at: int)
    requires
        ascending(prior),
        0 <= at <= prior.len(),
        at > 0 ==> change_before(prior[at - 1], change),
        forall|i: int| at <= i < prior.len() ==> change_before(change, #[trigger] prior[i]),
    ensures
        ascending(prior.insert(at, change)),
        forall|i: int| 0 <= i < prior.len() ==> !same_place(#[trigger] prior[i], change),
{
    let sorted = prior.insert(at, change);
    assert forall|i: int| 0 <= i < at implies change_before(#[trigger] prior[i], change) by {
        if i < at - 1 {
            assert(change_before(prior[i], prior[at - 1]));
            lemma_change_transitive(prior[i], prior[at - 1], change);
        }
    }
    order::lemma_irreflexive(change.path@);
    assert forall|i: int, j: int|
        #![trigger sorted[i], sorted[j]]
        0 <= i < j < sorted.len() implies change_before(sorted[i], sorted[j]) by {
        let p = if i > at {
            i - 1
        } else {
            i
        };
        let q = if j > at {
            j - 1
        } else {
            j
        };
        if i != at {
            assert(sorted[i] == prior[p]);
        }
        if j != at {
            assert(sorted[j] == prior[q]);
        }
        if i != at && j != at {
            assert(change_before(prior[p], prior[q]));
        }
    }
}

#[verifier::spinoff_prover]
#[verifier::rlimit(60)]
proof fn lemma_inserted(
    seen: Seq<FileChange>,
    more: Seq<FileChange>,
    prior: Seq<FileChange>,
    sorted: Seq<FileChange>,
    at: int,
)
    requires
        more.len() == seen.len() + 1,
        more.drop_last() == seen,
        sorted_changes(seen, prior),
        0 <= at <= prior.len(),
        sorted == prior.insert(at, more.last()),
        at > 0 ==> change_before(prior[at - 1], more.last()),
        forall|i: int| at <= i < prior.len() ==> change_before(more.last(), #[trigger] prior[i]),
    ensures
        sorted_changes(more, sorted),
{
    let change = more.last();
    assert(ascending(prior));
    lemma_inserted_order(prior, change, at);
    assert forall|j: int| 0 <= j < seen.len() implies !same_place(#[trigger] more[j], change) by {
        assert(more[j] == seen[j]);
        assert(has_place(prior, seen[j]));
        let i = choose|i: int| 0 <= i < prior.len() && same_place(#[trigger] prior[i], seen[j]);
        assert(!same_place(prior[i], change));
    }
    assert forall|i: int| 0 <= i < sorted.len() implies is_first(more, #[trigger] sorted[i]) by {
        if i == at {
            assert(first_at(more, seen.len() as int, sorted[i]));
        } else {
            let p = if i < at {
                i
            } else {
                i - 1
            };
            assert(sorted[i] == prior[p]);
            assert(is_first(seen, prior[p]));
            let k = choose|k: int| #[trigger] first_at(seen, k, prior[p]);
            lemma_first_kept(seen, more, k, sorted[i]);
        }
    }
    assert forall|k: int| 0 <= k < more.len() implies has_place(sorted, #[trigger] more[k]) by {
        if k < seen.len() {
            assert(more[k] == seen[k]);
            assert(has_place(prior, seen[k]));
            let p = choose|i: int| 0 <= i < prior.len() && same_place(#[trigger] prior[i], seen[k]);
            let i = if p < at {
                p
            } else {
                p + 1
            };
            assert(sorted[i] == prior[p]);
        } else {
            assert(sorted[at] == more[k]);
        }
    }
}

// ---------------------------------------------------------------------------
// Contents.

/// Raster image formats shown as images (SVG stays a text diff).
#[derive(Debug, Clone, Copy, PartialEq, Eq, Structural)]
pub enum ImageKind {
    Png,
    Jpeg,
    Gif,
    Webp,
    Bmp,
    Tiff,
    Ico,
}

/// The part of a path after its last `.`; the whole path if it has none.
pub open spec fn extension(path: Seq<u8>) -> Seq<u8>
    decreases path.len(),
{
    if path.len() == 0 || path.last() == 46 {
        Seq::empty()
    } else {
        extension(path.drop_last()).push(path.last())
    }
}

/// An ASCII letter in lower case.
pub open spec fn lower(b: u8) -> u8 {
    if 65 <= b <= 90 {
        (b + 32) as u8
    } else {
        b
    }
}

/// The part of a path after its last `.`, with ASCII letters in lower case.
pub fn lower_extension(path: &[u8]) -> (ext: Vec<u8>)
    ensures
        ext@ == extension(path@).map_values(|b: u8| lower(b)),
{
    let mut start: usize = path.len();
    assert(path@.take(path@.len() as int) =~= path@);
    assert(path@.subrange(path@.len() as int, path@.len() as int) =~= Seq::<u8>::empty());
    while start > 0 && path[start - 1] != 46
        invariant
            start <= path@.len(),
            extension(path@) == extension(path@.take(start as int)) + path@.subrange(
                start as int,
                path@.len() as int,
            ),
        decreases start,
    {
        assert(path@.take(start as int).drop_last() =~= path@.take(start - 1));
        assert(extension(path@.take(start - 1)).push(path@[start - 1]) + path@.subrange(
            start as int,
            path@.len() as int,
        ) =~= extension(path@.take(start - 1)) + path@.subrange(start - 1, path@.len() as int));
        start = start - 1;
    }
    assert(extension(path@.take(start as int)) =~= Seq::<u8>::empty());
    assert(extension(path@) =~= path@.subrange(start as int, path@.len() as int));
    let mut ext: Vec<u8> = Vec::new();
    let mut i: usize = start;
    while i < path.len()
        invariant
            start <= i <= path@.len(),
            ext@ == path@.subrange(start as int, i as int).map_values(|b: u8| lower(b)),
        decreases path.len() - i,
    {
        let b: u8 = path[i];
        if 65 <= b && b <= 90 {
            ext.push(b + 32);
        } else {
            ext.push(b);
        }
        i = i + 1;
        assert(ext@ =~= path@.subrange(start as int, i as int).map_values(|b: u8| lower(b)));
    }
    ext
}

/// The image format that an extension stands for.
pub open spec fn image_kind(ext: Seq<u8>) -> Option<ImageKind> {
    if ext == vstd::utf8::encode_utf8("png"@) {
        Some(ImageKind::Png)
    } else if ext == vstd::utf8::encode_utf8("jpg"@) || ext == vstd::utf8::encode_utf8("jpeg"@) {
        Some(ImageKind::Jpeg)
    } else if ext == vstd::utf8::encode_utf8("gif"@) {
        Some(ImageKind::Gif)
    } else if ext == vstd::utf8::encode_utf8("webp"@) {
        Some(ImageKind::Webp)
    } else if ext == vstd::utf8::encode_utf8("bmp"@) {
        Some(ImageKind::Bmp)
    } else if ext == vstd::utf8::encode_utf8("tif"@) || ext == vstd::utf8::encode_utf8("tiff"@) {
        Some(ImageKind::Tiff)
    } else if ext == vstd::utf8::encode_utf8("ico"@) {
        Some(ImageKind::Ico)
    } else {
        None
    }
}

impl ImageKind {
    /// The image format of a file with this path, if it is one that is shown as an image.
    pub fn for_path(path: &[u8]) -> (kind: Option<Self>)
        ensures
            kind == image_kind(extension(path@).map_values(|b: u8| lower(b))),
    {
        let ext = lower_extension(path);
        let ext = ext.as_slice();
        if same(ext, "png".as_bytes()) {
            Some(ImageKind::Png)
        } else if same(ext, "jpg".as_bytes()) || same(ext, "jpeg".as_bytes()) {
            Some(ImageKind::Jpeg)
        } else if same(ext, "gif".as_bytes()) {
            Some(ImageKind::Gif)
        } else if same(ext, "webp".as_bytes()) {
            Some(ImageKind::Webp)
        } else if same(ext, "bmp".as_bytes()) {
            Some(ImageKind::Bmp)
        } else if same(ext, "tif".as_bytes()) || same(ext, "tiff".as_bytes()) {
            Some(ImageKind::Tiff)
        } else if same(ext, "ico".as_bytes()) {
            Some(ImageKind::Ico)
        } else {
            None
        }
    }
}

/// What a change looks like once its contents are loaded.
#[derive(Debug)]
pub enum Loaded {
    Text(Arc<FileDiff>),
    Binary { old_len: u64, new_len: u64 },
    TooLarge { len: u64 },
    Submodule,
    Conflict,
    /// An untracked directory that is itself a repository, or a non-file entry.
    NotAFile,
    /// An image, shown before and after instead of as a diff.
    Image { kind: ImageKind, old: Option<Arc<Vec<u8>>>, new: Option<Arc<Vec<u8>>> },
}

/// What one side of a change holds.
#[derive(Debug)]
pub enum Side {
    Absent,
    Bytes(Vec<u8>),
    TooLarge(u64),
    Submodule,
    NotAFile,
}

/// A side's bytes; nothing where there are none.
pub open spec fn side_bytes(side: Side) -> Seq<u8> {
    match side {
        Side::Bytes(bytes) => bytes@,
        _ => Seq::empty(),
    }
}

impl Side {
    /// The bytes to show as an image.
    pub fn into_image_bytes(self) -> (bytes: Option<Arc<Vec<u8>>>)
        ensures
            match self {
                Side::Bytes(b) => bytes matches Some(a) && *a == b,
                _ => bytes is None,
            },
    {
        match self {
            Side::Bytes(bytes) => Some(Arc::new(bytes)),
            _ => None,
        }
    }

    /// The bytes to diff.
    pub fn into_bytes(self) -> (bytes: Vec<u8>)
        ensures
            bytes@ == side_bytes(self),
    {
        match self {
            Side::Bytes(bytes) => bytes,
            _ => Vec::new(),
        }
    }
}

/// What a side that comes from an object holds.
#[derive(Debug, Clone, Copy, PartialEq, Eq, Structural)]
pub enum BlobPlan {
    Submodule,
    TooLarge { len: u64 },
    /// Read the object.
    Read,
}

/// How to load an object of this kind and size. The size of a submodule's commit does not
/// matter.
pub fn plan_blob(kind: EntryKind, size: u64) -> (plan: BlobPlan)
    ensures
        plan == (if kind == EntryKind::Commit {
            BlobPlan::Submodule
        } else if size > MAX_DIFF_BYTES {
            BlobPlan::TooLarge { len: size }
        } else {
            BlobPlan::Read
        }),
{
    if kind == EntryKind::Commit {
        BlobPlan::Submodule
    } else if size > MAX_DIFF_BYTES {
        BlobPlan::TooLarge { len: size }
    } else {
        BlobPlan::Read
    }
}

/// What stands at a path of the worktree.
#[derive(Debug, Clone, Copy, PartialEq, Eq, Structural)]
pub enum WorktreeEntry {
    Symlink,
    Directory { has_git: bool },
    File { len: u64 },
    Other,
}

/// What a side that comes from the worktree holds.
#[derive(Debug, Clone, Copy, PartialEq, Eq, Structural)]
pub enum WorktreePlan {
    /// git diffs a symlink as its target path.
    ReadTarget,
    Submodule,
    NotAFile,
    TooLarge { len: u64 },
    /// Read the file through git's clean filters.
    ReadFile,
}

/// How to load what stands at a path of the worktree.
pub fn plan_worktree(entry: WorktreeEntry) -> (plan: WorktreePlan)
    ensures
        plan == (match entry {
            WorktreeEntry::Symlink => WorktreePlan::ReadTarget,
            WorktreeEntry::Directory { has_git } => if has_git {
                WorktreePlan::Submodule
            } else {
                WorktreePlan::NotAFile
            },
            WorktreeEntry::Other => WorktreePlan::NotAFile,
            WorktreeEntry::File { len } => if len > MAX_DIFF_BYTES {
                WorktreePlan::TooLarge { len }
            } else {
                WorktreePlan::ReadFile
            },
        }),
{
    match entry {
        WorktreeEntry::Symlink => WorktreePlan::ReadTarget,
        WorktreeEntry::Directory { has_git } => {
            if has_git {
                WorktreePlan::Submodule
            } else {
                WorktreePlan::NotAFile
            }
        },
        WorktreeEntry::Other => WorktreePlan::NotAFile,
        WorktreeEntry::File { len } => {
            if len > MAX_DIFF_BYTES {
                WorktreePlan::TooLarge { len }
            } else {
                WorktreePlan::ReadFile
            }
        },
    }
}

/// The path that a change's old side is read from.
pub fn old_side_path(change: &FileChange) -> (path: &[u8])
    ensures
        path@ == (match change.old_path {
            Some(p) => p@,
            None => change.path@,
        }),
{
    match &change.old_path {
        Some(p) => p.as_slice(),
        None => change.path.as_slice(),
    }
}

/// What a change looks like, given what its sides hold.
pub fn loaded(change: &FileChange, old: Side, new: Side) -> (result: Loaded)
    requires
        diff::lines_of(side_bytes(old)).len() < MAX_LINES,
        diff::lines_of(side_bytes(new)).len() < MAX_LINES,
    ensures
        ({
            let image = image_kind(extension(change.path@).map_values(|b: u8| lower(b)));
            let (o, n) = (side_bytes(old), side_bytes(new));
            if change.status == ChangeStatus::Conflicted {
                result is Conflict
            } else if old is Submodule || new is Submodule {
                result is Submodule
            } else if old is NotAFile || new is NotAFile {
                result is NotAFile
            } else if old is TooLarge || new is TooLarge {
                result == (Loaded::TooLarge {
                    len: if old is TooLarge {
                        old->TooLarge_0
                    } else {
                        new->TooLarge_0
                    },
                })
            } else if image is Some {
                &&& result matches Loaded::Image { kind: k, old: a, new: b }
                &&& Some(k) == image
                &&& match old {
                    Side::Bytes(bytes) => a matches Some(x) && x@ == bytes@,
                    _ => a is None,
                }
                &&& match new {
                    Side::Bytes(bytes) => b matches Some(x) && x@ == bytes@,
                    _ => b is None,
                }
            } else if diff::binary_content(o) || diff::binary_content(n) {
                result == (Loaded::Binary { old_len: o.len() as u64, new_len: n.len() as u64 })
            } else {
                &&& result matches Loaded::Text(d)
                &&& d.wf()
                &&& d.old@ == o
                &&& d.new@ == n
                &&& d.hunks@ == diff::diff_hunks(
                    o,
                    n,
                    diff::line_changes(o, n),
                    0,
                    DEFAULT_CONTEXT as int,
                    0,
                )
                &&& d.lines@ == diff::diff_lines(
                    o,
                    n,
                    diff::line_changes(o, n),
                    0,
                    DEFAULT_CONTEXT as int,
                )
            }
        }),
{
    if change.status == ChangeStatus::Conflicted {
        return Loaded::Conflict;
    }
    match (old, new) {
        (Side::Submodule, _) | (_, Side::Submodule) => Loaded::Submodule,
        (Side::NotAFile, _) | (_, Side::NotAFile) => Loaded::NotAFile,
        (Side::TooLarge(len), _) | (_, Side::TooLarge(len)) => Loaded::TooLarge { len },
        (old, new) => {
            if let Some(kind) = ImageKind::for_path(change.path.as_slice()) {
                return Loaded::Image {
                    kind,
                    old: old.into_image_bytes(),
                    new: new.into_image_bytes(),
                };
            }
            let old = old.into_bytes();
            let new = new.into_bytes();
            if is_binary(old.as_slice()) || is_binary(new.as_slice()) {
                Loaded::Binary { old_len: old.len() as u64, new_len: new.len() as u64 }
            } else {
                Loaded::Text(Arc::new(FileDiff::compute(old, new, DEFAULT_CONTEXT)))
            }
        },
    }
}

} // verus!
