//! The file tree that navigates a review: sections, directories and files.
use vstd::prelude::*;

use crate::repo::Section;
use crate::review::ReviewFile;
use crate::text::{chars_of, same_text, string_of};

verus! {

#[derive(Debug, Clone, PartialEq, Eq)]
pub enum TreeRow {
    Section { section: Section, count: usize },
    Dir {
        section: Section,
        depth: usize,
        /// Display name; single-child directory chains are compacted (`a/b/c`).
        name: String,
        /// Full directory path, the key for expand/collapse.
        path: String,
        expanded: bool,
    },
    File { depth: usize, name: String, file: usize },
}

/// A tree row with its texts as characters.
pub enum TreeRowView {
    Section { section: Section, count: int },
    Dir { section: Section, depth: int, name: Seq<char>, path: Seq<char>, expanded: bool },
    File { depth: int, name: Seq<char>, file: int },
}

impl View for TreeRow {
    type V = TreeRowView;

    open spec fn view(&self) -> TreeRowView {
        match *self {
            TreeRow::Section { section, count } => TreeRowView::Section {
                section,
                count: count as int,
            },
            TreeRow::Dir { section, depth, name, path, expanded } => TreeRowView::Dir {
                section,
                depth: depth as int,
                name: name@,
                path: path@,
                expanded,
            },
            TreeRow::File { depth, name, file } => TreeRowView::File {
                depth: depth as int,
                name: name@,
                file: file as int,
            },
        }
    }
}

/// The rows with their texts as characters.
pub open spec fn tree_view(rows: Seq<TreeRow>) -> Seq<TreeRowView> {
    rows.map_values(|r: TreeRow| r@)
}

// ---------------------------------------------------------------------------
// Collapsed directories.

/// A directory of a section.
#[derive(Debug)]
pub struct Folder {
    pub section: Section,
    pub path: String,
}

/// The directories that are collapsed.
#[derive(Debug)]
pub struct Collapsed {
    folders: Vec<Folder>,
}

impl View for Collapsed {
    type V = Set<(Section, Seq<char>)>;

    closed spec fn view(&self) -> Set<(Section, Seq<char>)> {
        Set::new(
            |f: (Section, Seq<char>)|
                exists|i: int|
                    0 <= i < self.folders@.len() && (#[trigger] self.folders@[i]).section == f.0
                        && self.folders@[i].path@ == f.1,
        )
    }
}

impl Collapsed {
    #[verifier::type_invariant]
    spec fn distinct(self) -> bool {
        forall|i: int, j: int|
            #![trigger self.folders@[i], self.folders@[j]]
            0 <= i < j < self.folders@.len() ==> !(self.folders@[i].section
                == self.folders@[j].section && self.folders@[i].path@ == self.folders@[j].path@)
    }

    /// Nothing collapsed.
    pub fn new() -> (collapsed: Self)
        ensures
            collapsed@ == Set::<(Section, Seq<char>)>::empty(),
    {
        let collapsed = Collapsed { folders: Vec::new() };
        assert(collapsed@ =~= Set::<(Section, Seq<char>)>::empty());
        collapsed
    }

    fn position(&self, section: Section, path: &str) -> (found: Option<usize>)
        ensures
            match found {
                Some(i) => i < self.folders@.len() && self.folders@[i as int].section == section
                    && self.folders@[i as int].path@ == path@,
                None => !self@.contains((section, path@)),
            },
    {
        let mut i: usize = 0;
        while i < self.folders.len()
            invariant
                i <= self.folders@.len(),
                forall|j: int|
                    0 <= j < i ==> !((#[trigger] self.folders@[j]).section == section
                        && self.folders@[j].path@ == path@),
            decreases self.folders.len() - i,
        {
            if self.folders[i].section == section && same_text(
                self.folders[i].path.as_str(),
                path,
            ) {
                return Some(i);
            }
            i = i + 1;
        }
        None
    }

    /// Whether a directory is collapsed.
    pub fn contains(&self, section: Section, path: &str) -> (result: bool)
        ensures
            result == self@.contains((section, path@)),
    {
        self.position(section, path).is_some()
    }

    /// Collapses a directory, or expands it if it was collapsed.
    pub fn toggle(&mut self, section: Section, path: &str)
        ensures
            final(self)@ == (if old(self)@.contains((section, path@)) {
                old(self)@.remove((section, path@))
            } else {
                old(self)@.insert((section, path@))
            }),
    {
        proof {
            use_type_invariant(&*self);
        }
        let ghost before = self.folders@;
        let ghost key = (section, path@);
        match self.position(section, path) {
            Some(at) => {
                let mut folders: Vec<Folder> = Vec::new();
                std::mem::swap(&mut folders, &mut self.folders);
                let _ = folders.remove(at);
                self.folders = folders;
                proof {
                    assert forall|f: (Section, Seq<char>)|
                        #[trigger] self@.contains(f) <==> old(self)@.remove(key).contains(f) by {
                        if self@.contains(f) {
                            let i = choose|i: int|
                                0 <= i < self.folders@.len() && (
                                #[trigger] self.folders@[i]).section == f.0
                                    && self.folders@[i].path@ == f.1;
                            let j = if i < at {
                                i
                            } else {
                                i + 1
                            };
                            assert(self.folders@[i] == before[j]);
                            if j < at {
                                assert(before[j].section != before[at as int].section
                                    || before[j].path@ != before[at as int].path@);
                            } else {
                                assert(before[at as int].section != before[j].section
                                    || before[at as int].path@ != before[j].path@);
                            }
                        }
                        if old(self)@.remove(key).contains(f) {
                            let j = choose|j: int|
                                0 <= j < before.len() && (#[trigger] before[j]).section == f.0
                                    && before[j].path@ == f.1;
                            let i = if j < at {
                                j
                            } else {
                                j - 1
                            };
                            assert(j != at);
                            assert(self.folders@[i] == before[j]);
                        }
                    }
                    assert(self@ =~= old(self)@.remove(key));
                }
            },
            None => {
                let mut folders: Vec<Folder> = Vec::new();
                std::mem::swap(&mut folders, &mut self.folders);
                folders.push(Folder { section, path: path.to_owned() });
                proof {
                    assert forall|i: int, j: int|
                        #![trigger folders@[i], folders@[j]]
                        0 <= i < j < folders@.len() implies !(folders@[i].section
                        == folders@[j].section && folders@[i].path@ == folders@[j].path@) by {
                        assert(folders@[i] == before[i]);
                        if j < before.len() {
                            assert(folders@[j] == before[j]);
                        }
                    }
                }
                self.folders = folders;
                proof {
                    let n = before.len() as int;
                    assert forall|f: (Section, Seq<char>)|
                        #[trigger] self@.contains(f) <==> old(self)@.insert(key).contains(f) by {
                        if self@.contains(f) {
                            let i = choose|i: int|
                                0 <= i < self.folders@.len() && (
                                #[trigger] self.folders@[i]).section == f.0
                                    && self.folders@[i].path@ == f.1;
                            if i < n {
                                assert(self.folders@[i] == before[i]);
                            }
                        }
                        if old(self)@.contains(f) {
                            let j = choose|j: int|
                                0 <= j < before.len() && (#[trigger] before[j]).section == f.0
                                    && before[j].path@ == f.1;
                            assert(self.folders@[j] == before[j]);
                        }
                        assert(self.folders@[n].section == section && self.folders@[n].path@
                            == path@);
                    }
                    assert(self@ =~= old(self)@.insert(key));
                }
            },
        }
    }

    /// A copy.
    pub fn copy(&self) -> (copy: Self)
        ensures
            copy@ == self@,
    {
        proof {
            use_type_invariant(self);
        }
        let mut folders: Vec<Folder> = Vec::new();
        let mut i: usize = 0;
        while i < self.folders.len()
            invariant
                i == folders@.len() <= self.folders@.len(),
                forall|k: int|
                    0 <= k < i ==> (#[trigger] folders@[k]).section == self.folders@[k].section
                        && folders@[k].path@ == self.folders@[k].path@,
            decreases self.folders.len() - i,
        {
            let folder = &self.folders[i];
            folders.push(Folder { section: folder.section, path: folder.path.as_str().to_owned() });
            i = i + 1;
        }
        proof {
            assert forall|a: int, b: int|
                #![trigger folders@[a], folders@[b]]
                0 <= a < b < folders@.len() implies !(folders@[a].section == folders@[b].section
                && folders@[a].path@ == folders@[b].path@) by {
                assert(self.folders@[a].section != self.folders@[b].section
                    || self.folders@[a].path@ != self.folders@[b].path@);
            }
        }
        let copy = Collapsed { folders };
        proof {
            assert forall|f: (Section, Seq<char>)|
                #[trigger] copy@.contains(f) <==> self@.contains(f) by {
                if copy@.contains(f) {
                    let k = choose|k: int|
                        0 <= k < copy.folders@.len() && (#[trigger] copy.folders@[k]).section
                            == f.0 && copy.folders@[k].path@ == f.1;
                    assert(self.folders@[k].section == f.0);
                }
                if self@.contains(f) {
                    let k = choose|k: int|
                        0 <= k < self.folders@.len() && (#[trigger] self.folders@[k]).section
                            == f.0 && self.folders@[k].path@ == f.1;
                    assert(copy.folders@[k].section == f.0);
                }
            }
            assert(copy@ =~= self@);
        }
        copy
    }
}

// ---------------------------------------------------------------------------
// What the tree is.

/// A file of a section: its index in the review, and its path.
pub struct TreePath {
    pub file: usize,
    pub path: Vec<char>,
}

/// A file of a section, with its path as characters.
pub struct PathView {
    pub file: int,
    pub path: Seq<char>,
}

impl View for TreePath {
    type V = PathView;

    open spec fn view(&self) -> PathView {
        PathView { file: self.file as int, path: self.path@ }
    }
}

/// The files with their paths as characters.
pub open spec fn path_views(paths: Seq<TreePath>) -> Seq<PathView> {
    paths.map_values(|p: TreePath| p@)
}

/// The position of the first `/` from `from` on.
pub open spec fn slash_from(path: Seq<char>, from: int) -> Option<int>
    decreases path.len() - from,
{
    if from >= path.len() {
        None
    } else if path[from] == '/' {
        Some(from)
    } else {
        slash_from(path, from + 1)
    }
}

/// Whether a path starts with the first `len` characters of `first`.
pub open spec fn shares(path: Seq<char>, first: Seq<char>, len: int) -> bool {
    len <= path.len() && path.take(len) == first.take(len)
}

/// How many of the paths, from `k` on, start with the first `len` characters of `first`
/// before one does not.
pub open spec fn group_end(paths: Seq<PathView>, first: Seq<char>, len: int, k: int) -> int
    decreases paths.len() - k,
{
    if k < paths.len() && shares(paths[k].path, first, len) {
        group_end(paths, first, len, k + 1)
    } else {
        k
    }
}

/// Whether all paths start with the first `len` characters of the first of them.
pub open spec fn all_share(paths: Seq<PathView>, len: int) -> bool {
    forall|k: int| 0 <= k < paths.len() ==> shares((#[trigger] paths[k]).path, paths[0].path, len)
}

/// The length of a directory's path (with its last `/`) once single-child directory chains
/// are compacted: `a/` containing only `a/b/`.
pub open spec fn compact_len(group: Seq<PathView>, len: int) -> int
    decreases group[0].path.len() - len,
{
    if len < 0 {
        len
    } else {
        match slash_from(group[0].path, len) {
            Some(s) => if len <= s < group[0].path.len() && all_share(group, s + 1) {
                compact_len(group, s + 1)
            } else {
                len
            },
            None => len,
        }
    }
}

/// A path without slashes at its end.
pub open spec fn without_slashes(path: Seq<char>) -> Seq<char>
    decreases path.len(),
{
    if path.len() > 0 && path.last() == '/' {
        without_slashes(path.drop_last())
    } else {
        path
    }
}

/// The part of a path behind its first `len` characters.
pub open spec fn behind(path: Seq<char>, len: int) -> Seq<char> {
    if len <= path.len() {
        path.skip(len)
    } else {
        Seq::empty()
    }
}

/// Compacting leads on within the first path.
pub proof fn lemma_compact_len(group: Seq<PathView>, len: int)
    requires
        0 <= len <= group[0].path.len(),
    ensures
        len <= compact_len(group, len) <= group[0].path.len(),
        all_share(group, len) ==> all_share(group, compact_len(group, len)),
    decreases group[0].path.len() - len,
{
    if let Some(s) = slash_from(group[0].path, len) {
        if len <= s < group[0].path.len() && all_share(group, s + 1) {
            lemma_compact_len(group, s + 1);
        }
    }
}

/// A slash that was found is one, at or after where the search started.
pub proof fn lemma_slash_from(path: Seq<char>, from: int)
    ensures
        slash_from(path, from) matches Some(s) ==> from <= s < path.len() && path[s] == '/',
    decreases path.len() - from,
{
    if from < path.len() && path[from] != '/' {
        lemma_slash_from(path, from + 1);
    }
}

/// A group whose first path shares the prefix is not empty.
pub proof fn lemma_group_end(paths: Seq<PathView>, first: Seq<char>, len: int, k: int)
    requires
        0 <= k <= paths.len(),
    ensures
        k <= group_end(paths, first, len, k) <= paths.len(),
        k < paths.len() && shares(paths[k].path, first, len) ==> k < group_end(
            paths,
            first,
            len,
            k,
        ),
        forall|j: int|
            k <= j < group_end(paths, first, len, k) ==> shares(
                (#[trigger] paths[j]).path,
                first,
                len,
            ),
    decreases paths.len() - k,
{
    if k < paths.len() && shares(paths[k].path, first, len) {
        lemma_group_end(paths, first, len, k + 1);
    }
}

/// The rows for `paths` (all with the same first `prefix` characters, sorted) at `depth`.
pub open spec fn tree_level(
    collapsed: Set<(Section, Seq<char>)>,
    section: Section,
    paths: Seq<PathView>,
    prefix: int,
    depth: int,
) -> Seq<TreeRowView>
    decreases
        paths.len(),
        if paths.len() > 0 {
            paths[0].path.len() - prefix
        } else {
            0int
        },
{
    if paths.len() == 0 || prefix < 0 || prefix > paths[0].path.len() {
        Seq::empty()
    } else {
        let first = paths[0].path;
        match slash_from(first, prefix) {
            None => seq![
                TreeRowView::File {
                    depth,
                    name: behind(first, prefix),
                    file: paths[0].file,
                },
            ] + tree_level(collapsed, section, paths.skip(1), prefix, depth),
            Some(slash) => {
                let count = group_end(paths, first, slash + 1, 0);
                let group = paths.take(count);
                let len = compact_len(group, slash + 1);
                let path = without_slashes(first.take(len));
                let expanded = !collapsed.contains((section, path));
                let row = TreeRowView::Dir {
                    section,
                    depth,
                    name: behind(path, prefix),
                    path,
                    expanded,
                };
                proof {
                    lemma_slash_from(first, prefix);
                    lemma_group_end(paths, first, slash + 1, 0);
                    lemma_compact_len(group, slash + 1);
                }
                seq![row] + (if expanded {
                    tree_level(collapsed, section, group, len, depth + 1)
                } else {
                    Seq::empty()
                }) + tree_level(collapsed, section, paths.skip(count), prefix, depth)
            },
        }
    }
}

/// Whether each path starts with the first `prefix` characters of the first of them.
pub open spec fn below(paths: Seq<PathView>, prefix: int) -> bool {
    forall|k: int| 0 <= k < paths.len() ==> prefix <= (#[trigger] paths[k]).path.len()
}

fn find_slash(path: &[char], from: usize) -> (found: Option<usize>)
    requires
        from <= path@.len(),
    ensures
        match found {
            Some(s) => slash_from(path@, from as int) == Some(s as int) && from <= s < path@.len(),
            None => slash_from(path@, from as int) is None,
        },
{
    let mut at: usize = from;
    while at < path.len()
        invariant
            from <= at <= path@.len(),
            slash_from(path@, at as int) == slash_from(path@, from as int),
        decreases path.len() - at,
    {
        if path[at] == '/' {
            return Some(at);
        }
        at = at + 1;
    }
    None
}

fn does_share(path: &[char], first: &[char], len: usize) -> (result: bool)
    requires
        len <= first@.len(),
    ensures
        result == shares(path@, first@, len as int),
{
    if len > path.len() {
        return false;
    }
    let mut i: usize = 0;
    while i < len
        invariant
            i <= len <= path@.len(),
            len <= first@.len(),
            forall|k: int| 0 <= k < i ==> path@[k] == first@[k],
        decreases len - i,
    {
        if path[i] != first[i] {
            assert(path@.take(len as int)[i as int] != first@.take(len as int)[i as int]);
            return false;
        }
        i = i + 1;
    }
    assert(path@.take(len as int) =~= first@.take(len as int));
    true
}

fn find_group_end(paths: &[TreePath], len: usize) -> (end: usize)
    requires
        paths@.len() > 0,
        len <= paths@[0].path@.len(),
    ensures
        end == group_end(path_views(paths@), paths@[0].path@, len as int, 0),
        0 < end <= paths@.len(),
{
    let ghost first = paths@[0].path@;
    let mut k: usize = 0;
    assert(shares(first, first, len as int));
    while k < paths.len() && does_share(paths[k].path.as_slice(), paths[0].path.as_slice(), len)
        invariant
            k <= paths@.len(),
            0 < paths@.len(),
            first == paths@[0].path@,
            len <= first.len(),
            group_end(path_views(paths@), first, len as int, k as int) == group_end(
                path_views(paths@),
                first,
                len as int,
                0,
            ),
        decreases paths.len() - k,
    {
        k = k + 1;
    }
    proof {
        lemma_group_end(path_views(paths@), first, len as int, 0);
    }
    k
}

fn do_all_share(paths: &[TreePath], len: usize) -> (result: bool)
    requires
        paths@.len() > 0,
        len <= paths@[0].path@.len(),
    ensures
        result == all_share(path_views(paths@), len as int),
{
    let mut k: usize = 0;
    while k < paths.len()
        invariant
            k <= paths@.len(),
            0 < paths@.len(),
            len <= paths@[0].path@.len(),
            forall|j: int|
                0 <= j < k ==> shares(
                    (#[trigger] path_views(paths@)[j]).path,
                    paths@[0].path@,
                    len as int,
                ),
        decreases paths.len() - k,
    {
        if !does_share(paths[k].path.as_slice(), paths[0].path.as_slice(), len) {
            assert(!shares(path_views(paths@)[k as int].path, paths@[0].path@, len as int));
            return false;
        }
        k = k + 1;
    }
    true
}

fn compact(group: &[TreePath], len: usize) -> (result: usize)
    requires
        group@.len() > 0,
        len <= group@[0].path@.len(),
    ensures
        result == compact_len(path_views(group@), len as int),
        len <= result <= group@[0].path@.len(),
{
    let mut at: usize = len;
    loop
        invariant
            group@.len() > 0,
            len <= at <= group@[0].path@.len(),
            compact_len(path_views(group@), at as int) == compact_len(path_views(group@), len as int),
        decreases group@[0].path@.len() - at,
    {
        let first = group[0].path.as_slice();
        let first_len: usize = first.len();
        match find_slash(first, at) {
            Some(s) => {
                if do_all_share(group, s + 1) {
                    at = s + 1;
                } else {
                    return at;
                }
            },
            None => {
                return at;
            },
        }
    }
}

fn trim_slashes(path: &[char], len: usize) -> (end: usize)
    requires
        len <= path@.len(),
    ensures
        end <= len,
        path@.take(end as int) == without_slashes(path@.take(len as int)),
{
    let mut end: usize = len;
    while end > 0 && path[end - 1] == '/'
        invariant
            end <= len <= path@.len(),
            without_slashes(path@.take(end as int)) == without_slashes(path@.take(len as int)),
        decreases end,
    {
        assert(path@.take(end as int).drop_last() =~= path@.take(end - 1));
        end = end - 1;
    }
    end
}

fn text_behind(path: &[char], end: usize, len: usize) -> (text: String)
    requires
        end <= path@.len(),
    ensures
        text@ == behind(path@.take(end as int), len as int),
{
    if len <= end {
        let text = string_of(vstd::slice::slice_subrange(path, len, end));
        assert(text@ =~= path@.take(end as int).skip(len as int));
        text
    } else {
        String::new()
    }
}

proof fn lemma_view_pushed(rows: Seq<TreeRow>, row: TreeRow)
    ensures
        tree_view(rows.push(row)) == tree_view(rows).push(row@),
{
    assert(tree_view(rows.push(row)) =~= tree_view(rows).push(row@));
}

proof fn lemma_join(
    here: Seq<TreeRowView>,
    row: TreeRowView,
    children: Seq<TreeRowView>,
    rest: Seq<TreeRowView>,
)
    ensures
        here.push(row) + children + rest == here + (seq![row] + children + rest),
{
    assert(here.push(row) + children + rest =~= here + (seq![row] + children + rest));
}

/// Emit tree rows for `paths` (all with the same first `prefix` characters, sorted) at
/// `depth`.
fn build_tree_level(
    out: &mut Vec<TreeRow>,
    collapsed: &Collapsed,
    section: Section,
    paths: &[TreePath],
    prefix: usize,
    depth: usize,
)
    requires
        below(path_views(paths@), prefix as int),
        depth <= prefix,
    ensures
        tree_view(final(out)@) == tree_view(old(out)@) + tree_level(
            collapsed@,
            section,
            path_views(paths@),
            prefix as int,
            depth as int,
        ),
    decreases
        paths@.len(),
        if paths@.len() > 0 {
            paths@[0].path@.len() - prefix
        } else {
            0int
        },
{
    let ghost all = tree_level(collapsed@, section, path_views(paths@), prefix as int, depth as int);
    let ghost before = tree_view(out@);
    let mut rest = paths;
    assert(paths@.skip(0) =~= paths@);
    while rest.len() > 0
        invariant
            rest@.len() <= paths@.len(),
            rest@ == paths@.skip(paths@.len() - rest@.len()),
            depth <= prefix,
            below(path_views(rest@), prefix as int),
            tree_view(out@) + tree_level(
                collapsed@,
                section,
                path_views(rest@),
                prefix as int,
                depth as int,
            ) == before + all,
        decreases rest@.len(),
    {
        let ghost here = tree_view(out@);
        let ghost all_here = rest@;
        let ghost start = path_views(rest@);
        let entry = &rest[0];
        let path = entry.path.as_slice();
        let path_len: usize = path.len();
        let total: usize = rest.len();
        match find_slash(path, prefix) {
            None => {
                let row = TreeRow::File {
                    depth,
                    name: text_behind(path, path_len, prefix),
                    file: entry.file,
                };
                assert(path@.take(path_len as int) =~= path@);
                proof {
                    lemma_view_pushed(out@, row);
                    lemma_join(
                        here,
                        row@,
                        Seq::empty(),
                        tree_level(
                            collapsed@,
                            section,
                            start.skip(1),
                            prefix as int,
                            depth as int,
                        ),
                    );
                    assert(seq![row@] + Seq::<TreeRowView>::empty() =~= seq![row@]);
                    assert(here.push(row@) + Seq::<TreeRowView>::empty() =~= here.push(row@));
                }
                out.push(row);
                rest = vstd::slice::slice_subrange(rest, 1, total);
                assert(rest@ =~= all_here.skip(1));
                assert(path_views(rest@) =~= start.skip(1));
                assert(rest@ =~= paths@.skip(paths@.len() - rest@.len()));
            },
            Some(slash) => {
                let count: usize = find_group_end(rest, slash + 1);
                let group = vstd::slice::slice_subrange(rest, 0, count);
                assert(path_views(group@) =~= start.take(count as int));
                let len: usize = compact(group, slash + 1);
                let trimmed: usize = trim_slashes(path, len);
                let dir = string_of(vstd::slice::slice_subrange(path, 0, trimmed));
                assert(dir@ =~= path@.take(trimmed as int));
                let expanded = !collapsed.contains(section, dir.as_str());
                let row = TreeRow::Dir {
                    section,
                    depth,
                    name: text_behind(path, trimmed, prefix),
                    path: dir,
                    expanded,
                };
                let ghost shown = row@;
                proof {
                    lemma_view_pushed(out@, row);
                    lemma_group_end(start, path@, slash + 1, 0);
                    assert(all_share(path_views(group@), slash + 1));
                    lemma_compact_len(path_views(group@), slash + 1);
                    assert(below(path_views(group@), len as int));
                    if group@.len() == paths@.len() {
                        assert(all_here =~= paths@);
                        assert(group@ =~= paths@);
                    }
                }
                out.push(row);
                let ghost children = if expanded {
                    tree_level(collapsed@, section, path_views(group@), len as int, depth + 1)
                } else {
                    Seq::empty()
                };
                if expanded {
                    build_tree_level(out, collapsed, section, group, len, depth + 1);
                }
                assert(tree_view(out@) =~= here.push(shown) + children);
                rest = vstd::slice::slice_subrange(rest, count, total);
                assert(rest@ =~= all_here.skip(count as int));
                assert(path_views(rest@) =~= start.skip(count as int));
                assert(rest@ =~= paths@.skip(paths@.len() - rest@.len()));
                proof {
                    lemma_join(
                        here,
                        shown,
                        children,
                        tree_level(collapsed@, section, path_views(rest@), prefix as int, depth as int),
                    );
                }
            },
        }
    }
    assert(tree_view(out@) =~= before + all);
}

// ---------------------------------------------------------------------------
// Sections.

/// End of the run of files of one section that starts at `from`.
pub open spec fn section_end(files: Seq<ReviewFile>, section: Section, from: int) -> int
    decreases files.len() - from,
{
    if from < files.len() && files[from].change.section == section {
        section_end(files, section, from + 1)
    } else {
        from
    }
}

/// The run ends within the files, and one that starts with a file of its section is not
/// empty.
pub proof fn lemma_section_end(files: Seq<ReviewFile>, section: Section, from: int)
    requires
        from <= files.len(),
    ensures
        from <= section_end(files, section, from) <= files.len(),
        from < files.len() && files[from].change.section == section ==> from < section_end(
            files,
            section,
            from,
        ),
    decreases files.len() - from,
{
    if from < files.len() && files[from].change.section == section {
        lemma_section_end(files, section, from + 1);
    }
}

/// The files `from..to` with their paths as text.
pub open spec fn section_paths(files: Seq<ReviewFile>, from: int, to: int) -> Seq<PathView> {
    Seq::new(
        (to - from) as nat,
        |k: int|
            PathView {
                file: from + k,
                path: crate::text::str_lossy(files[from + k].change.path@),
            },
    )
}

/// The tree of the files from `from` on: for each run of files of one section, a row for the
/// section, and then its directories and files.
pub open spec fn tree_rows(
    collapsed: Set<(Section, Seq<char>)>,
    files: Seq<ReviewFile>,
    from: int,
) -> Seq<TreeRowView>
    decreases files.len() - from,
{
    if from >= files.len() {
        Seq::empty()
    } else {
        let section = files[from].change.section;
        let end = section_end(files, section, from);
        proof {
            lemma_section_end(files, section, from);
        }
        seq![TreeRowView::Section { section, count: end - from }] + tree_level(
            collapsed,
            section,
            section_paths(files, from, end),
            0,
            0,
        ) + tree_rows(collapsed, files, end)
    }
}

fn find_section_end(files: &[ReviewFile], section: Section, from: usize) -> (end: usize)
    requires
        from <= files@.len(),
    ensures
        end == section_end(files@, section, from as int),
        from <= end <= files@.len(),
{
    let mut end: usize = from;
    while end < files.len() && files[end].change.section == section
        invariant
            from <= end <= files@.len(),
            section_end(files@, section, end as int) == section_end(
                files@,
                section,
                from as int,
            ),
        decreases files.len() - end,
    {
        end = end + 1;
    }
    end
}

fn paths_between(files: &[ReviewFile], from: usize, to: usize) -> (paths: Vec<TreePath>)
    requires
        from <= to <= files@.len(),
    ensures
        path_views(paths@) == section_paths(files@, from as int, to as int),
{
    let mut paths: Vec<TreePath> = Vec::new();
    let mut ix: usize = from;
    while ix < to
        invariant
            from <= ix <= to <= files@.len(),
            paths@.len() == ix - from,
            forall|k: int|
                0 <= k < paths@.len() ==> (#[trigger] paths@[k])@ == section_paths(
                    files@,
                    from as int,
                    to as int,
                )[k],
        decreases to - ix,
    {
        let text = files[ix].change.path_lossy();
        paths.push(TreePath { file: ix, path: chars_of(text.as_str()) });
        ix = ix + 1;
    }
    assert(path_views(paths@) =~= section_paths(files@, from as int, to as int));
    paths
}

/// The tree of a review's files.
pub fn build_tree(files: &[ReviewFile], collapsed: &Collapsed) -> (rows: Vec<TreeRow>)
    ensures
        tree_view(rows@) == tree_rows(collapsed@, files@, 0),
{
    let mut rows: Vec<TreeRow> = Vec::new();
    let mut start: usize = 0;
    let ghost all = tree_rows(collapsed@, files@, 0);
    assert(tree_view(rows@) + all =~= all);
    while start < files.len()
        invariant
            start <= files@.len(),
            tree_view(rows@) + tree_rows(collapsed@, files@, start as int) == all,
        decreases files.len() - start,
    {
        let ghost here = tree_view(rows@);
        let section = files[start].change.section;
        let end: usize = find_section_end(files, section, start);
        proof {
            lemma_section_end(files@, section, start as int);
        }
        let row = TreeRow::Section { section, count: end - start };
        proof {
            lemma_view_pushed(rows@, row);
        }
        rows.push(row);
        let paths = paths_between(files, start, end);
        build_tree_level(&mut rows, collapsed, section, paths.as_slice(), 0, 0);
        proof {
            lemma_join(
                here,
                row@,
                tree_level(collapsed@, section, path_views(paths@), 0, 0),
                tree_rows(collapsed@, files@, end as int),
            );
        }
        start = end;
    }
    assert(tree_view(rows@) =~= all);
    rows
}

/// Collapsing a directory and expanding it again leaves the tree as it was.
pub proof fn law_toggling_twice_restores_the_tree(
    before: Set<(Section, Seq<char>)>,
    once: Set<(Section, Seq<char>)>,
    twice: Set<(Section, Seq<char>)>,
    files: Seq<ReviewFile>,
    dir: (Section, Seq<char>),
)
    requires
        once == (if before.contains(dir) {
            before.remove(dir)
        } else {
            before.insert(dir)
        }),
        twice == (if once.contains(dir) {
            once.remove(dir)
        } else {
            once.insert(dir)
        }),
    ensures
        tree_rows(twice, files, 0) == tree_rows(before, files, 0),
{
    assert(twice =~= before);
}

/// The files that a tree lists, from top to bottom.
pub open spec fn files_listed(rows: Seq<TreeRowView>) -> Seq<int>
    decreases rows.len(),
{
    if rows.len() == 0 {
        Seq::empty()
    } else {
        let above = files_listed(rows.drop_last());
        match rows.last() {
            TreeRowView::File { file, .. } => above.push(file),
            _ => above,
        }
    }
}

proof fn lemma_files_listed(a: Seq<TreeRowView>, b: Seq<TreeRowView>)
    ensures
        files_listed(a + b) == files_listed(a) + files_listed(b),
    decreases b.len(),
{
    if b.len() == 0 {
        assert(a + b =~= a);
        assert(files_listed(a + b) =~= files_listed(a) + files_listed(b));
    } else {
        assert((a + b).drop_last() =~= a + b.drop_last());
        lemma_files_listed(a, b.drop_last());
        assert(files_listed(a + b) =~= files_listed(a) + files_listed(b));
    }
}

proof fn lemma_one_listed(row: TreeRowView)
    ensures
        files_listed(seq![row]) == (match row {
            TreeRowView::File { file, .. } => seq![file],
            _ => Seq::empty(),
        }),
{
    assert(seq![row].drop_last() =~= Seq::empty());
    assert(files_listed(seq![row].drop_last()) =~= Seq::empty());
    if let TreeRowView::File { file, .. } = row {
        assert(files_listed(seq![row]) =~= seq![file]);
    }
}

/// The files of paths.
spec fn files_of(paths: Seq<PathView>) -> Seq<int> {
    paths.map_values(|p: PathView| p.file)
}

proof fn lemma_level_lists_all(
    section: Section,
    paths: Seq<PathView>,
    prefix: int,
    depth: int,
)
    requires
        0 <= prefix,
        below(paths, prefix),
    ensures
        files_listed(tree_level(Set::empty(), section, paths, prefix, depth)) == files_of(paths),
    decreases
        paths.len(),
        if paths.len() > 0 {
            paths[0].path.len() - prefix
        } else {
            0int
        },
{
    let none = Set::<(Section, Seq<char>)>::empty();
    if paths.len() == 0 {
        assert(files_of(paths) =~= Seq::empty());
    } else {
        let first = paths[0].path;
        assert(prefix <= first.len());
        match slash_from(first, prefix) {
            None => {
                let row = TreeRowView::File {
                    depth,
                    name: behind(first, prefix),
                    file: paths[0].file,
                };
                let rest = paths.skip(1);
                assert(below(rest, prefix));
                lemma_level_lists_all(section, rest, prefix, depth);
                lemma_one_listed(row);
                lemma_files_listed(seq![row], tree_level(none, section, rest, prefix, depth));
                assert(files_of(paths) =~= seq![paths[0].file] + files_of(rest));
            },
            Some(slash) => {
                let count = group_end(paths, first, slash + 1, 0);
                let group = paths.take(count);
                let len = compact_len(group, slash + 1);
                let path = without_slashes(first.take(len));
                let row = TreeRowView::Dir {
                    section,
                    depth,
                    name: behind(path, prefix),
                    path,
                    expanded: true,
                };
                lemma_slash_from(first, prefix);
                lemma_group_end(paths, first, slash + 1, 0);
                lemma_compact_len(group, slash + 1);
                assert forall|k: int| 0 <= k < group.len() implies shares(
                    (#[trigger] group[k]).path,
                    group[0].path,
                    slash + 1,
                ) by {
                    assert(group[k] == paths[k]);
                }
                assert(all_share(group, len));
                assert(below(group, len));
                let rest = paths.skip(count);
                assert(below(rest, prefix));
                lemma_level_lists_all(section, group, len, depth + 1);
                lemma_level_lists_all(section, rest, prefix, depth);
                let inner = tree_level(none, section, group, len, depth + 1);
                let outer = tree_level(none, section, rest, prefix, depth);
                lemma_one_listed(row);
                lemma_files_listed(seq![row], inner);
                lemma_files_listed(seq![row] + inner, outer);
                assert(files_of(paths) =~= files_of(group) + files_of(rest));
                assert(Seq::<int>::empty() + files_of(group) + files_of(rest) =~= files_of(paths));
            },
        }
    }
}

proof fn lemma_tree_lists_all(files: Seq<ReviewFile>, from: int)
    requires
        0 <= from <= files.len(),
    ensures
        files_listed(tree_rows(Set::empty(), files, from)) == Seq::new(
            (files.len() - from) as nat,
            |k: int| from + k,
        ),
    decreases files.len() - from,
{
    let none = Set::<(Section, Seq<char>)>::empty();
    let all = Seq::new((files.len() - from) as nat, |k: int| from + k);
    if from < files.len() {
        let section = files[from].change.section;
        let end = section_end(files, section, from);
        lemma_section_end(files, section, from);
        let row = TreeRowView::Section { section, count: end - from };
        let paths = section_paths(files, from, end);
        let level = tree_level(none, section, paths, 0, 0);
        let rest = tree_rows(none, files, end);
        lemma_level_lists_all(section, paths, 0, 0);
        lemma_tree_lists_all(files, end);
        lemma_one_listed(row);
        lemma_files_listed(seq![row], level);
        lemma_files_listed(seq![row] + level, rest);
        assert(Seq::<int>::empty() + files_of(paths) + files_listed(rest) =~= all);
    } else {
        assert(all =~= Seq::empty());
    }
}

/// A tree with nothing collapsed lists every file of the review, once, in the review's order.
pub proof fn law_the_tree_lists_every_file_once(files: Seq<ReviewFile>)
    ensures
        files_listed(tree_rows(Set::empty(), files, 0)) == Seq::new(files.len(), |k: int| k),
{
    lemma_tree_lists_all(files, 0);
    assert(files_listed(tree_rows(Set::empty(), files, 0)) =~= Seq::new(files.len(), |k: int| k));
}

} // verus!
