//! Review actions: stage, unstage and discard (whole files, hunks or lines), undo, and
//! commit. Everything that writes goes through the `git` CLI.
//!
//! Safety with a live agent:
//! - A discard only applies if the file on disk still matches the diff the user reviewed.
//! - Discarded content is saved as git objects, reachable from `refs/goro/undo`, before
//!   anything is removed.
//! - Undo only applies if the file (or index entry) is still exactly as the action left
//!   it; otherwise it refuses rather than overwrite newer work.
use vstd::prelude::*;

use crate::bytes::{append, append_byte, append_str, bytes_of, copy, position, same, split};
use crate::calls;
use crate::calls::{
    do_work, read_directory, read_kind, read_raw, run_git, try_git, Call, CallView, OpErrorView,
    Reply, ReplyView, Step, StepView,
};
use crate::diff::{DiffLine, FileDiff, LineKind};
use crate::git::{GitError, GitErrorView};
use crate::patch;
use crate::patch::{build_selected, Direction, Header};
use crate::repo::{ChangeStatus, FileChange, Section, Source};
use crate::text::{copy_text, first_line, from_utf8_lossy, parse_number, push_text, same_text, to_str_lossy, trim, without_end_space};

pub use crate::calls::{FileKind, OpError};

verus! {

broadcast use crate::bytes::lemma_deep;

pub const UNDO_REF: &'static str = "refs/goro/undo";

/// The previous generation of undo history.
pub const UNDO_PREVIOUS_REF: &'static str = "refs/goro/undo-previous";

/// Discards per generation of undo history.
pub const UNDO_HISTORY: usize = 200;

/// What an action applies to.
#[derive(Debug, Clone, Copy)]
pub enum Selection<'a> {
    File,
    /// Indices into the file's diff lines; context lines are ignored.
    Lines(&'a [usize]),
}

/// What an action applies to, as a sequence.
pub enum SelectionView {
    File,
    Lines(Seq<usize>),
}

impl<'a> Selection<'a> {
    pub open spec fn model(self) -> SelectionView {
        match self {
            Selection::File => SelectionView::File,
            Selection::Lines(lines) => SelectionView::Lines(lines@),
        }
    }
}

#[derive(Debug, Clone, Copy, PartialEq, Eq, Structural)]
pub struct CommitOptions {
    pub amend: bool,
    pub signoff: bool,
}

impl Default for CommitOptions {
    /// Neither amend nor sign off.
    fn default() -> (options: Self)
        ensures
            !options.amend,
            !options.signoff,
    {
        CommitOptions { amend: false, signoff: false }
    }
}

/// An entry of the index.
#[derive(Debug, PartialEq, Eq)]
pub struct IndexEntry {
    pub mode: String,
    pub oid: String,
}

/// An entry of the index, as text.
pub struct IndexEntryView {
    pub mode: Seq<char>,
    pub oid: Seq<char>,
}

impl DeepView for IndexEntry {
    type V = IndexEntryView;

    open spec fn deep_view(&self) -> IndexEntryView {
        IndexEntryView { mode: self.mode@, oid: self.oid@ }
    }
}

/// An index entry before and after an action.
#[derive(Debug)]
pub struct IndexState {
    pub path: Vec<u8>,
    pub before: Option<IndexEntry>,
    pub after: Option<IndexEntry>,
}

/// An index entry before and after an action, as text.
pub struct IndexStateView {
    pub path: Seq<u8>,
    pub before: Option<IndexEntryView>,
    pub after: Option<IndexEntryView>,
}

impl DeepView for IndexState {
    type V = IndexStateView;

    open spec fn deep_view(&self) -> IndexStateView {
        IndexStateView {
            path: self.path@,
            before: self.before.deep_view(),
            after: self.after.deep_view(),
        }
    }
}

/// What a worktree file holds, and what kind of file it is.
#[derive(Debug)]
pub struct SavedFile {
    /// Blob of the raw (unfiltered) bytes.
    pub oid: String,
    pub kind: FileKind,
}

/// What a worktree file holds, as text, and what kind of file it is.
pub struct SavedFileView {
    pub oid: Seq<char>,
    pub kind: FileKind,
}

impl DeepView for SavedFile {
    type V = SavedFileView;

    open spec fn deep_view(&self) -> SavedFileView {
        SavedFileView { oid: self.oid@, kind: self.kind }
    }
}

/// A worktree file before and after an action.
#[derive(Debug)]
pub struct WorktreeState {
    pub path: Vec<u8>,
    pub before: Option<SavedFile>,
    /// What the action left, `None` if the file was removed.
    pub after: Option<SavedFile>,
}

/// A worktree file before and after an action, as text.
pub struct WorktreeStateView {
    pub path: Seq<u8>,
    pub before: Option<SavedFileView>,
    pub after: Option<SavedFileView>,
}

impl DeepView for WorktreeState {
    type V = WorktreeStateView;

    open spec fn deep_view(&self) -> WorktreeStateView {
        WorktreeStateView {
            path: self.path@,
            before: self.before.deep_view(),
            after: self.after.deep_view(),
        }
    }
}

/// Everything needed to reverse one action.
#[derive(Debug)]
pub struct Undo {
    pub description: String,
    pub index: Vec<IndexState>,
    pub worktree: Vec<WorktreeState>,
}

/// Everything needed to reverse one action, as sequences.
pub struct UndoView {
    pub description: Seq<char>,
    pub index: Seq<IndexStateView>,
    pub worktree: Seq<WorktreeStateView>,
}

impl DeepView for Undo {
    type V = UndoView;

    open spec fn deep_view(&self) -> UndoView {
        UndoView {
            description: self.description@,
            index: self.index.deep_view(),
            worktree: self.worktree.deep_view(),
        }
    }
}

// ---------------------------------------------------------------------------
// Small pieces.

/// The bytes of an argument.
pub open spec fn word(text: &str) -> Seq<u8> {
    crate::bytes::text_bytes(text@)
}

/// Running git.
pub open spec fn git_call(args: Seq<Seq<u8>>, stdin: Option<Seq<u8>>) -> CallView {
    CallView::Git { args, stdin, internal: false }
}

/// Running git for bookkeeping.
pub open spec fn internal_call(args: Seq<Seq<u8>>, stdin: Option<Seq<u8>>) -> CallView {
    CallView::Git { args, stdin, internal: true }
}

/// What is not possible, and why.
pub open spec fn unsupported(reason: &str) -> OpErrorView {
    OpErrorView::Unsupported(reason@)
}

/// Git's answer of one word or line.
pub open spec fn answer(out: Seq<u8>) -> Seq<char> {
    crate::text::trimmed(crate::text::lossy(out))
}

fn answer_of(out: &[u8]) -> (text: String)
    ensures
        text@ == answer(out@),
{
    trim(from_utf8_lossy(out).as_str())
}

/// Whether a line changes something.
pub open spec fn is_changed(lines: Seq<DiffLine>, ix: int) -> bool {
    0 <= ix < lines.len() && lines[ix].kind != LineKind::Context
}

/// Whether some chosen line changes something.
pub open spec fn picks_a_change(lines: Seq<DiffLine>, chosen: Seq<usize>) -> bool {
    exists|ix: usize| #[trigger] chosen.contains(ix) && is_changed(lines, ix as int)
}

/// Whether every line that changes something is chosen.
pub open spec fn picks_every_change(lines: Seq<DiffLine>, chosen: Seq<usize>) -> bool {
    forall|ix: int| #[trigger] is_changed(lines, ix) ==> chosen.contains(ix as usize)
}

/// What an action really applies to. A line selection covering every changed line is a
/// whole-file action (so new, deleted and mode-changed files behave as expected).
pub open spec fn effective_selection(
    selection: SelectionView,
    diff: Option<FileDiff>,
) -> Result<SelectionView, OpErrorView> {
    match selection {
        SelectionView::File => Ok(SelectionView::File),
        SelectionView::Lines(chosen) => match diff {
            None => Err(unsupported("only whole-file actions are possible for this file")),
            Some(d) => {
                if !picks_a_change(d.lines@, chosen) {
                    Err(unsupported("the selection has no changed lines"))
                } else if picks_every_change(d.lines@, chosen) {
                    Ok(SelectionView::File)
                } else {
                    Ok(SelectionView::Lines(chosen))
                }
            },
        },
    }
}

/// What an action really applies to: the whole file, or some of its lines.
pub fn effective<'a>(selection: Selection<'a>, diff: Option<&FileDiff>) -> (result: Result<
    Selection<'a>,
    OpError,
>)
    ensures
        match result {
            Ok(s) => effective_selection(
                selection.model(),
                match diff {
                    Some(d) => Some(*d),
                    None => None,
                },
            ) == Ok::<SelectionView, OpErrorView>(s.model()),
            Err(e) => effective_selection(
                selection.model(),
                match diff {
                    Some(d) => Some(*d),
                    None => None,
                },
            ) == Err::<SelectionView, OpErrorView>(e.deep_view()),
        },
        result matches Ok(Selection::Lines(_)) ==> diff is Some,
{
    let chosen = match selection {
        Selection::File => {
            return Ok(Selection::File);
        },
        Selection::Lines(chosen) => chosen,
    };
    let d = match diff {
        Some(d) => d,
        None => {
            return Err(
                OpError::Unsupported("only whole-file actions are possible for this file"),
            );
        },
    };
    let marks = mark_chosen(d.lines.len(), chosen);
    let mut any = false;
    let mut all = true;
    let mut l: usize = 0;
    while l < d.lines.len()
        invariant
            l <= d.lines@.len(),
            marks@ == chosen_marks(d.lines@.len(), chosen@),
            any <==> exists|k: int| 0 <= k < l && #[trigger] marks@[k] && is_changed(d.lines@, k),
            all <==> forall|k: int| 0 <= k < l && #[trigger] is_changed(d.lines@, k) ==> marks@[k],
        decreases d.lines.len() - l,
    {
        if d.lines[l].kind != LineKind::Context {
            assert(is_changed(d.lines@, l as int));
            if marks[l] {
                any = true;
            } else {
                all = false;
            }
        }
        l = l + 1;
    }
    proof {
        if any {
            let k = choose|k: int|
                0 <= k < l && #[trigger] marks@[k] && is_changed(d.lines@, k);
            assert(chosen@.contains(k as usize));
        }
        if picks_a_change(d.lines@, chosen@) {
            let ix = choose|ix: usize| #[trigger]
                chosen@.contains(ix) && is_changed(d.lines@, ix as int);
            assert(marks@[ix as int]);
        }
        assert(all <==> picks_every_change(d.lines@, chosen@)) by {
            if all {
                assert forall|ix: int| #[trigger] is_changed(
                    d.lines@,
                    ix,
                ) implies chosen@.contains(ix as usize) by {
                    assert(marks@[ix]);
                }
            }
        }
    }
    if !any {
        return Err(OpError::Unsupported("the selection has no changed lines"));
    }
    if all {
        Ok(Selection::File)
    } else {
        Ok(selection)
    }
}

/// Which lines are chosen.
pub open spec fn chosen_marks(count: nat, chosen: Seq<usize>) -> Seq<bool> {
    Seq::new(count, |i: int| chosen.contains(i as usize))
}

fn mark_chosen(count: usize, chosen: &[usize]) -> (marks: Vec<bool>)
    ensures
        marks@ == chosen_marks(count as nat, chosen@),
{
    let mut marks: Vec<bool> = Vec::new();
    let mut i: usize = 0;
    while i < count
        invariant
            i == marks@.len() <= count,
            forall|k: int| 0 <= k < i ==> !#[trigger] marks@[k],
        decreases count - i,
    {
        marks.push(false);
        i = i + 1;
    }
    let mut c: usize = 0;
    while c < chosen.len()
        invariant
            c <= chosen@.len(),
            marks@.len() == count,
            forall|k: int|
                0 <= k < count ==> (#[trigger] marks@[k] <==> chosen@.take(c as int).contains(
                    k as usize,
                )),
        decreases chosen.len() - c,
    {
        let ghost before = marks@;
        let ghost prior = chosen@.take(c as int);
        let ghost next = chosen@.take(c + 1);
        if chosen[c] < count {
            marks.set(chosen[c], true);
        }
        proof {
            assert forall|k: int| 0 <= k < count implies (#[trigger] marks@[k]
                <==> next.contains(k as usize)) by {
                assert(before[k] <==> prior.contains(k as usize));
                if prior.contains(k as usize) {
                    let j = prior.index_of(k as usize);
                    assert(next[j] == k as usize);
                }
                if k == chosen@[c as int] {
                    assert(next[c as int] == k as usize);
                }
                if next.contains(k as usize) {
                    let j = next.index_of(k as usize);
                    if j < c {
                        assert(prior[j] == k as usize);
                    }
                }
            }
        }
        c = c + 1;
    }
    assert(chosen@.take(c as int) =~= chosen@);
    assert(marks@ =~= chosen_marks(count as nat, chosen@));
    marks
}

/// The paths of a change.
pub open spec fn paths_of(change: FileChange) -> Seq<Seq<u8>> {
    match change.old_path {
        Some(old) => seq![change.path@, old@],
        None => seq![change.path@],
    }
}

fn paths(change: &FileChange) -> (paths: Vec<Vec<u8>>)
    ensures
        paths.deep_view() == paths_of(*change),
{
    let mut paths: Vec<Vec<u8>> = Vec::new();
    paths.push(copy(change.path.as_slice()));
    if let Some(old) = &change.old_path {
        paths.push(copy(old.as_slice()));
    }
    assert(paths.deep_view() =~= paths_of(*change));
    paths
}

// ---------------------------------------------------------------------------
// Index entries.

/// Asks for the index entry of a path.
pub open spec fn entry_call(path: Seq<u8>) -> CallView {
    git_call(seq![word("ls-files"), word("-s"), word("-z"), word("--"), path], None)
}

/// The entry that a record of `git ls-files -s -z` is, if it is the stage-0 entry of a path:
/// `<mode> <object> <stage>\t<path>`.
pub open spec fn entry_in(record: Seq<u8>, path: Seq<u8>) -> Option<IndexEntryView> {
    let tab = crate::bytes::find_byte(record, 9, 0);
    let fields = crate::bytes::pieces(record.take(tab), 32);
    if tab < record.len() && fields.len() >= 3 && record.skip(tab + 1) == path && fields[2]
        == seq![48u8] {
        Some(
            IndexEntryView {
                mode: crate::text::str_lossy(fields[0]),
                oid: crate::text::str_lossy(fields[1]),
            },
        )
    } else {
        None
    }
}

/// The first of the records from `k` on that is the entry of a path.
pub open spec fn first_entry(records: Seq<Seq<u8>>, path: Seq<u8>, k: int) -> Option<
    IndexEntryView,
>
    decreases records.len() - k,
{
    if k >= records.len() {
        None
    } else if entry_in(records[k], path) is Some {
        entry_in(records[k], path)
    } else {
        first_entry(records, path, k + 1)
    }
}

fn parse_entry(record: &[u8], path: &[u8]) -> (entry: Option<IndexEntry>)
    ensures
        entry.deep_view() == entry_in(record@, path@),
{
    let tab = position(record, 9);
    let count: usize = record.len();
    if tab >= count {
        return None;
    }
    let meta = vstd::slice::slice_subrange(record, 0, tab);
    let rest = vstd::slice::slice_subrange(record, tab + 1, count);
    proof {
        assert(record@.subrange(0, tab as int) =~= record@.take(tab as int));
        assert(record@.subrange(tab + 1, count as int) =~= record@.skip(tab + 1));
    }
    let fields = split(meta, 32);
    let ghost shown = crate::bytes::pieces(record@.take(tab as int), 32);
    if fields.len() < 3 {
        assert(shown.len() < 3);
        return None;
    }
    proof {
        assert(shown[0] == fields@[0].deep_view());
        assert(shown[1] == fields@[1].deep_view());
        assert(shown[2] == fields@[2].deep_view());
    }
    let staged = fields[2].len() == 1 && fields[2][0] == 48;
    proof {
        if staged {
            assert(fields@[2]@ =~= seq![48u8]);
        }
    }
    if staged && same(rest, path) {
        Some(
            IndexEntry {
                mode: to_str_lossy(fields[0].as_slice()),
                oid: to_str_lossy(fields[1].as_slice()),
            },
        )
    } else {
        None
    }
}

/// The index entry of a path.
pub open spec fn entry_step(replies: Seq<ReplyView>, at: int, path: Seq<u8>) -> StepView<
    Option<IndexEntryView>,
> {
    match calls::git_out(replies, at, entry_call(path)) {
        StepView::Call(call) => StepView::Call(call),
        StepView::Failed(error) => StepView::Failed(error),
        StepView::Done(out, next) => StepView::Done(
            first_entry(crate::bytes::pieces(out, 0), path, 0),
            next,
        ),
    }
}

/// The stage-0 index entry for `path`.
fn index_entry(replies: &[Reply], at: usize, path: &[u8]) -> (step: Step<Option<IndexEntry>>)
    ensures
        step.deep_view() == entry_step(calls::told(replies@), at as int, path@),
{
    let args = vec![
        bytes_of("ls-files"),
        bytes_of("-s"),
        bytes_of("-z"),
        bytes_of("--"),
        copy(path),
    ];
    let call = Call::Git { args, stdin: None, internal: false };
    assert(args.deep_view() =~= seq![word("ls-files"), word("-s"), word("-z"), word("--"), path@]);
    let (out, next) = match run_git(replies, at, call) {
        Step::Call(call) => {
            return Step::Call(call);
        },
        Step::Failed(error) => {
            return Step::Failed(error);
        },
        Step::Done(out, next) => (out, next),
    };
    let records = split(out.as_slice(), 0);
    let ghost all = crate::bytes::pieces(out@, 0);
    let mut k: usize = 0;
    while k < records.len()
        invariant
            k <= records@.len(),
            all == records.deep_view(),
            entry_step(calls::told(replies@), at as int, path@) == StepView::Done(
                first_entry(all, path@, 0),
                next as int,
            ),
            first_entry(all, path@, 0) == first_entry(all, path@, k as int),
        decreases records.len() - k,
    {
        assert(all[k as int] == records@[k as int].deep_view());
        let entry = parse_entry(records[k].as_slice(), path);
        if entry.is_some() {
            return Step::Done(entry, next);
        }
        k = k + 1;
    }
    Step::Done(None, next)
}

/// The index entries of paths from `k` on, after those found so far.
pub open spec fn snapshot_from(
    replies: Seq<ReplyView>,
    at: int,
    paths: Seq<Seq<u8>>,
    found: Seq<Option<IndexEntryView>>,
) -> StepView<Seq<Option<IndexEntryView>>>
    decreases paths.len() - found.len(),
{
    if found.len() >= paths.len() {
        StepView::Done(found, at)
    } else {
        match entry_step(replies, at, paths[found.len() as int]) {
            StepView::Call(call) => StepView::Call(call),
            StepView::Failed(error) => StepView::Failed(error),
            StepView::Done(entry, next) => snapshot_from(replies, next, paths, found.push(entry)),
        }
    }
}

/// The index entries of paths.
pub open spec fn snapshot_step(replies: Seq<ReplyView>, at: int, paths: Seq<Seq<u8>>) -> StepView<
    Seq<Option<IndexEntryView>>,
> {
    snapshot_from(replies, at, paths, Seq::empty())
}

fn snapshot_index(replies: &[Reply], at: usize, paths: &[Vec<u8>]) -> (step: Step<
    Vec<Option<IndexEntry>>,
>)
    ensures
        step.deep_view() == snapshot_step(
            calls::told(replies@),
            at as int,
            paths@.map_values(|p: Vec<u8>| p@),
        ),
        step matches Step::Done(all, _) ==> all@.len() == paths@.len(),
{
    let ghost all = paths@.map_values(|p: Vec<u8>| p@);
    let ghost told = calls::told(replies@);
    let mut found: Vec<Option<IndexEntry>> = Vec::new();
    let mut next: usize = at;
    assert(found.deep_view() =~= Seq::<Option<IndexEntryView>>::empty());
    while found.len() < paths.len()
        invariant
            all == paths@.map_values(|p: Vec<u8>| p@),
            told == calls::told(replies@),
            found@.len() <= paths@.len(),
            snapshot_step(told, at as int, all) == snapshot_from(
                told,
                next as int,
                all,
                found.deep_view(),
            ),
        decreases paths.len() - found.len(),
    {
        let k: usize = found.len();
        match index_entry(replies, next, paths[k].as_slice()) {
            Step::Call(call) => {
                return Step::Call(call);
            },
            Step::Failed(error) => {
                return Step::Failed(error);
            },
            Step::Done(entry, after) => {
                let ghost before = found.deep_view();
                let ghost shown = entry.deep_view();
                found.push(entry);
                assert(found.deep_view() =~= before.push(shown));
                next = after;
            },
        }
    }
    Step::Done(found, next)
}

/// The states of index entries from those before and after an action.
pub open spec fn zipped(
    paths: Seq<Seq<u8>>,
    before: Seq<Option<IndexEntryView>>,
    after: Seq<Option<IndexEntryView>>,
) -> Seq<IndexStateView> {
    Seq::new(
        paths.len(),
        |i: int| IndexStateView { path: paths[i], before: before[i], after: after[i] },
    )
}

fn zip_index(
    paths: Vec<Vec<u8>>,
    before: Vec<Option<IndexEntry>>,
    after: Vec<Option<IndexEntry>>,
) -> (states: Vec<IndexState>)
    requires
        before@.len() == paths@.len(),
        after@.len() == paths@.len(),
    ensures
        states.deep_view() == zipped(paths.deep_view(), before.deep_view(), after.deep_view()),
{
    let ghost (ps, bs, zs) = (paths.deep_view(), before.deep_view(), after.deep_view());
    let mut paths = paths;
    let mut before = before;
    let mut after = after;
    let mut reversed: Vec<IndexState> = Vec::new();
    let ghost count = paths@.len();
    let ghost (p0, b0, a0) = (paths@, before@, after@);
    while paths.len() > 0
        invariant
            paths@.len() <= count,
            count == p0.len() == b0.len() == a0.len(),
            paths@ == p0.take(paths@.len() as int),
            before@ == b0.take(paths@.len() as int),
            after@ == a0.take(paths@.len() as int),
            reversed@.len() == count - paths@.len(),
            forall|k: int|
                0 <= k < reversed@.len() ==> (#[trigger] reversed@[k]) == (IndexState {
                    path: p0[count - 1 - k],
                    before: b0[count - 1 - k],
                    after: a0[count - 1 - k],
                }),
        decreases paths.len(),
    {
        if let (Some(path), Some(b), Some(a)) = (paths.pop(), before.pop(), after.pop()) {
            reversed.push(IndexState { path, before: b, after: a });
        }
        proof {
            let n = paths@.len() as int;
            assert(paths@ =~= p0.take(n));
            assert(before@ =~= b0.take(n));
            assert(after@ =~= a0.take(n));
        }
    }
    let mut states: Vec<IndexState> = Vec::new();
    let ghost r0 = reversed@;
    while reversed.len() > 0
        invariant
            reversed@.len() <= r0.len(),
            reversed@ == r0.take(reversed@.len() as int),
            states@.len() == r0.len() - reversed@.len(),
            forall|k: int|
                0 <= k < states@.len() ==> (#[trigger] states@[k]) == r0[r0.len() - 1 - k],
        decreases reversed.len(),
    {
        if let Some(state) = reversed.pop() {
            states.push(state);
        }
        assert(reversed@ =~= r0.take(reversed@.len() as int));
    }
    assert(states.deep_view() =~= zipped(ps, bs, zs)) by {
        assert forall|i: int| 0 <= i < count implies #[trigger] states.deep_view()[i] == zipped(
            ps,
            bs,
            zs,
        )[i] by {
            assert(states@[i] == r0[count - 1 - i]);
        }
    }
    states
}

// ---------------------------------------------------------------------------
// Applying a selection of lines.

/// Hands the patch of chosen lines to git.
pub open spec fn patch_step(
    replies: Seq<ReplyView>,
    at: int,
    args: Seq<Seq<u8>>,
    path: Seq<u8>,
    diff: FileDiff,
    chosen: Seq<usize>,
    direction: Direction,
    header: Header,
) -> StepView<Seq<u8>> {
    match patch::patch_of(
        path,
        diff,
        chosen_marks(diff.lines@.len(), chosen),
        direction,
        header,
    ) {
        Err(error) => StepView::Failed(OpErrorView::Patch(error)),
        Ok(None) => StepView::Failed(unsupported("the selection has no changed lines")),
        Ok(Some(patch)) => calls::git_out(replies, at, git_call(args, Some(patch))),
    }
}

fn apply_lines(
    replies: &[Reply],
    at: usize,
    args: Vec<Vec<u8>>,
    path: &[u8],
    diff: &FileDiff,
    chosen: &[usize],
    direction: Direction,
    header: Header,
) -> (step: Step<Vec<u8>>)
    requires
        diff.wf(),
    ensures
        step.deep_view() == patch_step(
            calls::told(replies@),
            at as int,
            args.deep_view(),
            path@,
            *diff,
            chosen@,
            direction,
            header,
        ),
{
    let marks = mark_chosen(diff.lines.len(), chosen);
    match build_selected(path, diff, marks.as_slice(), direction, header) {
        Err(error) => Step::Failed(OpError::Patch(error)),
        Ok(None) => Step::Failed(OpError::Unsupported("the selection has no changed lines")),
        Ok(Some(patch)) => run_git(
            replies,
            at,
            Call::Git { args, stdin: Some(patch), internal: false },
        ),
    }
}

/// An action's name and the path it was applied to.
pub open spec fn described(action: &str, path: Seq<u8>) -> Seq<char> {
    action@ + crate::text::str_lossy(path)
}

fn describe(action: &str, path: &[u8]) -> (text: String)
    ensures
        text@ == described(action, path@),
{
    let mut text = copy_text(action);
    push_text(&mut text, to_str_lossy(path).as_str());
    text
}

/// Why what a turn changed cannot be acted on.
pub open spec fn read_only() -> OpErrorView {
    unsupported("a turn's changes are read-only; switch to the working tree (w) to act on them")
}

// ---------------------------------------------------------------------------
// Staging.

/// The part of staging that writes the index.
pub open spec fn stage_write(
    replies: Seq<ReplyView>,
    at: int,
    change: FileChange,
    diff: Option<FileDiff>,
    selection: SelectionView,
) -> StepView<Seq<u8>> {
    let args = seq![word("apply"), word("--cached"), word("--whitespace=nowarn"), word("-")];
    match effective_selection(selection, diff) {
        Err(error) => StepView::Failed(error),
        Ok(SelectionView::File) => calls::git_out(
            replies,
            at,
            git_call(seq![word("add"), word("-A"), word("--"), change.path@], None),
        ),
        Ok(SelectionView::Lines(chosen)) => if change.old is Absent {
            match calls::kind_read(replies, at, change.path@) {
                StepView::Call(call) => StepView::Call(call),
                StepView::Failed(error) => StepView::Failed(error),
                StepView::Done(Some(FileKind::Executable), next) => patch_step(
                    replies,
                    next,
                    args,
                    change.path@,
                    diff->Some_0,
                    chosen,
                    Direction::Forward,
                    Header::NewFile { mode: "100755" },
                ),
                StepView::Done(Some(FileKind::Regular), next) => patch_step(
                    replies,
                    next,
                    args,
                    change.path@,
                    diff->Some_0,
                    chosen,
                    Direction::Forward,
                    Header::NewFile { mode: "100644" },
                ),
                StepView::Done(_, next) => StepView::Failed(
                    unsupported("stage this file as a whole"),
                ),
            }
        } else {
            patch_step(
                replies,
                at,
                args,
                change.path@,
                diff->Some_0,
                chosen,
                Direction::Forward,
                Header::Modify,
            )
        },
    }
}

/// Staging: not what is staged already, nor a snapshot or a conflict. The index entries of
/// the change are read before and after the index is written.
pub open spec fn stage_step(
    change: FileChange,
    diff: Option<FileDiff>,
    selection: SelectionView,
    replies: Seq<ReplyView>,
) -> StepView<UndoView> {
    if change.section == Section::Staged {
        StepView::Failed(unsupported("already staged"))
    } else if change.section == Section::Snapshot {
        StepView::Failed(read_only())
    } else if change.status == ChangeStatus::Conflicted {
        StepView::Failed(unsupported("resolve the conflict first"))
    } else {
        match snapshot_step(replies, 0, paths_of(change)) {
            StepView::Call(call) => StepView::Call(call),
            StepView::Failed(error) => StepView::Failed(error),
            StepView::Done(before, at) => match stage_write(
                replies,
                at,
                change,
                diff,
                selection,
            ) {
                StepView::Call(call) => StepView::Call(call),
                StepView::Failed(error) => StepView::Failed(error),
                StepView::Done(_, at) => match snapshot_step(replies, at, paths_of(change)) {
                    StepView::Call(call) => StepView::Call(call),
                    StepView::Failed(error) => StepView::Failed(error),
                    StepView::Done(after, at) => StepView::Done(
                        UndoView {
                            description: described("stage ", change.path@),
                            index: zipped(paths_of(change), before, after),
                            worktree: Seq::empty(),
                        },
                        at,
                    ),
                },
            },
        }
    }
}

/// The diff itself, if there is one.
pub open spec fn shown_diff(diff: Option<&FileDiff>) -> Option<FileDiff> {
    match diff {
        Some(d) => Some(*d),
        None => None,
    }
}

/// A text, if there is one.
pub open spec fn shown_text(text: Option<&str>) -> Option<Seq<char>> {
    match text {
        Some(t) => Some(t@),
        None => None,
    }
}

fn write_stage(
    replies: &[Reply],
    at: usize,
    change: &FileChange,
    diff: Option<&FileDiff>,
    selection: Selection,
) -> (step: Step<Vec<u8>>)
    requires
        diff matches Some(d) ==> d.wf(),
    ensures
        step.deep_view() == stage_write(
            calls::told(replies@),
            at as int,
            *change,
            shown_diff(diff),
            selection.model(),
        ),
{
    let path = change.path.as_slice();
    match effective(selection, diff) {
        Err(error) => Step::Failed(error),
        Ok(Selection::File) => {
            let args = vec![bytes_of("add"), bytes_of("-A"), bytes_of("--"), copy(path)];
            assert(args.deep_view() =~= seq![word("add"), word("-A"), word("--"), path@]);
            run_git(replies, at, Call::Git { args, stdin: None, internal: false })
        },
        Ok(Selection::Lines(chosen)) => {
            let args = vec![
                bytes_of("apply"),
                bytes_of("--cached"),
                bytes_of("--whitespace=nowarn"),
                bytes_of("-"),
            ];
            assert(args.deep_view() =~= seq![
                word("apply"),
                word("--cached"),
                word("--whitespace=nowarn"),
                word("-"),
            ]);
            let d = match diff {
                Some(d) => d,
                None => {
                    return Step::Failed(OpError::Unsupported("stage this file as a whole"));
                },
            };
            let is_new = match &change.old {
                Source::Absent => true,
                _ => false,
            };
            if !is_new {
                return apply_lines(
                    replies,
                    at,
                    args,
                    path,
                    d,
                    chosen,
                    Direction::Forward,
                    Header::Modify,
                );
            }
            match read_kind(replies, at, path) {
                Step::Call(call) => Step::Call(call),
                Step::Failed(error) => Step::Failed(error),
                Step::Done(Some(FileKind::Executable), next) => apply_lines(
                    replies,
                    next,
                    args,
                    path,
                    d,
                    chosen,
                    Direction::Forward,
                    Header::NewFile { mode: "100755" },
                ),
                Step::Done(Some(FileKind::Regular), next) => apply_lines(
                    replies,
                    next,
                    args,
                    path,
                    d,
                    chosen,
                    Direction::Forward,
                    Header::NewFile { mode: "100644" },
                ),
                Step::Done(_, _) => Step::Failed(
                    OpError::Unsupported("stage this file as a whole"),
                ),
            }
        },
    }
}

/// Stages a change, or some of its lines.
pub fn stage(
    change: &FileChange,
    diff: Option<&FileDiff>,
    selection: Selection,
    replies: &[Reply],
) -> (step: Step<Undo>)
    requires
        diff matches Some(d) ==> d.wf(),
    ensures
        step.deep_view() == stage_step(
            *change,
            shown_diff(diff),
            selection.model(),
            calls::told(replies@),
        ),
{
    match change.section {
        Section::Staged => {
            return Step::Failed(OpError::Unsupported("already staged"));
        },
        Section::Snapshot => {
            return Step::Failed(
                OpError::Unsupported(
                    "a turn's changes are read-only; switch to the working tree (w) to act on them",
                ),
            );
        },
        _ => {},
    }
    if change.status == ChangeStatus::Conflicted {
        return Step::Failed(OpError::Unsupported("resolve the conflict first"));
    }
    let paths = paths(change);
    let ghost all = paths@.map_values(|p: Vec<u8>| p@);
    assert(all =~= paths_of(*change)) by {
        assert forall|i: int| 0 <= i < paths@.len() implies #[trigger] paths@[i]@
            == paths_of(*change)[i] by {
            assert(paths.deep_view()[i] == paths@[i].deep_view());
        }
        assert(paths.deep_view().len() == paths@.len());
    }
    let (before, at) = match snapshot_index(replies, 0, paths.as_slice()) {
        Step::Call(call) => {
            return Step::Call(call);
        },
        Step::Failed(error) => {
            return Step::Failed(error);
        },
        Step::Done(before, at) => (before, at),
    };
    let at = match write_stage(replies, at, change, diff, selection) {
        Step::Call(call) => {
            return Step::Call(call);
        },
        Step::Failed(error) => {
            return Step::Failed(error);
        },
        Step::Done(_, at) => at,
    };
    match snapshot_index(replies, at, paths.as_slice()) {
        Step::Call(call) => Step::Call(call),
        Step::Failed(error) => Step::Failed(error),
        Step::Done(after, at) => {
            let undo = Undo {
                description: describe("stage ", change.path.as_slice()),
                index: zip_index(paths, before, after),
                worktree: Vec::new(),
            };
            assert(undo.worktree.deep_view() =~= Seq::<WorktreeStateView>::empty());
            Step::Done(undo, at)
        },
    }
}

// ---------------------------------------------------------------------------
// Unstaging.

/// Asks whether there is a commit yet.
pub open spec fn head_call() -> CallView {
    git_call(seq![word("rev-parse"), word("-q"), word("--verify"), word("HEAD")], None)
}

fn ask_head() -> (call: Call)
    ensures
        call.deep_view() == head_call(),
{
    let args = vec![
        bytes_of("rev-parse"),
        bytes_of("-q"),
        bytes_of("--verify"),
        bytes_of("HEAD"),
    ];
    assert(args.deep_view() =~= seq![
        word("rev-parse"),
        word("-q"),
        word("--verify"),
        word("HEAD"),
    ]);
    Call::Git { args, stdin: None, internal: false }
}

/// The part of unstaging that writes the index.
pub open spec fn unstage_write(
    replies: Seq<ReplyView>,
    at: int,
    change: FileChange,
    diff: Option<FileDiff>,
    selection: SelectionView,
) -> StepView<Seq<u8>> {
    match effective_selection(selection, diff) {
        Err(error) => StepView::Failed(error),
        Ok(SelectionView::File) => match calls::git_try(replies, at, head_call()) {
            StepView::Call(call) => StepView::Call(call),
            StepView::Failed(error) => StepView::Failed(error),
            StepView::Done(head, next) => calls::git_out(
                replies,
                next,
                git_call(
                    (if head is Some {
                        seq![word("restore"), word("--staged"), word("--")]
                    } else {
                        seq![word("rm"), word("-q"), word("--cached"), word("--")]
                    }) + paths_of(change),
                    None,
                ),
            ),
        },
        Ok(SelectionView::Lines(chosen)) => patch_step(
            replies,
            at,
            seq![
                word("apply"),
                word("--cached"),
                word("-R"),
                word("--whitespace=nowarn"),
                word("-"),
            ],
            change.path@,
            diff->Some_0,
            chosen,
            Direction::Reverse,
            Header::Modify,
        ),
    }
}

/// Unstaging: only what is staged. The index entries of the change are read before and
/// after the index is written.
pub open spec fn unstage_step(
    change: FileChange,
    diff: Option<FileDiff>,
    selection: SelectionView,
    replies: Seq<ReplyView>,
) -> StepView<UndoView> {
    if change.section != Section::Staged {
        StepView::Failed(unsupported("not staged"))
    } else {
        match snapshot_step(replies, 0, paths_of(change)) {
            StepView::Call(call) => StepView::Call(call),
            StepView::Failed(error) => StepView::Failed(error),
            StepView::Done(before, at) => match unstage_write(
                replies,
                at,
                change,
                diff,
                selection,
            ) {
                StepView::Call(call) => StepView::Call(call),
                StepView::Failed(error) => StepView::Failed(error),
                StepView::Done(_, at) => match snapshot_step(replies, at, paths_of(change)) {
                    StepView::Call(call) => StepView::Call(call),
                    StepView::Failed(error) => StepView::Failed(error),
                    StepView::Done(after, at) => StepView::Done(
                        UndoView {
                            description: described("unstage ", change.path@),
                            index: zipped(paths_of(change), before, after),
                            worktree: Seq::empty(),
                        },
                        at,
                    ),
                },
            },
        }
    }
}

fn write_unstage(
    replies: &[Reply],
    at: usize,
    change: &FileChange,
    diff: Option<&FileDiff>,
    selection: Selection,
) -> (step: Step<Vec<u8>>)
    requires
        diff matches Some(d) ==> d.wf(),
    ensures
        step.deep_view() == unstage_write(
            calls::told(replies@),
            at as int,
            *change,
            shown_diff(diff),
            selection.model(),
        ),
{
    match effective(selection, diff) {
        Err(error) => Step::Failed(error),
        Ok(Selection::File) => {
            let (head, next) = match try_git(replies, at, ask_head()) {
                Step::Call(call) => {
                    return Step::Call(call);
                },
                Step::Failed(error) => {
                    return Step::Failed(error);
                },
                Step::Done(head, next) => (head, next),
            };
            let mut args = if head.is_some() {
                vec![bytes_of("restore"), bytes_of("--staged"), bytes_of("--")]
            } else {
                vec![bytes_of("rm"), bytes_of("-q"), bytes_of("--cached"), bytes_of("--")]
            };
            let ghost first = if head is Some {
                seq![word("restore"), word("--staged"), word("--")]
            } else {
                seq![word("rm"), word("-q"), word("--cached"), word("--")]
            };
            assert(args.deep_view() =~= first);
            let mut more = paths(change);
            let ghost rest = more.deep_view();
            args.append(&mut more);
            assert(args.deep_view() =~= first + rest);
            run_git(replies, next, Call::Git { args, stdin: None, internal: false })
        },
        Ok(Selection::Lines(chosen)) => {
            let args = vec![
                bytes_of("apply"),
                bytes_of("--cached"),
                bytes_of("-R"),
                bytes_of("--whitespace=nowarn"),
                bytes_of("-"),
            ];
            assert(args.deep_view() =~= seq![
                word("apply"),
                word("--cached"),
                word("-R"),
                word("--whitespace=nowarn"),
                word("-"),
            ]);
            match diff {
                Some(d) => apply_lines(
                    replies,
                    at,
                    args,
                    change.path.as_slice(),
                    d,
                    chosen,
                    Direction::Reverse,
                    Header::Modify,
                ),
                None => Step::Failed(OpError::Unsupported("not staged")),
            }
        },
    }
}

/// The paths of a change, as the index is asked for them.
proof fn lemma_paths(paths: Vec<Vec<u8>>, all: Seq<Seq<u8>>)
    requires
        paths.deep_view() == all,
    ensures
        paths@.map_values(|p: Vec<u8>| p@) == all,
{
    assert(paths.deep_view().len() == paths@.len());
    assert forall|i: int| 0 <= i < paths@.len() implies #[trigger] paths@[i]@ == all[i] by {
        assert(paths.deep_view()[i] == paths@[i].deep_view());
    }
    assert(paths@.map_values(|p: Vec<u8>| p@) =~= all);
}

/// Unstages a change, or some of its lines.
pub fn unstage(
    change: &FileChange,
    diff: Option<&FileDiff>,
    selection: Selection,
    replies: &[Reply],
) -> (step: Step<Undo>)
    requires
        diff matches Some(d) ==> d.wf(),
    ensures
        step.deep_view() == unstage_step(
            *change,
            shown_diff(diff),
            selection.model(),
            calls::told(replies@),
        ),
{
    if change.section != Section::Staged {
        return Step::Failed(OpError::Unsupported("not staged"));
    }
    let paths = paths(change);
    proof {
        lemma_paths(paths, paths_of(*change));
    }
    let (before, at) = match snapshot_index(replies, 0, paths.as_slice()) {
        Step::Call(call) => {
            return Step::Call(call);
        },
        Step::Failed(error) => {
            return Step::Failed(error);
        },
        Step::Done(before, at) => (before, at),
    };
    let at = match write_unstage(replies, at, change, diff, selection) {
        Step::Call(call) => {
            return Step::Call(call);
        },
        Step::Failed(error) => {
            return Step::Failed(error);
        },
        Step::Done(_, at) => at,
    };
    match snapshot_index(replies, at, paths.as_slice()) {
        Step::Call(call) => Step::Call(call),
        Step::Failed(error) => Step::Failed(error),
        Step::Done(after, at) => {
            let undo = Undo {
                description: describe("unstage ", change.path.as_slice()),
                index: zip_index(paths, before, after),
                worktree: Vec::new(),
            };
            assert(undo.worktree.deep_view() =~= Seq::<WorktreeStateView>::empty());
            Step::Done(undo, at)
        },
    }
}

// ---------------------------------------------------------------------------
// Hashes of worktree files.

/// Asks for the hash of raw bytes, and to keep them if `write`.
pub open spec fn hash_call(bytes: Seq<u8>, write: bool) -> CallView {
    git_call(
        if write {
            seq![word("hash-object"), word("--no-filters"), word("--stdin"), word("-w")]
        } else {
            seq![word("hash-object"), word("--no-filters"), word("--stdin")]
        },
        Some(bytes),
    )
}

/// The hash of raw bytes.
pub open spec fn hash_step(
    replies: Seq<ReplyView>,
    at: int,
    bytes: Seq<u8>,
    write: bool,
) -> StepView<Seq<char>> {
    match calls::git_out(replies, at, hash_call(bytes, write)) {
        StepView::Call(call) => StepView::Call(call),
        StepView::Failed(error) => StepView::Failed(error),
        StepView::Done(out, next) => StepView::Done(answer(out), next),
    }
}

fn hash_raw(replies: &[Reply], at: usize, bytes: &[u8], write: bool) -> (step: Step<String>)
    ensures
        step.deep_view() == hash_step(calls::told(replies@), at as int, bytes@, write),
{
    let args = if write {
        vec![
            bytes_of("hash-object"),
            bytes_of("--no-filters"),
            bytes_of("--stdin"),
            bytes_of("-w"),
        ]
    } else {
        vec![bytes_of("hash-object"), bytes_of("--no-filters"), bytes_of("--stdin")]
    };
    assert(args.deep_view() =~= if write {
        seq![word("hash-object"), word("--no-filters"), word("--stdin"), word("-w")]
    } else {
        seq![word("hash-object"), word("--no-filters"), word("--stdin")]
    });
    let call = Call::Git { args, stdin: Some(copy(bytes)), internal: false };
    match run_git(replies, at, call) {
        Step::Call(call) => Step::Call(call),
        Step::Failed(error) => Step::Failed(error),
        Step::Done(out, next) => Step::Done(answer_of(out.as_slice()), next),
    }
}

/// The hash of a file's raw bytes and its kind, if there is one.
pub open spec fn raw_hash_step(replies: Seq<ReplyView>, at: int, path: Seq<u8>) -> StepView<
    Option<SavedFileView>,
> {
    match calls::raw_read(replies, at, path) {
        StepView::Call(call) => StepView::Call(call),
        StepView::Failed(error) => StepView::Failed(error),
        StepView::Done(None, next) => StepView::Done(None, next),
        StepView::Done(Some((bytes, kind)), next) => match hash_step(replies, next, bytes, false) {
            StepView::Call(call) => StepView::Call(call),
            StepView::Failed(error) => StepView::Failed(error),
            StepView::Done(hash, next) => StepView::Done(
                Some(SavedFileView { oid: hash, kind }),
                next,
            ),
        },
    }
}

fn raw_hash(replies: &[Reply], at: usize, path: &[u8]) -> (step: Step<Option<SavedFile>>)
    ensures
        step.deep_view() == raw_hash_step(calls::told(replies@), at as int, path@),
{
    match read_raw(replies, at, path) {
        Step::Call(call) => Step::Call(call),
        Step::Failed(error) => Step::Failed(error),
        Step::Done(None, next) => Step::Done(None, next),
        Step::Done(Some((bytes, kind)), next) => match hash_raw(
            replies,
            next,
            bytes.as_slice(),
            false,
        ) {
            Step::Call(call) => Step::Call(call),
            Step::Failed(error) => Step::Failed(error),
            Step::Done(hash, next) => Step::Done(Some(SavedFile { oid: hash, kind }), next),
        },
    }
}

/// The hash of a file after git's clean filters, comparable with a diff side.
pub open spec fn clean_hash_step(replies: Seq<ReplyView>, at: int, path: Seq<u8>) -> StepView<
    Option<Seq<char>>,
> {
    match calls::raw_read(replies, at, path) {
        StepView::Call(call) => StepView::Call(call),
        StepView::Failed(error) => StepView::Failed(error),
        StepView::Done(None, next) => StepView::Done(None, next),
        StepView::Done(Some((bytes, FileKind::Symlink)), next) => match hash_step(
            replies,
            next,
            bytes,
            false,
        ) {
            StepView::Call(call) => StepView::Call(call),
            StepView::Failed(error) => StepView::Failed(error),
            StepView::Done(hash, next) => StepView::Done(Some(hash), next),
        },
        StepView::Done(Some((bytes, _)), next) => match calls::git_out(
            replies,
            next,
            git_call(
                seq![word("hash-object"), word("--path=") + path, word("--stdin")],
                Some(bytes),
            ),
        ) {
            StepView::Call(call) => StepView::Call(call),
            StepView::Failed(error) => StepView::Failed(error),
            StepView::Done(out, next) => StepView::Done(Some(answer(out)), next),
        },
    }
}

fn clean_hash(replies: &[Reply], at: usize, path: &[u8]) -> (step: Step<Option<String>>)
    ensures
        step.deep_view() == clean_hash_step(calls::told(replies@), at as int, path@),
{
    let (bytes, kind, next) = match read_raw(replies, at, path) {
        Step::Call(call) => {
            return Step::Call(call);
        },
        Step::Failed(error) => {
            return Step::Failed(error);
        },
        Step::Done(None, next) => {
            return Step::Done(None, next);
        },
        Step::Done(Some((bytes, kind)), next) => (bytes, kind, next),
    };
    if kind == FileKind::Symlink {
        return match hash_raw(replies, next, bytes.as_slice(), false) {
            Step::Call(call) => Step::Call(call),
            Step::Failed(error) => Step::Failed(error),
            Step::Done(hash, next) => Step::Done(Some(hash), next),
        };
    }
    let mut flag = bytes_of("--path=");
    append(&mut flag, path);
    let args = vec![bytes_of("hash-object"), flag, bytes_of("--stdin")];
    assert(args.deep_view() =~= seq![
        word("hash-object"),
        word("--path=") + path@,
        word("--stdin"),
    ]);
    match run_git(replies, next, Call::Git { args, stdin: Some(bytes), internal: false }) {
        Step::Call(call) => Step::Call(call),
        Step::Failed(error) => Step::Failed(error),
        Step::Done(out, next) => Step::Done(Some(answer_of(out.as_slice())), next),
    }
}

/// Keeps a file's raw bytes as a git object, if there is a file.
pub open spec fn save_step(replies: Seq<ReplyView>, at: int, path: Seq<u8>) -> StepView<
    Option<SavedFileView>,
> {
    match calls::raw_read(replies, at, path) {
        StepView::Call(call) => StepView::Call(call),
        StepView::Failed(error) => StepView::Failed(error),
        StepView::Done(None, next) => StepView::Done(None, next),
        StepView::Done(Some((bytes, kind)), next) => match hash_step(replies, next, bytes, true) {
            StepView::Call(call) => StepView::Call(call),
            StepView::Failed(error) => StepView::Failed(error),
            StepView::Done(oid, next) => StepView::Done(Some(SavedFileView { oid, kind }), next),
        },
    }
}

fn save_worktree(replies: &[Reply], at: usize, path: &[u8]) -> (step: Step<Option<SavedFile>>)
    ensures
        step.deep_view() == save_step(calls::told(replies@), at as int, path@),
{
    match read_raw(replies, at, path) {
        Step::Call(call) => Step::Call(call),
        Step::Failed(error) => Step::Failed(error),
        Step::Done(None, next) => Step::Done(None, next),
        Step::Done(Some((bytes, kind)), next) => match hash_raw(
            replies,
            next,
            bytes.as_slice(),
            true,
        ) {
            Step::Call(call) => Step::Call(call),
            Step::Failed(error) => Step::Failed(error),
            Step::Done(oid, next) => Step::Done(Some(SavedFile { oid, kind }), next),
        },
    }
}

// ---------------------------------------------------------------------------
// Undo history.

/// The tree entry of a kept blob: `100644 blob <object>\t<index>\n`.
pub open spec fn listed_blob(oid: Seq<char>, ix: nat) -> Seq<u8> {
    word("100644 blob ") + crate::bytes::text_bytes(oid) + seq![9u8] + crate::bytes::decimal(ix)
        + seq![10u8]
}

/// A commit on the undo chain that holds one blob.
pub open spec fn keep_call(tree: Seq<char>, message: Seq<char>, parent: Option<Seq<char>>) -> CallView {
    let args = seq![
        word("commit-tree"),
        crate::bytes::text_bytes(tree),
        word("-m"),
        crate::bytes::text_bytes(message),
    ];
    internal_call(
        match parent {
            Some(p) => args + seq![word("-p"), crate::bytes::text_bytes(p)],
            None => args,
        },
        None,
    )
}

/// Points a ref to a commit.
pub open spec fn ref_call(name: &str, commit: Seq<char>) -> CallView {
    internal_call(
        seq![word("update-ref"), word(name), crate::bytes::text_bytes(commit)],
        None,
    )
}

/// How long the undo chain is; what is no number counts as none.
pub open spec fn chain_length(out: Seq<u8>) -> nat {
    match crate::text::number_value(answer(out)) {
        Some(n) => if n <= usize::MAX {
            n
        } else {
            0
        },
        None => 0,
    }
}

/// What the next commit of the undo chain builds on. A chain that is full becomes the
/// previous generation (dropping the one before it), and a new chain starts.
pub open spec fn parent_step(replies: Seq<ReplyView>, at: int, limit: usize) -> StepView<
    Option<Seq<char>>,
> {
    match calls::git_try(
        replies,
        at,
        git_call(seq![word("rev-parse"), word("-q"), word("--verify"), word(UNDO_REF)], None),
    ) {
        StepView::Call(call) => StepView::Call(call),
        StepView::Failed(error) => StepView::Failed(error),
        StepView::Done(None, at) => StepView::Done(None, at),
        StepView::Done(Some(out), at) => {
            let current = answer(out);
            match calls::git_out(
                replies,
                at,
                git_call(
                    seq![word("rev-list"), word("--count"), crate::bytes::text_bytes(current)],
                    None,
                ),
            ) {
                StepView::Call(call) => StepView::Call(call),
                StepView::Failed(error) => StepView::Failed(error),
                StepView::Done(out, at) => if chain_length(out) >= limit {
                    match calls::git_out(replies, at, ref_call(UNDO_PREVIOUS_REF, current)) {
                        StepView::Call(call) => StepView::Call(call),
                        StepView::Failed(error) => StepView::Failed(error),
                        StepView::Done(_, at) => StepView::Done(None, at),
                    }
                } else {
                    StepView::Done(Some(current), at)
                },
            }
        },
    }
}

/// Records a blob in a commit on [`UNDO_REF`] so `git gc` keeps it.
pub open spec fn keep_step(
    replies: Seq<ReplyView>,
    at: int,
    oid: Seq<char>,
    message: Seq<char>,
    limit: usize,
) -> StepView<Seq<u8>> {
    match calls::git_out(
        replies,
        at,
        internal_call(seq![word("mktree")], Some(listed_blob(oid, 0))),
    ) {
        StepView::Call(call) => StepView::Call(call),
        StepView::Failed(error) => StepView::Failed(error),
        StepView::Done(tree, at) => match parent_step(replies, at, limit) {
            StepView::Call(call) => StepView::Call(call),
            StepView::Failed(error) => StepView::Failed(error),
            StepView::Done(parent, at) => match calls::git_out(
                replies,
                at,
                keep_call(answer(tree), message, parent),
            ) {
                StepView::Call(call) => StepView::Call(call),
                StepView::Failed(error) => StepView::Failed(error),
                StepView::Done(commit, at) => calls::git_out(
                    replies,
                    at,
                    ref_call(UNDO_REF, answer(commit)),
                ),
            },
        },
    }
}

fn point_ref(name: &str, commit: &str) -> (call: Call)
    ensures
        call.deep_view() == ref_call(name, commit@),
{
    let args = vec![bytes_of("update-ref"), bytes_of(name), bytes_of(commit)];
    assert(args.deep_view() =~= seq![
        word("update-ref"),
        word(name),
        crate::bytes::text_bytes(commit@),
    ]);
    Call::Git { args, stdin: None, internal: true }
}

fn find_parent(replies: &[Reply], at: usize, limit: usize) -> (step: Step<Option<String>>)
    ensures
        step.deep_view() == parent_step(calls::told(replies@), at as int, limit),
{
    let args = vec![
        bytes_of("rev-parse"),
        bytes_of("-q"),
        bytes_of("--verify"),
        bytes_of(UNDO_REF),
    ];
    assert(args.deep_view() =~= seq![
        word("rev-parse"),
        word("-q"),
        word("--verify"),
        word(UNDO_REF),
    ]);
    let (out, at) = match try_git(
        replies,
        at,
        Call::Git { args, stdin: None, internal: false },
    ) {
        Step::Call(call) => {
            return Step::Call(call);
        },
        Step::Failed(error) => {
            return Step::Failed(error);
        },
        Step::Done(None, at) => {
            return Step::Done(None, at);
        },
        Step::Done(Some(out), at) => (out, at),
    };
    let current = answer_of(out.as_slice());
    let args = vec![bytes_of("rev-list"), bytes_of("--count"), bytes_of(current.as_str())];
    assert(args.deep_view() =~= seq![
        word("rev-list"),
        word("--count"),
        crate::bytes::text_bytes(current@),
    ]);
    let (out, at) = match run_git(
        replies,
        at,
        Call::Git { args, stdin: None, internal: false },
    ) {
        Step::Call(call) => {
            return Step::Call(call);
        },
        Step::Failed(error) => {
            return Step::Failed(error);
        },
        Step::Done(out, at) => (out, at),
    };
    let length: u64 = match parse_number(answer_of(out.as_slice()).as_str(), usize::MAX as u64) {
        Some(n) => n,
        None => 0,
    };
    if length >= limit as u64 {
        match run_git(replies, at, point_ref(UNDO_PREVIOUS_REF, current.as_str())) {
            Step::Call(call) => Step::Call(call),
            Step::Failed(error) => Step::Failed(error),
            Step::Done(_, at) => Step::Done(None, at),
        }
    } else {
        Step::Done(Some(current), at)
    }
}

/// Records a blob in a commit on [`UNDO_REF`] so `git gc` keeps it. Keeps two generations of
/// at most `limit` entries, so history stays bounded without rewriting commits.
pub fn keep_reachable_within(
    replies: &[Reply],
    at: usize,
    oid: &str,
    message: &str,
    limit: usize,
) -> (step: Step<Vec<u8>>)
    ensures
        step.deep_view() == keep_step(calls::told(replies@), at as int, oid@, message@, limit),
{
    let mut listing = bytes_of("100644 blob ");
    append_str(&mut listing, oid);
    append_byte(&mut listing, 9);
    append_byte(&mut listing, 48);
    append_byte(&mut listing, 10);
    assert(crate::bytes::decimal(0) =~= seq![48u8]);
    let args = vec![bytes_of("mktree")];
    assert(args.deep_view() =~= seq![word("mktree")]);
    let (tree, at) = match run_git(
        replies,
        at,
        Call::Git { args, stdin: Some(listing), internal: true },
    ) {
        Step::Call(call) => {
            return Step::Call(call);
        },
        Step::Failed(error) => {
            return Step::Failed(error);
        },
        Step::Done(out, at) => (answer_of(out.as_slice()), at),
    };
    let (parent, at) = match find_parent(replies, at, limit) {
        Step::Call(call) => {
            return Step::Call(call);
        },
        Step::Failed(error) => {
            return Step::Failed(error);
        },
        Step::Done(parent, at) => (parent, at),
    };
    let mut args = vec![
        bytes_of("commit-tree"),
        bytes_of(tree.as_str()),
        bytes_of("-m"),
        bytes_of(message),
    ];
    if let Some(p) = &parent {
        args.push(bytes_of("-p"));
        args.push(bytes_of(p.as_str()));
    }
    proof {
        let first = seq![
            word("commit-tree"),
            crate::bytes::text_bytes(tree@),
            word("-m"),
            crate::bytes::text_bytes(message@),
        ];
        assert(args.deep_view() =~= match parent {
            Some(p) => first + seq![word("-p"), crate::bytes::text_bytes(p@)],
            None => first,
        });
    }
    let (commit, at) = match run_git(
        replies,
        at,
        Call::Git { args, stdin: None, internal: true },
    ) {
        Step::Call(call) => {
            return Step::Call(call);
        },
        Step::Failed(error) => {
            return Step::Failed(error);
        },
        Step::Done(out, at) => (answer_of(out.as_slice()), at),
    };
    run_git(replies, at, point_ref(UNDO_REF, commit.as_str()))
}

// ---------------------------------------------------------------------------
// Discarding.

/// Whether it is known what the user reviewed: there is a diff, there is no new side, or the
/// hash of the new side was kept when it was read.
pub open spec fn is_known(
    change: FileChange,
    diff: Option<FileDiff>,
    read: Option<Seq<char>>,
) -> bool {
    diff is Some || change.new is Absent || read is Some
}

/// The hash of what the user reviewed: the new side of the diff, or of what was read, if there
/// is a new side.
pub open spec fn reviewed_hash_step(
    replies: Seq<ReplyView>,
    at: int,
    change: FileChange,
    diff: Option<FileDiff>,
    read: Option<Seq<char>>,
) -> StepView<Option<Seq<char>>> {
    if change.new is Absent {
        StepView::Done(None, at)
    } else {
        match diff {
            Some(d) => match hash_step(replies, at, d.new@, false) {
                StepView::Call(call) => StepView::Call(call),
                StepView::Failed(error) => StepView::Failed(error),
                StepView::Done(hash, next) => StepView::Done(Some(hash), next),
            },
            None => StepView::Done(read, at),
        }
    }
}

/// Compare-and-swap: the file must still be what the user reviewed, where that is known.
pub open spec fn unchanged_step(
    replies: Seq<ReplyView>,
    change: FileChange,
    diff: Option<FileDiff>,
    read: Option<Seq<char>>,
) -> StepView<()> {
    if !is_known(change, diff, read) {
        StepView::Done((), 0)
    } else {
        match clean_hash_step(replies, 0, change.path@) {
            StepView::Call(call) => StepView::Call(call),
            StepView::Failed(error) => StepView::Failed(error),
            StepView::Done(current, at) => match reviewed_hash_step(
                replies,
                at,
                change,
                diff,
                read,
            ) {
                StepView::Call(call) => StepView::Call(call),
                StepView::Failed(error) => StepView::Failed(error),
                StepView::Done(reviewed, at) => if current == reviewed {
                    StepView::Done((), at)
                } else {
                    StepView::Failed(
                        OpErrorView::Stale(
                            crate::text::str_lossy(change.path@)
                                + " changed on disk since it was loaded; review the new version first"@,
                        ),
                    )
                },
            },
        }
    }
}

/// Saves what the file holds, and makes sure that git keeps it.
pub open spec fn saved_step(replies: Seq<ReplyView>, at: int, change: FileChange) -> StepView<
    Option<SavedFileView>,
> {
    match save_step(replies, at, change.path@) {
        StepView::Call(call) => StepView::Call(call),
        StepView::Failed(error) => StepView::Failed(error),
        StepView::Done(None, at) => StepView::Done(None, at),
        StepView::Done(Some(saved), at) => match keep_step(
            replies,
            at,
            saved.oid,
            described("goro: discard ", change.path@),
            UNDO_HISTORY,
        ) {
            StepView::Call(call) => StepView::Call(call),
            StepView::Failed(error) => StepView::Failed(error),
            StepView::Done(_, at) => StepView::Done(Some(saved), at),
        },
    }
}

/// The part of discarding that changes the worktree.
pub open spec fn discard_write(
    replies: Seq<ReplyView>,
    at: int,
    change: FileChange,
    diff: Option<FileDiff>,
    selection: SelectionView,
) -> StepView<()> {
    match effective_selection(selection, diff) {
        Err(error) => StepView::Failed(error),
        Ok(SelectionView::File) => if change.section == Section::Untracked {
            match calls::directory_read(replies, at, change.path@) {
                StepView::Call(call) => StepView::Call(call),
                StepView::Failed(error) => StepView::Failed(error),
                StepView::Done(true, at) => StepView::Failed(
                    unsupported("can't discard a directory"),
                ),
                StepView::Done(false, at) => calls::work_done(
                    replies,
                    at,
                    CallView::Remove { path: change.path@ },
                ),
            }
        } else {
            match calls::git_out(
                replies,
                at,
                git_call(seq![word("restore"), word("--worktree"), word("--"), change.path@], None),
            ) {
                StepView::Call(call) => StepView::Call(call),
                StepView::Failed(error) => StepView::Failed(error),
                StepView::Done(_, at) => StepView::Done((), at),
            }
        },
        Ok(SelectionView::Lines(chosen)) => match patch_step(
            replies,
            at,
            seq![word("apply"), word("-R"), word("--whitespace=nowarn"), word("-")],
            change.path@,
            diff->Some_0,
            chosen,
            Direction::Reverse,
            Header::Modify,
        ) {
            StepView::Call(call) => StepView::Call(call),
            StepView::Failed(error) => StepView::Failed(error),
            StepView::Done(_, at) => StepView::Done((), at),
        },
    }
}

/// Discarding: not what is staged, nor a snapshot or a conflict. First the file is compared
/// with what was reviewed, then it is saved, then changed, then hashed.
pub open spec fn discard_step(
    change: FileChange,
    diff: Option<FileDiff>,
    read: Option<Seq<char>>,
    selection: SelectionView,
    replies: Seq<ReplyView>,
) -> StepView<UndoView> {
    if change.section == Section::Staged {
        StepView::Failed(unsupported("unstage these changes before discarding them"))
    } else if change.section == Section::Snapshot {
        StepView::Failed(read_only())
    } else if change.status == ChangeStatus::Conflicted {
        StepView::Failed(unsupported("resolve the conflict first"))
    } else {
        match unchanged_step(replies, change, diff, read) {
            StepView::Call(call) => StepView::Call(call),
            StepView::Failed(error) => StepView::Failed(error),
            StepView::Done(_, at) => match saved_step(replies, at, change) {
                StepView::Call(call) => StepView::Call(call),
                StepView::Failed(error) => StepView::Failed(error),
                StepView::Done(before, at) => match discard_write(
                    replies,
                    at,
                    change,
                    diff,
                    selection,
                ) {
                    StepView::Call(call) => StepView::Call(call),
                    StepView::Failed(error) => StepView::Failed(error),
                    StepView::Done(_, at) => match raw_hash_step(replies, at, change.path@) {
                        StepView::Call(call) => StepView::Call(call),
                        StepView::Failed(error) => StepView::Failed(error),
                        StepView::Done(after, at) => StepView::Done(
                            UndoView {
                                description: described("discard ", change.path@),
                                index: Seq::empty(),
                                worktree: seq![
                                    WorktreeStateView { path: change.path@, before, after },
                                ],
                            },
                            at,
                        ),
                    },
                },
            },
        }
    }
}

fn same_hash(a: &Option<String>, b: &Option<String>) -> (result: bool)
    ensures
        result == (a.deep_view() == b.deep_view()),
{
    match (a, b) {
        (None, None) => true,
        (Some(x), Some(y)) => same_text(x.as_str(), y.as_str()),
        _ => false,
    }
}

fn check_unchanged(
    replies: &[Reply],
    change: &FileChange,
    diff: Option<&FileDiff>,
    read: Option<&str>,
) -> (step: Step<()>)
    ensures
        step.deep_view() == unchanged_step(
            calls::told(replies@),
            *change,
            shown_diff(diff),
            shown_text(read),
        ),
{
    let gone = match &change.new {
        Source::Absent => true,
        _ => false,
    };
    if diff.is_none() && !gone && read.is_none() {
        return Step::Done((), 0);
    }
    let path = change.path.as_slice();
    let (current, at) = match clean_hash(replies, 0, path) {
        Step::Call(call) => {
            return Step::Call(call);
        },
        Step::Failed(error) => {
            return Step::Failed(error);
        },
        Step::Done(current, at) => (current, at),
    };
    let (reviewed, at) = if gone {
        (None, at)
    } else {
        match (diff, read) {
            (Some(d), _) => match hash_raw(replies, at, d.new.bytes(), false) {
                Step::Call(call) => {
                    return Step::Call(call);
                },
                Step::Failed(error) => {
                    return Step::Failed(error);
                },
                Step::Done(hash, at) => (Some(hash), at),
            },
            (None, Some(hash)) => (Some(copy_text(hash)), at),
            (None, None) => (None, at),
        }
    };
    if same_hash(&current, &reviewed) {
        Step::Done((), at)
    } else {
        let mut reason = to_str_lossy(path);
        push_text(
            &mut reason,
            " changed on disk since it was loaded; review the new version first",
        );
        Step::Failed(OpError::Stale(reason))
    }
}

fn save_for_undo(replies: &[Reply], at: usize, change: &FileChange) -> (step: Step<
    Option<SavedFile>,
>)
    ensures
        step.deep_view() == saved_step(calls::told(replies@), at as int, *change),
{
    let path = change.path.as_slice();
    match save_worktree(replies, at, path) {
        Step::Call(call) => Step::Call(call),
        Step::Failed(error) => Step::Failed(error),
        Step::Done(None, at) => Step::Done(None, at),
        Step::Done(Some(saved), at) => {
            let message = describe("goro: discard ", path);
            match keep_reachable_within(
                replies,
                at,
                saved.oid.as_str(),
                message.as_str(),
                UNDO_HISTORY,
            ) {
                Step::Call(call) => Step::Call(call),
                Step::Failed(error) => Step::Failed(error),
                Step::Done(_, at) => Step::Done(Some(saved), at),
            }
        },
    }
}

fn write_discard(
    replies: &[Reply],
    at: usize,
    change: &FileChange,
    diff: Option<&FileDiff>,
    selection: Selection,
) -> (step: Step<()>)
    requires
        diff matches Some(d) ==> d.wf(),
    ensures
        step.deep_view() == discard_write(
            calls::told(replies@),
            at as int,
            *change,
            shown_diff(diff),
            selection.model(),
        ),
{
    let path = change.path.as_slice();
    match effective(selection, diff) {
        Err(error) => Step::Failed(error),
        Ok(Selection::File) => {
            if change.section == Section::Untracked {
                return match read_directory(replies, at, path) {
                    Step::Call(call) => Step::Call(call),
                    Step::Failed(error) => Step::Failed(error),
                    Step::Done(true, _) => Step::Failed(
                        OpError::Unsupported("can't discard a directory"),
                    ),
                    Step::Done(false, at) => do_work(
                        replies,
                        at,
                        Call::Remove { path: copy(path) },
                    ),
                };
            }
            let args = vec![
                bytes_of("restore"),
                bytes_of("--worktree"),
                bytes_of("--"),
                copy(path),
            ];
            assert(args.deep_view() =~= seq![
                word("restore"),
                word("--worktree"),
                word("--"),
                path@,
            ]);
            match run_git(replies, at, Call::Git { args, stdin: None, internal: false }) {
                Step::Call(call) => Step::Call(call),
                Step::Failed(error) => Step::Failed(error),
                Step::Done(_, at) => Step::Done((), at),
            }
        },
        Ok(Selection::Lines(chosen)) => {
            let args = vec![
                bytes_of("apply"),
                bytes_of("-R"),
                bytes_of("--whitespace=nowarn"),
                bytes_of("-"),
            ];
            assert(args.deep_view() =~= seq![
                word("apply"),
                word("-R"),
                word("--whitespace=nowarn"),
                word("-"),
            ]);
            let d = match diff {
                Some(d) => d,
                None => {
                    return Step::Failed(OpError::Unsupported("resolve the conflict first"));
                },
            };
            match apply_lines(
                replies,
                at,
                args,
                path,
                d,
                chosen,
                Direction::Reverse,
                Header::Modify,
            ) {
                Step::Call(call) => Step::Call(call),
                Step::Failed(error) => Step::Failed(error),
                Step::Done(_, at) => Step::Done((), at),
            }
        },
    }
}

/// Discards a change, or some of its lines. Where there is no diff (a binary file or an image),
/// `read` is the blob id of the new side as it was read, after git's clean filters.
pub fn discard(
    change: &FileChange,
    diff: Option<&FileDiff>,
    read: Option<&str>,
    selection: Selection,
    replies: &[Reply],
) -> (step: Step<Undo>)
    requires
        diff matches Some(d) ==> d.wf(),
    ensures
        step.deep_view() == discard_step(
            *change,
            shown_diff(diff),
            shown_text(read),
            selection.model(),
            calls::told(replies@),
        ),
{
    match change.section {
        Section::Staged => {
            return Step::Failed(
                OpError::Unsupported("unstage these changes before discarding them"),
            );
        },
        Section::Snapshot => {
            return Step::Failed(
                OpError::Unsupported(
                    "a turn's changes are read-only; switch to the working tree (w) to act on them",
                ),
            );
        },
        _ => {},
    }
    if change.status == ChangeStatus::Conflicted {
        return Step::Failed(OpError::Unsupported("resolve the conflict first"));
    }
    let at = match check_unchanged(replies, change, diff, read) {
        Step::Call(call) => {
            return Step::Call(call);
        },
        Step::Failed(error) => {
            return Step::Failed(error);
        },
        Step::Done(_, at) => at,
    };
    let (before, at) = match save_for_undo(replies, at, change) {
        Step::Call(call) => {
            return Step::Call(call);
        },
        Step::Failed(error) => {
            return Step::Failed(error);
        },
        Step::Done(before, at) => (before, at),
    };
    let at = match write_discard(replies, at, change, diff, selection) {
        Step::Call(call) => {
            return Step::Call(call);
        },
        Step::Failed(error) => {
            return Step::Failed(error);
        },
        Step::Done(_, at) => at,
    };
    match raw_hash(replies, at, change.path.as_slice()) {
        Step::Call(call) => Step::Call(call),
        Step::Failed(error) => Step::Failed(error),
        Step::Done(after, at) => {
            let ghost state = WorktreeStateView {
                path: change.path@,
                before: before.deep_view(),
                after: after.deep_view(),
            };
            let worktree = vec![
                WorktreeState { path: copy(change.path.as_slice()), before, after },
            ];
            let undo = Undo {
                description: describe("discard ", change.path.as_slice()),
                index: Vec::new(),
                worktree,
            };
            assert(undo.index.deep_view() =~= Seq::<IndexStateView>::empty());
            assert(undo.worktree.deep_view() =~= seq![state]);
            Step::Done(undo, at)
        },
    }
}

// ---------------------------------------------------------------------------
// Undoing.

/// Whether the index entries from `k` on are as the action left them.
pub open spec fn index_unchanged(
    replies: Seq<ReplyView>,
    at: int,
    states: Seq<IndexStateView>,
    k: int,
) -> StepView<()>
    decreases states.len() - k,
{
    if k >= states.len() {
        StepView::Done((), at)
    } else {
        match entry_step(replies, at, states[k].path) {
            StepView::Call(call) => StepView::Call(call),
            StepView::Failed(error) => StepView::Failed(error),
            StepView::Done(entry, at) => if entry == states[k].after {
                index_unchanged(replies, at, states, k + 1)
            } else {
                StepView::Failed(
                    OpErrorView::Stale(
                        "the index entry for "@ + crate::text::str_lossy(states[k].path)
                            + " changed since; undo would overwrite it"@,
                    ),
                )
            },
        }
    }
}

/// Whether the worktree files from `k` on are as the action left them.
pub open spec fn worktree_unchanged(
    replies: Seq<ReplyView>,
    at: int,
    states: Seq<WorktreeStateView>,
    k: int,
) -> StepView<()>
    decreases states.len() - k,
{
    if k >= states.len() {
        StepView::Done((), at)
    } else {
        match raw_hash_step(replies, at, states[k].path) {
            StepView::Call(call) => StepView::Call(call),
            StepView::Failed(error) => StepView::Failed(error),
            StepView::Done(now, at) => if now == states[k].after {
                worktree_unchanged(replies, at, states, k + 1)
            } else {
                StepView::Failed(
                    OpErrorView::Stale(
                        crate::text::str_lossy(states[k].path)
                            + " changed since; undo would overwrite it"@,
                    ),
                )
            },
        }
    }
}

/// Puts an index entry back, or takes it out.
pub open spec fn entry_write(state: IndexStateView) -> CallView {
    git_call(
        match state.before {
            Some(entry) => seq![
                word("update-index"),
                word("--add"),
                word("--cacheinfo"),
                crate::bytes::text_bytes(entry.mode) + word(",") + crate::bytes::text_bytes(
                    entry.oid,
                ) + word(",") + state.path,
            ],
            None => seq![word("update-index"), word("--force-remove"), word("--"), state.path],
        },
        None,
    )
}

/// Puts the index entries from `k` on back.
pub open spec fn index_restored(
    replies: Seq<ReplyView>,
    at: int,
    states: Seq<IndexStateView>,
    k: int,
) -> StepView<()>
    decreases states.len() - k,
{
    if k >= states.len() {
        StepView::Done((), at)
    } else {
        match calls::git_out(replies, at, entry_write(states[k])) {
            StepView::Call(call) => StepView::Call(call),
            StepView::Failed(error) => StepView::Failed(error),
            StepView::Done(_, at) => index_restored(replies, at, states, k + 1),
        }
    }
}

/// Asks for the bytes of an object.
pub open spec fn blob_call(oid: Seq<char>) -> CallView {
    git_call(seq![word("cat-file"), word("blob"), crate::bytes::text_bytes(oid)], None)
}

/// Takes away what is at a path, if anything.
pub open spec fn cleared_step(replies: Seq<ReplyView>, at: int, path: Seq<u8>) -> StepView<()> {
    match calls::kind_read(replies, at, path) {
        StepView::Call(call) => StepView::Call(call),
        StepView::Failed(error) => StepView::Failed(error),
        StepView::Done(None, at) => StepView::Done((), at),
        StepView::Done(Some(_), at) => calls::work_done(replies, at, CallView::Remove { path }),
    }
}

/// Puts back what a file held, or that there was none.
pub open spec fn restored_step(
    replies: Seq<ReplyView>,
    at: int,
    path: Seq<u8>,
    saved: Option<SavedFileView>,
) -> StepView<()> {
    match cleared_step(replies, at, path) {
        StepView::Call(call) => StepView::Call(call),
        StepView::Failed(error) => StepView::Failed(error),
        StepView::Done(_, at) => match saved {
            None => StepView::Done((), at),
            Some(s) => match calls::git_out(
                replies,
                at,
                blob_call(s.oid),
            ) {
                StepView::Call(call) => StepView::Call(call),
                StepView::Failed(error) => StepView::Failed(error),
                StepView::Done(bytes, at) => calls::work_done(
                    replies,
                    at,
                    CallView::Write { path, kind: s.kind, bytes },
                ),
            },
        },
    }
}

/// Puts back what the files from `k` on held.
pub open spec fn worktree_restored(
    replies: Seq<ReplyView>,
    at: int,
    states: Seq<WorktreeStateView>,
    k: int,
) -> StepView<()>
    decreases states.len() - k,
{
    if k >= states.len() {
        StepView::Done((), at)
    } else {
        match restored_step(replies, at, states[k].path, states[k].before) {
            StepView::Call(call) => StepView::Call(call),
            StepView::Failed(error) => StepView::Failed(error),
            StepView::Done(_, at) => worktree_restored(replies, at, states, k + 1),
        }
    }
}

/// What an undo checks before it writes anything.
pub open spec fn undo_checked(undo: UndoView, replies: Seq<ReplyView>) -> StepView<()> {
    match index_unchanged(replies, 0, undo.index, 0) {
        StepView::Call(call) => StepView::Call(call),
        StepView::Failed(error) => StepView::Failed(error),
        StepView::Done(_, at) => worktree_unchanged(replies, at, undo.worktree, 0),
    }
}

/// Undoing: first everything is compared with what the action left, then everything is put
/// back.
pub open spec fn undo_step(undo: UndoView, replies: Seq<ReplyView>) -> StepView<()> {
    match undo_checked(undo, replies) {
        StepView::Call(call) => StepView::Call(call),
        StepView::Failed(error) => StepView::Failed(error),
        StepView::Done(_, at) => match index_restored(replies, at, undo.index, 0) {
            StepView::Call(call) => StepView::Call(call),
            StepView::Failed(error) => StepView::Failed(error),
            StepView::Done(_, at) => worktree_restored(replies, at, undo.worktree, 0),
        },
    }
}

fn same_entry(a: &Option<IndexEntry>, b: &Option<IndexEntry>) -> (result: bool)
    ensures
        result == (a.deep_view() == b.deep_view()),
{
    match (a, b) {
        (None, None) => true,
        (Some(x), Some(y)) => same_text(x.mode.as_str(), y.mode.as_str()) && same_text(
            x.oid.as_str(),
            y.oid.as_str(),
        ),
        _ => false,
    }
}

fn check_index(replies: &[Reply], states: &[IndexState]) -> (step: Step<()>)
    ensures
        step.deep_view() == index_unchanged(
            calls::told(replies@),
            0,
            states@.map_values(|s: IndexState| s.deep_view()),
            0,
        ),
{
    let ghost all = states@.map_values(|s: IndexState| s.deep_view());
    let ghost told = calls::told(replies@);
    let mut at: usize = 0;
    let mut k: usize = 0;
    while k < states.len()
        invariant
            k <= states@.len(),
            all == states@.map_values(|s: IndexState| s.deep_view()),
            told == calls::told(replies@),
            index_unchanged(told, 0, all, 0) == index_unchanged(told, at as int, all, k as int),
        decreases states.len() - k,
    {
        let state = &states[k];
        match index_entry(replies, at, state.path.as_slice()) {
            Step::Call(call) => {
                return Step::Call(call);
            },
            Step::Failed(error) => {
                return Step::Failed(error);
            },
            Step::Done(entry, next) => {
                if !same_entry(&entry, &state.after) {
                    let mut reason = copy_text("the index entry for ");
                    push_text(&mut reason, to_str_lossy(state.path.as_slice()).as_str());
                    push_text(&mut reason, " changed since; undo would overwrite it");
                    return Step::Failed(OpError::Stale(reason));
                }
                at = next;
            },
        }
        k = k + 1;
    }
    Step::Done((), at)
}

fn same_file(a: &Option<SavedFile>, b: &Option<SavedFile>) -> (result: bool)
    ensures
        result == (a.deep_view() == b.deep_view()),
{
    match (a, b) {
        (None, None) => true,
        (Some(x), Some(y)) => x.kind == y.kind && same_text(x.oid.as_str(), y.oid.as_str()),
        _ => false,
    }
}

fn check_worktree(replies: &[Reply], from: usize, states: &[WorktreeState]) -> (step: Step<()>)
    ensures
        step.deep_view() == worktree_unchanged(
            calls::told(replies@),
            from as int,
            states@.map_values(|s: WorktreeState| s.deep_view()),
            0,
        ),
{
    let ghost all = states@.map_values(|s: WorktreeState| s.deep_view());
    let ghost told = calls::told(replies@);
    let mut at: usize = from;
    let mut k: usize = 0;
    while k < states.len()
        invariant
            k <= states@.len(),
            all == states@.map_values(|s: WorktreeState| s.deep_view()),
            told == calls::told(replies@),
            worktree_unchanged(told, from as int, all, 0) == worktree_unchanged(
                told,
                at as int,
                all,
                k as int,
            ),
        decreases states.len() - k,
    {
        let state = &states[k];
        match raw_hash(replies, at, state.path.as_slice()) {
            Step::Call(call) => {
                return Step::Call(call);
            },
            Step::Failed(error) => {
                return Step::Failed(error);
            },
            Step::Done(now, next) => {
                if !same_file(&now, &state.after) {
                    let mut reason = to_str_lossy(state.path.as_slice());
                    push_text(&mut reason, " changed since; undo would overwrite it");
                    return Step::Failed(OpError::Stale(reason));
                }
                at = next;
            },
        }
        k = k + 1;
    }
    Step::Done((), at)
}

fn write_entry(state: &IndexState) -> (call: Call)
    ensures
        call.deep_view() == entry_write(state.deep_view()),
{
    let args = match &state.before {
        Some(entry) => {
            let mut info = bytes_of(entry.mode.as_str());
            append_str(&mut info, ",");
            append_str(&mut info, entry.oid.as_str());
            append_str(&mut info, ",");
            append(&mut info, state.path.as_slice());
            vec![bytes_of("update-index"), bytes_of("--add"), bytes_of("--cacheinfo"), info]
        },
        None => vec![
            bytes_of("update-index"),
            bytes_of("--force-remove"),
            bytes_of("--"),
            copy(state.path.as_slice()),
        ],
    };
    assert(args.deep_view() =~= entry_write(state.deep_view())->Git_args);
    Call::Git { args, stdin: None, internal: false }
}

fn restore_index(replies: &[Reply], from: usize, states: &[IndexState]) -> (step: Step<()>)
    ensures
        step.deep_view() == index_restored(
            calls::told(replies@),
            from as int,
            states@.map_values(|s: IndexState| s.deep_view()),
            0,
        ),
{
    let ghost all = states@.map_values(|s: IndexState| s.deep_view());
    let ghost told = calls::told(replies@);
    let mut at: usize = from;
    let mut k: usize = 0;
    while k < states.len()
        invariant
            k <= states@.len(),
            all == states@.map_values(|s: IndexState| s.deep_view()),
            told == calls::told(replies@),
            index_restored(told, from as int, all, 0) == index_restored(
                told,
                at as int,
                all,
                k as int,
            ),
        decreases states.len() - k,
    {
        match run_git(replies, at, write_entry(&states[k])) {
            Step::Call(call) => {
                return Step::Call(call);
            },
            Step::Failed(error) => {
                return Step::Failed(error);
            },
            Step::Done(_, next) => {
                at = next;
            },
        }
        k = k + 1;
    }
    Step::Done((), at)
}

fn restore_worktree(
    replies: &[Reply],
    at: usize,
    path: &[u8],
    saved: &Option<SavedFile>,
) -> (step: Step<()>)
    ensures
        step.deep_view() == restored_step(
            calls::told(replies@),
            at as int,
            path@,
            saved.deep_view(),
        ),
{
    let at = match read_kind(replies, at, path) {
        Step::Call(call) => {
            return Step::Call(call);
        },
        Step::Failed(error) => {
            return Step::Failed(error);
        },
        Step::Done(None, at) => at,
        Step::Done(Some(_), at) => match do_work(
            replies,
            at,
            Call::Remove { path: copy(path) },
        ) {
            Step::Call(call) => {
                return Step::Call(call);
            },
            Step::Failed(error) => {
                return Step::Failed(error);
            },
            Step::Done(_, at) => at,
        },
    };
    let s = match saved {
        None => {
            return Step::Done((), at);
        },
        Some(s) => s,
    };
    let args = vec![bytes_of("cat-file"), bytes_of("blob"), bytes_of(s.oid.as_str())];
    assert(args.deep_view() =~= seq![
        word("cat-file"),
        word("blob"),
        crate::bytes::text_bytes(s.oid@),
    ]);
    match run_git(replies, at, Call::Git { args, stdin: None, internal: false }) {
        Step::Call(call) => Step::Call(call),
        Step::Failed(error) => Step::Failed(error),
        Step::Done(bytes, at) => do_work(
            replies,
            at,
            Call::Write { path: copy(path), kind: s.kind, bytes },
        ),
    }
}

fn restore_files(replies: &[Reply], from: usize, states: &[WorktreeState]) -> (step: Step<()>)
    ensures
        step.deep_view() == worktree_restored(
            calls::told(replies@),
            from as int,
            states@.map_values(|s: WorktreeState| s.deep_view()),
            0,
        ),
{
    let ghost all = states@.map_values(|s: WorktreeState| s.deep_view());
    let ghost told = calls::told(replies@);
    let mut at: usize = from;
    let mut k: usize = 0;
    while k < states.len()
        invariant
            k <= states@.len(),
            all == states@.map_values(|s: WorktreeState| s.deep_view()),
            told == calls::told(replies@),
            worktree_restored(told, from as int, all, 0) == worktree_restored(
                told,
                at as int,
                all,
                k as int,
            ),
        decreases states.len() - k,
    {
        match restore_worktree(replies, at, states[k].path.as_slice(), &states[k].before) {
            Step::Call(call) => {
                return Step::Call(call);
            },
            Step::Failed(error) => {
                return Step::Failed(error);
            },
            Step::Done(_, next) => {
                at = next;
            },
        }
        k = k + 1;
    }
    Step::Done((), at)
}

/// Reverse an action, if nothing has changed since it was applied.
pub fn undo(done: &Undo, replies: &[Reply]) -> (step: Step<()>)
    ensures
        step.deep_view() == undo_step(done.deep_view(), calls::told(replies@)),
{
    proof {
        assert(done.index@.map_values(|s: IndexState| s.deep_view()) =~= done.index.deep_view());
        assert(done.worktree@.map_values(|s: WorktreeState| s.deep_view())
            =~= done.worktree.deep_view());
    }
    let at = match check_index(replies, done.index.as_slice()) {
        Step::Call(call) => {
            return Step::Call(call);
        },
        Step::Failed(error) => {
            return Step::Failed(error);
        },
        Step::Done(_, at) => at,
    };
    let at = match check_worktree(replies, at, done.worktree.as_slice()) {
        Step::Call(call) => {
            return Step::Call(call);
        },
        Step::Failed(error) => {
            return Step::Failed(error);
        },
        Step::Done(_, at) => at,
    };
    let at = match restore_index(replies, at, done.index.as_slice()) {
        Step::Call(call) => {
            return Step::Call(call);
        },
        Step::Failed(error) => {
            return Step::Failed(error);
        },
        Step::Done(_, at) => at,
    };
    restore_files(replies, at, done.worktree.as_slice())
}

// ---------------------------------------------------------------------------
// Committing.

/// Asks git to commit with the message on its input.
pub open spec fn commit_call(message: Seq<char>, options: CommitOptions) -> CallView {
    git_call(
        seq![word("commit"), word("-F"), word("-")] + (if options.amend {
            seq![word("--amend")]
        } else {
            Seq::empty()
        }) + (if options.signoff {
            seq![word("--signoff")]
        } else {
            Seq::empty()
        }),
        Some(crate::bytes::text_bytes(message)),
    )
}

/// Committing: not with an empty message. The value is the first line that git prints.
pub open spec fn commit_step(
    message: Seq<char>,
    options: CommitOptions,
    replies: Seq<ReplyView>,
) -> StepView<Seq<char>> {
    if crate::text::trimmed(message).len() == 0 {
        StepView::Failed(unsupported("write a commit message first"))
    } else {
        match calls::git_out(replies, 0, commit_call(message, options)) {
            StepView::Call(call) => StepView::Call(call),
            StepView::Failed(OpErrorView::Git(GitErrorView::Failed { message, .. })) =>
                StepView::Failed(OpErrorView::CommitFailed(message)),
            StepView::Failed(error) => StepView::Failed(error),
            StepView::Done(out, at) => StepView::Done(
                crate::text::first_line_of(crate::text::lossy(out)),
                at,
            ),
        }
    }
}

/// Whether a call commits what is staged with a message on its input, and is told to amend and
/// to sign off exactly as the user chose.
pub open spec fn commits(call: CallView, message: Seq<char>, options: CommitOptions) -> bool {
    call matches CallView::Git { args, stdin, internal } && {
        &&& args.len() == 3 + (if options.amend { 1int } else { 0 }) + (if options.signoff { 1int } else { 0 })
        &&& args[0] == word("commit") && args[1] == word("-F") && args[2] == word("-")
        &&& args.contains(word("--amend")) <==> options.amend
        &&& args.contains(word("--signoff")) <==> options.signoff
        &&& stdin == Some(crate::bytes::text_bytes(message))
        &&& !internal
    }
}

proof fn lemma_commit_call(message: Seq<char>, options: CommitOptions)
    ensures
        commits(commit_call(message, options), message, options),
{
    reveal_strlit("commit");
    reveal_strlit("-F");
    reveal_strlit("-");
    reveal_strlit("--amend");
    reveal_strlit("--signoff");
    assert("--amend"@.len() != "--signoff"@.len());
    assert("--amend"@.len() != "commit"@.len());
    assert("--signoff"@.len() != "commit"@.len());
    lemma_words_differ("--amend", "--signoff");
    lemma_words_differ("--amend", "commit");
    lemma_words_differ("--amend", "-F");
    lemma_words_differ("--amend", "-");
    lemma_words_differ("--signoff", "commit");
    lemma_words_differ("--signoff", "-F");
    lemma_words_differ("--signoff", "-");
    let args = commit_call(message, options)->Git_args;
    if options.amend {
        assert(args[3] == word("--amend"));
    }
    if options.signoff {
        assert(args.last() == word("--signoff"));
    }
}

/// A commit is made with the message as it was written, amending the last one if and only if
/// that was asked for, and signed off if and only if that was; not at all if the message is
/// blank. What is told of it is what git printed up to its first line end.
pub proof fn law_commits_are_made_as_asked(
    message: Seq<char>,
    options: CommitOptions,
    replies: Seq<ReplyView>,
)
    ensures
        match commit_step(message, options, replies) {
            StepView::Call(call) => replies.len() == 0 && !crate::text::is_blank(message)
                && commits(call, message, options),
            StepView::Done(told, used) => !crate::text::is_blank(message) && used == 1
                && replies.len() > 0 && (replies[0] matches ReplyView::Git(Ok(out)) && {
                let text = crate::text::lossy(out);
                &&& told.len() <= text.len() && told == text.take(told.len() as int)
                &&& !told.contains('\n')
                &&& told == text || (text[told.len() as int] == '\n' && (told.len() == 0 || told.last() != '\r')) || (text[told.len() as int]
                    == '\r' && told.len() + 1 < text.len() && text[(told.len() + 1) as int] == '\n')
            }),
            StepView::Failed(OpErrorView::CommitFailed(told)) => replies.len() > 0
                && (replies[0] matches ReplyView::Git(Err(GitErrorView::Failed { message, .. }))
                && message == told),
            StepView::Failed(OpErrorView::Unsupported(_)) => crate::text::is_blank(message),
            StepView::Failed(_) => !crate::text::is_blank(message) && replies.len() > 0
                && !(replies[0] matches ReplyView::Git(Ok(_))),
        },
{
    let part = crate::text::law_trimming_takes_white_space_alone(message);
    assert(crate::text::trimmed(message).len() == 0 <==> crate::text::is_blank(message));
    lemma_commit_call(message, options);
    if let StepView::Done(told, _) = commit_step(message, options, replies) {
        let text = crate::text::lossy(replies[0]->Git_0->Ok_0);
        crate::text::lemma_first_line(text);
    }
}

/// Commits what is staged.
pub fn commit(message: &str, options: CommitOptions, replies: &[Reply]) -> (step: Step<String>)
    ensures
        step.deep_view() == commit_step(message@, options, calls::told(replies@)),
        step matches Step::Call(call) ==> commits(call.deep_view(), message@, options),
        step matches Step::Call(_) ==> replies@.len() == 0 && !crate::text::is_blank(message@),
{
    let told = trim(message);
    proof {
        law_commits_are_made_as_asked(message@, options, calls::told(replies@));
        crate::git::lemma_no_bytes(told@);
    }
    if told.as_str().as_bytes().len() == 0 {
        return Step::Failed(OpError::Unsupported("write a commit message first"));
    }
    let mut args = vec![bytes_of("commit"), bytes_of("-F"), bytes_of("-")];
    if options.amend {
        args.push(bytes_of("--amend"));
    }
    if options.signoff {
        args.push(bytes_of("--signoff"));
    }
    assert(args.deep_view() =~= commit_call(message@, options)->Git_args);
    let call = Call::Git { args, stdin: Some(bytes_of(message)), internal: false };
    match run_git(replies, 0, call) {
        Step::Call(call) => Step::Call(call),
        Step::Failed(OpError::Git(GitError::Failed { message, .. })) => Step::Failed(
            OpError::CommitFailed(message),
        ),
        Step::Failed(error) => Step::Failed(error),
        Step::Done(out, at) => Step::Done(
            first_line(from_utf8_lossy(out.as_slice()).as_str()),
            at,
        ),
    }
}

/// HEAD's message, for amending. Empty before the first commit.
pub open spec fn last_message_step(replies: Seq<ReplyView>) -> StepView<Seq<char>> {
    match calls::git_try(replies, 0, head_call()) {
        StepView::Call(call) => StepView::Call(call),
        StepView::Failed(error) => StepView::Failed(error),
        StepView::Done(None, at) => StepView::Done(Seq::empty(), at),
        StepView::Done(Some(_), at) => match calls::git_out(
            replies,
            at,
            git_call(seq![word("log"), word("-1"), word("--format=%B")], None),
        ) {
            StepView::Call(call) => StepView::Call(call),
            StepView::Failed(error) => StepView::Failed(error),
            StepView::Done(out, at) => StepView::Done(
                crate::text::trim_end(crate::text::lossy(out)),
                at,
            ),
        },
    }
}

/// HEAD's message, for amending. Empty before the first commit.
pub fn last_commit_message(replies: &[Reply]) -> (step: Step<String>)
    ensures
        step.deep_view() == last_message_step(calls::told(replies@)),
{
    let at = match try_git(replies, 0, ask_head()) {
        Step::Call(call) => {
            return Step::Call(call);
        },
        Step::Failed(error) => {
            return Step::Failed(error);
        },
        Step::Done(None, at) => {
            let none = String::new();
            assert(none@ =~= Seq::<char>::empty());
            return Step::Done(none, at);
        },
        Step::Done(Some(_), at) => at,
    };
    let args = vec![bytes_of("log"), bytes_of("-1"), bytes_of("--format=%B")];
    assert(args.deep_view() =~= seq![word("log"), word("-1"), word("--format=%B")]);
    match run_git(replies, at, Call::Git { args, stdin: None, internal: false }) {
        Step::Call(call) => Step::Call(call),
        Step::Failed(error) => Step::Failed(error),
        Step::Done(out, at) => Step::Done(
            without_end_space(from_utf8_lossy(out.as_slice()).as_str()),
            at,
        ),
    }
}

// ---------------------------------------------------------------------------
// Laws.

/// Whether a call changes files of the worktree.
pub open spec fn writes_worktree(call: CallView) -> bool {
    match call {
        CallView::Remove { .. } => true,
        CallView::Write { .. } => true,
        CallView::Git { args, .. } => args.len() > 0 && (args[0] == word("restore") || args[0]
            == word("apply")),
        _ => false,
    }
}

/// Whether a call changes files of the worktree or entries of the index.
pub open spec fn writes_anything(call: CallView) -> bool {
    writes_worktree(call) || (call matches CallView::Git { args, .. } && args.len() > 0 && args[0]
        == word("update-index"))
}

/// Texts that differ have different bytes.
pub proof fn lemma_words_differ(a: &str, b: &str)
    requires
        a@ != b@,
    ensures
        word(a) != word(b),
{
    if word(a) == word(b) {
        crate::utf8::lemma_encode_injective(a@, b@);
    }
}

/// Whether a git command writes neither the worktree nor the index.
pub open spec fn is_quiet(command: Seq<u8>) -> bool {
    command != word("restore") && command != word("apply") && command != word("update-index")
}

/// The commands that only read, or write objects and refs, are none of those that write the
/// worktree or the index.
pub proof fn lemma_quiet_words()
    ensures
        is_quiet(word("hash-object")),
        is_quiet(word("mktree")),
        is_quiet(word("rev-parse")),
        is_quiet(word("rev-list")),
        is_quiet(word("update-ref")),
        is_quiet(word("commit-tree")),
        is_quiet(word("ls-files")),
        is_quiet(word("cat-file")),
{
    reveal_strlit("hash-object");
    reveal_strlit("mktree");
    reveal_strlit("rev-parse");
    reveal_strlit("rev-list");
    reveal_strlit("update-ref");
    reveal_strlit("commit-tree");
    reveal_strlit("ls-files");
    reveal_strlit("cat-file");
    reveal_strlit("restore");
    reveal_strlit("apply");
    reveal_strlit("update-index");
    assert("hash-object"@[0] != "restore"@[0]);
    assert("hash-object"@[0] != "apply"@[0]);
    assert("hash-object"@[0] != "update-index"@[0]);
    assert("mktree"@[0] != "restore"@[0]);
    assert("mktree"@[0] != "apply"@[0]);
    assert("mktree"@[0] != "update-index"@[0]);
    assert("rev-parse"@[2] != "restore"@[2]);
    assert("rev-parse"@[0] != "apply"@[0]);
    assert("rev-parse"@[0] != "update-index"@[0]);
    assert("rev-list"@[2] != "restore"@[2]);
    assert("rev-list"@[0] != "apply"@[0]);
    assert("rev-list"@[0] != "update-index"@[0]);
    assert("update-ref"@[0] != "restore"@[0]);
    assert("update-ref"@[0] != "apply"@[0]);
    assert("update-ref"@.len() != "update-index"@.len());
    assert("commit-tree"@[0] != "restore"@[0]);
    assert("commit-tree"@[0] != "apply"@[0]);
    assert("commit-tree"@[0] != "update-index"@[0]);
    assert("ls-files"@[0] != "restore"@[0]);
    assert("ls-files"@[0] != "apply"@[0]);
    assert("ls-files"@[0] != "update-index"@[0]);
    assert("cat-file"@[0] != "restore"@[0]);
    assert("cat-file"@[0] != "apply"@[0]);
    assert("cat-file"@[0] != "update-index"@[0]);
    lemma_words_differ("hash-object", "restore");
    lemma_words_differ("hash-object", "apply");
    lemma_words_differ("hash-object", "update-index");
    lemma_words_differ("mktree", "restore");
    lemma_words_differ("mktree", "apply");
    lemma_words_differ("mktree", "update-index");
    lemma_words_differ("rev-parse", "restore");
    lemma_words_differ("rev-parse", "apply");
    lemma_words_differ("rev-parse", "update-index");
    lemma_words_differ("rev-list", "restore");
    lemma_words_differ("rev-list", "apply");
    lemma_words_differ("rev-list", "update-index");
    lemma_words_differ("update-ref", "restore");
    lemma_words_differ("update-ref", "apply");
    lemma_words_differ("update-ref", "update-index");
    lemma_words_differ("commit-tree", "restore");
    lemma_words_differ("commit-tree", "apply");
    lemma_words_differ("commit-tree", "update-index");
    lemma_words_differ("ls-files", "restore");
    lemma_words_differ("ls-files", "apply");
    lemma_words_differ("ls-files", "update-index");
    lemma_words_differ("cat-file", "restore");
    lemma_words_differ("cat-file", "apply");
    lemma_words_differ("cat-file", "update-index");
}

pub proof fn lemma_unchanged_is_quiet(
    replies: Seq<ReplyView>,
    change: FileChange,
    diff: Option<FileDiff>,
    read: Option<Seq<char>>,
)
    ensures
        unchanged_step(replies, change, diff, read) matches StepView::Call(call)
            ==> !writes_worktree(call),
{
    lemma_quiet_words();
}

proof fn lemma_keep_is_quiet(
    replies: Seq<ReplyView>,
    at: int,
    oid: Seq<char>,
    message: Seq<char>,
    limit: usize,
)
    ensures
        keep_step(replies, at, oid, message, limit) matches StepView::Call(call)
            ==> !writes_worktree(call),
{
    lemma_quiet_words();
}

pub proof fn lemma_saved_is_quiet(replies: Seq<ReplyView>, at: int, change: FileChange)
    ensures
        saved_step(replies, at, change) matches StepView::Call(call) ==> !writes_worktree(call),
{
    lemma_quiet_words();
    if let StepView::Done(Some(saved), next) = save_step(replies, at, change.path@) {
        lemma_keep_is_quiet(
            replies,
            next,
            saved.oid,
            described("goro: discard ", change.path@),
            UNDO_HISTORY,
        );
    }
}

/// A discard changes the worktree only after the file on disk was found to be what the user
/// reviewed: the new side of the diff, no file where there was none, or what was read of a file
/// without a diff. Files that were too large to be read are left out: nothing was kept of them.
pub proof fn law_discard_only_applies_to_what_was_reviewed(
    change: FileChange,
    diff: Option<FileDiff>,
    read: Option<Seq<char>>,
    selection: SelectionView,
    replies: Seq<ReplyView>,
    call: CallView,
)
    requires
        is_known(change, diff, read),
        discard_step(change, diff, read, selection, replies) == StepView::<UndoView>::Call(call),
        writes_worktree(call),
    ensures
        clean_hash_step(replies, 0, change.path@) matches StepView::Done(current, at)
            && reviewed_hash_step(
            replies,
            at,
            change,
            diff,
            read,
        ) matches StepView::Done(reviewed, _)
            && current == reviewed,
{
    lemma_unchanged_is_quiet(replies, change, diff, read);
}

/// A discard changes the worktree only after the file's content, if there is any, was
/// written as a git object and recorded on the undo ref.
pub proof fn law_discard_saves_before_it_changes_anything(
    change: FileChange,
    diff: Option<FileDiff>,
    read: Option<Seq<char>>,
    selection: SelectionView,
    replies: Seq<ReplyView>,
    call: CallView,
)
    requires
        discard_step(change, diff, read, selection, replies) == StepView::<UndoView>::Call(call),
        writes_worktree(call),
    ensures
        unchanged_step(replies, change, diff, read) matches StepView::Done(_, at) && saved_step(
            replies,
            at,
            change,
        ) matches StepView::Done(saved, _) && (saved matches Some(s) ==> save_step(
            replies,
            at,
            change.path@,
        ) matches StepView::Done(kept, next) && kept == Some(s) && keep_step(
            replies,
            next,
            s.oid,
            described("goro: discard ", change.path@),
            UNDO_HISTORY,
        ) is Done),
{
    lemma_unchanged_is_quiet(replies, change, diff, read);
    if let StepView::Done(_, at) = unchanged_step(replies, change, diff, read) {
        lemma_saved_is_quiet(replies, at, change);
    }
}

/// What a discard did can be undone: the record holds what the file held before.
pub proof fn law_discard_records_what_it_saved(
    change: FileChange,
    diff: Option<FileDiff>,
    read: Option<Seq<char>>,
    selection: SelectionView,
    replies: Seq<ReplyView>,
    record: UndoView,
    used: int,
)
    requires
        discard_step(change, diff, read, selection, replies) == StepView::Done(record, used),
    ensures
        unchanged_step(replies, change, diff, read) matches StepView::Done(_, at) && saved_step(
            replies,
            at,
            change,
        ) matches StepView::Done(saved, _) && record.worktree.len() == 1
            && record.worktree[0].before == saved && record.worktree[0].path == change.path@,
{
}

proof fn lemma_index_check_is_quiet(
    replies: Seq<ReplyView>,
    at: int,
    states: Seq<IndexStateView>,
    k: int,
)
    ensures
        index_unchanged(replies, at, states, k) matches StepView::Call(call)
            ==> !writes_anything(call),
    decreases states.len() - k,
{
    lemma_quiet_words();
    if k < states.len() {
        if let StepView::Done(entry, next) = entry_step(replies, at, states[k].path) {
            lemma_index_check_is_quiet(replies, next, states, k + 1);
        }
    }
}

proof fn lemma_worktree_check_is_quiet(
    replies: Seq<ReplyView>,
    at: int,
    states: Seq<WorktreeStateView>,
    k: int,
)
    ensures
        worktree_unchanged(replies, at, states, k) matches StepView::Call(call)
            ==> !writes_anything(call),
    decreases states.len() - k,
{
    lemma_quiet_words();
    if k < states.len() {
        if let StepView::Done(hash, next) = raw_hash_step(replies, at, states[k].path) {
            lemma_worktree_check_is_quiet(replies, next, states, k + 1);
        }
    }
}

/// Whether an index entry was read, from reply `at` on, and found to be as an action left it.
pub open spec fn entry_found(replies: Seq<ReplyView>, at: int, state: IndexStateView) -> bool {
    entry_step(replies, at, state.path) matches StepView::Done(now, _) && now == state.after
}

/// Whether a file was read, from reply `at` on, and found to be as an action left it: there or
/// gone, with the same bytes and of the same kind.
pub open spec fn file_found(replies: Seq<ReplyView>, at: int, state: WorktreeStateView) -> bool {
    raw_hash_step(replies, at, state.path) matches StepView::Done(now, _) && now == state.after
}

/// Whether an index entry was read and found to be as an action left it.
pub open spec fn entry_was_found(replies: Seq<ReplyView>, state: IndexStateView) -> bool {
    exists|at: int| #[trigger] entry_found(replies, at, state)
}

/// Whether a file was read and found to be as an action left it.
pub open spec fn file_was_found(replies: Seq<ReplyView>, state: WorktreeStateView) -> bool {
    exists|at: int| #[trigger] file_found(replies, at, state)
}

proof fn lemma_entries_found(
    replies: Seq<ReplyView>,
    at: int,
    states: Seq<IndexStateView>,
    k: int,
    j: int,
)
    requires
        index_unchanged(replies, at, states, k) is Done,
        0 <= k <= j < states.len(),
    ensures
        entry_was_found(replies, states[j]),
    decreases states.len() - k,
{
    if k == j {
        assert(entry_found(replies, at, states[j]));
    } else {
        let next = entry_step(replies, at, states[k].path)->Done_1;
        lemma_entries_found(replies, next, states, k + 1, j);
    }
}

proof fn lemma_files_found(
    replies: Seq<ReplyView>,
    at: int,
    states: Seq<WorktreeStateView>,
    k: int,
    j: int,
)
    requires
        worktree_unchanged(replies, at, states, k) is Done,
        0 <= k <= j < states.len(),
    ensures
        file_was_found(replies, states[j]),
    decreases states.len() - k,
{
    if k == j {
        assert(file_found(replies, at, states[j]));
    } else {
        let next = raw_hash_step(replies, at, states[k].path)->Done_1;
        lemma_files_found(replies, next, states, k + 1, j);
    }
}

/// An undo changes nothing before every index entry and file was found to be as the action
/// left it, the bytes and the kind of each file.
pub proof fn law_undo_never_overwrites_newer_work(
    undo: UndoView,
    replies: Seq<ReplyView>,
    call: CallView,
)
    requires
        undo_step(undo, replies) == StepView::<()>::Call(call),
        writes_anything(call),
    ensures
        undo_checked(undo, replies) is Done,
        forall|j: int|
            0 <= j < undo.index.len() ==> entry_was_found(replies, #[trigger] undo.index[j]),
        forall|j: int|
            0 <= j < undo.worktree.len() ==> file_was_found(replies, #[trigger] undo.worktree[j]),
{
    lemma_index_check_is_quiet(replies, 0, undo.index, 0);
    if let StepView::Done(_, at) = index_unchanged(replies, 0, undo.index, 0) {
        lemma_worktree_check_is_quiet(replies, at, undo.worktree, 0);
    }
    let at = index_unchanged(replies, 0, undo.index, 0)->Done_1;
    assert forall|j: int| 0 <= j < undo.index.len() implies entry_was_found(
        replies,
        #[trigger] undo.index[j],
    ) by {
        lemma_entries_found(replies, 0, undo.index, 0, j);
    }
    assert forall|j: int| 0 <= j < undo.worktree.len() implies file_was_found(
        replies,
        #[trigger] undo.worktree[j],
    ) by {
        lemma_files_found(replies, at, undo.worktree, 0, j);
    }
}

/// Whether a file of an undo held what git printed, at reply `at`, for the object that its
/// content was saved as.
pub open spec fn was_saved_as(
    state: WorktreeStateView,
    replies: Seq<ReplyView>,
    at: int,
    path: Seq<u8>,
    kind: FileKind,
    bytes: Seq<u8>,
) -> bool {
    &&& state.path == path
    &&& state.before matches Some(saved)
    &&& saved.kind == kind
    &&& calls::git_out(
        replies,
        at,
        blob_call(saved.oid),
    ) == StepView::Done(bytes, at + 1)
}

proof fn lemma_restored_writes(
    replies: Seq<ReplyView>,
    from: int,
    states: Seq<WorktreeStateView>,
    first: int,
    path: Seq<u8>,
    kind: FileKind,
    bytes: Seq<u8>,
)
    requires
        0 <= first,
        worktree_restored(replies, from, states, first) == StepView::<()>::Call(
            CallView::Write { path, kind, bytes },
        ),
    ensures
        exists|k: int, at: int|
            0 <= k < states.len() && #[trigger] was_saved_as(states[k], replies, at, path, kind, bytes),
    decreases states.len() - first,
{
    if first < states.len() {
        let state = states[first];
        match restored_step(replies, from, state.path, state.before) {
            StepView::Done(_, at) => {
                lemma_restored_writes(replies, at, states, first + 1, path, kind, bytes);
            },
            _ => {
                let at = cleared_step(replies, from, state.path)->Done_1;
                assert(was_saved_as(states[first], replies, at, path, kind, bytes));
            },
        }
    }
}

proof fn lemma_index_restored_writes_no_file(
    replies: Seq<ReplyView>,
    at: int,
    states: Seq<IndexStateView>,
    k: int,
)
    ensures
        index_restored(replies, at, states, k) matches StepView::Call(call) ==> !(call is Write),
    decreases states.len() - k,
{
    if k < states.len() {
        if let StepView::Done(_, next) = calls::git_out(replies, at, entry_write(states[k])) {
            lemma_index_restored_writes_no_file(replies, next, states, k + 1);
        }
    }
}

/// An undo writes a file back exactly as it was saved: the bytes that git holds for it, and
/// the kind of file that it was, at its path.
pub proof fn law_undo_writes_back_what_was_saved(
    undo: UndoView,
    replies: Seq<ReplyView>,
    path: Seq<u8>,
    kind: FileKind,
    bytes: Seq<u8>,
)
    requires
        undo_step(undo, replies) == StepView::<()>::Call(CallView::Write { path, kind, bytes }),
    ensures
        exists|k: int, at: int|
            0 <= k < undo.worktree.len() && #[trigger] was_saved_as(
                undo.worktree[k],
                replies,
                at,
                path,
                kind,
                bytes,
            ),
{
    law_undo_never_overwrites_newer_work(
        undo,
        replies,
        CallView::Write { path, kind, bytes },
    );
    let at = undo_checked(undo, replies)->Done_1;
    lemma_index_restored_writes_no_file(replies, at, undo.index, 0);
    let next = index_restored(replies, at, undo.index, 0)->Done_1;
    lemma_restored_writes(replies, next, undo.worktree, 0, path, kind, bytes);
}

pub proof fn lemma_snapshot_is_quiet(
    replies: Seq<ReplyView>,
    at: int,
    paths: Seq<Seq<u8>>,
    found: Seq<Option<IndexEntryView>>,
)
    ensures
        snapshot_from(replies, at, paths, found) matches StepView::Call(call) ==> (
        call matches CallView::Git { args, .. } && args.len() == 5 && args[0] == word("ls-files")),
    decreases paths.len() - found.len(),
{
    if found.len() < paths.len() {
        if let StepView::Done(entry, next) = entry_step(replies, at, paths[found.len() as int]) {
            lemma_snapshot_is_quiet(replies, next, paths, found.push(entry));
        }
    }
}

proof fn lemma_stage_write(
    replies: Seq<ReplyView>,
    at: int,
    change: FileChange,
    diff: Option<FileDiff>,
    selection: SelectionView,
)
    ensures
        stage_write(replies, at, change, diff, selection) matches StepView::Call(call)
            ==> writes_index_only(call),
{
    reveal_strlit("add");
    reveal_strlit("restore");
    reveal_strlit("apply");
    assert("add"@.len() != "restore"@.len());
    assert("add"@.len() != "apply"@.len());
    lemma_words_differ("add", "restore");
    lemma_words_differ("add", "apply");
}

/// Staging reads the worktree and writes the index, but never the worktree.
pub proof fn law_staging_leaves_the_worktree_alone(
    change: FileChange,
    diff: Option<FileDiff>,
    selection: SelectionView,
    replies: Seq<ReplyView>,
    call: CallView,
)
    requires
        stage_step(change, diff, selection, replies) == StepView::<UndoView>::Call(call),
    ensures
        writes_index_only(call),
{
    lemma_quiet_words();
    let paths = paths_of(change);
    lemma_snapshot_is_quiet(replies, 0, paths, Seq::empty());
    if let StepView::Done(_, at) = snapshot_step(replies, 0, paths) {
        lemma_stage_write(replies, at, change, diff, selection);
        if let StepView::Done(_, next) = stage_write(replies, at, change, diff, selection) {
            lemma_snapshot_is_quiet(replies, next, paths, Seq::empty());
        }
    }
}

#[verifier::spinoff_prover]
#[verifier::rlimit(60)]
proof fn lemma_unstage_write(
    replies: Seq<ReplyView>,
    at: int,
    change: FileChange,
    diff: Option<FileDiff>,
    selection: SelectionView,
)
    ensures
        unstage_write(replies, at, change, diff, selection) matches StepView::Call(call)
            ==> writes_index_only(call),
{
    lemma_quiet_words();
    assert(word("rm") != word("restore") && word("rm") != word("apply")) by {
        reveal_strlit("rm");
        reveal_strlit("restore");
        reveal_strlit("apply");
        assert("rm"@.len() != "restore"@.len());
        assert("rm"@.len() != "apply"@.len());
        lemma_words_differ("rm", "restore");
        lemma_words_differ("rm", "apply");
    }
    let paths = paths_of(change);
    let restore = seq![word("restore"), word("--staged"), word("--")] + paths;
    let remove = seq![word("rm"), word("-q"), word("--cached"), word("--")] + paths;
    assert(restore[0] == word("restore") && restore[1] == word("--staged"));
    assert(remove[0] == word("rm"));
}

/// Whether a call leaves the worktree alone: it removes and writes no file, and what it
/// restores or patches is the index.
pub open spec fn writes_index_only(call: CallView) -> bool {
    &&& !(call is Remove)
    &&& !(call is Write)
    &&& writes_worktree(call) ==> (call matches CallView::Git { args, .. } && (args[1] == word(
        "--staged",
    ) || args[1] == word("--cached")))
}

/// Unstaging never touches the worktree.
pub proof fn law_unstaging_leaves_the_worktree_alone(
    change: FileChange,
    diff: Option<FileDiff>,
    selection: SelectionView,
    replies: Seq<ReplyView>,
    call: CallView,
)
    requires
        unstage_step(change, diff, selection, replies) == StepView::<UndoView>::Call(call),
    ensures
        writes_index_only(call),
{
    lemma_quiet_words();
    let paths = paths_of(change);
    lemma_snapshot_is_quiet(replies, 0, paths, Seq::empty());
    if let StepView::Done(_, at) = snapshot_step(replies, 0, paths) {
        lemma_unstage_write(replies, at, change, diff, selection);
        if let StepView::Done(_, next) = unstage_write(replies, at, change, diff, selection) {
            lemma_snapshot_is_quiet(replies, next, paths, Seq::empty());
        }
    }
}

/// The message to amend is that of the last commit, without white space at its end: git is asked
/// whether there is a commit, and if there is, for the message of one commit from there. Without
/// a commit it is empty.
pub proof fn law_the_last_message_is_that_of_the_last_commit(
    replies: Seq<ReplyView>,
    text: Seq<char>,
    used: int,
)
    requires
        last_message_step(replies) == StepView::Done(text, used),
    ensures
        replies.len() >= used >= 1,
        last_message_step(replies.take(0)) == StepView::<Seq<char>>::Call(
            CallView::Git {
                args: seq![word("rev-parse"), word("-q"), word("--verify"), word("HEAD")],
                stdin: None,
                internal: false,
            },
        ),
        replies[0] matches ReplyView::Git(Err(_)) ==> text.len() == 0 && used == 1,
        replies[0] matches ReplyView::Git(Ok(_)) ==> {
            &&& used == 2
            &&& last_message_step(replies.take(1)) == StepView::<Seq<char>>::Call(
                CallView::Git {
                    args: seq![word("log"), word("-1"), word("--format=%B")],
                    stdin: None,
                    internal: false,
                },
            )
            &&& replies[1] matches ReplyView::Git(Ok(out))
            &&& text.len() <= crate::text::lossy(out).len()
            &&& text == crate::text::lossy(out).take(text.len() as int)
            &&& crate::text::is_blank(crate::text::lossy(out).skip(text.len() as int))
            &&& text.len() > 0 ==> !crate::text::white_space(text.last())
        },
{
    assert(replies.take(0).len() == 0);
    if replies[0] matches ReplyView::Git(Ok(_)) {
        assert(replies.take(1).len() == 1 && replies.take(1)[0] == replies[0]);
        let out = crate::text::lossy(replies[1]->Git_0->Ok_0);
        let end = crate::text::lemma_trim_end_part(out);
        assert forall|i: int| 0 <= i < out.skip(end).len() implies crate::text::white_space(
            #[trigger] out.skip(end)[i],
        ) by {
            assert(out.skip(end)[i] == out[end + i]);
        }
        assert(text =~= out.take(end));
    }
}

} // verus!
