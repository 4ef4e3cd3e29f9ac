//! The review model: every change in a repository, the continuous diff stream shown to the
//! user (as display rows), and the file tree that navigates it.
use vstd::prelude::*;

use std::collections::HashSet;
use std::ops::Range;
use std::sync::Arc;

use crate::bytes::{copy, same};
use crate::comments::{copy_comments, Comment};
use crate::diff;
use crate::diff::{DiffLine, FileDiff, LineKind};
use crate::repo;
use crate::repo::{is_place_before, FileChange, Loaded, Section, Source};
use crate::rows;
use crate::rows::{build_rows, hash_hunks, is_new_row};
use crate::settings::DiffLayout;
use crate::store::{copy_set, Seen};
use crate::syntax;
use crate::syntax::{highlight, Language, Span};
use crate::tree;
use crate::tree::{build_tree, Collapsed};

pub use crate::display::{display_line, TAB_WIDTH};
pub use crate::rows::{hunk_hash, line_hash, Note, Row, IMAGE_ROWS};
pub use crate::tree::TreeRow;

verus! {

/// Syntax spans for both sides of a text diff.
#[derive(Debug)]
pub struct Highlights {
    pub old: Vec<Span>,
    pub new: Vec<Span>,
}

#[derive(Debug)]
pub enum Content {
    Pending,
    Loaded(Loaded),
    Failed(String),
}

#[derive(Debug)]
pub struct ReviewFile {
    pub change: FileChange,
    pub content: Content,
    pub highlights: Option<Arc<Highlights>>,
}

impl ReviewFile {
    /// The text diff, if the file has one.
    pub fn diff(&self) -> (diff: Option<&Arc<FileDiff>>)
        ensures
            match diff {
                Some(d) => rows::diff_of(*self) == Some(**d),
                None => rows::diff_of(*self) is None,
            },
    {
        match &self.content {
            Content::Loaded(Loaded::Text(diff)) => Some(diff),
            _ => None,
        }
    }
}

/// A fully loaded file, produced off the UI thread.
#[derive(Debug)]
pub struct FileLoad {
    pub content: Content,
    pub highlights: Option<Arc<Highlights>>,
}

/// `Arc::clone` gives another handle to the same value.
#[verifier::external_body]
pub(crate) fn share<T>(value: &Arc<T>) -> (other: Arc<T>)
    ensures
        other == *value,
{
    Arc::clone(value)
}

fn share_option<T>(value: &Option<Arc<T>>) -> (other: Option<Arc<T>>)
    ensures
        other == *value,
{
    match value {
        Some(v) => Some(share(v)),
        None => None,
    }
}

impl Content {
    /// Another handle to the same content.
    pub fn copy(&self) -> (other: Content)
        ensures
            other == *self,
    {
        match self {
            Content::Pending => Content::Pending,
            Content::Failed(message) => Content::Failed(message.clone()),
            Content::Loaded(loaded) => Content::Loaded(
                match loaded {
                    Loaded::Text(d) => Loaded::Text(share(d)),
                    Loaded::Binary { old_len, new_len } => Loaded::Binary {
                        old_len: *old_len,
                        new_len: *new_len,
                    },
                    Loaded::TooLarge { len } => Loaded::TooLarge { len: *len },
                    Loaded::Submodule => Loaded::Submodule,
                    Loaded::Conflict => Loaded::Conflict,
                    Loaded::NotAFile => Loaded::NotAFile,
                    Loaded::Image { kind, old, new } => Loaded::Image {
                        kind: *kind,
                        old: share_option(old),
                        new: share_option(new),
                    },
                },
            ),
        }
    }
}

// ---------------------------------------------------------------------------
// Highlighting a diff.

/// Whether the spans of each side are sorted and don't overlap.
pub open spec fn highlights_ok(highlights: Option<Arc<Highlights>>) -> bool {
    highlights matches Some(h) ==> syntax::spans_in_order(h.old@) && syntax::spans_in_order(h.new@)
}

/// Whether a span overlaps any of the lines.
pub open spec fn on_lines(span: Span, lines: Seq<Range<usize>>) -> bool {
    exists|k: int|
        0 <= k < lines.len() && (#[trigger] lines[k]).end > span.range.start && lines[k].start
            < span.range.end
}

/// The spans that overlap any of the lines.
pub open spec fn spans_on(spans: Seq<Span>, lines: Seq<Range<usize>>) -> Seq<Span>
    decreases spans.len(),
{
    if spans.len() == 0 {
        Seq::empty()
    } else if on_lines(spans.last(), lines) {
        spans_on(spans.drop_last(), lines).push(spans.last())
    } else {
        spans_on(spans.drop_last(), lines)
    }
}

/// Spans that are kept stay sorted.
proof fn lemma_spans_on(spans: Seq<Span>, lines: Seq<Range<usize>>)
    requires
        syntax::spans_in_order(spans),
    ensures
        syntax::spans_in_order(spans_on(spans, lines)),
        forall|i: int|
            0 <= i < spans_on(spans, lines).len() ==> #[trigger] spans.contains(
                spans_on(spans, lines)[i],
            ),
    decreases spans.len(),
{
    if spans.len() > 0 {
        let head = spans.drop_last();
        assert(syntax::spans_in_order(head));
        lemma_spans_on(head, lines);
        let (rest, kept) = (spans_on(head, lines), spans_on(spans, lines));
        assert forall|i: int| 0 <= i < kept.len() implies #[trigger] spans.contains(kept[i]) by {
            if i < rest.len() {
                assert(head.contains(rest[i]));
                let k = choose|k: int| 0 <= k < head.len() && head[k] == rest[i];
                assert(spans[k] == kept[i]);
            } else {
                assert(spans[spans.len() - 1] == kept[i]);
            }
        }
        assert forall|i: int, j: int|
            #![trigger kept[i], kept[j]]
            0 <= i < j < kept.len() implies kept[i].range.end <= kept[j].range.start by {
            if j >= rest.len() {
                assert(head.contains(rest[i]));
                let k = choose|k: int| 0 <= k < head.len() && head[k] == rest[i];
                assert(spans[k].range.end <= spans[spans.len() - 1].range.start);
            }
        }
        assert forall|i: int| 0 <= i < kept.len() implies (#[trigger] kept[i]).range.start
            <= kept[i].range.end by {
            assert(spans.contains(kept[i]));
            let k = choose|k: int| 0 <= k < spans.len() && spans[k] == kept[i];
            assert(spans[k].range.start <= spans[k].range.end);
        }
    }
}

/// Whether ranges are sorted and don't overlap.
pub open spec fn ranges_in_order(ranges: Seq<Range<usize>>) -> bool {
    &&& forall|i: int|
        0 <= i < ranges.len() ==> (#[trigger] ranges[i]).start <= ranges[i].end
    &&& forall|i: int, j: int|
        #![trigger ranges[i], ranges[j]]
        0 <= i < j < ranges.len() ==> ranges[i].end <= ranges[j].start
}

/// Keep spans that overlap any of `lines` (sorted, non-overlapping byte ranges).
pub fn retain_on_lines(spans: Vec<Span>, lines: &[Range<usize>]) -> (kept: Vec<Span>)
    requires
        syntax::spans_in_order(spans@),
        ranges_in_order(lines@),
    ensures
        kept@ == spans_on(spans@, lines@),
        syntax::spans_in_order(kept@),
{
    proof {
        lemma_spans_on(spans@, lines@);
    }
    let ghost all = spans@;
    let mut kept: Vec<Span> = Vec::new();
    let mut line: usize = 0;
    assert(all.take(0) =~= Seq::<Span>::empty());
    for span in iter: spans
        invariant
            iter.seq() == all,
            syntax::spans_in_order(all),
            ranges_in_order(lines@),
            line <= lines@.len(),
            kept@ == spans_on(all.take(iter.index() as int), lines@),
            forall|k: int, i: int|
                0 <= k < line && iter.index() <= i < all.len() ==> (#[trigger] lines@[k]).end
                    <= (#[trigger] all[i]).range.start,
    {
        let ghost n = iter.index() as int;
        assert(all.take(n + 1).drop_last() =~= all.take(n));
        assert(all.take(n + 1).last() == span);
        assert(span == all[n]);
        while line < lines.len() && lines[line].end <= span.range.start
            invariant
                0 <= n < all.len(),
                span == all[n],
                syntax::spans_in_order(all),
                line <= lines@.len(),
                forall|k: int, i: int|
                    0 <= k < line && n <= i < all.len() ==> (#[trigger] lines@[k]).end <= (
                    #[trigger] all[i]).range.start,
            decreases lines.len() - line,
        {
            assert forall|i: int| n <= i < all.len() implies lines@[line as int].end <= (
            #[trigger] all[i]).range.start by {
                if i > n {
                    assert(all[n].range.end <= all[i].range.start);
                }
            }
            line = line + 1;
        }
        // A span may start before a line and still overlap it (multi-line comments).
        let keep = line < lines.len() && lines[line].start < span.range.end;
        proof {
            if keep {
                assert(on_lines(span, lines@)) by {
                    assert(lines@[line as int].end > span.range.start);
                }
            } else if on_lines(span, lines@) {
                let k = choose|k: int|
                    0 <= k < lines@.len() && (#[trigger] lines@[k]).end > span.range.start
                        && lines@[k].start < span.range.end;
                if k < line {
                    assert(lines@[k].end <= all[n].range.start);
                } else if k > line {
                    assert(lines@[line as int].end <= lines@[k].start);
                    assert(lines@[line as int].start <= lines@[line as int].end);
                }
            }
        }
        if keep {
            kept.push(span);
        }
    }
    assert(all.take(all.len() as int) =~= all);
    kept
}

/// The content ranges of the removed lines, or of the others.
pub open spec fn shown_ranges(lines: Seq<DiffLine>, removed: bool) -> Seq<Range<usize>>
    decreases lines.len(),
{
    if lines.len() == 0 {
        Seq::empty()
    } else if (lines.last().kind == LineKind::Removed) == removed {
        shown_ranges(lines.drop_last(), removed).push(lines.last().content)
    } else {
        shown_ranges(lines.drop_last(), removed)
    }
}

fn collect_ranges(lines: &[DiffLine], removed: bool) -> (ranges: Vec<Range<usize>>)
    ensures
        ranges@ == shown_ranges(lines@, removed),
{
    let mut ranges: Vec<Range<usize>> = Vec::new();
    let mut i: usize = 0;
    assert(lines@.take(0) =~= Seq::<DiffLine>::empty());
    while i < lines.len()
        invariant
            i <= lines@.len(),
            ranges@ == shown_ranges(lines@.take(i as int), removed),
        decreases lines.len() - i,
    {
        assert(lines@.take(i + 1).drop_last() =~= lines@.take(i as int));
        if (lines[i].kind == LineKind::Removed) == removed {
            ranges.push(Range { start: lines[i].content.start, end: lines[i].content.end });
        }
        i = i + 1;
    }
    assert(lines@.take(i as int) =~= lines@);
    ranges
}

/// Whether a range is the content of one of the first lines of a side.
spec fn content_shown(
    lines: Seq<DiffLine>,
    removed: bool,
    count: int,
    range: Range<usize>,
) -> bool {
    exists|i: int|
        0 <= i < count && (lines[i].kind == LineKind::Removed) == removed && (
        #[trigger] lines[i]).content == range
}

/// The content ranges of one side's lines are in order.
proof fn lemma_ranges(diff: FileDiff, removed: bool, count: int)
    requires
        diff.wf(),
        0 <= count <= diff.lines@.len(),
    ensures
        ranges_in_order(shown_ranges(diff.lines@.take(count), removed)),
        forall|k: int|
            0 <= k < shown_ranges(diff.lines@.take(count), removed).len() ==> content_shown(
                diff.lines@,
                removed,
                count,
                #[trigger] shown_ranges(diff.lines@.take(count), removed)[k],
            ),
    decreases count,
{
    if count > 0 {
        lemma_ranges(diff, removed, count - 1);
        let lines = diff.lines@;
        assert(lines.take(count).drop_last() =~= lines.take(count - 1));
        assert(lines.take(count).last() == lines[count - 1]);
        let before = shown_ranges(lines.take(count - 1), removed);
        let all = shown_ranges(lines.take(count), removed);
        diff.lemma_line_at(count - 1);
        assert forall|i: int, j: int|
            #![trigger all[i], all[j]]
            0 <= i < j < all.len() implies all[i].end <= all[j].start by {
            if j == before.len() {
                assert(content_shown(lines, removed, count - 1, before[i]));
                let x = choose|x: int|
                    0 <= x < count - 1 && (lines[x].kind == LineKind::Removed) == removed && (
                    #[trigger] lines[x]).content == before[i];
                diff.lemma_content_before(x, count - 1);
            } else {
                assert(before[i].end <= before[j].start);
            }
        }
        assert forall|k: int| 0 <= k < all.len() implies content_shown(
            lines,
            removed,
            count,
            #[trigger] all[k],
        ) by {
            if k < before.len() {
                assert(content_shown(lines, removed, count - 1, before[k]));
                let x = choose|x: int|
                    0 <= x < count - 1 && (lines[x].kind == LineKind::Removed) == removed && (
                    #[trigger] lines[x]).content == before[k];
                assert(lines[x].content == all[k]);
            } else {
                assert(lines[count - 1].content == all[k]);
            }
        }
        assert forall|i: int| 0 <= i < all.len() implies (#[trigger] all[i]).start
            <= all[i].end by {
            if i < before.len() {
                assert(before[i].start <= before[i].end);
            }
        }
    }
}

/// Highlight both sides of a diff. Whole files are parsed (highlighting depends on
/// context), but only spans on lines the diff shows are kept, which keeps memory
/// proportional to the diff rather than to file size.
pub fn highlight_diff(language: Language, diff: &FileDiff) -> (highlights: Highlights)
    requires
        diff.wf(),
    ensures
        highlights.old@ == spans_on(
            match syntax::language_events(language, diff.old@) {
                Some(events) => syntax::after_events(events).0,
                None => Seq::empty(),
            },
            shown_ranges(diff.lines@, true),
        ),
        highlights.new@ == spans_on(
            match syntax::language_events(language, diff.new@) {
                Some(events) => syntax::after_events(events).0,
                None => Seq::empty(),
            },
            shown_ranges(diff.lines@, false),
        ),
        syntax::spans_in_order(highlights.old@),
        syntax::spans_in_order(highlights.new@),
{
    let removed = collect_ranges(diff.lines.as_slice(), true);
    let others = collect_ranges(diff.lines.as_slice(), false);
    proof {
        lemma_ranges(*diff, true, diff.lines@.len() as int);
        lemma_ranges(*diff, false, diff.lines@.len() as int);
        assert(diff.lines@.take(diff.lines@.len() as int) =~= diff.lines@);
    }
    Highlights {
        old: retain_on_lines(highlight(language, diff.old.bytes()), removed.as_slice()),
        new: retain_on_lines(highlight(language, diff.new.bytes()), others.as_slice()),
    }
}

/// What to show of a change once loading it has come to an end: highlighted if it is a text
/// in a known language, or the reason why it failed.
pub fn file_load(change: &FileChange, loaded: Result<Loaded, String>) -> (load: FileLoad)
    requires
        loaded matches Ok(Loaded::Text(d)) ==> d.wf(),
    ensures
        match loaded {
            Ok(l) => {
                &&& load.content == Content::Loaded(l)
                &&& match (
                    l,
                    syntax::path_language(
                        vstd::utf8::encode_utf8(crate::text::str_lossy(change.path@)),
                    ),
                ) {
                    (Loaded::Text(d), Some(language)) => load.highlights matches Some(h)
                        && h.old@ == spans_on(
                        match syntax::language_events(language, d.old@) {
                            Some(events) => syntax::after_events(events).0,
                            None => Seq::empty(),
                        },
                        shown_ranges(d.lines@, true),
                    ) && h.new@ == spans_on(
                        match syntax::language_events(language, d.new@) {
                            Some(events) => syntax::after_events(events).0,
                            None => Seq::empty(),
                        },
                        shown_ranges(d.lines@, false),
                    ),
                    _ => load.highlights is None,
                }
            },
            Err(message) => load.content == Content::Failed(message) && load.highlights is None,
        },
        highlights_ok(load.highlights),
{
    match loaded {
        Ok(loaded) => {
            let highlights = match (&loaded, Language::for_path(change.path_lossy().as_str())) {
                (Loaded::Text(d), Some(language)) => Some(Arc::new(highlight_diff(language, d))),
                _ => None,
            };
            FileLoad { content: Content::Loaded(loaded), highlights }
        },
        Err(message) => FileLoad { content: Content::Failed(message), highlights: None },
    }
}

// ---------------------------------------------------------------------------
// Reusing loads.

/// Which worktree paths may have changed since a review was loaded.
#[derive(Debug, PartialEq, Eq)]
pub enum Dirty {
    All,
    Paths(Vec<Vec<u8>>),
}

/// Whether a path is one of those listed.
pub open spec fn is_listed(paths: Seq<Vec<u8>>, path: Seq<u8>) -> bool {
    exists|i: int| 0 <= i < paths.len() && (#[trigger] paths[i])@ == path
}

/// Whether a path may have changed.
pub open spec fn is_dirty(dirty: Dirty, path: Seq<u8>) -> bool {
    match dirty {
        Dirty::All => true,
        Dirty::Paths(paths) => is_listed(paths@, path),
    }
}

/// Whether no path is listed twice.
pub open spec fn listed_once(paths: Seq<Vec<u8>>) -> bool {
    forall|i: int, j: int|
        #![trigger paths[i], paths[j]]
        0 <= i < j < paths.len() ==> paths[i]@ != paths[j]@
}

proof fn lemma_listed_pushed(paths: Seq<Vec<u8>>, last: Vec<u8>, path: Seq<u8>)
    ensures
        is_listed(paths.push(last), path) <==> is_listed(paths, path) || last@ == path,
{
    let all = paths.push(last);
    if is_listed(paths, path) {
        let i = choose|i: int| 0 <= i < paths.len() && (#[trigger] paths[i])@ == path;
        assert(all[i]@ == path);
    }
    if last@ == path {
        assert(all[paths.len() as int]@ == path);
    }
    if is_listed(all, path) {
        let i = choose|i: int| 0 <= i < all.len() && (#[trigger] all[i])@ == path;
        if i < paths.len() {
            assert(paths[i]@ == path);
        }
    }
}

fn lists(paths: &[Vec<u8>], path: &[u8]) -> (result: bool)
    ensures
        result == is_listed(paths@, path@),
{
    let mut i: usize = 0;
    while i < paths.len()
        invariant
            i <= paths@.len(),
            forall|k: int| 0 <= k < i ==> (#[trigger] paths@[k])@ != path@,
        decreases paths.len() - i,
    {
        if same(paths[i].as_slice(), path) {
            assert(paths@[i as int]@ == path@);
            return true;
        }
        i = i + 1;
    }
    false
}

/// Lists paths that are not listed yet.
pub(crate) fn add_paths(paths: &mut Vec<Vec<u8>>, more: Vec<Vec<u8>>)
    ensures
        forall|path: Seq<u8>| #[trigger]
            is_listed(final(paths)@, path) <==> is_listed(old(paths)@, path) || is_listed(
                more@,
                path,
            ),
        listed_once(old(paths)@) ==> listed_once(final(paths)@),
{
    let ghost all = more@;
    for path in iter: more
        invariant
            iter.seq() == all,
            forall|p: Seq<u8>| #[trigger]
                is_listed(paths@, p) <==> is_listed(old(paths)@, p) || is_listed(
                    all.take(iter.index() as int),
                    p,
                ),
            listed_once(old(paths)@) ==> listed_once(paths@),
    {
        let ghost before = paths@;
        proof {
            let n = iter.index() as int;
            assert(all.take(n + 1) =~= all.take(n).push(path));
            assert forall|p: Seq<u8>| #[trigger]
                is_listed(all.take(n + 1), p) <==> is_listed(all.take(n), p) || path@ == p by {
                lemma_listed_pushed(all.take(n), path, p);
            }
            assert forall|p: Seq<u8>| #[trigger]
                is_listed(before.push(path), p) <==> is_listed(before, p) || path@ == p by {
                lemma_listed_pushed(before, path, p);
            }
        }
        if !lists(paths.as_slice(), path.as_slice()) {
            proof {
                assert forall|i: int| 0 <= i < before.len() implies (#[trigger] before[i])@
                    != path@ by {}
            }
            paths.push(path);
        }
    }
    assert(all.take(all.len() as int) =~= all);
}

impl Dirty {
    /// Adds what `other` says may have changed.
    pub fn merge(&mut self, other: Dirty)
        ensures
            forall|path: Seq<u8>| #[trigger]
                is_dirty(*final(self), path) <==> is_dirty(*old(self), path) || is_dirty(
                    other,
                    path,
                ),
            *final(self) is All <==> *old(self) is All || other is All,
            *old(self) matches Dirty::Paths(mine) && listed_once(mine@) ==> (
            *final(self) matches Dirty::Paths(merged) ==> listed_once(merged@)),
    {
        match other {
            Dirty::All => {
                *self = Dirty::All;
            },
            Dirty::Paths(theirs) => {
                if let Dirty::Paths(mine) = self {
                    add_paths(mine, theirs);
                }
            },
        }
    }

    /// Whether a path may have changed.
    pub fn contains(&self, path: &[u8]) -> (result: bool)
        ensures
            result == is_dirty(*self, path@),
    {
        match self {
            Dirty::All => true,
            Dirty::Paths(paths) => lists(paths.as_slice(), path),
        }
    }
}

/// Whether a file holds a load of a change.
pub open spec fn holds_load(file: ReviewFile, change: FileChange) -> bool {
    repo::same_change(file.change, change) && !(file.content is Pending)
}

/// Whether a change has a worktree side at a path that may have changed.
pub open spec fn touches_dirty(change: FileChange, dirty: Dirty) -> bool {
    (change.old is Worktree || change.new is Worktree) && is_dirty(dirty, change.path@)
}

/// What becomes of a change's load: the first one of the same change that is still valid.
pub open spec fn reused(
    previous: Seq<ReviewFile>,
    change: FileChange,
    dirty: Dirty,
    load: Option<FileLoad>,
) -> bool {
    match load {
        None => touches_dirty(change, dirty) || forall|i: int|
            0 <= i < previous.len() ==> !holds_load(#[trigger] previous[i], change),
        Some(l) => !touches_dirty(change, dirty) && exists|i: int|
            {
                &&& 0 <= i < previous.len()
                &&& holds_load(#[trigger] previous[i], change)
                &&& forall|j: int| 0 <= j < i ==> !holds_load(#[trigger] previous[j], change)
                &&& l.content == previous[i].content
                &&& l.highlights == previous[i].highlights
            },
    }
}

fn reuse_load(previous: &[ReviewFile], change: &FileChange, dirty: &Dirty) -> (load: Option<
    FileLoad,
>)
    ensures
        reused(previous@, *change, *dirty, load),
{
    let on_worktree = change.old.same(&Source::Worktree) || change.new.same(&Source::Worktree);
    if on_worktree && dirty.contains(change.path.as_slice()) {
        return None;
    }
    let mut i: usize = 0;
    while i < previous.len()
        invariant
            i <= previous@.len(),
            !touches_dirty(*change, *dirty),
            forall|j: int| 0 <= j < i ==> !holds_load(#[trigger] previous@[j], *change),
        decreases previous.len() - i,
    {
        let file = &previous[i];
        let pending = match &file.content {
            Content::Pending => true,
            _ => false,
        };
        if !pending && file.change.same(change) {
            assert(holds_load(previous@[i as int], *change));
            return Some(
                FileLoad {
                    content: file.content.copy(),
                    highlights: share_option(&file.highlights),
                },
            );
        }
        i = i + 1;
    }
    None
}

/// For each of `changes`, the load from `previous` that is still valid: same section,
/// paths and blob ids, and no worktree side at a dirty path. `None` must be reloaded.
pub fn reuse_loads(previous: &[ReviewFile], changes: &[FileChange], dirty: &Dirty) -> (loads: Vec<
    Option<FileLoad>,
>)
    ensures
        loads@.len() == changes@.len(),
        forall|i: int|
            0 <= i < changes@.len() ==> reused(
                previous@,
                changes@[i],
                *dirty,
                #[trigger] loads@[i],
            ),
{
    let mut loads: Vec<Option<FileLoad>> = Vec::new();
    let mut i: usize = 0;
    while i < changes.len()
        invariant
            i == loads@.len() <= changes@.len(),
            forall|k: int|
                0 <= k < i ==> reused(previous@, changes@[k], *dirty, #[trigger] loads@[k]),
        decreases changes.len() - i,
    {
        loads.push(reuse_load(previous, &changes[i], dirty));
        i = i + 1;
    }
    loads
}

// ---------------------------------------------------------------------------
// The review.

/// The part of a file an action applies to.
#[derive(Debug, PartialEq, Eq)]
pub enum Target {
    WholeFile,
    /// Indices into the file's diff lines.
    Lines(Vec<usize>),
}

/// A position in the stream that survives a reload: a file (by section and path) and a
/// row offset within it.
#[derive(Debug, PartialEq, Eq)]
pub struct Anchor {
    pub section: Section,
    pub path: Vec<u8>,
    pub offset: usize,
}

/// What a review holds.
pub struct ReviewView {
    pub root: Seq<u8>,
    pub files: Seq<ReviewFile>,
    pub rows: Seq<Row>,
    /// Per file, the row of its header.
    pub starts: Seq<usize>,
    /// The rows of hunk headers, in order.
    pub hunk_rows: Seq<usize>,
    /// The rows of changed lines that are new since the last look, in order.
    pub new_rows: Seq<usize>,
    pub new_per_file: Seq<usize>,
    pub hashes: Seq<Vec<u64>>,
    pub tree: Seq<tree::TreeRowView>,
    pub collapsed: Set<(Section, Seq<char>)>,
    pub seen: Option<Map<Seq<char>, Set<u64>>>,
    pub reviewed: Set<u64>,
    pub comments: Seq<Comment>,
    pub layout: DiffLayout,
}

/// Whether numbers ascend.
pub open spec fn ascending(list: Seq<usize>) -> bool {
    forall|i: int, j: int|
        #![trigger list[i], list[j]]
        0 <= i < j < list.len() ==> list[i] < list[j]
}

/// Whether a list holds, in order, the positions that are marked.
pub open spec fn positions(list: Seq<usize>, marks: Seq<bool>) -> bool {
    &&& ascending(list)
    &&& forall|k: int|
        0 <= k < list.len() ==> (#[trigger] list[k]) < marks.len() && marks[list[k] as int]
    &&& forall|r: int| 0 <= r < marks.len() && #[trigger] marks[r] ==> list.contains(r as usize)
}

/// Which rows are hunk headers.
pub open spec fn hunk_marks(rows: Seq<Row>) -> Seq<bool> {
    Seq::new(rows.len(), |r: int| rows[r] is Hunk)
}

/// Which rows are new since the last look.
pub open spec fn new_marks(
    files: Seq<ReviewFile>,
    seen: Option<Map<Seq<char>, Set<u64>>>,
    rows: Seq<Row>,
) -> Seq<bool> {
    Seq::new(rows.len(), |r: int| rows::new_row(files, seen, rows[r]))
}

/// How many of the first `count` rows are new rows of a file.
pub open spec fn new_in_file(rows: Seq<Row>, marks: Seq<bool>, file: int, count: int) -> nat
    decreases count,
{
    if count <= 0 {
        0
    } else {
        new_in_file(rows, marks, file, count - 1) + (if marks[count - 1] && rows[count
            - 1].file_of() == file {
            1nat
        } else {
            0nat
        })
    }
}

/// Whether `starts` are the rows of the files' headers, and each row lies between its
/// file's header and the next.
pub open spec fn starts_ok(count: nat, rows: Seq<Row>, starts: Seq<usize>) -> bool {
    &&& starts.len() == count
    &&& ascending(starts)
    &&& forall|f: int|
        0 <= f < count ==> (#[trigger] starts[f]) < rows.len() && rows[starts[f] as int] == (
        Row::File { file: f as usize })
    &&& forall|r: int|
        0 <= r < rows.len() ==> {
            let f = (#[trigger] rows[r]).file_of() as int;
            f < count && starts[f] <= r && (f + 1 < count ==> r < starts[f + 1])
        }
}

impl ReviewView {
    /// What the rows show beside the files.
    pub open spec fn showing(self) -> rows::Showing {
        rows::Showing {
            comments: self.comments,
            reviewed: self.reviewed,
            split: self.layout == DiffLayout::Split,
        }
    }

    /// What always holds: the rows and the lists of rows fit each other.
    pub open spec fn wf(self) -> bool {
        &&& self.rows.len() <= usize::MAX
        &&& self.files.len() <= usize::MAX
        &&& self.comments.len() <= usize::MAX
        &&& starts_ok(self.files.len(), self.rows, self.starts)
        &&& positions(self.hunk_rows, hunk_marks(self.rows))
        &&& ascending(self.new_rows)
        &&& forall|k: int| 0 <= k < self.new_rows.len() ==> self.new_rows[k] < self.rows.len()
        &&& self.new_per_file.len() == self.files.len()
        &&& self.hashes.len() == self.files.len()
    }

    /// What holds after the rows were rebuilt: they show the files as they are.
    pub open spec fn fresh(self) -> bool {
        &&& self.wf()
        &&& rows::files_wf(self.files)
        &&& self.rows == rows::all_rows(self.showing(), self.files)
        &&& rows::hashes_match(self.files, self.hashes)
        &&& positions(self.new_rows, new_marks(self.files, self.seen, self.rows))
        &&& forall|f: int|
            0 <= f < self.files.len() ==> #[trigger] self.new_per_file[f] == new_in_file(
                self.rows,
                new_marks(self.files, self.seen, self.rows),
                f,
                self.rows.len() as int,
            )
    }

    /// The same review with other rows.
    pub open spec fn same_state(self, other: ReviewView) -> bool {
        &&& self.root == other.root
        &&& self.files == other.files
        &&& self.tree == other.tree
        &&& self.collapsed == other.collapsed
        &&& self.seen == other.seen
        &&& self.reviewed == other.reviewed
        &&& self.comments == other.comments
        &&& self.layout == other.layout
    }
}

/// Whether `found` is the first number of the list after `row`.
pub open spec fn first_after(list: Seq<usize>, row: usize, found: Option<usize>) -> bool {
    match found {
        Some(r) => list.contains(r) && row < r && forall|k: int|
            0 <= k < list.len() ==> #[trigger] list[k] <= row || r <= list[k],
        None => forall|k: int| 0 <= k < list.len() ==> #[trigger] list[k] <= row,
    }
}

/// Whether `found` is the last number of the list before `row`.
pub open spec fn last_before(list: Seq<usize>, row: usize, found: Option<usize>) -> bool {
    match found {
        Some(r) => list.contains(r) && r < row && forall|k: int|
            0 <= k < list.len() ==> #[trigger] list[k] <= r || row <= list[k],
        None => forall|k: int| 0 <= k < list.len() ==> row <= #[trigger] list[k],
    }
}

/// How many numbers of an ascending list are less than `bound`.
fn count_below(list: &[usize], bound: usize) -> (count: usize)
    requires
        ascending(list@),
    ensures
        count <= list@.len(),
        forall|k: int| 0 <= k < count ==> #[trigger] list@[k] < bound,
        forall|k: int| count <= k < list@.len() ==> bound <= #[trigger] list@[k],
{
    let mut low: usize = 0;
    let mut high: usize = list.len();
    while low < high
        invariant
            low <= high <= list@.len(),
            ascending(list@),
            forall|k: int| 0 <= k < low ==> #[trigger] list@[k] < bound,
            forall|k: int| high <= k < list@.len() ==> bound <= #[trigger] list@[k],
        decreases high - low,
    {
        let mid: usize = low + (high - low) / 2;
        if list[mid] < bound {
            low = mid + 1;
        } else {
            high = mid;
        }
    }
    low
}

fn find_after(list: &[usize], row: usize) -> (found: Option<usize>)
    requires
        ascending(list@),
    ensures
        first_after(list@, row, found),
{
    if row == usize::MAX {
        return None;
    }
    let ix = count_below(list, row + 1);
    if ix < list.len() {
        assert(list@[ix as int] == list@[ix as int]);
        assert forall|k: int| 0 <= k < list@.len() implies #[trigger] list@[k] <= row
            || list@[ix as int] <= list@[k] by {}
        Some(list[ix])
    } else {
        None
    }
}

fn find_before(list: &[usize], row: usize) -> (found: Option<usize>)
    requires
        ascending(list@),
    ensures
        last_before(list@, row, found),
{
    let ix = count_below(list, row);
    if ix > 0 {
        assert forall|k: int| 0 <= k < list@.len() implies #[trigger] list@[k] <= list@[ix - 1]
            || row <= list@[k] by {}
        Some(list[ix - 1])
    } else {
        None
    }
}

/// Whether a hunk holds a line.
pub open spec fn holds_line(hunk: diff::Hunk, line: int) -> bool {
    hunk.lines.start <= line < hunk.lines.end
}

/// The first hunk from `h` on that holds a line.
pub open spec fn hunk_from(hunks: Seq<diff::Hunk>, line: int, h: int) -> Option<int>
    decreases hunks.len() - h,
{
    if h >= hunks.len() {
        None
    } else if holds_line(hunks[h], line) {
        Some(h)
    } else {
        hunk_from(hunks, line, h + 1)
    }
}

fn find_hunk(d: &FileDiff, line: usize) -> (found: Option<usize>)
    ensures
        match found {
            Some(h) => h < d.hunks@.len() && hunk_from(d.hunks@, line as int, 0) == Some(h as int),
            None => hunk_from(d.hunks@, line as int, 0) is None,
        },
{
    let mut h: usize = 0;
    while h < d.hunks.len()
        invariant
            h <= d.hunks@.len(),
            hunk_from(d.hunks@, line as int, 0) == hunk_from(d.hunks@, line as int, h as int),
        decreases d.hunks.len() - h,
    {
        if d.hunks[h].lines.start <= line && line < d.hunks[h].lines.end {
            return Some(h);
        }
        h = h + 1;
    }
    None
}

/// The line by which a row of lines belongs to a hunk.
pub open spec fn row_line(row: Row) -> Option<usize> {
    match row {
        Row::Line { line, .. } => Some(line),
        Row::Pair { old: Some(line), .. } => Some(line),
        Row::Pair { new, .. } => new,
        _ => None,
    }
}

fn line_of_row(row: Row) -> (line: Option<usize>)
    ensures
        line == row_line(row),
{
    match row {
        Row::Line { line, .. } => Some(line),
        Row::Pair { old: Some(line), .. } => Some(line),
        Row::Pair { new, .. } => new,
        _ => None,
    }
}

/// The numbers of a hunk's lines.
pub open spec fn hunk_lines(hunk: diff::Hunk) -> Seq<usize> {
    Seq::new(
        (hunk.lines.end - hunk.lines.start) as nat,
        |i: int| (hunk.lines.start + i) as usize,
    )
}

fn lines_of_hunk(d: &FileDiff, hunk: usize) -> (lines: Vec<usize>)
    requires
        d.wf(),
        hunk < d.hunks@.len(),
    ensures
        lines@ == hunk_lines(d.hunks@[hunk as int]),
{
    proof {
        d.lemma_hunk_at(hunk as int);
    }
    let range = &d.hunks[hunk].lines;
    let mut lines: Vec<usize> = Vec::new();
    let mut line: usize = range.start;
    while line < range.end
        invariant
            range.start <= line <= range.end,
            lines@ == Seq::new((line - range.start) as nat, |i: int| (range.start + i) as usize),
        decreases range.end - line,
    {
        lines.push(line);
        line = line + 1;
        assert(lines@ =~= Seq::new(
            (line - range.start) as nat,
            |i: int| (range.start + i) as usize,
        ));
    }
    lines
}

/// Whether a row shows a line of the diff, or is the header of its hunk.
pub open spec fn shows_line(d: FileDiff, row: Row, line: int) -> bool {
    match row {
        Row::Hunk { hunk, .. } => holds_line(d.hunks@[hunk as int], line),
        Row::Line { line: l, .. } => line == l,
        Row::Pair { old, new, .. } => (old matches Some(l) && line == l) || (new matches Some(l)
            && line == l),
        _ => false,
    }
}

/// Whether the selected rows show a line of a file.
pub open spec fn selects_line(v: ReviewView, file: usize, lo: int, hi: int, line: int) -> bool {
    &&& rows::diff_of(v.files[file as int]) is Some
    &&& exists|r: int|
        #![trigger v.rows[r]]
        lo <= r <= hi && v.rows[r].file_of() == file && shows_line(
            rows::diff_of(v.files[file as int])->Some_0,
            v.rows[r],
            line,
        )
}

/// Whether the selected rows hold a file's header.
pub open spec fn selects_header(v: ReviewView, file: usize, lo: int, hi: int) -> bool {
    exists|r: int| lo <= r <= hi && #[trigger] v.rows[r] == (Row::File { file })
}

/// What an action applies to under a selection.
pub open spec fn selection_target(
    v: ReviewView,
    file: usize,
    lo: int,
    hi: int,
    target: Target,
) -> bool {
    if selects_header(v, file, lo, hi) {
        target is WholeFile
    } else {
        &&& target is Lines
        &&& ascending(target->Lines_0@)
        &&& forall|line: usize| #[trigger]
            target->Lines_0@.contains(line) <==> selects_line(v, file, lo, hi, line as int)
    }
}

/// What an action applies to at a row, without a selection.
pub open spec fn row_target(v: ReviewView, row: Row, target: Option<Target>) -> bool {
    let entry = v.files[row.file_of() as int];
    match row {
        Row::File { .. } | Row::Note { .. } | Row::Image { .. } => target == Some(
            Target::WholeFile,
        ),
        Row::Comment { .. } => target is None,
        Row::Hunk { hunk, .. } => rows::diff_of(entry) matches Some(d) && target matches Some(
            Target::Lines(lines),
        ) && lines@ == hunk_lines(d.hunks@[hunk as int]),
        Row::Line { .. } | Row::Pair { .. } => rows::diff_of(entry) matches Some(d) && row_line(
            row,
        ) matches Some(line) && match hunk_from(d.hunks@, line as int, 0) {
            Some(h) => target matches Some(Target::Lines(lines)) && lines@ == hunk_lines(
                d.hunks@[h],
            ),
            None => target is None,
        },
    }
}

/// What an action applies to: with a selection, the selected lines of the cursor's file, or
/// the whole file if its header is selected. Without one, the hunk under the cursor, or the
/// whole file.
pub open spec fn targets(
    v: ReviewView,
    cursor: usize,
    anchor: Option<usize>,
    result: Option<(usize, Target)>,
) -> bool {
    if cursor >= v.rows.len() || v.rows[cursor as int] is Comment {
        result is None
    } else {
        let row = v.rows[cursor as int];
        let file = row.file_of();
        match anchor {
            Some(a) => result matches Some((f, target)) && f == file && selection_target(
                v,
                file,
                if a <= cursor {
                    a as int
                } else {
                    cursor as int
                },
                if a <= cursor {
                    cursor as int
                } else {
                    a as int
                },
                target,
            ),
            None => match result {
                Some((f, target)) => f == file && row_target(v, row, Some(target)),
                None => row_target(v, row, None),
            },
        }
    }
}

/// Whether a file comes before an anchor.
pub open spec fn file_before(file: ReviewFile, anchor: Anchor) -> bool {
    repo::place_before(file.change.section, file.change.path@, anchor.section, anchor.path@)
}

/// The first file from `from` on that doesn't come before an anchor.
pub open spec fn file_from(files: Seq<ReviewFile>, anchor: Anchor, from: int) -> int
    decreases files.len() - from,
{
    if from >= files.len() {
        files.len() as int
    } else if file_before(files[from], anchor) {
        file_from(files, anchor, from + 1)
    } else {
        from
    }
}

/// The row after the last one of a file.
pub open spec fn file_end(v: ReviewView, file: int) -> int {
    if file + 1 < v.starts.len() {
        v.starts[file + 1] as int
    } else {
        v.rows.len() as int
    }
}

/// The row for an anchor: the same offset in the same file (clamped), or the start of the
/// file that now sorts after it, or the last row.
pub open spec fn resolved(v: ReviewView, anchor: Anchor) -> int {
    let ix = file_from(v.files, anchor, 0);
    if ix >= v.files.len() {
        if v.rows.len() == 0 {
            0
        } else {
            v.rows.len() - 1
        }
    } else if v.files[ix].change.section == anchor.section && v.files[ix].change.path@
        == anchor.path@ {
        if v.starts[ix] + anchor.offset < file_end(v, ix) {
            v.starts[ix] + anchor.offset
        } else {
            file_end(v, ix) - 1
        }
    } else {
        v.starts[ix] as int
    }
}

/// How long the text of a row is.
pub open spec fn row_width(files: Seq<ReviewFile>, row: Row) -> nat {
    match rows::diff_of(files[row.file_of() as int]) {
        None => 0,
        Some(d) => match row {
            Row::Line { line, .. } => line_width(d, line),
            Row::Pair { old: Some(a), new: Some(b), .. } => if line_width(d, a) >= line_width(
                d,
                b,
            ) {
                line_width(d, a)
            } else {
                line_width(d, b)
            },
            Row::Pair { old: Some(a), .. } => line_width(d, a),
            Row::Pair { new: Some(b), .. } => line_width(d, b),
            _ => 0,
        },
    }
}

/// How long a line's content is.
pub open spec fn line_width(d: FileDiff, line: usize) -> nat {
    (d.lines@[line as int].content.end - d.lines@[line as int].content.start) as nat
}

/// The hashes of the changed lines among the first `count` of a diff.
pub open spec fn changed_hashes(d: FileDiff, count: int) -> Set<u64>
    decreases count,
{
    if count <= 0 {
        Set::empty()
    } else {
        let l = d.lines@[count - 1];
        let before = changed_hashes(d, count - 1);
        if l.kind == LineKind::Context {
            before
        } else {
            before.insert(rows::line_hash_of(l.kind, diff::shown_bytes(d.old@, d.new@, l)))
        }
    }
}

/// The lines seen at a path, if any.
pub open spec fn seen_at(seen: Map<Seq<char>, Set<u64>>, path: Seq<char>) -> Set<u64> {
    if seen.contains_key(path) {
        seen[path]
    } else {
        Set::empty()
    }
}

/// Every changed line of the first `count` files, by path.
pub open spec fn snapshot(files: Seq<ReviewFile>, count: int) -> Map<Seq<char>, Set<u64>>
    decreases count,
{
    if count <= 0 {
        Map::empty()
    } else {
        let before = snapshot(files, count - 1);
        match rows::diff_of(files[count - 1]) {
            None => before,
            Some(d) => {
                let path = crate::text::str_lossy(files[count - 1].change.path@);
                before.insert(
                    path,
                    seen_at(before, path).union(changed_hashes(d, d.lines@.len() as int)),
                )
            },
        }
    }
}

/// Whether marking at a row marks a hunk: the hunk of the row, or on a row without one every
/// hunk of the file.
pub open spec fn marks_hunk(v: ReviewView, row: Row, hunk: int) -> bool {
    match row {
        Row::Hunk { hunk: h, .. } => hunk == h,
        Row::Line { .. } | Row::Pair { .. } => rows::diff_of(v.files[row.file_of() as int]) matches Some(
            d,
        ) && row_line(row) matches Some(line) && hunk_from(d.hunks@, line as int, 0) == Some(hunk),
        _ => 0 <= hunk < v.hashes[row.file_of() as int]@.len(),
    }
}

/// The hashes that marking at a row marks.
pub open spec fn marked_hashes(v: ReviewView, row: Row) -> Set<u64> {
    Set::new(
        |hash: u64|
            exists|h: int|
                0 <= h < v.hashes[row.file_of() as int]@.len() && marks_hunk(v, row, h)
                    && #[trigger] v.hashes[row.file_of() as int]@[h] == hash,
    )
}

/// What is reviewed after toggling `marked`: without them if all of them were, else with
/// them.
pub open spec fn toggled(reviewed: Set<u64>, marked: Set<u64>) -> Set<u64> {
    if marked.subset_of(reviewed) {
        reviewed.difference(marked)
    } else {
        reviewed.union(marked)
    }
}

/// A review: the changes, the diff stream as rows, and the file tree.
pub struct Review {
    pub root: Vec<u8>,
    pub files: Vec<ReviewFile>,
    rows: Vec<Row>,
    file_rows: Vec<usize>,
    hunk_rows: Vec<usize>,
    tree: Vec<TreeRow>,
    collapsed: Collapsed,
    /// Changed lines at the last look; `None` means nothing counts as new.
    seen: Option<Seen>,
    /// Rows of changed lines not in `seen`, sorted.
    new_rows: Vec<usize>,
    new_per_file: Vec<usize>,
    /// Hashes of reviewed hunks (see [`hunk_hash`]).
    reviewed: HashSet<u64>,
    /// Per file, the hash of each hunk (computed on rebuild).
    hunk_hashes: Vec<Vec<u64>>,
    comments: Vec<Comment>,
    layout: DiffLayout,
}

impl View for Review {
    type V = ReviewView;

    closed spec fn view(&self) -> ReviewView {
        ReviewView {
            root: self.root@,
            files: self.files@,
            rows: self.rows@,
            starts: self.file_rows@,
            hunk_rows: self.hunk_rows@,
            new_rows: self.new_rows@,
            new_per_file: self.new_per_file@,
            hashes: self.hunk_hashes@,
            tree: tree::tree_view(self.tree@),
            collapsed: self.collapsed@,
            seen: match self.seen {
                Some(s) => Some(s@),
                None => None,
            },
            reviewed: self.reviewed@,
            comments: self.comments@,
            layout: self.layout,
        }
    }
}

impl Review {
    /// Rebuilds the row stream from current file contents.
    pub fn rebuild_rows(&mut self)
        requires
            rows::files_wf(old(self)@.files),
        ensures
            final(self)@.fresh(),
            final(self)@.same_state(old(self)@),
    {
        let hashes = hash_hunks(self.files.as_slice());
        let (rows, starts) = build_rows(
            self.files.as_slice(),
            self.comments.as_slice(),
            &self.reviewed,
            self.layout == DiffLayout::Split,
            hashes.as_slice(),
        );
        let ghost show = self@.showing();
        let file_count: usize = self.files.len();
        let comment_count: usize = self.comments.len();
        let row_count: usize = rows.len();
        proof {
            lemma_starts(show, self.files@, rows@, starts@);
        }
        let mut hunk_rows: Vec<usize> = Vec::new();
        let mut new_rows: Vec<usize> = Vec::new();
        let mut new_per_file: Vec<usize> = Vec::new();
        let mut f: usize = 0;
        while f < file_count
            invariant
                f == new_per_file@.len() <= file_count,
                forall|k: int| 0 <= k < f ==> #[trigger] new_per_file@[k] == 0,
            decreases file_count - f,
        {
            new_per_file.push(0);
            f = f + 1;
        }
        let ghost hunks = hunk_marks(rows@);
        let ghost news = new_marks(self.files@, self@.seen, rows@);
        let mut r: usize = 0;
        assert(hunks.take(0) =~= Seq::<bool>::empty());
        assert(news.take(0) =~= Seq::<bool>::empty());
        while r < row_count
            invariant
                r <= row_count == rows@.len(),
                file_count == self.files@.len(),
                comment_count == self.comments@.len(),
                *self == *old(self),
                rows::files_wf(self.files@),
                show == self@.showing(),
                rows@ == rows::all_rows(show, self.files@),
                hunks == hunk_marks(rows@),
                news == new_marks(self.files@, self@.seen, rows@),
                positions(hunk_rows@, hunks.take(r as int)),
                positions(new_rows@, news.take(r as int)),
                new_per_file@.len() == file_count,
                forall|k: int|
                    0 <= k < file_count ==> #[trigger] new_per_file@[k] == new_in_file(
                        rows@,
                        news,
                        k,
                        r as int,
                    ) <= r,
            decreases row_count - r,
        {
            let row = rows[r];
            let ghost counts = new_per_file@;
            proof {
                rows::lemma_row_at(show, self.files@, self.files@.len() as int, r as int);
                assert(rows::row_ok(show, self.files@[row.file_of() as int], row));
                lemma_next_mark(hunk_rows@, hunks, r as int);
                lemma_next_mark(new_rows@, news, r as int);
            }
            let is_hunk = match row {
                Row::Hunk { .. } => true,
                _ => false,
            };
            if is_hunk {
                hunk_rows.push(r);
            }
            if is_new_row(self.files.as_slice(), &self.seen, row) {
                new_rows.push(r);
                let file = row.file();
                let count: usize = new_per_file[file];
                new_per_file.set(file, count + 1);
            }
            r = r + 1;
            proof {
                assert forall|k: int| 0 <= k < file_count implies #[trigger] new_per_file@[k]
                    == new_in_file(rows@, news, k, r as int) <= r by {
                    assert(counts[k] == new_in_file(rows@, news, k, r - 1));
                }
            }
        }
        assert(hunks.take(r as int) =~= hunks);
        assert(news.take(r as int) =~= news);
        self.rows = rows;
        self.file_rows = starts;
        self.hunk_rows = hunk_rows;
        self.new_rows = new_rows;
        self.new_per_file = new_per_file;
        self.hunk_hashes = hashes;
    }
}

/// Positions of the first `at` marks, and of one more.
proof fn lemma_next_mark(list: Seq<usize>, marks: Seq<bool>, at: int)
    requires
        0 <= at < marks.len() <= usize::MAX,
        positions(list, marks.take(at)),
    ensures
        marks[at] ==> positions(list.push(at as usize), marks.take(at + 1)),
        !marks[at] ==> positions(list, marks.take(at + 1)),
{
    let before = marks.take(at);
    let after = marks.take(at + 1);
    let longer = list.push(at as usize);
    assert forall|r: int| 0 <= r < after.len() && #[trigger] after[r] && r < at implies list.contains(
        r as usize,
    ) && longer.contains(r as usize) by {
        assert(before[r]);
        let k = list.index_of(r as usize);
        assert(longer[k] == r as usize);
    }
    assert(longer[list.len() as int] == at as usize);
}

/// Where the files start among the rows.
proof fn lemma_starts(
    show: rows::Showing,
    files: Seq<ReviewFile>,
    all: Seq<Row>,
    starts: Seq<usize>,
)
    requires
        rows::files_wf(files),
        files.len() <= usize::MAX,
        show.comments.len() <= usize::MAX,
        all == rows::all_rows(show, files),
        starts.len() == files.len(),
        forall|f: int|
            0 <= f < files.len() ==> #[trigger] starts[f] == rows::rows_upto(
                show,
                files,
                f,
            ).rows.len(),
    ensures
        starts_ok(files.len(), all, starts),
{
    assert forall|i: int, j: int|
        #![trigger starts[i], starts[j]]
        0 <= i < j < starts.len() implies starts[i] < starts[j] by {
        rows::lemma_starts_less(show, files, i, j);
    }
    assert forall|f: int| 0 <= f < files.len() implies (#[trigger] starts[f]) < all.len()
        && all[starts[f] as int] == (Row::File { file: f as usize }) by {
        rows::lemma_header_at(show, files, f, files.len() as int);
    }
    assert forall|r: int| 0 <= r < all.len() implies {
        let f = (#[trigger] all[r]).file_of() as int;
        f < files.len() && starts[f] <= r && (f + 1 < files.len() ==> r < starts[f + 1])
    } by {
        rows::lemma_row_at(show, files, files.len() as int, r);
    }
}

/// What the records of a fresh review say of a row.
pub proof fn lemma_fresh_row(v: ReviewView, r: int)
    requires
        v.fresh(),
        0 <= r < v.rows.len(),
    ensures
        v.rows[r].file_of() < v.files.len(),
        rows::row_ok(v.showing(), v.files[v.rows[r].file_of() as int], v.rows[r]),
{
    rows::lemma_row_at(v.showing(), v.files, v.files.len() as int, r);
}

impl Review {
    /// A review of changes that are still to be loaded.
    pub fn new(root: Vec<u8>, changes: Vec<FileChange>) -> (review: Review)
        ensures
            review@.fresh(),
            review@.root == root@,
            review@.files == Seq::new(
                changes@.len(),
                |i: int|
                    ReviewFile { change: changes@[i], content: Content::Pending, highlights: None },
            ),
            review@.collapsed == Set::<(Section, Seq<char>)>::empty(),
            review@.tree == tree::tree_rows(review@.collapsed, review@.files, 0),
            review@.seen is None,
            review@.reviewed == Set::<u64>::empty(),
            review@.comments == Seq::<Comment>::empty(),
            review@.layout == DiffLayout::Unified,
    {
        broadcast use vstd::std_specs::hash::group_hash_axioms;

        let ghost all = changes@;
        let mut files: Vec<ReviewFile> = Vec::new();
        for change in iter: changes
            invariant
                iter.seq() == all,
                files@ == Seq::new(
                    iter.index() as nat,
                    |i: int|
                        ReviewFile { change: all[i], content: Content::Pending, highlights: None },
                ),
        {
            files.push(ReviewFile { change, content: Content::Pending, highlights: None });
            assert(files@ =~= Seq::new(
                (iter.index() + 1) as nat,
                |i: int|
                    ReviewFile { change: all[i], content: Content::Pending, highlights: None },
            ));
        }
        let mut review = Review {
            root,
            files,
            rows: Vec::new(),
            file_rows: Vec::new(),
            hunk_rows: Vec::new(),
            tree: Vec::new(),
            collapsed: Collapsed::new(),
            seen: None,
            new_rows: Vec::new(),
            new_per_file: Vec::new(),
            reviewed: HashSet::new(),
            hunk_hashes: Vec::new(),
            comments: Vec::new(),
            layout: DiffLayout::Unified,
        };
        review.rebuild_rows();
        review.rebuild_tree();
        review
    }

    fn rebuild_tree(&mut self)
        ensures
            final(self)@ == (ReviewView {
                tree: tree::tree_rows(old(self)@.collapsed, old(self)@.files, 0),
                ..old(self)@
            }),
    {
        self.tree = build_tree(self.files.as_slice(), &self.collapsed);
    }

    /// The repository's root.
    pub fn root(&self) -> (root: &[u8])
        ensures
            root@ == self@.root,
    {
        self.root.as_slice()
    }

    /// The changed files.
    pub fn files(&self) -> (files: &[ReviewFile])
        ensures
            files@ == self@.files,
    {
        self.files.as_slice()
    }

    pub fn rows(&self) -> (rows: &[Row])
        ensures
            rows@ == self@.rows,
    {
        self.rows.as_slice()
    }

    pub fn tree(&self) -> (tree: &[TreeRow])
        ensures
            tree::tree_view(tree@) == self@.tree,
    {
        self.tree.as_slice()
    }

    pub fn is_empty(&self) -> (empty: bool)
        ensures
            empty == (self@.files.len() == 0),
    {
        self.files.len() == 0
    }

    /// Apply loaded files. Call [`Review::rebuild_rows`] once after a batch.
    pub fn set_loaded(&mut self, file: usize, load: FileLoad)
        requires
            file < old(self)@.files.len(),
        ensures
            final(self)@ == (ReviewView {
                files: old(self)@.files.update(
                    file as int,
                    ReviewFile {
                        change: old(self)@.files[file as int].change,
                        content: load.content,
                        highlights: load.highlights,
                    },
                ),
                ..old(self)@
            }),
            old(self)@.wf() ==> final(self)@.wf(),
    {
        let entry = &mut self.files[file];
        entry.content = load.content;
        entry.highlights = load.highlights;
    }

    /// The row of a file's header.
    pub fn file_row(&self, file: usize) -> (row: usize)
        requires
            self@.wf(),
            file < self@.files.len(),
        ensures
            row == self@.starts[file as int],
            row < self@.rows.len(),
            self@.rows[row as int] == (Row::File { file }),
    {
        self.file_rows[file]
    }

    /// First hunk row after `row`, if any.
    pub fn next_hunk_row(&self, row: usize) -> (found: Option<usize>)
        requires
            self@.wf(),
        ensures
            first_after(self@.hunk_rows, row, found),
    {
        find_after(self.hunk_rows.as_slice(), row)
    }

    /// Last hunk row before `row`, if any.
    pub fn prev_hunk_row(&self, row: usize) -> (found: Option<usize>)
        requires
            self@.wf(),
        ensures
            last_before(self@.hunk_rows, row, found),
    {
        find_before(self.hunk_rows.as_slice(), row)
    }

    /// First file header after `row`, if any.
    pub fn next_file_row(&self, row: usize) -> (found: Option<usize>)
        requires
            self@.wf(),
        ensures
            first_after(self@.starts, row, found),
    {
        find_after(self.file_rows.as_slice(), row)
    }

    /// Last file header before `row`, if any.
    pub fn prev_file_row(&self, row: usize) -> (found: Option<usize>)
        requires
            self@.wf(),
        ensures
            last_before(self@.starts, row, found),
    {
        find_before(self.file_rows.as_slice(), row)
    }

    /// The selected lines of a file, or all of it if its header is selected.
    fn selected_target(&self, file: usize, lo: usize, hi: usize) -> (target: Target)
        requires
            self@.fresh(),
            file < self@.files.len(),
            lo <= hi < self@.rows.len(),
        ensures
            selection_target(self@, file, lo as int, hi as int, target),
    {
        let ghost v = self@;
        let mut flags: Vec<bool> = Vec::new();
        let line_count: usize = match self.files[file].diff() {
            Some(d) => d.lines.len(),
            None => 0,
        };
        let mut i: usize = 0;
        while i < line_count
            invariant
                i == flags@.len() <= line_count,
                forall|k: int| 0 <= k < i ==> !#[trigger] flags@[k],
            decreases line_count - i,
        {
            flags.push(false);
            i = i + 1;
        }
        let mut r: usize = lo;
        while r <= hi
            invariant
                v == self@,
                v.fresh(),
                file < v.files.len(),
                lo <= r <= hi,
                hi < v.rows.len() <= usize::MAX,
                flags@.len() == line_count,
                rows::diff_of(v.files[file as int]) matches Some(d) ==> line_count == d.lines@.len(),
                rows::diff_of(v.files[file as int]) is None ==> line_count == 0,
                forall|k: int| lo <= k < r ==> #[trigger] v.rows[k] != (Row::File { file }),
                forall|k: int|
                    0 <= k < line_count ==> (#[trigger] flags@[k] <==> selects_line(
                        v,
                        file,
                        lo as int,
                        r - 1,
                        k,
                    )),
            decreases hi + 1 - r,
        {
            let row = self.rows[r];
            let ghost before = flags@;
            proof {
                lemma_fresh_row(v, r as int);
            }
            match row {
                Row::File { file: f } if f == file => {
                    assert(v.rows[r as int] == (Row::File { file }));
                    return Target::WholeFile;
                },
                _ => {},
            }
            if row.file() == file {
                if let Some(d) = self.files[file].diff() {
                    mark_row(d, row, &mut flags);
                }
            }
            proof {
                assert forall|k: int| 0 <= k < line_count implies (#[trigger] flags@[k]
                    <==> selects_line(v, file, lo as int, r as int, k)) by {
                    lemma_selects_next(v, file, lo as int, r as int, k);
                    assert(before[k] == selects_line(v, file, lo as int, r - 1, k));
                }
            }
            if r == hi {
                let lines = raised(flags.as_slice());
                proof {
                    assert forall|line: usize| #[trigger]
                        lines@.contains(line) <==> selects_line(
                            v,
                            file,
                            lo as int,
                            hi as int,
                            line as int,
                        ) by {
                        if selects_line(v, file, lo as int, hi as int, line as int) {
                            lemma_selects_known(v, file, lo as int, hi as int, line as int);
                            assert(flags@[line as int]);
                        }
                        if lines@.contains(line) {
                            assert(flags@[line as int]);
                        }
                    }
                }
                return Target::Lines(lines);
            }
            r = r + 1;
        }
        Target::Lines(Vec::new())
    }

    /// The file and part of it an action applies to. With a selection (`anchor` to
    /// `cursor`), the selected lines of the cursor's file; a selection that includes the
    /// file header is the whole file. Without one: the hunk under the cursor, or the whole
    /// file on its header or a note.
    pub fn action_target(&self, cursor: usize, anchor: Option<usize>) -> (result: Option<
        (usize, Target),
    >)
        requires
            self@.fresh(),
            cursor < self@.rows.len() ==> (anchor matches Some(a) ==> a < self@.rows.len()),
        ensures
            targets(self@, cursor, anchor, result),
    {
        if cursor >= self.rows.len() {
            return None;
        }
        let row = self.rows[cursor];
        let file = row.file();
        proof {
            lemma_fresh_row(self@, cursor as int);
        }
        if let Row::Comment { .. } = row {
            return None;
        }
        match anchor {
            Some(a) => {
                let target = if a <= cursor {
                    self.selected_target(file, a, cursor)
                } else {
                    self.selected_target(file, cursor, a)
                };
                Some((file, target))
            },
            None => match (row, self.files[file].diff()) {
                (Row::Hunk { hunk, .. }, Some(d)) => Some(
                    (file, Target::Lines(lines_of_hunk(d, hunk))),
                ),
                (_, Some(d)) => match line_of_row(row) {
                    Some(line) => match find_hunk(d, line) {
                        Some(h) => Some((file, Target::Lines(lines_of_hunk(d, h)))),
                        None => None,
                    },
                    None => Some((file, Target::WholeFile)),
                },
                (_, None) => Some((file, Target::WholeFile)),
            },
        }
    }

    /// Where a row stands, in terms that survive a reload.
    pub fn anchor(&self, row: usize) -> (anchor: Option<Anchor>)
        requires
            self@.wf(),
        ensures
            match anchor {
                Some(a) => row < self@.rows.len() && anchors(self@, row as int, a),
                None => row >= self@.rows.len(),
            },
    {
        if row >= self.rows.len() {
            return None;
        }
        let file = self.rows[row].file();
        let change = &self.files[file].change;
        Some(
            Anchor {
                section: change.section,
                path: copy(change.path.as_slice()),
                offset: row - self.file_rows[file],
            },
        )
    }

    /// The row for `anchor`: the same offset in the same file (clamped), or the start of
    /// the file that now sorts after it.
    pub fn resolve(&self, anchor: &Anchor) -> (row: usize)
        requires
            self@.wf(),
        ensures
            row == resolved(self@, *anchor),
    {
        let count: usize = self.files.len();
        let mut ix: usize = 0;
        while ix < count && is_place_before(
            self.files[ix].change.section,
            self.files[ix].change.path.as_slice(),
            anchor.section,
            anchor.path.as_slice(),
        )
            invariant
                count == self.files@.len(),
                ix <= count,
                file_from(self@.files, *anchor, 0) == file_from(self@.files, *anchor, ix as int),
            decreases count - ix,
        {
            ix = ix + 1;
        }
        if ix >= count {
            return if self.rows.len() == 0 {
                0
            } else {
                self.rows.len() - 1
            };
        }
        assert(file_from(self@.files, *anchor, 0) == ix);
        let change = &self.files[ix].change;
        let start: usize = self.file_rows[ix];
        if change.section == anchor.section && same(
            change.path.as_slice(),
            anchor.path.as_slice(),
        ) {
            let end: usize = if ix + 1 < self.file_rows.len() {
                self.file_rows[ix + 1]
            } else {
                self.rows.len()
            };
            assert(start < end);
            let last: usize = end - 1;
            if anchor.offset <= last - start {
                start + anchor.offset
            } else {
                last
            }
        } else {
            start
        }
    }

    /// Index of the longest row, for sizing horizontal scroll.
    pub fn widest_row(&self) -> (widest: Option<usize>)
        requires
            self@.fresh(),
        ensures
            match widest {
                Some(w) => {
                    &&& w < self@.rows.len()
                    &&& forall|r: int|
                        #![trigger self@.rows[r]]
                        0 <= r < self@.rows.len() ==> row_width(self@.files, self@.rows[r])
                            <= row_width(self@.files, self@.rows[w as int])
                    &&& forall|r: int|
                        #![trigger self@.rows[r]]
                        w < r < self@.rows.len() ==> row_width(self@.files, self@.rows[r])
                            < row_width(self@.files, self@.rows[w as int])
                },
                None => self@.rows.len() == 0,
            },
    {
        let mut best: Option<(usize, usize)> = None;
        let mut r: usize = 0;
        while r < self.rows.len()
            invariant
                self@.fresh(),
                r <= self.rows@.len(),
                match best {
                    Some((w, width)) => {
                        &&& w < r
                        &&& width == row_width(self@.files, self@.rows[w as int])
                        &&& forall|q: int|
                            #![trigger self@.rows[q]]
                            0 <= q < r ==> row_width(self@.files, self@.rows[q]) <= width
                        &&& forall|q: int|
                            #![trigger self@.rows[q]]
                            w < q < r ==> row_width(self@.files, self@.rows[q]) < width
                    },
                    None => r == 0,
                },
            decreases self.rows.len() - r,
        {
            let row = self.rows[r];
            proof {
                lemma_fresh_row(self@, r as int);
            }
            let width = width_of_row(self.files.as_slice(), row);
            let wider = match best {
                Some((_, most)) => most <= width,
                None => true,
            };
            if wider {
                best = Some((r, width));
            }
            r = r + 1;
        }
        match best {
            Some((w, _)) => Some(w),
            None => None,
        }
    }

    /// Sets the comments. Call [`Review::rebuild_rows`] after.
    pub fn set_comments(&mut self, comments: Vec<Comment>)
        ensures
            final(self)@ == (ReviewView { comments: comments@, ..old(self)@ }),
            old(self)@.wf() ==> final(self)@.wf(),
    {
        let count: usize = comments.len();
        self.comments = comments;
    }

    pub fn comments(&self) -> (comments: &[Comment])
        ensures
            comments@ == self@.comments,
    {
        self.comments.as_slice()
    }

    /// Set what the user saw at their last look. Call [`Review::rebuild_rows`] after.
    pub fn set_seen(&mut self, seen: Option<Seen>)
        ensures
            final(self)@ == (ReviewView {
                seen: match seen {
                    Some(s) => Some(s@),
                    None => None,
                },
                ..old(self)@
            }),
            old(self)@.wf() ==> final(self)@.wf(),
    {
        self.seen = seen;
    }

    /// Sets the layout of the diff. Call [`Review::rebuild_rows`] after.
    pub fn set_layout(&mut self, layout: DiffLayout)
        ensures
            final(self)@ == (ReviewView { layout, ..old(self)@ }),
            old(self)@.wf() ==> final(self)@.wf(),
    {
        self.layout = layout;
    }

    /// Every changed line now: what "seen" becomes when the user looks.
    pub fn snapshot_seen(&self) -> (seen: Seen)
        requires
            rows::files_wf(self@.files),
        ensures
            seen@ == snapshot(self@.files, self@.files.len() as int),
    {
        let mut seen = Seen::new();
        let mut f: usize = 0;
        while f < self.files.len()
            invariant
                f <= self.files@.len(),
                rows::files_wf(self.files@),
                seen@ == snapshot(self.files@, f as int),
            decreases self.files.len() - f,
        {
            let entry = &self.files[f];
            if let Some(shared) = entry.diff() {
                let d: &FileDiff = shared;
                let path = entry.change.path_lossy();
                let ghost before = seen@;
                seen.insert_path(path.as_str());
                assert(seen_at(before, path@).union(changed_hashes(*d, 0)) =~= seen_at(
                    before,
                    path@,
                ));
                let mut l: usize = 0;
                while l < d.lines.len()
                    invariant
                        l <= d.lines@.len(),
                        d.wf(),
                        seen@ == before.insert(
                            path@,
                            seen_at(before, path@).union(changed_hashes(*d, l as int)),
                        ),
                    decreases d.lines.len() - l,
                {
                    let line = &d.lines[l];
                    proof {
                        d.lemma_line_at(l as int);
                    }
                    if line.kind != LineKind::Context {
                        let hash = line_hash(line.kind, d.line_bytes(line));
                        seen.insert(path.as_str(), hash);
                        assert(seen_at(before, path@).union(changed_hashes(*d, l as int)).insert(
                            hash,
                        ) =~= seen_at(before, path@).union(changed_hashes(*d, l + 1)));
                    }
                    l = l + 1;
                    assert(seen@ =~= before.insert(
                        path@,
                        seen_at(before, path@).union(changed_hashes(*d, l as int)),
                    ));
                }
            }
            f = f + 1;
        }
        seen
    }

    pub fn seen(&self) -> (seen: Option<&Seen>)
        ensures
            match seen {
                Some(s) => self@.seen == Some(s@),
                None => self@.seen is None,
            },
    {
        match &self.seen {
            Some(s) => Some(s),
            None => None,
        }
    }

    /// Whether a row shows a line that is new since the last look.
    pub fn is_new(&self, row: usize) -> (result: bool)
        requires
            self@.wf(),
        ensures
            result == self@.new_rows.contains(row),
    {
        let ix = count_below(self.new_rows.as_slice(), row);
        let found = ix < self.new_rows.len() && self.new_rows[ix] == row;
        proof {
            if found {
                assert(self.new_rows@[ix as int] == row);
            } else if self@.new_rows.contains(row) {
                let k = self@.new_rows.index_of(row);
                assert(self.new_rows@[k] == row);
                assert(ix <= k);
                assert(self.new_rows@[ix as int] <= row);
            }
        }
        found
    }

    pub fn new_count(&self) -> (count: usize)
        ensures
            count == self@.new_rows.len(),
    {
        self.new_rows.len()
    }

    /// How many rows of a file are new.
    pub fn file_new_count(&self, file: usize) -> (count: usize)
        ensures
            count == (if file < self@.new_per_file.len() {
                self@.new_per_file[file as int]
            } else {
                0
            }),
    {
        if file < self.new_per_file.len() {
            self.new_per_file[file]
        } else {
            0
        }
    }

    /// First new row after `row`, if any.
    pub fn next_new_row(&self, row: usize) -> (found: Option<usize>)
        requires
            self@.wf(),
        ensures
            first_after(self@.new_rows, row, found),
    {
        find_after(self.new_rows.as_slice(), row)
    }

    /// Last new row before `row`, if any.
    pub fn prev_new_row(&self, row: usize) -> (found: Option<usize>)
        requires
            self@.wf(),
        ensures
            last_before(self@.new_rows, row, found),
    {
        find_before(self.new_rows.as_slice(), row)
    }

    /// Set reviewed hunk hashes. Call [`Review::rebuild_rows`] after.
    pub fn set_reviewed(&mut self, reviewed: HashSet<u64>)
        ensures
            final(self)@ == (ReviewView { reviewed: reviewed@, ..old(self)@ }),
            old(self)@.wf() ==> final(self)@.wf(),
    {
        self.reviewed = reviewed;
    }

    /// Whether a hunk is reviewed.
    pub fn hunk_is_reviewed(&self, file: usize, hunk: usize) -> (result: bool)
        ensures
            result == (file < self@.hashes.len() && hunk < self@.hashes[file as int]@.len()
                && self@.reviewed.contains(self@.hashes[file as int]@[hunk as int])),
    {
        broadcast use vstd::std_specs::hash::group_hash_axioms;

        file < self.hunk_hashes.len() && hunk < self.hunk_hashes[file].len()
            && self.reviewed.contains(&self.hunk_hashes[file][hunk])
    }

    /// Every hunk of the file is reviewed (and it has at least one).
    pub fn file_is_reviewed(&self, file: usize) -> (result: bool)
        ensures
            result == (file < self@.hashes.len() && self@.hashes[file as int]@.len() > 0
                && forall|h: int|
                0 <= h < self@.hashes[file as int]@.len() ==> self@.reviewed.contains(
                    #[trigger] self@.hashes[file as int]@[h],
                )),
    {
        if file >= self.hunk_hashes.len() || self.hunk_hashes[file].len() == 0 {
            return false;
        }
        let mut h: usize = 0;
        while h < self.hunk_hashes[file].len()
            invariant
                file < self.hunk_hashes@.len(),
                h <= self.hunk_hashes@[file as int]@.len(),
                forall|k: int|
                    0 <= k < h ==> self@.reviewed.contains(
                        #[trigger] self@.hashes[file as int]@[k],
                    ),
            decreases self.hunk_hashes@[file as int]@.len() - h,
        {
            if !self.hunk_is_reviewed(file, h) {
                assert(!self@.reviewed.contains(self@.hashes[file as int]@[h as int]));
                return false;
            }
            h = h + 1;
        }
        true
    }

    /// The hashes of the hunks that marking at a row marks.
    fn hashes_at(&self, row: Row) -> (hashes: Vec<u64>)
        requires
            self@.fresh(),
            row.file_of() < self@.files.len(),
            rows::row_ok(self@.showing(), self@.files[row.file_of() as int], row),
        ensures
            forall|hash: u64| #[trigger]
                hashes@.contains(hash) <==> marked_hashes(self@, row).contains(hash),
    {
        let file = row.file();
        let ghost v = self@;
        let ghost all = v.hashes[file as int]@;
        let mut hashes: Vec<u64> = Vec::new();
        let one: Option<usize> = match row {
            Row::Hunk { hunk, .. } => Some(hunk),
            _ => match (line_of_row(row), self.files[file].diff()) {
                (Some(line), Some(d)) => find_hunk(d, line),
                _ => None,
            },
        };
        let alone = match row {
            Row::Hunk { .. } => true,
            Row::Line { .. } => true,
            Row::Pair { .. } => true,
            _ => false,
        };
        if alone {
            if let Some(h) = one {
                hashes.push(self.hunk_hashes[file][h]);
                proof {
                    assert(hashes@[0] == all[h as int]);
                    assert(marks_hunk(v, row, h as int));
                    assert forall|hash: u64| #[trigger]
                        hashes@.contains(hash) <==> marked_hashes(v, row).contains(hash) by {
                        if marked_hashes(v, row).contains(hash) {
                            let k = choose|k: int|
                                0 <= k < all.len() && marks_hunk(v, row, k) && #[trigger] all[k]
                                    == hash;
                            assert(k == h);
                        }
                        if hashes@.contains(hash) {
                            assert(hashes@[0] == hash);
                        }
                    }
                }
            }
            return hashes;
        }
        let mut h: usize = 0;
        while h < self.hunk_hashes[file].len()
            invariant
                file < self.hunk_hashes@.len(),
                all == self.hunk_hashes@[file as int]@,
                h <= all.len(),
                hashes@ == all.take(h as int),
            decreases all.len() - h,
        {
            hashes.push(self.hunk_hashes[file][h]);
            h = h + 1;
            assert(hashes@ =~= all.take(h as int));
        }
        proof {
            assert(hashes@ =~= all);
            assert forall|hash: u64| #[trigger]
                hashes@.contains(hash) <==> marked_hashes(v, row).contains(hash) by {
                if hashes@.contains(hash) {
                    let k = all.index_of(hash);
                    assert(all[k] == hash && marks_hunk(v, row, k));
                }
            }
        }
        hashes
    }

    /// Toggle reviewed for the hunk at `row` (a hunk header or one of its lines), or for
    /// the whole file on its header. Rebuilds rows.
    pub fn toggle_reviewed(&mut self, row: usize)
        requires
            old(self)@.fresh(),
        ensures
            final(self)@.fresh(),
            row >= old(self)@.rows.len() ==> final(self)@ == old(self)@,
            row < old(self)@.rows.len() ==> final(self)@.same_state(
                ReviewView {
                    reviewed: toggled(
                        old(self)@.reviewed,
                        marked_hashes(old(self)@, old(self)@.rows[row as int]),
                    ),
                    ..old(self)@
                },
            ),
    {
        broadcast use vstd::std_specs::hash::group_hash_axioms;

        if row >= self.rows.len() {
            return;
        }
        proof {
            lemma_fresh_row(self@, row as int);
        }
        let hashes = self.hashes_at(self.rows[row]);
        let ghost marked = marked_hashes(self@, self@.rows[row as int]);
        let mut mark = false;
        let mut i: usize = 0;
        while i < hashes.len()
            invariant
                i <= hashes@.len(),
                mark <==> exists|k: int|
                    0 <= k < i && !self.reviewed@.contains(#[trigger] hashes@[k]),
            decreases hashes.len() - i,
        {
            if !self.reviewed.contains(&hashes[i]) {
                assert(!self.reviewed@.contains(hashes@[i as int]));
                mark = true;
            }
            i = i + 1;
        }
        proof {
            assert(mark <==> !marked.subset_of(self.reviewed@)) by {
                if mark {
                    let k = choose|k: int|
                        0 <= k < hashes@.len() && !self.reviewed@.contains(#[trigger] hashes@[k]);
                    assert(hashes@.contains(hashes@[k]));
                    assert(marked.contains(hashes@[k]));
                } else {
                    assert forall|hash: u64| marked.contains(hash) implies self.reviewed@.contains(
                        hash,
                    ) by {
                        assert(hashes@.contains(hash));
                        let k = hashes@.index_of(hash);
                        assert(hashes@[k] == hash);
                    }
                }
            }
        }
        let ghost first = self.reviewed@;
        i = 0;
        while i < hashes.len()
            invariant
                i <= hashes@.len(),
                self.root == old(self).root,
                self.files == old(self).files,
                self.tree == old(self).tree,
                self.collapsed == old(self).collapsed,
                self.seen == old(self).seen,
                self.comments == old(self).comments,
                self.layout == old(self).layout,
                forall|hash: u64| #[trigger]
                    self.reviewed@.contains(hash) <==> (if mark {
                        first.contains(hash) || hashes@.take(i as int).contains(hash)
                    } else {
                        first.contains(hash) && !hashes@.take(i as int).contains(hash)
                    }),
            decreases hashes.len() - i,
        {
            let ghost prior = hashes@.take(i as int);
            let ghost next = hashes@.take(i + 1);
            proof {
                assert forall|hash: u64| #[trigger]
                    next.contains(hash) <==> prior.contains(hash) || hash == hashes@[i as int] by {
                    if prior.contains(hash) {
                        let k = prior.index_of(hash);
                        assert(next[k] == hash);
                    }
                    if hash == hashes@[i as int] {
                        assert(next[i as int] == hash);
                    }
                    if next.contains(hash) {
                        let k = next.index_of(hash);
                        if k < i {
                            assert(prior[k] == hash);
                        }
                    }
                }
            }
            if mark {
                self.reviewed.insert(hashes[i]);
            } else {
                self.reviewed.remove(&hashes[i]);
            }
            i = i + 1;
        }
        proof {
            assert(hashes@.take(i as int) =~= hashes@);
            assert(self.reviewed@ =~= toggled(first, marked));
        }
        self.rebuild_rows();
    }

    /// Reviewed marks for hunks that still exist (stale marks are dropped).
    pub fn reviewed_for_save(&self) -> (kept: HashSet<u64>)
        ensures
            forall|hash: u64| #[trigger]
                kept@.contains(hash) <==> self@.reviewed.contains(hash) && has_hash(
                    self@.hashes,
                    hash,
                ),
    {
        broadcast use vstd::std_specs::hash::group_hash_axioms;

        let mut kept: HashSet<u64> = HashSet::new();
        let mut f: usize = 0;
        while f < self.hunk_hashes.len()
            invariant
                f <= self.hunk_hashes@.len(),
                forall|hash: u64| #[trigger]
                    kept@.contains(hash) <==> self@.reviewed.contains(hash) && has_hash(
                        self@.hashes.take(f as int),
                        hash,
                    ),
            decreases self.hunk_hashes.len() - f,
        {
            let mut h: usize = 0;
            let ghost before = kept@;
            let ghost all = self.hunk_hashes@[f as int]@;
            while h < self.hunk_hashes[f].len()
                invariant
                    f < self.hunk_hashes@.len(),
                    all == self.hunk_hashes@[f as int]@,
                    h <= all.len(),
                    forall|hash: u64| #[trigger]
                        kept@.contains(hash) <==> before.contains(hash) || (
                        self@.reviewed.contains(hash) && all.take(h as int).contains(hash)),
                decreases all.len() - h,
            {
                proof {
                    let prior = all.take(h as int);
                    let next = all.take(h + 1);
                    assert forall|hash: u64| #[trigger]
                        next.contains(hash) <==> prior.contains(hash) || hash == all[h as int] by {
                        if prior.contains(hash) {
                            let k = prior.index_of(hash);
                            assert(next[k] == hash);
                        }
                        if hash == all[h as int] {
                            assert(next[h as int] == hash);
                        }
                        if next.contains(hash) {
                            let k = next.index_of(hash);
                            if k < h {
                                assert(prior[k] == hash);
                            }
                        }
                    }
                }
                if self.hunk_is_reviewed(f, h) {
                    kept.insert(self.hunk_hashes[f][h]);
                }
                h = h + 1;
            }
            proof {
                assert(all.take(h as int) =~= all);
                assert forall|hash: u64| has_hash(self@.hashes.take(f + 1), hash) <==> has_hash(
                    self@.hashes.take(f as int),
                    hash,
                ) || all.contains(hash) by {
                    lemma_has_hash_next(self@.hashes, f as int, hash);
                }
            }
            f = f + 1;
        }
        assert(self@.hashes.take(f as int) =~= self@.hashes);
        kept
    }

    /// Keep view state (collapsed directories) from the review this one replaces. Call
    /// [`Review::rebuild_rows`] after.
    pub fn carry_view_state(&mut self, previous: &Review)
        ensures
            final(self)@ == (ReviewView {
                collapsed: previous@.collapsed,
                comments: final(self)@.comments,
                seen: previous@.seen,
                reviewed: previous@.reviewed,
                layout: previous@.layout,
                tree: tree::tree_rows(previous@.collapsed, old(self)@.files, 0),
                ..old(self)@
            }),
            crate::comments::same_comments(previous@.comments, final(self)@.comments),
            old(self)@.wf() ==> final(self)@.wf(),
    {
        self.collapsed = previous.collapsed.copy();
        self.comments = copy_comments(previous.comments.as_slice());
        let count: usize = self.comments.len();
        self.seen = match &previous.seen {
            Some(s) => Some(s.copy()),
            None => None,
        };
        self.reviewed = copy_set(&previous.reviewed);
        self.layout = previous.layout;
        self.rebuild_tree();
    }

    /// Collapses a directory of the tree, or expands it.
    pub fn toggle_dir(&mut self, section: Section, path: &str)
        ensures
            ({
                let key = (section, path@);
                let collapsed = if old(self)@.collapsed.contains(key) {
                    old(self)@.collapsed.remove(key)
                } else {
                    old(self)@.collapsed.insert(key)
                };
                final(self)@ == (ReviewView {
                    collapsed,
                    tree: tree::tree_rows(collapsed, old(self)@.files, 0),
                    ..old(self)@
                })
            }),
            old(self)@.wf() ==> final(self)@.wf(),
    {
        self.collapsed.toggle(section, path);
        self.rebuild_tree();
    }
}

/// Whether a hash is among those of the files' hunks.
pub open spec fn has_hash(hashes: Seq<Vec<u64>>, hash: u64) -> bool {
    exists|f: int| 0 <= f < hashes.len() && (#[trigger] hashes[f])@.contains(hash)
}

proof fn lemma_has_hash_next(hashes: Seq<Vec<u64>>, f: int, hash: u64)
    requires
        0 <= f < hashes.len(),
    ensures
        has_hash(hashes.take(f + 1), hash) <==> has_hash(hashes.take(f), hash)
            || hashes[f]@.contains(hash),
{
    let prior = hashes.take(f);
    let next = hashes.take(f + 1);
    if has_hash(prior, hash) {
        let k = choose|k: int| 0 <= k < prior.len() && (#[trigger] prior[k])@.contains(hash);
        assert(next[k]@.contains(hash));
    }
    if hashes[f]@.contains(hash) {
        assert(next[f]@.contains(hash));
    }
    if has_hash(next, hash) {
        let k = choose|k: int| 0 <= k < next.len() && (#[trigger] next[k])@.contains(hash);
        if k < f {
            assert(prior[k]@.contains(hash));
        }
    }
}

/// Whether an anchor says where a row stands.
pub open spec fn anchors(v: ReviewView, row: int, anchor: Anchor) -> bool {
    let file = v.rows[row].file_of() as int;
    &&& anchor.section == v.files[file].change.section
    &&& anchor.path@ == v.files[file].change.path@
    &&& anchor.offset == row - v.starts[file]
}

/// Marks the lines that a row shows.
fn mark_row(d: &FileDiff, row: Row, flags: &mut Vec<bool>)
    requires
        d.wf(),
        old(flags)@.len() == d.lines@.len(),
        exists|show: rows::Showing, entry: ReviewFile|
            #[trigger] rows::row_ok(show, entry, row) && rows::diff_of(entry) == Some(*d),
    ensures
        final(flags)@.len() == old(flags)@.len(),
        forall|k: int|
            0 <= k < d.lines@.len() ==> (#[trigger] final(flags)@[k] <==> old(flags)@[k]
                || shows_line(*d, row, k)),
{
    match row {
        Row::Hunk { hunk, .. } => {
            proof {
                d.lemma_hunk_at(hunk as int);
            }
            let end: usize = d.hunks[hunk].lines.end;
            let start: usize = d.hunks[hunk].lines.start;
            let mut l: usize = start;
            while l < end
                invariant
                    start <= l <= end <= flags@.len(),
                    flags@.len() == old(flags)@.len(),
                    forall|k: int|
                        0 <= k < flags@.len() ==> (#[trigger] flags@[k] <==> old(flags)@[k] || start
                            <= k < l),
                decreases end - l,
            {
                flags.set(l, true);
                l = l + 1;
            }
        },
        Row::Line { line, .. } => {
            flags.set(line, true);
        },
        Row::Pair { old: a, new: b, .. } => {
            if let Some(l) = a {
                flags.set(l, true);
            }
            if let Some(l) = b {
                flags.set(l, true);
            }
        },
        _ => {},
    }
}

/// The positions of raised flags.
fn raised(flags: &[bool]) -> (lines: Vec<usize>)
    ensures
        ascending(lines@),
        forall|line: usize| #[trigger]
            lines@.contains(line) <==> line < flags@.len() && flags@[line as int],
{
    let count: usize = flags.len();
    let mut lines: Vec<usize> = Vec::new();
    let mut i: usize = 0;
    assert(flags@.take(0) =~= Seq::<bool>::empty());
    while i < count
        invariant
            i <= count == flags@.len(),
            positions(lines@, flags@.take(i as int)),
        decreases count - i,
    {
        proof {
            lemma_next_mark(lines@, flags@, i as int);
        }
        if flags[i] {
            lines.push(i);
        }
        i = i + 1;
    }
    proof {
        assert(flags@.take(i as int) =~= flags@);
        assert forall|line: usize| #[trigger]
            lines@.contains(line) <==> line < flags@.len() && flags@[line as int] by {
            if lines@.contains(line) {
                let k = lines@.index_of(line);
                assert(lines@[k] == line);
            }
            if line < flags@.len() && flags@[line as int] {
                assert(lines@.contains(line as int as usize));
            }
        }
    }
    lines
}

/// One more selected row adds the lines it shows.
proof fn lemma_selects_next(v: ReviewView, file: usize, lo: int, r: int, line: int)
    requires
        lo <= r < v.rows.len(),
    ensures
        selects_line(v, file, lo, r, line) <==> selects_line(v, file, lo, r - 1, line) || (
        v.rows[r].file_of() == file && rows::diff_of(v.files[file as int]) is Some && shows_line(
            rows::diff_of(v.files[file as int])->Some_0,
            v.rows[r],
            line,
        )),
{
    if selects_line(v, file, lo, r - 1, line) {
        let d = rows::diff_of(v.files[file as int])->Some_0;
        let q = choose|q: int|
            #![trigger v.rows[q]]
            lo <= q <= r - 1 && v.rows[q].file_of() == file && shows_line(d, v.rows[q], line);
        assert(lo <= q <= r && v.rows[q].file_of() == file && shows_line(d, v.rows[q], line));
    }
}

/// Selected lines are lines of the diff.
proof fn lemma_selects_known(v: ReviewView, file: usize, lo: int, hi: int, line: int)
    requires
        v.fresh(),
        0 <= lo <= hi < v.rows.len(),
        selects_line(v, file, lo, hi, line),
    ensures
        0 <= line < rows::diff_of(v.files[file as int])->Some_0.lines@.len(),
{
    let d = rows::diff_of(v.files[file as int])->Some_0;
    let r = choose|r: int|
        #![trigger v.rows[r]]
        lo <= r <= hi && v.rows[r].file_of() == file && shows_line(d, v.rows[r], line);
    lemma_fresh_row(v, r);
    if let Row::Hunk { hunk, .. } = v.rows[r] {
        d.lemma_hunk_at(hunk as int);
    }
}

fn content_width(d: &FileDiff, line: usize) -> (width: usize)
    requires
        d.wf(),
        line < d.lines@.len(),
    ensures
        width == line_width(*d, line),
{
    proof {
        d.lemma_line_at(line as int);
    }
    d.lines[line].content.end - d.lines[line].content.start
}

fn width_of_row(files: &[ReviewFile], row: Row) -> (width: usize)
    requires
        rows::files_wf(files@),
        row.file_of() < files@.len(),
        exists|show: rows::Showing|
            #[trigger] rows::row_ok(show, files@[row.file_of() as int], row),
    ensures
        width == row_width(files@, row),
{
    match (files[row.file()].diff(), row) {
        (Some(d), Row::Line { line, .. }) => content_width(d, line),
        (Some(d), Row::Pair { old, new, .. }) => {
            let a: usize = match old {
                Some(l) => content_width(d, l),
                None => 0,
            };
            let b: usize = match new {
                Some(l) => content_width(d, l),
                None => 0,
            };
            if a >= b {
                a
            } else {
                b
            }
        },
        _ => 0,
    }
}

// ---------------------------------------------------------------------------
// Laws.

/// Whether files are sorted by section and path, one per place.
pub open spec fn files_sorted(files: Seq<ReviewFile>) -> bool {
    forall|i: int, j: int|
        #![trigger files[i], files[j]]
        0 <= i < j < files.len() ==> repo::change_before(files[i].change, files[j].change)
}

proof fn lemma_file_from(files: Seq<ReviewFile>, anchor: Anchor, file: int, from: int)
    requires
        files_sorted(files),
        0 <= from <= file < files.len(),
        files[file].change.section == anchor.section,
        files[file].change.path@ == anchor.path@,
    ensures
        file_from(files, anchor, from) == file,
    decreases file - from,
{
    if from < file {
        assert(repo::change_before(files[from].change, files[file].change));
        lemma_file_from(files, anchor, file, from + 1);
    } else {
        crate::order::lemma_irreflexive(anchor.path@);
    }
}

/// The anchor of a row resolves to that row, as long as the review stays as it is.
pub proof fn law_anchor_resolves_to_its_row(v: ReviewView, row: int, anchor: Anchor)
    requires
        v.wf(),
        files_sorted(v.files),
        0 <= row < v.rows.len(),
        anchors(v, row, anchor),
    ensures
        resolved(v, anchor) == row,
{
    lemma_file_from(v.files, anchor, v.rows[row].file_of() as int, 0);
}

/// An anchor resolves to a row of the review, if it has any.
pub proof fn law_anchors_resolve_within_the_review(v: ReviewView, anchor: Anchor)
    requires
        v.wf(),
        v.rows.len() > 0,
    ensures
        0 <= resolved(v, anchor) < v.rows.len(),
{
    let ix = file_from(v.files, anchor, 0);
    lemma_file_from_range(v.files, anchor, 0);
    if ix < v.files.len() {
        assert(v.starts[ix] < v.rows.len());
        if ix + 1 < v.starts.len() {
            assert(v.starts[ix] < v.starts[ix + 1]);
            assert(v.starts[ix + 1] < v.rows.len());
        }
    }
}

proof fn lemma_file_from_range(files: Seq<ReviewFile>, anchor: Anchor, from: int)
    requires
        0 <= from <= files.len(),
    ensures
        from <= file_from(files, anchor, from) <= files.len(),
    decreases files.len() - from,
{
    if from < files.len() && file_before(files[from], anchor) {
        lemma_file_from_range(files, anchor, from + 1);
    }
}

proof fn lemma_changed_hash(d: FileDiff, line: int, count: int)
    requires
        0 <= line < count,
        d.lines@[line].kind != LineKind::Context,
    ensures
        changed_hashes(d, count).contains(
            rows::line_hash_of(
                d.lines@[line].kind,
                diff::shown_bytes(d.old@, d.new@, d.lines@[line]),
            ),
        ),
    decreases count,
{
    if line < count - 1 {
        lemma_changed_hash(d, line, count - 1);
    }
}

proof fn lemma_snapshot(files: Seq<ReviewFile>, file: int, count: int)
    requires
        0 <= file < count <= files.len(),
    ensures
        rows::diff_of(files[file]) matches Some(d) ==> {
            let path = crate::text::str_lossy(files[file].change.path@);
            &&& snapshot(files, count).contains_key(path)
            &&& changed_hashes(d, d.lines@.len() as int).subset_of(snapshot(files, count)[path])
        },
    decreases count,
{
    if file < count - 1 {
        lemma_snapshot(files, file, count - 1);
    }
}

/// Once the user has looked, nothing is new.
pub proof fn law_nothing_is_new_after_a_look(v: ReviewView)
    requires
        v.fresh(),
        v.seen == Some(snapshot(v.files, v.files.len() as int)),
    ensures
        v.new_rows.len() == 0,
{
    if v.new_rows.len() > 0 {
        let r = v.new_rows[0] as int;
        assert(new_marks(v.files, v.seen, v.rows)[r]);
        lemma_fresh_row(v, r);
        let row = v.rows[r];
        let file = row.file_of() as int;
        let d = rows::diff_of(v.files[file])->Some_0;
        lemma_snapshot(v.files, file, v.files.len() as int);
        let count = d.lines@.len() as int;
        match row {
            Row::Line { line, .. } => {
                lemma_changed_hash(d, line as int, count);
            },
            Row::Pair { old, new, .. } => {
                if let Some(a) = old {
                    if d.lines@[a as int].kind != LineKind::Context {
                        lemma_changed_hash(d, a as int, count);
                    }
                }
                if let Some(b) = new {
                    if d.lines@[b as int].kind != LineKind::Context {
                        lemma_changed_hash(d, b as int, count);
                    }
                }
            },
            _ => {},
        }
    }
}

/// A line that is not new stays so wherever it goes: moving it within its file, staging it or
/// unstaging it never makes it new.
pub proof fn law_moving_a_line_never_makes_it_new(
    v: ReviewView,
    r: usize,
    w: ReviewView,
    s: usize,
)
    requires
        v.fresh(),
        w.fresh(),
        v.seen == w.seen,
        r < v.rows.len(),
        s < w.rows.len(),
        shows_same_line(v, r as int, w, s as int),
        !v.new_rows.contains(r),
    ensures
        !w.new_rows.contains(s),
{
    let before = new_marks(v.files, v.seen, v.rows);
    let after = new_marks(w.files, w.seen, w.rows);
    if w.new_rows.contains(s) {
        let k = w.new_rows.index_of(s);
        assert(after[w.new_rows[k] as int]);
        assert(rows::new_row(w.files, w.seen, w.rows[s as int]));
        assert(rows::new_row(v.files, v.seen, v.rows[r as int]));
        assert(before[r as int]);
    }
}

/// Whether two rows show a line of the same kind and content of files with the same path.
pub open spec fn shows_same_line(v: ReviewView, r: int, w: ReviewView, s: int) -> bool {
    let a = v.files[v.rows[r].file_of() as int];
    let b = w.files[w.rows[s].file_of() as int];
    &&& a.change.path@ == b.change.path@
    &&& v.rows[r] matches Row::Line { line: i, .. }
    &&& w.rows[s] matches Row::Line { line: j, .. }
    &&& rows::diff_of(a) matches Some(d)
    &&& rows::diff_of(b) matches Some(e)
    &&& d.lines@[i as int].kind == e.lines@[j as int].kind
    &&& diff::shown_bytes(d.old@, d.new@, d.lines@[i as int]) == diff::shown_bytes(
        e.old@,
        e.new@,
        e.lines@[j as int],
    )
}

/// Reviewed hunks collapse to their header: every line that is shown is one of a hunk that is
/// not marked reviewed.
pub proof fn law_reviewed_hunks_show_no_lines(v: ReviewView, r: int)
    requires
        v.fresh(),
        0 <= r < v.rows.len(),
    ensures
        ({
            let entry = v.files[v.rows[r].file_of() as int];
            match v.rows[r] {
                Row::Line { line, .. } => rows::diff_of(entry) matches Some(d)
                    && rows::in_open_hunk(v.showing(), entry, d, line as int),
                Row::Pair { old, new, .. } => rows::diff_of(entry) matches Some(d) && (
                old matches Some(ix) ==> rows::in_open_hunk(v.showing(), entry, d, ix as int)) && (
                new matches Some(ix) ==> rows::in_open_hunk(v.showing(), entry, d, ix as int)),
                _ => true,
            }
        }),
{
    lemma_fresh_row(v, r);
}

/// No change is left out: every line of a hunk that is not marked reviewed has a row.
pub proof fn law_open_hunks_show_every_line(
    v: ReviewView,
    file: int,
    d: diff::FileDiff,
    hunk: int,
    line: int,
)
    requires
        v.fresh(),
        0 <= file < v.files.len(),
        rows::diff_of(v.files[file]) == Some(d),
        0 <= hunk < d.hunks@.len(),
        rows::holds_line(d, hunk, line),
        !v.reviewed.contains(rows::hunk_hash_of(v.files[file].change.path@, d, hunk)),
    ensures
        rows::line_shown(v.rows, file as usize, line),
{
    rows::lemma_lines_shown(v.showing(), v.files, v.files.len() as int, file, d, hunk, line);
}

/// No comment is left out: one on a file of the review is shown, once, under a file with its
/// path.
pub proof fn law_comments_are_shown_once(v: ReviewView, c: int, f: int)
    requires
        v.fresh(),
        0 <= c < v.comments.len(),
        0 <= f < v.files.len(),
        vstd::utf8::encode_utf8(v.comments[c].path@) == v.files[f].change.path@,
    ensures
        exists|file: usize, start: int|
            file < v.files.len() && v.files[file as int].change.path@ == v.files[f].change.path@
                && #[trigger] rows::stands_at(v.rows, 0, v.comments, file, c, start),
{
    let n = v.files.len() as int;
    let last = rows::lemma_last_of_path(v.files, f);
    rows::lemma_comment_upto(v.showing(), v.files, n, c);
    assert(rows::belongs(v.comments[c], v.files[last].change.path@, None));
    let (file, start) = choose|file: usize, start: int|
        #[trigger] rows::stands_at(v.rows, 0, v.comments, file, c, start);
    let block = rows::comment_rows(file, c, v.comments[c]);
    assert(v.rows[start + 0] == block[0]);
    lemma_fresh_row(v, start);
}

/// Without a last look nothing is new.
pub proof fn law_nothing_is_new_without_a_look(v: ReviewView)
    requires
        v.fresh(),
        v.seen is None,
    ensures
        v.new_rows.len() == 0,
{
    if v.new_rows.len() > 0 {
        assert(new_marks(v.files, v.seen, v.rows)[v.new_rows[0] as int]);
    }
}

/// Toggling hunks that are all reviewed, or none of which is, and then toggling them again
/// gives back what was reviewed.
pub proof fn law_toggling_reviewed_twice_restores(reviewed: Set<u64>, marked: Set<u64>)
    requires
        marked.subset_of(reviewed) || marked.disjoint(reviewed),
    ensures
        toggled(toggled(reviewed, marked), marked) == reviewed,
{
    if marked.subset_of(reviewed) {
        let once = reviewed.difference(marked);
        if marked.subset_of(once) {
            assert(marked =~= Set::<u64>::empty()) by {
                assert forall|h: u64| !marked.contains(h) by {
                    if marked.contains(h) {
                        assert(once.contains(h));
                    }
                }
            }
        }
        assert(toggled(once, marked) =~= reviewed);
    } else {
        let once = reviewed.union(marked);
        assert(marked.subset_of(once));
        assert(toggled(once, marked) =~= reviewed);
    }
}

/// After toggling, either all of the toggled hunks are reviewed or none is.
pub proof fn law_toggling_marks_all_or_none(reviewed: Set<u64>, marked: Set<u64>)
    ensures
        marked.subset_of(toggled(reviewed, marked)) || marked.disjoint(toggled(reviewed, marked)),
{
}

/// Whether a hunk is marked reviewed.
pub open spec fn hunk_marked(v: ReviewView, file: int, hunk: int) -> bool {
    v.reviewed.contains(v.hashes[file]@[hunk])
}

/// Whether all hunks of a file are marked reviewed.
pub open spec fn file_marked(v: ReviewView, file: int) -> bool {
    forall|h: int| 0 <= h < v.hashes[file]@.len() ==> #[trigger] hunk_marked(v, file, h)
}

/// Whether `w` is `v` after toggling reviewed at a row.
pub open spec fn toggled_at(v: ReviewView, row: Row, w: ReviewView) -> bool {
    &&& w.fresh()
    &&& w.same_state(ReviewView { reviewed: toggled(v.reviewed, marked_hashes(v, row)), ..v })
}

/// Files that stay keep the hashes of their hunks.
proof fn lemma_same_hashes(v: ReviewView, w: ReviewView, file: int)
    requires
        v.fresh(),
        w.fresh(),
        v.files == w.files,
        0 <= file < v.files.len(),
    ensures
        v.hashes[file]@ == w.hashes[file]@,
{
    assert(v.hashes[file]@ == rows::file_hashes(v.files[file]));
    assert(w.hashes[file]@ == rows::file_hashes(w.files[file]));
}

/// Toggling at a file's header flips the file's mark: all of its hunks are marked, unless all
/// were, and then none is.
pub proof fn law_toggling_a_file_flips_its_mark(v: ReviewView, file: usize, w: ReviewView)
    requires
        v.fresh(),
        file < v.files.len(),
        v.hashes[file as int]@.len() > 0,
        toggled_at(v, Row::File { file }, w),
    ensures
        file_marked(w, file as int) == !file_marked(v, file as int),
        file_marked(v, file as int) ==> forall|h: int|
            0 <= h < w.hashes[file as int]@.len() ==> !#[trigger] hunk_marked(w, file as int, h),
{
    let row = Row::File { file };
    let f = file as int;
    let marked = marked_hashes(v, row);
    lemma_same_hashes(v, w, f);
    assert forall|h: int| 0 <= h < v.hashes[f]@.len() implies marked.contains(
        #[trigger] v.hashes[f]@[h],
    ) by {
        assert(marks_hunk(v, row, h));
    }
    assert(marked.subset_of(v.reviewed) <==> file_marked(v, f)) by {
        if file_marked(v, f) {
            assert forall|x: u64| marked.contains(x) implies v.reviewed.contains(x) by {
                let h = choose|h: int|
                    0 <= h < v.hashes[f]@.len() && marks_hunk(v, row, h)
                        && #[trigger] v.hashes[f]@[h] == x;
                assert(hunk_marked(v, f, h));
            }
        }
        if marked.subset_of(v.reviewed) {
            assert forall|h: int| 0 <= h < v.hashes[f]@.len() implies #[trigger] hunk_marked(
                v,
                f,
                h,
            ) by {
                assert(marked.contains(v.hashes[f]@[h]));
            }
        }
    }
    if file_marked(v, f) {
        assert forall|h: int| 0 <= h < w.hashes[f]@.len() implies !#[trigger] hunk_marked(
            w,
            f,
            h,
        ) by {
            assert(marked.contains(v.hashes[f]@[h]));
        }
        assert(!hunk_marked(w, f, 0));
    } else {
        assert forall|h: int| 0 <= h < w.hashes[f]@.len() implies #[trigger] hunk_marked(
            w,
            f,
            h,
        ) by {
            assert(marked.contains(v.hashes[f]@[h]));
        }
    }
}

/// What toggling at a hunk's header marks is that hunk.
proof fn lemma_marks_one(v: ReviewView, file: usize, hunk: usize)
    requires
        hunk < v.hashes[file as int]@.len(),
    ensures
        marked_hashes(v, Row::Hunk { file, hunk }) == set![
            v.hashes[file as int]@[hunk as int],
        ],
{
    let row = Row::Hunk { file, hunk };
    let one = v.hashes[file as int]@[hunk as int];
    assert(marks_hunk(v, row, hunk as int));
    assert forall|x: u64| marked_hashes(v, row).contains(x) <==> x == one by {
        if marked_hashes(v, row).contains(x) {
            let h = choose|h: int|
                0 <= h < v.hashes[file as int]@.len() && marks_hunk(v, row, h)
                    && #[trigger] v.hashes[file as int]@[h] == x;
            assert(h == hunk);
        }
    }
    assert(marked_hashes(v, row) =~= set![one]);
}

/// The lines of a later hunk are later.
proof fn lemma_hunks_apart(d: diff::FileDiff, i: int, j: int)
    requires
        d.wf(),
        0 <= i < j < d.hunks@.len(),
    ensures
        d.hunks@[i].lines.end <= d.hunks@[j].lines.start,
    decreases j - i,
{
    diff::law_hunks_tile_the_lines(d, j);
    if i < j - 1 {
        lemma_hunks_apart(d, i, j - 1);
        diff::law_hunks_tile_the_lines(d, j - 1);
    }
}

/// Toggling at a hunk's header flips the hunk's mark, and its lines are shown exactly where it
/// is not marked.
pub proof fn law_toggling_a_hunk_flips_its_mark(
    v: ReviewView,
    file: usize,
    hunk: usize,
    w: ReviewView,
    d: diff::FileDiff,
    line: int,
)
    requires
        v.fresh(),
        file < v.files.len(),
        rows::diff_of(v.files[file as int]) == Some(d),
        hunk < d.hunks@.len(),
        rows::holds_line(d, hunk as int, line),
        toggled_at(v, Row::Hunk { file, hunk }, w),
    ensures
        hunk_marked(w, file as int, hunk as int) == !hunk_marked(v, file as int, hunk as int),
        rows::line_shown(w.rows, file, line) == !hunk_marked(w, file as int, hunk as int),
{
    let f = file as int;
    let h = hunk as int;
    let one = v.hashes[f]@[h];
    assert(v.hashes[f]@ == rows::file_hashes(v.files[f]));
    lemma_same_hashes(v, w, f);
    lemma_marks_one(v, file, hunk);
    let marked = set![one];
    assert(marked.contains(one));
    assert(marked.subset_of(v.reviewed) <==> v.reviewed.contains(one)) by {
        if v.reviewed.contains(one) {
            assert forall|x: u64| marked.contains(x) implies v.reviewed.contains(x) by {}
        }
    }
    let path = v.files[f].change.path@;
    assert(one == rows::hunk_hash_of(path, d, h));
    if !hunk_marked(w, f, h) {
        law_open_hunks_show_every_line(w, f, d, h, line);
    } else if rows::line_shown(w.rows, file, line) {
        let r = choose|r: int|
            0 <= r < w.rows.len() && #[trigger] rows::shows_line(w.rows[r], file, line);
        lemma_fresh_row(w, r);
        assert(rows::in_open_hunk(w.showing(), w.files[f], d, line));
        let k = choose|k: int|
            0 <= k < d.hunks@.len() && #[trigger] rows::holds_line(d, k, line)
                && !w.reviewed.contains(rows::hunk_hash_of(path, d, k));
        assert(d.wf());
        if k < h {
            lemma_hunks_apart(d, k, h);
        } else if h < k {
            lemma_hunks_apart(d, h, k);
        }
    }
}

/// Toggling a hunk and toggling it again gives back all marks and all rows.
pub proof fn law_toggling_a_hunk_twice_restores(
    v: ReviewView,
    file: usize,
    hunk: usize,
    w: ReviewView,
    x: ReviewView,
)
    requires
        v.fresh(),
        file < v.files.len(),
        hunk < v.hashes[file as int]@.len(),
        toggled_at(v, Row::Hunk { file, hunk }, w),
        toggled_at(w, Row::Hunk { file, hunk }, x),
    ensures
        x.reviewed == v.reviewed,
        x.rows == v.rows,
{
    let one = v.hashes[file as int]@[hunk as int];
    lemma_same_hashes(v, w, file as int);
    lemma_marks_one(v, file, hunk);
    lemma_marks_one(w, file, hunk);
    let marked = set![one];
    assert(marked.subset_of(v.reviewed) || marked.disjoint(v.reviewed)) by {
        if v.reviewed.contains(one) {
            assert forall|y: u64| marked.contains(y) implies v.reviewed.contains(y) by {}
        } else {
            assert forall|y: u64| !(marked.contains(y) && v.reviewed.contains(y)) by {}
        }
    }
    law_toggling_reviewed_twice_restores(v.reviewed, marked);
}

/// Whether no hunk in front of a hunk has its hash.
pub open spec fn is_first_of_its_hash(v: ReviewView, file: int, hunk: int) -> bool {
    forall|g: int, k: int|
        #![trigger v.hashes[g]@[k]]
        0 <= g <= file && 0 <= k < v.hashes[g]@.len() && (g < file || k < hunk)
            ==> v.hashes[g]@[k] != v.hashes[file]@[hunk]
}

/// Toggling at the row of a hunk's header leaves everything up to it in its place, and toggling
/// at the same row again gives back all marks and all rows. A hunk that stands behind another
/// one with the same path and changes is left out: that one collapses, too, and moves the row.
pub proof fn law_toggling_at_a_row_twice_restores(
    v: ReviewView,
    file: usize,
    hunk: usize,
    r: int,
    w: ReviewView,
    x: ReviewView,
)
    requires
        v.fresh(),
        0 <= r < v.rows.len(),
        v.rows[r] == (Row::Hunk { file, hunk }),
        is_first_of_its_hash(v, file as int, hunk as int),
        toggled_at(v, v.rows[r], w),
        toggled_at(w, w.rows[r], x),
    ensures
        r < w.rows.len(),
        w.rows.take(r + 1) == v.rows.take(r + 1),
        x.reviewed == v.reviewed,
        x.rows == v.rows,
{
    let f = file as int;
    let h = hunk as int;
    lemma_fresh_row(v, r);
    let d = rows::diff_of(v.files[f])->Some_0;
    assert(v.hashes[f]@ == rows::file_hashes(v.files[f]));
    let one = v.hashes[f]@[h];
    lemma_marks_one(v, file, hunk);
    let (a, b) = (v.showing(), w.showing());
    assert forall|y: u64| y != one implies a.reviewed.contains(y) == b.reviewed.contains(y) by {
        assert(!set![one].contains(y));
    }
    assert forall|g: int| 0 <= g < f implies rows::agree(
        a,
        b,
        #[trigger] v.files[g],
        usize::MAX as int,
    ) by {
        assert forall|k: int| 0 <= k < usize::MAX implies #[trigger] rows::same_mark(
            a,
            b,
            v.files[g],
            k,
        ) by {
            lemma_same_mark(v, b, g, k, one);
        }
    }
    assert forall|k: int| 0 <= k < h implies #[trigger] rows::same_mark(a, b, v.files[f], k) by {
        lemma_same_mark(v, b, f, k, one);
    }
    rows::lemma_rows_above(a, b, v.files, file, hunk, d, r);
    assert(w.rows.take(r + 1)[r] == v.rows.take(r + 1)[r]);
    law_toggling_a_hunk_twice_restores(v, file, hunk, w, x);
}

/// A hunk with another hash than the one that was toggled keeps its mark.
proof fn lemma_same_mark(v: ReviewView, b: rows::Showing, g: int, k: int, one: u64)
    requires
        v.fresh(),
        0 <= g < v.files.len(),
        0 <= k,
        k < v.hashes[g]@.len() ==> v.hashes[g]@[k] != one,
        forall|y: u64| y != one ==> v.reviewed.contains(y) == b.reviewed.contains(y),
    ensures
        rows::same_mark(v.showing(), b, v.files[g], k),
{
    assert(v.hashes[g]@ == rows::file_hashes(v.files[g]));
}

/// A load that is reused was finished, and reads no worktree file that may have changed.
pub proof fn law_reused_loads_are_clean(
    previous: Seq<ReviewFile>,
    change: FileChange,
    dirty: Dirty,
    load: FileLoad,
)
    requires
        reused(previous, change, dirty, Some(load)),
    ensures
        !(load.content is Pending),
        is_dirty(dirty, change.path@) ==> !(change.old is Worktree) && !(change.new is Worktree),
{
}

// ---------------------------------------------------------------------------
// What actions apply to.

/// Whether lines are all those of one hunk, among them a given one.
pub open spec fn is_hunk_with(lines: Seq<usize>, d: FileDiff, hunk: int, line: int) -> bool {
    &&& 0 <= hunk < d.hunks@.len()
    &&& d.hunks@[hunk].lines.start <= line < d.hunks@[hunk].lines.end
    &&& forall|ix: usize| #[trigger]
        lines.contains(ix) <==> d.hunks@[hunk].lines.start <= ix < d.hunks@[hunk].lines.end
}

proof fn lemma_hunk_lines(hunk: diff::Hunk)
    requires
        hunk.lines.start <= hunk.lines.end,
    ensures
        forall|ix: usize| #[trigger]
            hunk_lines(hunk).contains(ix) <==> hunk.lines.start <= ix < hunk.lines.end,
{
    let lines = hunk_lines(hunk);
    assert forall|ix: usize| #[trigger] lines.contains(ix) <==> hunk.lines.start <= ix
        < hunk.lines.end by {
        if hunk.lines.start <= ix < hunk.lines.end {
            assert(lines[ix - hunk.lines.start] == ix);
        }
        if lines.contains(ix) {
            let k = lines.index_of(ix);
            assert(lines[k] == ix);
        }
    }
}

proof fn lemma_hunk_from(hunks: Seq<diff::Hunk>, line: int, h: int)
    requires
        0 <= h,
    ensures
        match hunk_from(hunks, line, h) {
            Some(at) => h <= at < hunks.len() && holds_line(hunks[at], line),
            None => forall|i: int| h <= i < hunks.len() ==> !holds_line(#[trigger] hunks[i], line),
        },
    decreases hunks.len() - h,
{
    if h < hunks.len() && !holds_line(hunks[h], line) {
        lemma_hunk_from(hunks, line, h + 1);
    }
}

/// Whether an action is on all lines of the hunk that holds a line, or on nothing if no hunk does.
pub open spec fn is_on_hunk_of(
    result: Option<(usize, Target)>,
    file: usize,
    d: FileDiff,
    line: int,
) -> bool {
    match result {
        Some((f, target)) => f == file && (target matches Target::Lines(lines) && exists|h: int|
            #[trigger] is_hunk_with(lines@, d, h, line)),
        None => forall|h: int|
            0 <= h < d.hunks@.len() ==> !((#[trigger] d.hunks@[h]).lines.start <= line
                < d.hunks@[h].lines.end),
    }
}

/// Without a selection, an action at a line or at the header of a hunk is on that whole hunk, and
/// on nothing else; at the header of a file, or where it has no lines to show, on the whole file.
pub proof fn law_actions_are_on_the_hunk_at_the_cursor(
    v: ReviewView,
    cursor: usize,
    result: Option<(usize, Target)>,
)
    requires
        cursor < v.rows.len(),
        targets(v, cursor, None, result),
        rows::diff_of(v.files[v.rows[cursor as int].file_of() as int]) matches Some(d) ==> d.wf(),
    ensures
        match v.rows[cursor as int] {
            Row::File { file } | Row::Note { file, .. } | Row::Image { file, .. } => result == Some(
                (file, Target::WholeFile),
            ),
            Row::Comment { .. } => result is None,
            Row::Hunk { file, hunk } => rows::diff_of(v.files[file as int]) matches Some(d) && (
            hunk < d.hunks@.len() ==> (result matches Some((f, Target::Lines(lines))) && f == file
                && forall|ix: usize| #[trigger]
                lines@.contains(ix) <==> d.hunks@[hunk as int].lines.start <= ix
                    < d.hunks@[hunk as int].lines.end)),
            Row::Line { file, line, .. } => rows::diff_of(v.files[file as int]) matches Some(d)
                && is_on_hunk_of(result, file, d, line as int),
            Row::Pair { file, old, new, .. } => rows::diff_of(v.files[file as int]) matches Some(d)
                && (old matches Some(line) ==> is_on_hunk_of(result, file, d, line as int)) && (
            old is None ==> (new matches Some(line) ==> is_on_hunk_of(
                result,
                file,
                d,
                line as int,
            ))),
        },
{
    let row = v.rows[cursor as int];
    if let Some(d) = rows::diff_of(v.files[row.file_of() as int]) {
        if let Row::Hunk { hunk, .. } = row {
            if hunk < d.hunks@.len() {
                d.lemma_hunk_at(hunk as int);
                lemma_hunk_lines(d.hunks@[hunk as int]);
            }
        }
        if let Some(line) = row_line(row) {
            lemma_hunk_from(d.hunks@, line as int, 0);
            if let Some(h) = hunk_from(d.hunks@, line as int, 0) {
                d.lemma_hunk_at(h);
                lemma_hunk_lines(d.hunks@[h]);
                if let Some((f, Target::Lines(lines))) = result {
                    assert(is_hunk_with(lines@, d, h, line as int));
                }
            } else {
                assert forall|h: int| 0 <= h < d.hunks@.len() implies !((
                #[trigger] d.hunks@[h]).lines.start <= line < d.hunks@[h].lines.end) by {
                    assert(!holds_line(d.hunks@[h], line as int));
                }
            }
        }
    }
}

/// Whether a row shows a line of a file: alone, as one of a pair, or as the header of its hunk.
pub open spec fn row_has_line(row: Row, d: FileDiff, file: usize, line: usize) -> bool {
    match row {
        Row::Line { file: f, line: l, .. } => f == file && l == line,
        Row::Pair { file: f, old, new, .. } => f == file && (old == Some(line) || new == Some(
            line,
        )),
        Row::Hunk { file: f, hunk } => f == file && d.hunks@[hunk as int].lines.start <= line
            < d.hunks@[hunk as int].lines.end,
        _ => false,
    }
}

/// With a selection, an action is on the file of the cursor: on all of it if its header is
/// selected, and else on exactly the lines of it that the selected rows show.
pub proof fn law_actions_are_on_the_selected_lines(
    v: ReviewView,
    cursor: usize,
    anchor: usize,
    result: Option<(usize, Target)>,
    d: FileDiff,
    line: usize,
)
    requires
        cursor < v.rows.len(),
        !(v.rows[cursor as int] is Comment),
        targets(v, cursor, Some(anchor), result),
        rows::diff_of(v.files[v.rows[cursor as int].file_of() as int]) == Some(d),
    ensures
        result matches Some((file, target)) && file == v.rows[cursor as int].file_of() && {
            let (lo, hi) = if anchor <= cursor {
                (anchor as int, cursor as int)
            } else {
                (cursor as int, anchor as int)
            };
            let headed = exists|r: int|
                lo <= r <= hi && #[trigger] v.rows[r] == (Row::File { file });
            &&& target is WholeFile <==> headed
            &&& target matches Target::Lines(lines) ==> (lines@.contains(line) <==> exists|r: int|
                lo <= r <= hi && row_has_line(#[trigger] v.rows[r], d, file, line))
        },
{
    let file = v.rows[cursor as int].file_of();
    let (lo, hi) = if anchor <= cursor {
        (anchor as int, cursor as int)
    } else {
        (cursor as int, anchor as int)
    };
    assert forall|r: int| row_has_line(#[trigger] v.rows[r], d, file, line) <==> v.rows[r].file_of()
        == file && shows_line(d, v.rows[r], line as int) by {}
    if let Some((_, Target::Lines(lines))) = result {
        assert(lines@.contains(line) <==> selects_line(v, file, lo, hi, line as int));
        if selects_line(v, file, lo, hi, line as int) {
            let r = choose|r: int|
                #![trigger v.rows[r]]
                lo <= r <= hi && v.rows[r].file_of() == file && shows_line(d, v.rows[r], line as int);
            assert(row_has_line(v.rows[r], d, file, line));
        }
    }
}

} // verus!
