//! One window's state: what it shows of a repository, where the cursor is, and what the
//! user's actions and the results of background work make of it.
//!
//! The methods change the state and hand back what is to be done outside: a git action to
//! run, a reload to start, a row to scroll to.
use vstd::prelude::*;

use crate::comments;
use crate::comments::{copy_comments, to_markdown, Comment, CommentView};
use crate::diff::{FileDiff, LineKind};
use crate::ops::{CommitOptions, Undo};
use crate::repo::{FileChange, Section};
use crate::review;
use crate::review::{Anchor, Content, Dirty, FileLoad, Review, ReviewFile, ReviewView, Row, Target};
use crate::rows;
use crate::settings::DiffLayout;
use crate::store::RepoState;
use crate::text::{copy_text, push_number, push_text, trim};
use crate::timeline;
use crate::timeline::{comparison_trees, step_turn, Mode};
use crate::turns::Session;

verus! {

/// What a window shows.
pub enum State {
    Loading,
    /// Nothing given and nothing detected; the switcher opens a repository.
    NoRepository,
    Ready(Review),
    Failed(String),
}

/// A review action on the cursor or selection.
#[derive(Debug, Clone, Copy, PartialEq, Eq, Structural)]
pub enum Op {
    /// Stage, or unstage if already staged.
    Stage,
    Discard,
}

/// A message in the status bar.
#[derive(Debug, PartialEq, Eq)]
pub struct Status {
    pub text: String,
    pub is_error: bool,
}

/// The cursor, and where a selection began; the selection runs from there to the cursor.
#[derive(Debug, Clone, Copy, PartialEq, Eq, Structural)]
pub struct Place {
    pub cursor: usize,
    pub select_anchor: Option<usize>,
}

/// A comment being written or edited.
#[derive(Debug, PartialEq, Eq)]
pub struct Draft {
    /// The comment being edited, or a new one on these lines of `file`.
    pub editing: Option<u64>,
    pub file: usize,
    pub lines: Vec<usize>,
    pub location: String,
}

pub struct GoroView {
    pub state: State,
    pub place: Place,
    pub amend: bool,
    pub signoff: bool,
    pub undo_stack: Vec<Undo>,
    /// A git action or commit is running.
    pub busy: bool,
    /// Changes waiting for the next reload; merged while one is running.
    pub pending_reload: Option<Dirty>,
    pub reload_in_flight: bool,
    /// No look recorded yet: take one as soon as everything is loaded.
    pub baseline_pending: bool,
    /// What the diff compares.
    pub mode: Mode,
    /// Recorded agent sessions (from turn snapshots), most recent first.
    pub sessions: Vec<Session>,
    pub draft: Option<Draft>,
    pub status: Option<Status>,
    pub status_generation: u64,
}

/// The review that a state shows.
pub open spec fn shown(state: State) -> Option<ReviewView> {
    match state {
        State::Ready(review) => Some(review@),
        _ => None,
    }
}

/// Whether the cursor and the selection lie within the rows.
pub open spec fn place_ok(place: Place, count: nat) -> bool {
    count > 0 ==> place.cursor < count && (place.select_anchor matches Some(a) ==> a < count)
}

/// Whether a status says a text.
pub open spec fn says(status: Option<Status>, text: Seq<char>, is_error: bool) -> bool {
    status matches Some(s) && s.text@ == text && s.is_error == is_error
}

/// The row of the last line, or zero.
pub open spec fn last_of(count: nat) -> int {
    if count == 0 {
        0
    } else {
        count - 1
    }
}

/// How far the diff scrolls to show a row.
#[derive(Debug, Clone, Copy, PartialEq, Eq, Structural)]
pub enum Scroll {
    Nearest,
    Top,
    Center,
}

/// A move of the cursor.
#[derive(Debug, Clone, Copy, PartialEq, Eq, Structural)]
pub enum Motion {
    Down,
    Up,
    SelectDown,
    SelectUp,
    NextHunk,
    PrevHunk,
    NextFile,
    PrevFile,
    NextNew,
    PrevNew,
}

impl Motion {
    /// Whether the selection grows with the move.
    pub open spec fn extends(self) -> bool {
        self == Motion::SelectDown || self == Motion::SelectUp
    }

    /// How far the diff scrolls to show where the move leads.
    pub open spec fn scrolls(self) -> Scroll {
        match self {
            Motion::Down | Motion::Up | Motion::SelectDown | Motion::SelectUp => Scroll::Nearest,
            Motion::NextNew | Motion::PrevNew => Scroll::Center,
            _ => Scroll::Top,
        }
    }
}

/// Whether `to` is where a move from a row leads.
pub open spec fn leads(v: Option<ReviewView>, cursor: usize, motion: Motion, to: Option<usize>) -> bool {
    let last = match v {
        Some(v) => last_of(v.rows.len()),
        None => 0,
    };
    match motion {
        Motion::Down | Motion::SelectDown => to == Some(
            (if cursor < last {
                cursor + 1
            } else {
                last
            }) as usize,
        ),
        Motion::Up | Motion::SelectUp => to == Some(
            (if cursor > 0 {
                cursor - 1
            } else {
                0
            }) as usize,
        ),
        Motion::NextHunk => match v {
            Some(v) => review::first_after(v.hunk_rows, cursor, to),
            None => to is None,
        },
        Motion::PrevHunk => match v {
            Some(v) => review::last_before(v.hunk_rows, cursor, to),
            None => to is None,
        },
        Motion::NextFile => match v {
            Some(v) => review::first_after(v.starts, cursor, to),
            None => to is None,
        },
        Motion::PrevFile => match v {
            Some(v) => review::last_before(v.starts, cursor, to),
            None => to is None,
        },
        Motion::NextNew => match v {
            Some(v) => review::first_after(v.new_rows, cursor, to),
            None => to is None,
        },
        Motion::PrevNew => match v {
            Some(v) => review::last_before(v.new_rows, cursor, to),
            None => to is None,
        },
    }
}

/// The place after the cursor moved: a selection begins at the old cursor, or ends.
pub open spec fn moved(place: Place, to: usize, extend: bool) -> Place {
    Place {
        cursor: to,
        select_anchor: if extend {
            match place.select_anchor {
                Some(a) => Some(a),
                None => Some(place.cursor),
            }
        } else {
            None
        },
    }
}

impl Place {
    /// Moves the cursor: a selection begins at the old cursor, or ends.
    pub fn move_to(&mut self, to: usize, extend: bool)
        ensures
            *final(self) == moved(*old(self), to, extend),
    {
        if extend {
            if self.select_anchor.is_none() {
                self.select_anchor = Some(self.cursor);
            }
        } else {
            self.select_anchor = None;
        }
        self.cursor = to;
    }
}

impl GoroView {
    /// What always holds: the rows show the files as they are, and the cursor and the
    /// selection lie within them.
    pub open spec fn wf(self) -> bool {
        shown(self.state) matches Some(v) ==> v.fresh() && place_ok(self.place, v.rows.len())
    }

    /// A window that loads.
    pub fn new() -> (view: GoroView)
        ensures
            view.wf(),
            view.state is Loading,
            view.place == (Place { cursor: 0, select_anchor: None }),
            !view.amend && !view.signoff && !view.busy,
            view.undo_stack@.len() == 0,
            view.pending_reload is None && !view.reload_in_flight,
            !view.baseline_pending,
            view.mode is WorkingTree,
            view.sessions@.len() == 0,
            view.draft is None && view.status is None && view.status_generation == 0,
    {
        GoroView {
            state: State::Loading,
            place: Place { cursor: 0, select_anchor: None },
            amend: false,
            signoff: false,
            undo_stack: Vec::new(),
            busy: false,
            pending_reload: None,
            reload_in_flight: false,
            baseline_pending: false,
            mode: Mode::WorkingTree,
            sessions: Vec::new(),
            draft: None,
            status: None,
            status_generation: 0,
        }
    }

    pub fn review(&self) -> (review: Option<&Review>)
        ensures
            match review {
                Some(r) => shown(self.state) == Some(r@) && self.state == State::Ready(*r),
                None => shown(self.state) is None,
            },
    {
        match &self.state {
            State::Ready(review) => Some(review),
            _ => None,
        }
    }

    pub fn cursor(&self) -> (row: usize)
        ensures
            row == self.place.cursor,
    {
        self.place.cursor
    }

    pub fn is_busy(&self) -> (busy: bool)
        ensures
            busy == self.busy,
    {
        self.busy
    }

    pub fn mode(&self) -> (mode: &Mode)
        ensures
            *mode == self.mode,
    {
        &self.mode
    }

    pub fn session_count(&self) -> (count: usize)
        ensures
            count == self.sessions@.len(),
    {
        self.sessions.len()
    }

    pub fn status_text(&self) -> (status: Option<(&str, bool)>)
        ensures
            match status {
                Some((text, is_error)) => says(self.status, text@, is_error),
                None => self.status is None,
            },
    {
        match &self.status {
            Some(s) => Some((s.text.as_str(), s.is_error)),
            None => None,
        }
    }

    // -----------------------------------------------------------------------
    // The status bar.

    /// Shows a message, and returns its number: a message that is no error expires.
    pub fn set_status(&mut self, text: String, is_error: bool) -> (generation: u64)
        ensures
            *final(self) == (GoroView {
                status: Some(Status { text, is_error }),
                status_generation: generation,
                ..*old(self)
            }),
            generation == old(self).status_generation.wrapping_add(1),
    {
        self.status = Some(Status { text, is_error });
        self.status_generation = self.status_generation.wrapping_add(1);
        self.status_generation
    }

    /// The time of message `generation` is up: it goes, unless another has taken its place.
    pub fn expire_status(&mut self, generation: u64)
        ensures
            *final(self) == (GoroView {
                status: if old(self).status_generation == generation {
                    None
                } else {
                    old(self).status
                },
                ..*old(self)
            }),
    {
        if self.status_generation == generation {
            self.status = None;
        }
    }

    // -----------------------------------------------------------------------
    // Moving.

    fn last_row(&self) -> (row: usize)
        ensures
            row == (match shown(self.state) {
                Some(v) => last_of(v.rows.len()),
                None => 0,
            }),
    {
        match &self.state {
            State::Ready(review) => {
                let count: usize = review.rows().len();
                if count == 0 {
                    0
                } else {
                    count - 1
                }
            },
            _ => 0,
        }
    }

    fn motion_target(&self, motion: Motion) -> (to: Option<usize>)
        requires
            self.wf(),
        ensures
            leads(shown(self.state), self.place.cursor, motion, to),
    {
        let cursor = self.place.cursor;
        match motion {
            Motion::Down | Motion::SelectDown => {
                let last = self.last_row();
                if cursor < last {
                    Some(cursor + 1)
                } else {
                    Some(last)
                }
            },
            Motion::Up | Motion::SelectUp => if cursor > 0 {
                Some(cursor - 1)
            } else {
                Some(0)
            },
            _ => match &self.state {
                State::Ready(review) => match motion {
                    Motion::NextHunk => review.next_hunk_row(cursor),
                    Motion::PrevHunk => review.prev_hunk_row(cursor),
                    Motion::NextFile => review.next_file_row(cursor),
                    Motion::PrevFile => review.prev_file_row(cursor),
                    Motion::NextNew => review.next_new_row(cursor),
                    _ => review.prev_new_row(cursor),
                },
                _ => None,
            },
        }
    }

    /// Moves the cursor, and returns the row to scroll to.
    pub fn go(&mut self, motion: Motion) -> (scroll: Option<(usize, Scroll)>)
        requires
            old(self).wf(),
        ensures
            final(self).wf(),
            *final(self) == (GoroView { place: final(self).place, ..*old(self) }),
            match scroll {
                Some((to, how)) => {
                    &&& leads(shown(old(self).state), old(self).place.cursor, motion, Some(to))
                    &&& final(self).place == moved(old(self).place, to, motion.extends())
                    &&& how == motion.scrolls()
                },
                None => {
                    &&& leads(shown(old(self).state), old(self).place.cursor, motion, None)
                    &&& final(self).place == old(self).place
                },
            },
    {
        let to = match self.motion_target(motion) {
            Some(to) => to,
            None => {
                return None;
            },
        };
        proof {
            if let Some(v) = shown(self.state) {
                if v.rows.len() > 0 {
                    lemma_leads_within(v, self.place.cursor, motion, to);
                }
            }
        }
        let extend = match motion {
            Motion::SelectDown | Motion::SelectUp => true,
            _ => false,
        };
        let how = match motion {
            Motion::Down | Motion::Up | Motion::SelectDown | Motion::SelectUp => Scroll::Nearest,
            Motion::NextNew | Motion::PrevNew => Scroll::Center,
            _ => Scroll::Top,
        };
        self.place.move_to(to, extend);
        Some((to, how))
    }

    /// Puts the cursor on a row that was clicked.
    pub fn click_row(&mut self, row: usize, extend: bool)
        requires
            old(self).wf(),
            shown(old(self).state) matches Some(v) ==> v.rows.len() > 0 ==> row < v.rows.len(),
        ensures
            final(self).wf(),
            *final(self) == (GoroView {
                place: moved(old(self).place, row, extend),
                ..*old(self)
            }),
    {
        self.place.move_to(row, extend);
    }

    /// Puts the cursor on a row, without a selection.
    pub fn set_cursor(&mut self, row: usize)
        requires
            old(self).wf(),
            shown(old(self).state) matches Some(v) ==> v.rows.len() > 0 ==> row < v.rows.len(),
        ensures
            final(self).wf(),
            *final(self) == (GoroView {
                place: Place { cursor: row, select_anchor: None },
                ..*old(self)
            }),
    {
        self.place.move_to(row, false);
    }

    /// Puts the cursor on a file's header, and returns its row.
    pub fn show_file(&mut self, file: usize) -> (row: Option<usize>)
        requires
            old(self).wf(),
            shown(old(self).state) matches Some(v) ==> file < v.files.len(),
        ensures
            final(self).wf(),
            match shown(old(self).state) {
                Some(v) => row == Some(v.starts[file as int]) && *final(self) == (GoroView {
                    place: Place { cursor: v.starts[file as int], select_anchor: None },
                    ..*old(self)
                }),
                None => row is None && *final(self) == *old(self),
            },
    {
        let row = match &self.state {
            State::Ready(review) => review.file_row(file),
            _ => {
                return None;
            },
        };
        self.place.move_to(row, false);
        Some(row)
    }

    /// Escape clears the selection, then a lingering error.
    pub fn clear_selection(&mut self)
        requires
            old(self).wf(),
        ensures
            final(self).wf(),
            *final(self) == (if old(self).place.select_anchor is Some {
                GoroView {
                    place: Place { select_anchor: None, ..old(self).place },
                    ..*old(self)
                }
            } else {
                GoroView { status: None, ..*old(self) }
            }),
    {
        if self.place.select_anchor.is_some() {
            self.place.select_anchor = None;
        } else {
            self.status = None;
        }
    }
}

/// A move leads to a row of the review.
proof fn lemma_leads_within(v: ReviewView, cursor: usize, motion: Motion, to: usize)
    requires
        v.wf(),
        cursor < v.rows.len(),
        leads(Some(v), cursor, motion, Some(to)),
    ensures
        to < v.rows.len(),
{
    if v.starts.contains(to) {
        let f = choose|f: int| 0 <= f < v.starts.len() && v.starts[f] == to;
        assert(v.starts[f] < v.rows.len());
    }
    if v.hunk_rows.contains(to) {
        let k = choose|k: int| 0 <= k < v.hunk_rows.len() && v.hunk_rows[k] == to;
        assert(v.hunk_rows[k] < review::hunk_marks(v.rows).len());
    }
    if v.new_rows.contains(to) {
        let k = choose|k: int| 0 <= k < v.new_rows.len() && v.new_rows[k] == to;
        assert(v.new_rows[k] < v.rows.len());
    }
}

/// Moving down and then up returns to the same row, except from the last one.
pub proof fn law_up_undoes_down(v: ReviewView, cursor: usize, below: usize, back: usize)
    requires
        cursor + 1 < v.rows.len() <= usize::MAX,
        leads(Some(v), cursor, Motion::Down, Some(below)),
        leads(Some(v), below, Motion::Up, Some(back)),
    ensures
        back == cursor,
{
}

// ---------------------------------------------------------------------------
// Keeping the position over a change of the rows.

/// Whether `to` is the row of the content that a row showed before a change.
pub open spec fn follows(before: ReviewView, after: ReviewView, row: usize, to: usize) -> bool {
    exists|anchor: Anchor|
        review::anchors(before, row as int, anchor) && to == #[trigger] review::resolved(after, anchor)
}

/// Whether the cursor and the selection stay on the same content over a change.
pub open spec fn place_follows(
    before: ReviewView,
    after: ReviewView,
    place: Place,
    next: Place,
) -> bool {
    &&& if place.cursor < before.rows.len() {
        follows(before, after, place.cursor, next.cursor)
    } else {
        next.cursor == 0
    }
    &&& match place.select_anchor {
        Some(a) if a < before.rows.len() => next.select_anchor matches Some(b) && follows(
            before,
            after,
            a,
            b,
        ),
        _ => next.select_anchor is None,
    }
}

/// Whether `scroll` says where to scroll so that the viewport stays on the same content.
pub open spec fn scroll_follows(
    before: ReviewView,
    after: ReviewView,
    top: usize,
    scroll: Option<usize>,
) -> bool {
    match scroll {
        Some(to) => top < before.rows.len() && to != top && follows(before, after, top, to),
        None => top >= before.rows.len() || follows(before, after, top, top),
    }
}

/// Whether the viewport, the cursor and the selection stay on the same content.
pub open spec fn position_kept(
    before: ReviewView,
    after: ReviewView,
    top: usize,
    place: Place,
    next: Place,
    scroll: Option<usize>,
) -> bool {
    place_follows(before, after, place, next) && scroll_follows(before, after, top, scroll)
}

/// Where the viewport, the cursor and the selection are, in terms that survive a change.
struct Kept {
    top: Option<Anchor>,
    cursor: Option<Anchor>,
    select: Option<Anchor>,
}

/// Whether an anchor is that of a row.
pub open spec fn anchored(v: ReviewView, row: usize, anchor: Option<Anchor>) -> bool {
    match anchor {
        Some(a) => row < v.rows.len() && review::anchors(v, row as int, a),
        None => row >= v.rows.len(),
    }
}

impl Kept {
    spec fn is_of(self, v: ReviewView, place: Place, top: usize) -> bool {
        &&& anchored(v, top, self.top)
        &&& anchored(v, place.cursor, self.cursor)
        &&& match place.select_anchor {
            Some(a) => anchored(v, a, self.select),
            None => self.select is None,
        }
    }

    fn of(review: &Review, place: Place, top: usize) -> (kept: Kept)
        requires
            review@.wf(),
        ensures
            kept.is_of(review@, place, top),
    {
        Kept {
            top: review.anchor(top),
            cursor: review.anchor(place.cursor),
            select: match place.select_anchor {
                Some(row) => review.anchor(row),
                None => None,
            },
        }
    }

    spec fn leads_to(self, v: ReviewView, top: usize, next: Place, scroll: Option<usize>) -> bool {
        &&& next.cursor == (match self.cursor {
            Some(a) => review::resolved(v, a),
            None => 0,
        })
        &&& match self.select {
            Some(a) => next.select_anchor matches Some(b) && b == review::resolved(v, a),
            None => next.select_anchor is None,
        }
        &&& match self.top {
            Some(a) => if review::resolved(v, a) == top {
                scroll is None
            } else {
                scroll matches Some(to) && to == review::resolved(v, a)
            },
            None => scroll is None,
        }
    }

    fn resolve(&self, review: &Review, top: usize) -> (result: (Place, Option<usize>))
        requires
            review@.wf(),
        ensures
            self.leads_to(review@, top, result.0, result.1),
            place_ok(result.0, review@.rows.len()),
    {
        proof {
            if review@.rows.len() > 0 {
                if let Some(a) = &self.cursor {
                    review::law_anchors_resolve_within_the_review(review@, *a);
                }
                if let Some(a) = &self.select {
                    review::law_anchors_resolve_within_the_review(review@, *a);
                }
            }
        }
        let scroll = match &self.top {
            Some(a) => {
                let to = review.resolve(a);
                if to == top {
                    None
                } else {
                    Some(to)
                }
            },
            None => None,
        };
        let cursor = match &self.cursor {
            Some(a) => review.resolve(a),
            None => 0,
        };
        let select_anchor = match &self.select {
            Some(a) => Some(review.resolve(a)),
            None => None,
        };
        (Place { cursor, select_anchor }, scroll)
    }

    /// Resolving what was kept keeps the position.
    proof fn lemma_keeps(
        self,
        before: ReviewView,
        after: ReviewView,
        top: usize,
        place: Place,
        next: Place,
        scroll: Option<usize>,
    )
        requires
            self.is_of(before, place, top),
            self.leads_to(after, top, next, scroll),
        ensures
            position_kept(before, after, top, place, next, scroll),
    {
    }
}

/// A change that leaves the rows as they are leaves the cursor, the selection and the viewport
/// where they are.
pub proof fn law_positions_stay_when_nothing_changes(
    v: ReviewView,
    top: usize,
    place: Place,
    next: Place,
    scroll: Option<usize>,
)
    requires
        v.wf(),
        review::files_sorted(v.files),
        v.rows.len() > 0,
        place_ok(place, v.rows.len()),
        position_kept(v, v, top, place, next, scroll),
    ensures
        next == place,
        scroll is None,
{
    let a = choose|a: Anchor|
        review::anchors(v, place.cursor as int, a) && next.cursor == #[trigger] review::resolved(v, a);
    review::law_anchor_resolves_to_its_row(v, place.cursor as int, a);
    if let Some(row) = place.select_anchor {
        let to = next.select_anchor->Some_0;
        let b = choose|b: Anchor|
            review::anchors(v, row as int, b) && to == #[trigger] review::resolved(v, b);
        review::law_anchor_resolves_to_its_row(v, row as int, b);
    }
    if let Some(to) = scroll {
        let c = choose|c: Anchor|
            review::anchors(v, top as int, c) && to == #[trigger] review::resolved(v, c);
        review::law_anchor_resolves_to_its_row(v, top as int, c);
    }
}

// ---------------------------------------------------------------------------
// What loading brings.

/// What loading a repository brings.
pub enum Event {
    Opened {
        root: Vec<u8>,
        changes: Vec<FileChange>,
        /// The first file, loaded before the rest.
        first: Option<FileLoad>,
        state: RepoState,
    },
    NoRepository,
    Loaded(usize, FileLoad),
    Failed(String),
}

/// What a review is about, apart from the rows that show it.
pub struct Subject {
    pub root: Seq<u8>,
    pub files: Seq<ReviewFile>,
    pub collapsed: Set<(Section, Seq<char>)>,
    pub seen: Option<Map<Seq<char>, Set<u64>>>,
    pub reviewed: Set<u64>,
    pub comments: Seq<Comment>,
    pub layout: DiffLayout,
    pub tree: Seq<crate::tree::TreeRowView>,
}

/// What a review is about.
pub open spec fn subject(v: ReviewView) -> Subject {
    Subject {
        root: v.root,
        files: v.files,
        collapsed: v.collapsed,
        seen: v.seen,
        reviewed: v.reviewed,
        comments: v.comments,
        layout: v.layout,
        tree: v.tree,
    }
}

/// What a window shows, apart from rows.
pub enum Stage {
    Loading,
    NoRepository,
    Ready(Subject),
    Failed(Seq<char>),
}

/// What a window shows, apart from rows.
pub open spec fn stage_of(state: State) -> Stage {
    match state {
        State::Loading => Stage::Loading,
        State::NoRepository => Stage::NoRepository,
        State::Ready(review) => Stage::Ready(subject(review@)),
        State::Failed(text) => Stage::Failed(text@),
    }
}

/// A file with what loading it brought.
pub open spec fn with_load(file: ReviewFile, load: FileLoad) -> ReviewFile {
    ReviewFile { change: file.change, content: load.content, highlights: load.highlights }
}

/// The files of changes that are not loaded yet.
pub open spec fn pending_files(changes: Seq<FileChange>) -> Seq<ReviewFile> {
    Seq::new(
        changes.len(),
        |i: int| ReviewFile { change: changes[i], content: Content::Pending, highlights: None },
    )
}

/// What a window shows after an event.
pub open spec fn after_event(stage: Stage, event: Event) -> Stage {
    match event {
        Event::Opened { root, changes, first, state } => Stage::Ready(
            Subject {
                root: root@,
                files: match first {
                    Some(load) => pending_files(changes@).update(
                        0,
                        with_load(pending_files(changes@)[0], load),
                    ),
                    None => pending_files(changes@),
                },
                collapsed: Set::empty(),
                seen: match state.seen {
                    Some(s) => Some(s@),
                    None => None,
                },
                reviewed: state.reviewed@,
                comments: state.comments@,
                layout: DiffLayout::Unified,
                tree: crate::tree::tree_rows(Set::empty(), pending_files(changes@), 0),
            },
        ),
        Event::NoRepository => Stage::NoRepository,
        Event::Failed(message) => Stage::Failed(message@),
        Event::Loaded(file, load) => match stage {
            Stage::Ready(s) => Stage::Ready(
                Subject {
                    files: s.files.update(file as int, with_load(s.files[file as int], load)),
                    ..s
                },
            ),
            other => other,
        },
    }
}

/// What a window shows after the first `count` events.
pub open spec fn after_events(stage: Stage, events: Seq<Event>, count: int) -> Stage
    decreases count,
{
    if count <= 0 {
        stage
    } else {
        after_event(after_events(stage, events, count - 1), events[count - 1])
    }
}

/// The rows that show what a review is about.
pub open spec fn subject_rows(s: Subject) -> Seq<Row> {
    rows::all_rows(
        rows::Showing {
            comments: s.comments,
            reviewed: s.reviewed,
            split: s.layout == DiffLayout::Split,
        },
        s.files,
    )
}

/// The rows after the first `count` events, before any are rebuilt for what was loaded: those
/// of the repository that was opened last, or those that were there.
pub open spec fn rows_after(
    rows: Seq<Row>,
    stage: Stage,
    events: Seq<Event>,
    count: int,
) -> Seq<Row>
    decreases count,
{
    if count <= 0 {
        rows
    } else if events[count - 1] is Opened {
        subject_rows(after_events(stage, events, count)->Ready_0)
    } else {
        rows_after(rows, stage, events, count - 1)
    }
}

/// Whether a diff that loading brought shows how its texts differ, and its syntax spans are
/// sorted.
pub open spec fn load_ok(load: FileLoad) -> bool {
    &&& load.content matches Content::Loaded(crate::repo::Loaded::Text(d)) ==> d.wf()
    &&& review::highlights_ok(load.highlights)
}

/// Whether an event fits what the window shows: a load is one of the review's files, and a
/// repository is opened before the cursor moved.
pub open spec fn event_ok(stage: Stage, place: Place, event: Event) -> bool {
    match event {
        Event::Opened { changes, first, .. } => {
            &&& first matches Some(load) ==> changes@.len() > 0 && load_ok(load)
            &&& place.cursor == 0
            &&& place.select_anchor matches Some(a) ==> a == 0
        },
        Event::Loaded(file, load) => stage matches Stage::Ready(s) ==> file < s.files.len()
            && load_ok(load),
        _ => true,
    }
}

/// Whether events fit what the window shows.
pub open spec fn events_ok(stage: Stage, place: Place, events: Seq<Event>) -> bool {
    forall|i: int|
        0 <= i < events.len() ==> event_ok(
            #[trigger] after_events(stage, events, i),
            place,
            events[i],
        )
}

/// The rows that a window shows, if any.
pub open spec fn rows_shown(state: State) -> Seq<Row> {
    match shown(state) {
        Some(v) => v.rows,
        None => Seq::empty(),
    }
}

/// Whether one of the first `count` events is a load into a review.
pub open spec fn any_load(stage: Stage, events: Seq<Event>, count: int) -> bool
    decreases count,
{
    count > 0 && (any_load(stage, events, count - 1) || (events[count - 1] is Loaded
        && after_events(stage, events, count - 1) is Ready))
}

/// Whether a baseline is wanted after the first `count` events: a repository without a
/// recorded look was opened last.
pub open spec fn wants_baseline(pending: bool, events: Seq<Event>, count: int) -> bool
    decreases count,
{
    if count <= 0 {
        pending
    } else {
        match events[count - 1] {
            Event::Opened { state, .. } => state.seen is None,
            _ => wants_baseline(pending, events, count - 1),
        }
    }
}

impl GoroView {
    fn apply_one(&mut self, event: Event) -> (loaded: bool)
        requires
            shown(old(self).state) matches Some(v) ==> v.wf() && rows::files_wf(v.files),
            event_ok(stage_of(old(self).state), old(self).place, event),
        ensures
            stage_of(final(self).state) == after_event(stage_of(old(self).state), event),
            shown(final(self).state) matches Some(v) ==> v.wf() && rows::files_wf(v.files),
            loaded == (event is Loaded && old(self).state is Ready),
            !(event is Loaded) && shown(final(self).state) is Some ==> (shown(
                final(self).state,
            )->Some_0).fresh(),
            loaded ==> shown(final(self).state)->Some_0.rows == shown(old(self).state)->Some_0.rows,
            event is Loaded && !loaded ==> final(self).state == old(self).state,
            *final(self) == (GoroView {
                state: final(self).state,
                baseline_pending: match event {
                    Event::Opened { state, .. } => state.seen is None,
                    _ => old(self).baseline_pending,
                },
                ..*old(self)
            }),
    {
        match event {
            Event::Opened { root, changes, first, state } => {
                let ghost pending = pending_files(changes@);
                let mut review = Review::new(root, changes);
                assert(review@.files == pending);
                if let Some(load) = first {
                    review.set_loaded(0, load);
                    assert(rows::files_wf(review@.files)) by {
                        assert forall|i: int| 0 <= i < review@.files.len() implies (rows::diff_of(
                            #[trigger] review@.files[i],
                        ) matches Some(d) ==> d.wf()) && review::highlights_ok(
                            review@.files[i].highlights,
                        ) by {
                            if i > 0 {
                                assert(review@.files[i] == pending[i]);
                            }
                        }
                    }
                }
                self.baseline_pending = state.seen.is_none();
                review.set_seen(state.seen);
                review.set_reviewed(state.reviewed);
                review.set_comments(state.comments);
                review.rebuild_rows();
                self.state = State::Ready(review);
                false
            },
            Event::NoRepository => {
                self.state = State::NoRepository;
                false
            },
            Event::Failed(message) => {
                self.state = State::Failed(message);
                false
            },
            Event::Loaded(file, load) => {
                if let State::Ready(review) = &mut self.state {
                    let ghost before = review@.files;
                    review.set_loaded(file, load);
                    assert(rows::files_wf(review@.files)) by {
                        assert forall|i: int| 0 <= i < review@.files.len() implies (rows::diff_of(
                            #[trigger] review@.files[i],
                        ) matches Some(d) ==> d.wf()) && review::highlights_ok(
                            review@.files[i].highlights,
                        ) by {
                            if i != file {
                                assert(review@.files[i] == before[i]);
                            }
                        }
                    }
                    true
                } else {
                    false
                }
            },
        }
    }
}

/// What a change of the state leaves to be done: where to scroll, and whether what is
/// remembered of the repository is to be saved.
#[derive(Debug, Clone, Copy, PartialEq, Eq, Structural)]
pub struct Aftermath {
    pub scroll: Option<usize>,
    pub save: bool,
}

/// Whether a review was changed to be about `wanted`, its rows show that, and the viewport,
/// the cursor and the selection stayed on the same content.
pub open spec fn became(
    before: ReviewView,
    wanted: ReviewView,
    after: ReviewView,
    top: usize,
    place: Place,
    next: Place,
    scroll: Option<usize>,
) -> bool {
    &&& after.fresh()
    &&& after.same_state(wanted)
    &&& position_kept(before, after, top, place, next, scroll)
}

impl GoroView {
    /// Rebuilds the rows of the review and moves the position to what was kept.
    fn rebuild(&mut self, kept: Kept, top: usize) -> (scroll: Option<usize>)
        requires
            old(self).state is Ready,
            shown(old(self).state) matches Some(v) && rows::files_wf(v.files),
        ensures
            final(self).wf(),
            *final(self) == (GoroView {
                state: final(self).state,
                place: final(self).place,
                ..*old(self)
            }),
            shown(final(self).state) matches Some(w) && w.fresh() && w.same_state(
                shown(old(self).state)->Some_0,
            ) && kept.leads_to(w, top, final(self).place, scroll),
    {
        match &mut self.state {
            State::Ready(review) => {
                review.rebuild_rows();
                let (place, scroll) = kept.resolve(review, top);
                self.place = place;
                scroll
            },
            _ => None,
        }
    }

    /// Applies what loading brought, and returns where to scroll.
    pub fn apply(&mut self, batch: Vec<Event>, top: usize) -> (scroll: Option<usize>)
        requires
            old(self).wf(),
            events_ok(stage_of(old(self).state), old(self).place, batch@),
        ensures
            final(self).wf(),
            stage_of(final(self).state) == after_events(
                stage_of(old(self).state),
                batch@,
                batch@.len() as int,
            ),
            *final(self) == (GoroView {
                state: final(self).state,
                place: final(self).place,
                baseline_pending: wants_baseline(
                    old(self).baseline_pending,
                    batch@,
                    batch@.len() as int,
                ),
                ..*old(self)
            }),
            any_load(stage_of(old(self).state), batch@, batch@.len() as int)
                && final(self).state is Ready ==> exists|before: ReviewView|
                {
                    &&& before.wf()
                    &&& subject(before) == subject(shown(final(self).state)->Some_0)
                    &&& before.rows == rows_after(
                        rows_shown(old(self).state),
                        stage_of(old(self).state),
                        batch@,
                        batch@.len() as int,
                    )
                    &&& #[trigger] position_kept(
                        before,
                        shown(final(self).state)->Some_0,
                        top,
                        old(self).place,
                        final(self).place,
                        scroll,
                    )
                },
            !any_load(stage_of(old(self).state), batch@, batch@.len() as int) || !(
            final(self).state is Ready) ==> final(self).place == old(self).place && scroll is None,
    {
        let ghost events = batch@;
        let ghost start = *self;
        let ghost stage = stage_of(self.state);
        let mut loaded = false;
        for event in iter: batch
            invariant
                iter.seq() == events,
                stage == stage_of(start.state),
                events_ok(stage, start.place, events),
                stage_of(self.state) == after_events(stage, events, iter.index() as int),
                *self == (GoroView {
                    state: self.state,
                    baseline_pending: wants_baseline(
                        start.baseline_pending,
                        events,
                        iter.index() as int,
                    ),
                    ..start
                }),
                start.wf(),
                shown(self.state) matches Some(v) ==> v.wf() && rows::files_wf(v.files),
                loaded == any_load(stage, events, iter.index() as int),
                !loaded && shown(self.state) is Some ==> shown(self.state)->Some_0.fresh()
                    && place_ok(start.place, shown(self.state)->Some_0.rows.len()),
                shown(self.state) matches Some(v) ==> v.rows == rows_after(
                    rows_shown(start.state),
                    stage,
                    events,
                    iter.index() as int,
                ),
        {
            let ghost n = iter.index() as int;
            proof {
                assert(event_ok(after_events(stage, events, n), start.place, events[n]));
            }
            let one = self.apply_one(event);
            if one {
                loaded = true;
            }
        }
        if !loaded {
            return None;
        }
        let kept = match &self.state {
            State::Ready(review) => Kept::of(review, self.place, top),
            _ => {
                return None;
            },
        };
        let ghost before = shown(self.state)->Some_0;
        let scroll = self.rebuild(kept, top);
        proof {
            let after = shown(self.state)->Some_0;
            kept.lemma_keeps(before, after, top, start.place, self.place, scroll);
            assert(subject(before) == subject(after));
        }
        scroll
    }

    /// Everything shown now counts as seen. A look at a turn's snapshots isn't a look at the
    /// working tree.
    pub fn mark_seen(&mut self, top: usize) -> (aftermath: Aftermath)
        requires
            old(self).wf(),
        ensures
            final(self).wf(),
            *final(self) == (GoroView {
                state: final(self).state,
                place: final(self).place,
                ..*old(self)
            }),
            aftermath.save == (old(self).mode is WorkingTree),
            match shown(old(self).state) {
                Some(v) if old(self).mode is WorkingTree => shown(final(self).state) matches Some(w)
                    && became(
                    v,
                    ReviewView {
                        seen: Some(review::snapshot(v.files, v.files.len() as int)),
                        ..v
                    },
                    w,
                    top,
                    old(self).place,
                    final(self).place,
                    aftermath.scroll,
                ),
                _ => *final(self) == *old(self) && aftermath.scroll is None,
            },
    {
        if !self.mode.is_working_tree() {
            return Aftermath { scroll: None, save: false };
        }
        let ghost place = self.place;
        match &mut self.state {
            State::Ready(review) => {
                let ghost before = review@;
                let kept = Kept::of(review, self.place, top);
                let seen = review.snapshot_seen();
                review.set_seen(Some(seen));
                let scroll = self.rebuild(kept, top);
                proof {
                    kept.lemma_keeps(
                        before,
                        shown(self.state)->Some_0,
                        top,
                        place,
                        self.place,
                        scroll,
                    );
                }
                Aftermath { scroll, save: true }
            },
            _ => Aftermath { scroll: None, save: true },
        }
    }

    /// Lays out the diff, from the settings.
    pub fn set_layout(&mut self, layout: DiffLayout, top: usize) -> (scroll: Option<usize>)
        requires
            old(self).wf(),
        ensures
            final(self).wf(),
            *final(self) == (GoroView {
                state: final(self).state,
                place: final(self).place,
                ..*old(self)
            }),
            match shown(old(self).state) {
                Some(v) => shown(final(self).state) matches Some(w) && became(
                    v,
                    ReviewView { layout, ..v },
                    w,
                    top,
                    old(self).place,
                    final(self).place,
                    scroll,
                ),
                None => *final(self) == *old(self) && scroll is None,
            },
    {
        let ghost place = self.place;
        match &mut self.state {
            State::Ready(review) => {
                let ghost before = review@;
                let kept = Kept::of(review, self.place, top);
                review.set_layout(layout);
                let scroll = self.rebuild(kept, top);
                proof {
                    kept.lemma_keeps(
                        before,
                        shown(self.state)->Some_0,
                        top,
                        place,
                        self.place,
                        scroll,
                    );
                }
                scroll
            },
            _ => None,
        }
    }

    /// The user marks everything as seen.
    pub fn mark_seen_action(&mut self, top: usize) -> (aftermath: Aftermath)
        requires
            old(self).wf(),
        ensures
            final(self).wf(),
            told(
                GoroView { state: final(self).state, place: final(self).place, ..*old(self) },
                "Marked everything as seen"@,
                false,
                *final(self),
            ),
            aftermath.save == (old(self).mode is WorkingTree),
            match shown(old(self).state) {
                Some(v) if old(self).mode is WorkingTree => shown(final(self).state) matches Some(w)
                    && became(
                    v,
                    ReviewView {
                        seen: Some(review::snapshot(v.files, v.files.len() as int)),
                        ..v
                    },
                    w,
                    top,
                    old(self).place,
                    final(self).place,
                    aftermath.scroll,
                ),
                _ => final(self).state == old(self).state && final(self).place == old(self).place
                    && aftermath.scroll is None,
            },
    {
        let aftermath = self.mark_seen(top);
        self.set_status(copy_text("Marked everything as seen"), false);
        aftermath
    }

    fn all_loaded(&self) -> (loaded: bool)
        ensures
            loaded <==> (shown(self.state) matches Some(v) && is_loaded(v.files)),
    {
        let files = match &self.state {
            State::Ready(review) => review.files(),
            _ => {
                return false;
            },
        };
        let mut i: usize = 0;
        while i < files.len()
            invariant
                i <= files@.len(),
                shown(self.state) matches Some(v) && v.files == files@,
                forall|j: int| 0 <= j < i ==> !((#[trigger] files@[j]).content is Pending),
            decreases files.len() - i,
        {
            match &files[i].content {
                Content::Pending => {
                    return false;
                },
                _ => {},
            }
            i = i + 1;
        }
        true
    }

    /// Where no look is recorded yet, takes one as soon as everything is loaded.
    pub fn take_baseline_when_loaded(&mut self, top: usize) -> (aftermath: Aftermath)
        requires
            old(self).wf(),
        ensures
            final(self).wf(),
            ({
                let takes = old(self).baseline_pending && (shown(old(self).state) matches Some(v)
                    && is_loaded(v.files));
                &&& *final(self) == (GoroView {
                    state: final(self).state,
                    place: final(self).place,
                    baseline_pending: old(self).baseline_pending && !takes,
                    ..*old(self)
                })
                &&& aftermath.save == (takes && old(self).mode is WorkingTree)
                &&& if takes && old(self).mode is WorkingTree {
                    shown(old(self).state) matches Some(v) && shown(
                        final(self).state,
                    ) matches Some(w) && became(
                        v,
                        ReviewView {
                            seen: Some(review::snapshot(v.files, v.files.len() as int)),
                            ..v
                        },
                        w,
                        top,
                        old(self).place,
                        final(self).place,
                        aftermath.scroll,
                    )
                } else {
                    final(self).state == old(self).state && final(self).place == old(self).place
                        && aftermath.scroll is None
                }
            }),
    {
        if self.baseline_pending && self.all_loaded() {
            self.baseline_pending = false;
            self.mark_seen(top)
        } else {
            Aftermath { scroll: None, save: false }
        }
    }
}

/// Whether every file is loaded.
pub open spec fn is_loaded(files: Seq<ReviewFile>) -> bool {
    forall|i: int| 0 <= i < files.len() ==> !((#[trigger] files[i]).content is Pending)
}

/// How long a window has to be active for leaving it to count as a look.
pub const LOOK_MIN_MS: u64 = 1000;

/// Whether leaving the window after it was active for this long counts as a look.
pub fn is_look(active_ms: Option<u64>) -> (look: bool)
    ensures
        look <==> (active_ms matches Some(ms) && ms >= LOOK_MIN_MS),
{
    match active_ms {
        Some(ms) => ms >= LOOK_MIN_MS,
        None => false,
    }
}

/// After everything was marked as seen, nothing is new.
pub proof fn law_nothing_is_new_after_marking_seen(
    before: ReviewView,
    after: ReviewView,
    top: usize,
    place: Place,
    next: Place,
    scroll: Option<usize>,
)
    requires
        became(
            before,
            ReviewView {
                seen: Some(review::snapshot(before.files, before.files.len() as int)),
                ..before
            },
            after,
            top,
            place,
            next,
            scroll,
        ),
    ensures
        after.new_rows.len() == 0,
{
    review::law_nothing_is_new_after_a_look(after);
}

// ---------------------------------------------------------------------------
// Reloading.

/// A reload to run: what may have changed, and the trees to compare (`None`: the working
/// tree's status; a missing second tree: the worktree now).
#[derive(Debug, PartialEq, Eq)]
pub struct ReloadPlan {
    pub dirty: Dirty,
    pub trees: Option<(String, Option<String>)>,
}

/// Whether `all` says that what `pending` or `dirty` say may have changed.
pub open spec fn merges(pending: Option<Dirty>, dirty: Dirty, all: Dirty) -> bool {
    &&& forall|path: Seq<u8>| #[trigger]
        review::is_dirty(all, path) <==> review::is_dirty(dirty, path) || (pending matches Some(d)
            && review::is_dirty(d, path))
    &&& all is All <==> dirty is All || (pending matches Some(d) && d is All)
}

/// Whether `plan` is the reload that starts from a state, if any does.
pub open spec fn starts(before: GoroView, after: GoroView, plan: Option<ReloadPlan>) -> bool {
    match (before.state, before.pending_reload) {
        (State::Ready(_), Some(dirty)) => match timeline::trees_of(
            before.mode.deep_view(),
            before.sessions.deep_view(),
        ) {
            Ok(trees) => {
                &&& after == (GoroView { pending_reload: None, reload_in_flight: true, ..before })
                &&& plan matches Some(p) && p.dirty == dirty && timeline::trees_view(Ok(p.trees))
                    == Ok::<_, Seq<char>>(trees)
            },
            Err(text) => {
                &&& plan is None
                &&& after == (GoroView {
                    pending_reload: None,
                    status: after.status,
                    status_generation: before.status_generation.wrapping_add(1),
                    ..before
                })
                &&& says(after.status, text, true)
            },
        },
        _ => after == before && plan is None,
    }
}

/// Whether `plan` is the reload that starts after `dirty` changed. One reload runs at a time;
/// changes arriving meanwhile are merged.
pub open spec fn requests(
    before: GoroView,
    dirty: Dirty,
    after: GoroView,
    plan: Option<ReloadPlan>,
) -> bool {
    exists|all: Dirty| #[trigger]
        merges(before.pending_reload, dirty, all) && ({
            let merged = GoroView { pending_reload: Some(all), ..before };
            if before.reload_in_flight {
                after == merged && plan is None
            } else {
                starts(merged, after, plan)
            }
        })
}

/// The files of changes, with what loading them brought.
pub open spec fn loaded_files(changes: Seq<FileChange>, loads: Seq<FileLoad>) -> Seq<ReviewFile> {
    Seq::new(
        changes.len(),
        |i: int| with_load(pending_files(changes)[i], loads[i]),
    )
}

/// Whether a review took the place of another: it shows other changes, and keeps what the
/// other one remembered.
pub open spec fn replaces(
    before: ReviewView,
    after: ReviewView,
    root: Seq<u8>,
    changes: Seq<FileChange>,
    loads: Seq<FileLoad>,
) -> bool {
    &&& after.fresh()
    &&& after.root == root
    &&& after.files == loaded_files(changes, loads)
    &&& after.collapsed == before.collapsed
    &&& after.tree == crate::tree::tree_rows(before.collapsed, pending_files(changes), 0)
    &&& after.seen == before.seen
    &&& after.reviewed == before.reviewed
    &&& after.layout == before.layout
    &&& comments::same_comments(before.comments, after.comments)
}

/// What a reload brings: the root, the changes and a load for each, or why it failed.
pub type Reloaded = Result<(Vec<u8>, Vec<FileChange>, Vec<FileLoad>), String>;

/// Whether `after` is the state once a reload came to an end, before the next one starts.
pub open spec fn reload_ended(
    before: GoroView,
    result: Reloaded,
    top: usize,
    after: GoroView,
    scroll: Option<usize>,
) -> bool {
    match result {
        Ok((root, changes, loads)) => {
            &&& after == (GoroView {
                state: after.state,
                place: after.place,
                reload_in_flight: false,
                ..before
            })
            &&& match shown(before.state) {
                Some(v) => shown(after.state) matches Some(w) && replaces(
                    v,
                    w,
                    root@,
                    changes@,
                    loads@,
                ) && position_kept(v, w, top, before.place, after.place, scroll),
                None => after.state == before.state && after.place == before.place && scroll is None,
            }
        },
        Err(text) => {
            &&& after == (GoroView {
                reload_in_flight: false,
                status: Some(Status { text, is_error: true }),
                status_generation: before.status_generation.wrapping_add(1),
                ..before
            })
            &&& scroll is None
        },
    }
}

impl GoroView {
    fn start_reload(&mut self) -> (plan: Option<ReloadPlan>)
        requires
            old(self).wf(),
        ensures
            final(self).wf(),
            starts(*old(self), *final(self), plan),
    {
        match &self.state {
            State::Ready(_) => {},
            _ => {
                return None;
            },
        }
        let dirty = match self.pending_reload.take() {
            Some(dirty) => dirty,
            None => {
                return None;
            },
        };
        match comparison_trees(&self.mode, self.sessions.as_slice()) {
            Ok(trees) => {
                self.reload_in_flight = true;
                Some(ReloadPlan { dirty, trees })
            },
            Err(text) => {
                self.set_status(text, true);
                None
            },
        }
    }

    /// Reload after `dirty` changed: the reload to run now, if any. One reload runs at a time;
    /// changes arriving meanwhile are merged and trigger exactly one more, so a busy agent
    /// can't starve it.
    pub fn request_reload(&mut self, dirty: Dirty) -> (plan: Option<ReloadPlan>)
        requires
            old(self).wf(),
        ensures
            final(self).wf(),
            requests(*old(self), dirty, *final(self), plan),
    {
        let ghost before = *self;
        let all = match self.pending_reload.take() {
            Some(mut pending) => {
                pending.merge(dirty);
                pending
            },
            None => dirty,
        };
        assert(merges(before.pending_reload, dirty, all));
        self.pending_reload = Some(all);
        assert(*self == (GoroView { pending_reload: Some(all), ..before }));
        if self.reload_in_flight {
            None
        } else {
            self.start_reload()
        }
    }

    /// Shows other changes in place of those shown, and returns where to scroll.
    pub fn replace_review(
        &mut self,
        root: Vec<u8>,
        changes: Vec<FileChange>,
        loads: Vec<FileLoad>,
        top: usize,
    ) -> (scroll: Option<usize>)
        requires
            old(self).wf(),
            loads@.len() == changes@.len(),
            forall|i: int| 0 <= i < loads@.len() ==> load_ok(#[trigger] loads@[i]),
        ensures
            final(self).wf(),
            *final(self) == (GoroView {
                state: final(self).state,
                place: final(self).place,
                ..*old(self)
            }),
            match shown(old(self).state) {
                Some(v) => shown(final(self).state) matches Some(w) && replaces(
                    v,
                    w,
                    root@,
                    changes@,
                    loads@,
                ) && position_kept(v, w, top, old(self).place, final(self).place, scroll),
                None => *final(self) == *old(self) && scroll is None,
            },
    {
        let ghost place = self.place;
        let ghost wanted = loaded_files(changes@, loads@);
        let ghost pending = pending_files(changes@);
        let ghost all = loads@;
        match &mut self.state {
            State::Ready(review) => {
                let ghost before = review@;
                let kept = Kept::of(review, self.place, top);
                let mut next = Review::new(root, changes);
                assert(next@.files == pending);
                next.carry_view_state(review);
                let ghost carried = next@;
                let mut at: usize = 0;
                for load in iter: loads
                    invariant
                        iter.seq() == all,
                        all.len() == pending.len(),
                        at == iter.index(),
                        carried.wf(),
                        carried.files == pending,
                        next@ == (ReviewView { files: next@.files, ..carried }),
                        next@.wf(),
                        next@.files.len() == pending.len(),
                        forall|i: int|
                            0 <= i < at ==> #[trigger] next@.files[i] == with_load(
                                pending[i],
                                all[i],
                            ),
                        forall|i: int|
                            at <= i < pending.len() ==> #[trigger] next@.files[i] == pending[i],
                {
                    next.set_loaded(at, load);
                    at = at + 1;
                }
                assert(next@.files =~= wanted);
                assert(rows::files_wf(next@.files)) by {
                    assert forall|i: int| 0 <= i < next@.files.len() implies (rows::diff_of(
                        #[trigger] next@.files[i],
                    ) matches Some(d) ==> d.wf()) && review::highlights_ok(
                        next@.files[i].highlights,
                    ) by {
                        assert(load_ok(all[i]));
                    }
                }
                next.rebuild_rows();
                let (resolved, scroll) = kept.resolve(&next, top);
                proof {
                    kept.lemma_keeps(before, next@, top, place, resolved, scroll);
                }
                *review = next;
                self.place = resolved;
                scroll
            },
            _ => None,
        }
    }

    /// A reload came to an end: where to scroll, and the next reload to run, if changes
    /// arrived meanwhile.
    pub fn reload_done(
        &mut self,
        result: Reloaded,
        top: usize,
    ) -> (done: (Option<usize>, Option<ReloadPlan>))
        requires
            old(self).wf(),
            result matches Ok((_, changes, loads)) ==> loads@.len() == changes@.len() && forall|
                i: int,
            |
                0 <= i < loads@.len() ==> load_ok(#[trigger] loads@[i]),
        ensures
            final(self).wf(),
            exists|mid: GoroView|
                starts(mid, *final(self), done.1) && #[trigger] reload_ended(
                    *old(self),
                    result,
                    top,
                    mid,
                    done.0,
                ),
    {
        let ghost before = *self;
        let ghost outcome = result;
        self.reload_in_flight = false;
        let scroll = match result {
            Ok((root, changes, loads)) => self.replace_review(root, changes, loads, top),
            Err(text) => {
                self.set_status(text, true);
                None
            },
        };
        let ghost mid = *self;
        assert(reload_ended(before, outcome, top, mid, scroll));
        let plan = self.start_reload();
        let done = (scroll, plan);
        assert(starts(mid, *self, done.1));
        assert(reload_ended(*old(self), outcome, top, mid, done.0));
        done
    }

    /// The recorded sessions were read again: a running turn or session view compares against
    /// a new snapshot.
    pub fn sessions_loaded(&mut self, sessions: Vec<Session>) -> (plan: Option<ReloadPlan>)
        requires
            old(self).wf(),
        ensures
            final(self).wf(),
            if old(self).mode is WorkingTree {
                plan is None && *final(self) == (GoroView { sessions, ..*old(self) })
            } else {
                requests(GoroView { sessions, ..*old(self) }, Dirty::All, *final(self), plan)
            },
    {
        self.sessions = sessions;
        if self.mode.is_working_tree() {
            None
        } else {
            self.request_reload(Dirty::All)
        }
    }

    /// Shows something else: from the top, after a reload. Returns whether the mode changed,
    /// and the reload to run.
    pub fn set_mode(&mut self, mode: Mode) -> (result: (bool, Option<ReloadPlan>))
        requires
            old(self).wf(),
        ensures
            final(self).wf(),
            changes_mode(*old(self), mode, *final(self), result),
    {
        if self.mode.same(&mode) {
            return (false, None);
        }
        self.mode = mode;
        self.place = Place { cursor: 0, select_anchor: None };
        let plan = self.request_reload(Dirty::All);
        (true, plan)
    }

    /// Shows the next turn of the session, or the one before it; from the working tree or a
    /// session view, the latest turn.
    pub fn step_turn(&mut self, forward: bool) -> (result: (bool, Option<ReloadPlan>))
        requires
            old(self).wf(),
        ensures
            final(self).wf(),
            match timeline::stepped(
                old(self).mode.deep_view(),
                old(self).sessions.deep_view(),
                if forward {
                    1
                } else {
                    -1
                },
            ) {
                Some(next) => exists|mode: Mode|
                    mode.deep_view() == next && #[trigger] changes_mode(
                        *old(self),
                        mode,
                        *final(self),
                        result,
                    ),
                None => {
                    &&& result == (false, None::<ReloadPlan>)
                    &&& says(
                        final(self).status,
                        "No agent turns recorded yet (goro hooks install)"@,
                        false,
                    )
                    &&& *final(self) == (GoroView {
                        status: final(self).status,
                        status_generation: old(self).status_generation.wrapping_add(1),
                        ..*old(self)
                    })
                },
            },
    {
        match step_turn(&self.mode, self.sessions.as_slice(), forward) {
            Some(mode) => self.set_mode(mode),
            None => {
                self.set_status(
                    copy_text("No agent turns recorded yet (goro hooks install)"),
                    false,
                );
                (false, None)
            },
        }
    }

    /// The timeline is opened: without sessions the status bar says how to record some.
    pub fn timeline_opened(&mut self)
        requires
            old(self).wf(),
        ensures
            final(self).wf(),
            if old(self).sessions@.len() == 0 {
                &&& says(
                    final(self).status,
                    "No agent turns recorded yet: run `goro hooks install`, then let an agent work"@,
                    false,
                )
                &&& *final(self) == (GoroView {
                    status: final(self).status,
                    status_generation: old(self).status_generation.wrapping_add(1),
                    ..*old(self)
                })
            } else {
                *final(self) == *old(self)
            },
    {
        if self.sessions.len() == 0 {
            self.set_status(
                copy_text(
                    "No agent turns recorded yet: run `goro hooks install`, then let an agent work",
                ),
                false,
            );
        }
    }
}

/// Whether the mode changed to another one: the cursor goes to the top and everything is
/// reloaded. The same mode changes nothing.
pub open spec fn changes_mode(
    before: GoroView,
    mode: Mode,
    after: GoroView,
    result: (bool, Option<ReloadPlan>),
) -> bool {
    if before.mode.deep_view() == mode.deep_view() {
        after == before && result == (false, None::<ReloadPlan>)
    } else {
        result.0 && requests(
            GoroView { mode, place: Place { cursor: 0, select_anchor: None }, ..before },
            Dirty::All,
            after,
            result.1,
        )
    }
}

/// No change is lost: once a reload is requested, what changed is part of the reload that
/// starts or waits for the next one, unless the trees to compare are gone.
pub proof fn law_no_change_is_lost(
    before: GoroView,
    dirty: Dirty,
    after: GoroView,
    plan: Option<ReloadPlan>,
    path: Seq<u8>,
)
    requires
        before.state is Ready,
        requests(before, dirty, after, plan),
        timeline::trees_of(before.mode.deep_view(), before.sessions.deep_view()) is Ok,
        review::is_dirty(dirty, path) || (before.pending_reload matches Some(d)
            && review::is_dirty(d, path)),
    ensures
        (plan matches Some(p) && review::is_dirty(p.dirty, path)) || (
        after.pending_reload matches Some(d) && review::is_dirty(d, path)),
{
    let all = choose|all: Dirty| #[trigger]
        merges(before.pending_reload, dirty, all) && ({
            let merged = GoroView { pending_reload: Some(all), ..before };
            if before.reload_in_flight {
                after == merged && plan is None
            } else {
                starts(merged, after, plan)
            }
        });
    assert(review::is_dirty(all, path));
}

/// One reload runs at a time: while one runs, no other starts, and it goes on running.
pub proof fn law_one_reload_at_a_time(
    before: GoroView,
    dirty: Dirty,
    after: GoroView,
    plan: Option<ReloadPlan>,
)
    requires
        before.reload_in_flight,
        requests(before, dirty, after, plan),
    ensures
        plan is None,
        after.reload_in_flight,
{
}

// ---------------------------------------------------------------------------
// Git actions.

/// A git action to run.
pub struct OpPlan {
    pub op: Op,
    /// Whether the file is staged: then staging it again takes it back.
    pub staged: bool,
    pub file: usize,
    pub target: Target,
    /// What the action applies to, in words.
    pub what: String,
    /// What may have changed once it is done.
    pub dirty: Dirty,
}

/// How many of the first `count` picked lines are changed lines of a diff.
pub open spec fn changed_picks(d: FileDiff, picks: Seq<usize>, count: int) -> nat
    decreases count,
{
    if count <= 0 {
        0
    } else {
        changed_picks(d, picks, count - 1) + if picks[count - 1] < d.lines@.len()
            && d.lines@[picks[count - 1] as int].kind != LineKind::Context {
            1nat
        } else {
            0
        }
    }
}

fn count_changed(d: &FileDiff, picks: &[usize]) -> (count: usize)
    ensures
        count == changed_picks(*d, picks@, picks@.len() as int),
{
    let mut count: usize = 0;
    let mut i: usize = 0;
    while i < picks.len()
        invariant
            i <= picks@.len(),
            count <= i,
            count == changed_picks(*d, picks@, i as int),
        decreases picks.len() - i,
    {
        if picks[i] < d.lines.len() {
            match d.lines[picks[i]].kind {
                LineKind::Context => {},
                _ => {
                    count = count + 1;
                },
            }
        }
        i = i + 1;
    }
    count
}

/// What an action applies to, in words: a file, or so many changed lines of it.
pub open spec fn what_text(file: ReviewFile, target: Target) -> Seq<char> {
    let path = crate::text::str_lossy(file.change.path@);
    match target {
        Target::WholeFile => path,
        Target::Lines(lines) => {
            let count = match rows::diff_of(file) {
                Some(d) => changed_picks(d, lines@, lines@.len() as int),
                None => 0,
            };
            crate::text::digits(count) + " line"@ + (if count == 1 {
                ""@
            } else {
                "s"@
            }) + " of "@ + path
        },
    }
}

fn what_of(file: &ReviewFile, target: &Target) -> (what: String)
    ensures
        what@ == what_text(*file, *target),
{
    match target {
        Target::WholeFile => file.change.path_lossy(),
        Target::Lines(lines) => {
            let count: usize = match file.diff() {
                Some(d) => {
                    let diff: &FileDiff = d;
                    count_changed(diff, lines.as_slice())
                },
                None => 0,
            };
            let mut what = crate::text::number_text(count as u64);
            push_text(&mut what, " line");
            if count == 1 {
                push_text(&mut what, "");
            } else {
                push_text(&mut what, "s");
            }
            push_text(&mut what, " of ");
            push_text(&mut what, file.change.path_lossy().as_str());
            what
        },
    }
}

/// What an action did, in one word.
pub open spec fn verb(op: Op, staged: bool) -> Seq<char> {
    match (op, staged) {
        (Op::Stage, false) => "Staged"@,
        (Op::Stage, true) => "Unstaged"@,
        (Op::Discard, _) => "Discarded"@,
    }
}

/// Whether `plan` is the action on a target: a whole file if that is asked for. Staging
/// changes no file of the worktree; discarding changes the one.
pub open spec fn plans_op(
    v: ReviewView,
    op: Op,
    whole_file: bool,
    file: usize,
    target: Target,
    plan: OpPlan,
) -> bool {
    let entry = v.files[file as int];
    &&& plan.op == op
    &&& plan.staged == (entry.change.section == Section::Staged)
    &&& plan.file == file
    &&& file < v.files.len()
    &&& plan.target == (if whole_file {
        Target::WholeFile
    } else {
        target
    })
    &&& plan.what@ == what_text(entry, plan.target)
    &&& plan.dirty matches Dirty::Paths(paths) && match op {
        Op::Stage => paths@.len() == 0,
        Op::Discard => paths@.len() == 1 && paths@[0]@ == entry.change.path@,
    }
}

/// Whether `after` says so much, and is as `before` otherwise.
pub open spec fn told(before: GoroView, text: Seq<char>, is_error: bool, after: GoroView) -> bool {
    &&& says(after.status, text, is_error)
    &&& after == (GoroView {
        status: after.status,
        status_generation: before.status_generation.wrapping_add(1),
        ..before
    })
}

impl GoroView {
    /// Begins an action on the cursor's target (or the whole file): what to run, unless
    /// something runs already or there is no target.
    pub fn begin_op(&mut self, op: Op, whole_file: bool) -> (plan: Option<OpPlan>)
        requires
            old(self).wf(),
        ensures
            final(self).wf(),
            match shown(old(self).state) {
                Some(v) if !old(self).busy => exists|found: Option<(usize, Target)>|
                    {
                        &&& #[trigger] review::targets(
                            v,
                            old(self).place.cursor,
                            old(self).place.select_anchor,
                            found,
                        )
                        &&& match found {
                            Some((file, target)) => {
                                &&& plan matches Some(p) && plans_op(
                                    v,
                                    op,
                                    whole_file,
                                    file,
                                    target,
                                    p,
                                )
                                &&& *final(self) == (GoroView { busy: true, ..*old(self) })
                            },
                            None => plan is None && *final(self) == *old(self),
                        }
                    },
                _ => plan is None && *final(self) == *old(self),
            },
    {
        if self.busy {
            return None;
        }
        let review = match &self.state {
            State::Ready(review) => review,
            _ => {
                return None;
            },
        };
        let found = review.action_target(self.place.cursor, self.place.select_anchor);
        let ghost target_found = found;
        assert(review::targets(
            review@,
            self.place.cursor,
            self.place.select_anchor,
            target_found,
        ));
        let (file, target) = match found {
            Some((file, target)) => (file, target),
            None => {
                return None;
            },
        };
        proof {
            let r = self.place.cursor as int;
            assert(review@.rows[r].file_of() == file);
            assert(review@.starts[review@.rows[r].file_of() as int] <= r);
        }
        let entry = &review.files()[file];
        let staged = match entry.change.section {
            Section::Staged => true,
            _ => false,
        };
        let target = if whole_file {
            Target::WholeFile
        } else {
            target
        };
        let what = what_of(entry, &target);
        let mut paths: Vec<Vec<u8>> = Vec::new();
        match op {
            Op::Discard => {
                paths.push(crate::bytes::copy(entry.change.path.as_slice()));
            },
            Op::Stage => {},
        }
        let plan = OpPlan { op, staged, file, target, what, dirty: Dirty::Paths(paths) };
        assert(plans_op(review@, op, whole_file, file, target_found->Some_0.1, plan));
        self.busy = true;
        Some(plan)
    }

    /// An action came to an end: it can be undone, and what it changed is reloaded. One that was
    /// refused says why, and everything is reloaded: what is shown may be out of date.
    pub fn op_done(&mut self, plan: OpPlan, result: Result<Undo, String>) -> (reload: Option<
        ReloadPlan,
    >)
        requires
            old(self).wf(),
        ensures
            final(self).wf(),
            match result {
                Ok(undo) => exists|mid: GoroView|
                    {
                        &&& told(
                            GoroView {
                                busy: false,
                                undo_stack: mid.undo_stack,
                                place: Place { select_anchor: None, ..old(self).place },
                                ..*old(self)
                            },
                            verb(plan.op, plan.staged) + " "@ + plan.what@ + "  (u to undo)"@,
                            false,
                            mid,
                        )
                        &&& mid.undo_stack@ == old(self).undo_stack@.push(undo)
                        &&& #[trigger] requests(mid, plan.dirty, *final(self), reload)
                    },
                Err(text) => exists|mid: GoroView|
                    told(GoroView { busy: false, ..*old(self) }, text@, true, mid)
                        && #[trigger] requests(mid, Dirty::All, *final(self), reload),
            },
    {
        let ghost before = *self;
        self.busy = false;
        match result {
            Ok(undo) => {
                self.undo_stack.push(undo);
                self.place.select_anchor = None;
                let mut text = copy_text(
                    match (plan.op, plan.staged) {
                        (Op::Stage, false) => "Staged",
                        (Op::Stage, true) => "Unstaged",
                        (Op::Discard, _) => "Discarded",
                    },
                );
                push_text(&mut text, " ");
                push_text(&mut text, plan.what.as_str());
                push_text(&mut text, "  (u to undo)");
                let ghost words = text@;
                self.set_status(text, false);
                let ghost mid = *self;
                assert(told(
                    GoroView {
                        busy: false,
                        undo_stack: mid.undo_stack,
                        place: Place { select_anchor: None, ..before.place },
                        ..before
                    },
                    words,
                    false,
                    mid,
                ));
                self.request_reload(plan.dirty)
            },
            Err(text) => {
                let ghost words = text@;
                self.set_status(text, true);
                let ghost mid = *self;
                assert(told(GoroView { busy: false, ..before }, words, true, mid));
                self.request_reload(Dirty::All)
            },
        }
    }

    /// Begins to undo the last action: what to undo, unless something runs already or there
    /// is nothing.
    pub fn begin_undo(&mut self) -> (undo: Option<Undo>)
        requires
            old(self).wf(),
        ensures
            final(self).wf(),
            if old(self).busy || !(old(self).state is Ready) {
                undo is None && *final(self) == *old(self)
            } else if old(self).undo_stack@.len() == 0 {
                &&& undo is None
                &&& told(
                    GoroView { undo_stack: final(self).undo_stack, ..*old(self) },
                    "Nothing to undo"@,
                    false,
                    *final(self),
                )
                &&& final(self).undo_stack@.len() == 0
            } else {
                &&& undo == Some(old(self).undo_stack@.last())
                &&& final(self).undo_stack@ == old(self).undo_stack@.drop_last()
                &&& *final(self) == (GoroView {
                    busy: true,
                    undo_stack: final(self).undo_stack,
                    ..*old(self)
                })
            },
    {
        if self.busy {
            return None;
        }
        match &self.state {
            State::Ready(_) => {},
            _ => {
                return None;
            },
        }
        match self.undo_stack.pop() {
            Some(undo) => {
                self.busy = true;
                Some(undo)
            },
            None => {
                self.set_status(copy_text("Nothing to undo"), false);
                None
            },
        }
    }

    /// An undo came to an end, or was refused: everything is reloaded.
    pub fn undo_done(&mut self, undo: &Undo, result: Result<(), String>) -> (reload: Option<
        ReloadPlan,
    >)
        requires
            old(self).wf(),
        ensures
            final(self).wf(),
            match result {
                Ok(_) => exists|mid: GoroView|
                    told(
                        GoroView { busy: false, ..*old(self) },
                        "Undid "@ + undo.description@,
                        false,
                        mid,
                    ) && #[trigger] requests(mid, Dirty::All, *final(self), reload),
                Err(text) => exists|mid: GoroView|
                    told(GoroView { busy: false, ..*old(self) }, text@, true, mid)
                        && #[trigger] requests(mid, Dirty::All, *final(self), reload),
            },
    {
        let ghost before = *self;
        self.busy = false;
        match result {
            Ok(_) => {
                let mut text = copy_text("Undid ");
                push_text(&mut text, undo.description.as_str());
                let ghost words = text@;
                self.set_status(text, false);
                let ghost mid = *self;
                assert(told(GoroView { busy: false, ..before }, words, false, mid));
                self.request_reload(Dirty::All)
            },
            Err(text) => {
                let ghost words = text@;
                self.set_status(text, true);
                let ghost mid = *self;
                assert(told(GoroView { busy: false, ..before }, words, true, mid));
                self.request_reload(Dirty::All)
            },
        }
    }

    // -----------------------------------------------------------------------
    // Committing.

    /// How many files are staged.
    pub fn staged_count(&self) -> (count: usize)
        ensures
            count == (match shown(self.state) {
                Some(v) => staged_in(v.files, v.files.len() as int),
                None => 0,
            }),
    {
        let files = match &self.state {
            State::Ready(review) => review.files(),
            _ => {
                return 0;
            },
        };
        let mut count: usize = 0;
        let mut i: usize = 0;
        while i < files.len()
            invariant
                i <= files@.len(),
                count <= i,
                count == staged_in(files@, i as int),
            decreases files.len() - i,
        {
            match files[i].change.section {
                Section::Staged => {
                    count = count + 1;
                },
                _ => {},
            }
            i = i + 1;
        }
        count
    }

    /// Begins to commit what is staged: with which options, unless something runs already or
    /// nothing is staged.
    pub fn begin_commit(&mut self) -> (options: Option<CommitOptions>)
        requires
            old(self).wf(),
        ensures
            final(self).wf(),
            match shown(old(self).state) {
                Some(v) if !old(self).busy => if !old(self).amend && staged_in(
                    v.files,
                    v.files.len() as int,
                ) == 0 {
                    options is None && told(
                        *old(self),
                        "Nothing staged to commit"@,
                        true,
                        *final(self),
                    )
                } else {
                    &&& options == Some(
                        CommitOptions { amend: old(self).amend, signoff: old(self).signoff },
                    )
                    &&& told(
                        GoroView { busy: true, ..*old(self) },
                        "Committing…"@,
                        false,
                        *final(self),
                    )
                },
                _ => options is None && *final(self) == *old(self),
            },
    {
        if self.busy {
            return None;
        }
        match &self.state {
            State::Ready(_) => {},
            _ => {
                return None;
            },
        }
        if !self.amend && self.staged_count() == 0 {
            self.set_status(copy_text("Nothing staged to commit"), true);
            return None;
        }
        self.busy = true;
        self.set_status(copy_text("Committing…"), false);
        Some(CommitOptions { amend: self.amend, signoff: self.signoff })
    }

    /// A commit came to an end. Undo entries refer to the old HEAD, so they go.
    pub fn commit_done(&mut self, result: Result<String, String>) -> (reload: Option<ReloadPlan>)
        requires
            old(self).wf(),
        ensures
            final(self).wf(),
            match result {
                Ok(summary) => exists|mid: GoroView, dirty: Dirty|
                    {
                        &&& told(
                            GoroView {
                                busy: false,
                                amend: false,
                                undo_stack: mid.undo_stack,
                                ..*old(self)
                            },
                            "Committed "@ + summary@,
                            false,
                            mid,
                        )
                        &&& mid.undo_stack@.len() == 0
                        &&& dirty matches Dirty::Paths(paths) && paths@.len() == 0
                        &&& #[trigger] requests(mid, dirty, *final(self), reload)
                    },
                Err(text) => reload is None && told(
                    GoroView { busy: false, ..*old(self) },
                    text@,
                    true,
                    *final(self),
                ),
            },
    {
        let ghost before = *self;
        self.busy = false;
        match result {
            Ok(summary) => {
                self.amend = false;
                self.undo_stack = Vec::new();
                let mut text = copy_text("Committed ");
                push_text(&mut text, summary.as_str());
                let ghost words = text@;
                self.set_status(text, false);
                let ghost mid = *self;
                assert(told(
                    GoroView {
                        busy: false,
                        amend: false,
                        undo_stack: mid.undo_stack,
                        ..before
                    },
                    words,
                    false,
                    mid,
                ));
                let dirty = Dirty::Paths(Vec::new());
                self.request_reload(dirty)
            },
            Err(text) => {
                self.set_status(text, true);
                None
            },
        }
    }

    /// Turns amending on or off: whether to fill the empty message with that of the last
    /// commit.
    pub fn toggle_amend(&mut self, message_is_empty: bool) -> (fill: bool)
        requires
            old(self).wf(),
        ensures
            final(self).wf(),
            *final(self) == (GoroView { amend: !old(self).amend, ..*old(self) }),
            fill <==> !old(self).amend && message_is_empty && old(self).state is Ready,
    {
        self.amend = !self.amend;
        if !self.amend || !message_is_empty {
            return false;
        }
        match &self.state {
            State::Ready(_) => true,
            _ => false,
        }
    }

    /// Turns signing off on or off.
    pub fn toggle_signoff(&mut self)
        requires
            old(self).wf(),
        ensures
            final(self).wf(),
            *final(self) == (GoroView { signoff: !old(self).signoff, ..*old(self) }),
    {
        self.signoff = !self.signoff;
    }
}

/// How many of the first `count` files are staged.
pub open spec fn staged_in(files: Seq<ReviewFile>, count: int) -> nat
    decreases count,
{
    if count <= 0 {
        0
    } else {
        staged_in(files, count - 1) + if files[count - 1].change.section == Section::Staged {
            1nat
        } else {
            0
        }
    }
}

// ---------------------------------------------------------------------------
// Comments.

/// The lines that a row shows: one, or the two of a pair.
pub open spec fn row_lines(row: Row) -> Seq<usize> {
    match row {
        Row::Line { line, .. } => seq![line],
        Row::Pair { old: Some(a), new: Some(b), .. } => if a == b {
            seq![a]
        } else {
            seq![a, b]
        },
        Row::Pair { old: Some(a), new: None, .. } => seq![a],
        Row::Pair { old: None, new: Some(b), .. } => seq![b],
        _ => Seq::empty(),
    }
}

fn lines_of_row(row: Row) -> (lines: Vec<usize>)
    ensures
        lines@ == row_lines(row),
{
    match row {
        Row::Line { line, .. } => vec![line],
        Row::Pair { old: Some(a), new: Some(b), .. } => if a == b {
            vec![a]
        } else {
            vec![a, b]
        },
        Row::Pair { old: Some(a), new: None, .. } => vec![a],
        Row::Pair { old: None, new: Some(b), .. } => vec![b],
        _ => Vec::new(),
    }
}

/// Whether `found` are the lines that a new comment covers: the selection, else the line or
/// pair of lines (or the hunk) at the cursor.
pub open spec fn comments_on(
    v: ReviewView,
    place: Place,
    found: Option<(usize, Vec<usize>)>,
) -> bool {
    if place.cursor < v.rows.len() && place.select_anchor is None && row_lines(
        v.rows[place.cursor as int],
    ).len() > 0 {
        found matches Some((file, lines)) && file == v.rows[place.cursor as int].file_of()
            && lines@ == row_lines(v.rows[place.cursor as int])
    } else {
        exists|target: Option<(usize, Target)>|
            #[trigger] review::targets(v, place.cursor, place.select_anchor, target)
                && match target {
                Some((file, Target::Lines(lines))) => found == Some((file, lines)),
                _ => found is None,
            }
    }
}

/// Whether `found` are the lines that a new comment covers, if the window shows a review.
pub open spec fn comments_at(view: GoroView, found: Option<(usize, Vec<usize>)>) -> bool {
    match shown(view.state) {
        Some(v) => comments_on(v, view.place, found),
        None => found is None,
    }
}

/// Where a comment on lines of a file stands, in words: the file where the lines have no
/// number.
pub open spec fn draft_location(
    file: ReviewFile,
    d: FileDiff,
    lines: Seq<usize>,
    location: Seq<char>,
) -> bool {
    let path = crate::text::str_lossy(file.change.path@);
    exists|text: String, comment: Option<Comment>|
        #[trigger] comments::is_on_lines(0, path, d, lines, text, comment) && location == (
        match comment {
            Some(c) => comments::location_text(c),
            None => path,
        })
}

/// The comments without those with an id.
pub open spec fn dropped(views: Seq<CommentView>, id: u64) -> Seq<CommentView>
    decreases views.len(),
{
    if views.len() == 0 {
        views
    } else if views.last().id == id {
        dropped(views.drop_last(), id)
    } else {
        dropped(views.drop_last(), id).push(views.last())
    }
}

/// The first comment from `from` on with an id.
pub open spec fn comment_from(views: Seq<CommentView>, id: u64, from: int) -> int
    decreases views.len() - from,
{
    if from >= views.len() {
        views.len() as int
    } else if views[from].id == id {
        from
    } else {
        comment_from(views, id, from + 1)
    }
}

/// The comments with another text for the one with an id.
pub open spec fn retold(views: Seq<CommentView>, id: u64, text: Seq<char>) -> Seq<CommentView> {
    let at = comment_from(views, id, 0);
    if at < views.len() {
        views.update(at, CommentView { text, ..views[at] })
    } else {
        views
    }
}

/// The largest id among comments, or zero.
pub open spec fn largest_id(views: Seq<CommentView>) -> u64
    decreases views.len(),
{
    if views.len() == 0 {
        0
    } else {
        let rest = largest_id(views.drop_last());
        if views.last().id > rest {
            views.last().id
        } else {
            rest
        }
    }
}

/// Whether `after` are the comments once a draft with a text is saved: an edited comment
/// takes the text, or goes if there is none; a new one is added, if there is a text.
pub open spec fn saved(v: ReviewView, draft: Draft, text: Seq<char>, after: Seq<Comment>) -> bool {
    let before = comments::comment_views(v.comments);
    let views = comments::comment_views(after);
    match draft.editing {
        Some(id) => views == (if text.len() == 0 {
            dropped(before, id)
        } else {
            retold(before, id, text)
        }),
        None => if text.len() == 0 {
            views == before
        } else {
            match rows::diff_of(v.files[draft.file as int]) {
                None => views == before,
                Some(d) => exists|words: String, comment: Option<Comment>|
                    words@ == text && #[trigger] comments::is_on_lines(
                        largest_id(before).wrapping_add(1),
                        crate::text::str_lossy(v.files[draft.file as int].change.path@),
                        d,
                        draft.lines@,
                        words,
                        comment,
                    ) && views == (match comment {
                        Some(c) => before.push(c.deep_view()),
                        None => before,
                    }),
            }
        },
    }
}

fn drop_comments(list: Vec<Comment>, id: u64) -> (kept: Vec<Comment>)
    ensures
        comments::comment_views(kept@) == dropped(comments::comment_views(list@), id),
{
    let ghost all = list@;
    let ghost views = comments::comment_views(all);
    let mut kept: Vec<Comment> = Vec::new();
    proof {
        assert(views.take(0) =~= seq![]);
        assert(comments::comment_views(kept@) =~= seq![]);
    }
    for comment in iter: list
        invariant
            iter.seq() == all,
            views == comments::comment_views(all),
            comments::comment_views(kept@) == dropped(views.take(iter.index() as int), id),
    {
        let ghost n = iter.index() as int;
        assert(views.take(n + 1).drop_last() =~= views.take(n));
        assert(views[n] == comment.deep_view());
        let ghost before = kept@;
        if comment.id != id {
            kept.push(comment);
            assert(comments::comment_views(kept@) =~= comments::comment_views(before).push(views[n]));
        }
    }
    assert(views.take(views.len() as int) =~= views);
    kept
}

fn retell(list: &mut Vec<Comment>, id: u64, text: String)
    ensures
        comments::comment_views(final(list)@) == retold(
            comments::comment_views(old(list)@),
            id,
            text@,
        ),
{
    let ghost views = comments::comment_views(list@);
    let mut at: usize = 0;
    while at < list.len() && list[at].id != id
        invariant
            at <= list@.len(),
            views == comments::comment_views(list@),
            comment_from(views, id, 0) == comment_from(views, id, at as int),
        decreases list.len() - at,
    {
        assert(views[at as int] == list@[at as int].deep_view());
        at = at + 1;
    }
    if at < list.len() {
        assert(views[at as int] == list@[at as int].deep_view());
        list[at].text = text;
        assert(comments::comment_views(list@) =~= retold(views, id, text@));
    }
}

fn max_id(list: &[Comment]) -> (id: u64)
    ensures
        id == largest_id(comments::comment_views(list@)),
{
    let ghost views = comments::comment_views(list@);
    let mut id: u64 = 0;
    let mut i: usize = 0;
    assert(views.take(0) =~= seq![]);
    while i < list.len()
        invariant
            i <= list@.len(),
            views == comments::comment_views(list@),
            id == largest_id(views.take(i as int)),
        decreases list.len() - i,
    {
        assert(views.take(i + 1).drop_last() =~= views.take(i as int));
        assert(views[i as int] == list@[i as int].deep_view());
        if list[i].id > id {
            id = list[i].id;
        }
        i = i + 1;
    }
    assert(views.take(i as int) =~= views);
    id
}

impl GoroView {
    fn comment_target(&self) -> (found: Option<(usize, Vec<usize>)>)
        requires
            self.wf(),
        ensures
            comments_at(*self, found),
            found matches Some((file, _)) ==> (shown(self.state) matches Some(v) && file
                < v.files.len()),
    {
        let review = match &self.state {
            State::Ready(review) => review,
            _ => {
                return None;
            },
        };
        let rows = review.rows();
        if self.place.cursor < rows.len() {
            proof {
                let r = self.place.cursor as int;
                assert(review@.starts[review@.rows[r].file_of() as int] <= r);
            }
            if self.place.select_anchor.is_none() {
                let row = rows[self.place.cursor];
                let lines = lines_of_row(row);
                if lines.len() > 0 {
                    return Some((row.file(), lines));
                }
            }
        }
        let target = review.action_target(self.place.cursor, self.place.select_anchor);
        assert(review::targets(review@, self.place.cursor, self.place.select_anchor, target));
        match target {
            Some((file, Target::Lines(lines))) => Some((file, lines)),
            _ => None,
        }
    }

    /// Begins a comment on the lines at the cursor: whether a draft was opened.
    pub fn add_comment(&mut self) -> (opened: bool)
        requires
            old(self).wf(),
        ensures
            final(self).wf(),
            exists|found: Option<(usize, Vec<usize>)>|
                {
                    &&& #[trigger] comments_at(*old(self), found)
                    &&& match found {
                        None => !opened && told(
                            *old(self),
                            "Put the cursor on a line (or select lines) to comment"@,
                            false,
                            *final(self),
                        ),
                        Some((file, lines)) => shown(old(self).state) matches Some(v)
                            && match rows::diff_of(v.files[file as int]) {
                            None => !opened && *final(self) == *old(self),
                            Some(d) => {
                                &&& opened
                                &&& *final(self) == (GoroView {
                                    draft: final(self).draft,
                                    ..*old(self)
                                })
                                &&& final(self).draft matches Some(draft) && draft.editing is None
                                    && draft.file == file && draft.lines@ == lines@
                                    && draft_location(
                                    v.files[file as int],
                                    d,
                                    lines@,
                                    draft.location@,
                                )
                            },
                        },
                    }
                },
    {
        let found = self.comment_target();
        assert(comments_at(*self, found));
        let (file, lines) = match found {
            Some((file, lines)) => (file, lines),
            None => {
                self.set_status(
                    copy_text("Put the cursor on a line (or select lines) to comment"),
                    false,
                );
                return false;
            },
        };
        let review = match &self.state {
            State::Ready(review) => review,
            _ => {
                return false;
            },
        };
        let ghost v = review@;
        let entry = &review.files()[file];
        let path = entry.change.path_lossy();
        let diff: &FileDiff = match entry.diff() {
            Some(d) => d,
            None => {
                return false;
            },
        };
        assert(rows::diff_of(v.files[file as int]) == Some(*diff));
        let empty = copy_text("");
        let ghost words = empty;
        let comment = Comment::on_lines(0, path.as_str(), diff, lines.as_slice(), empty);
        let location = match &comment {
            Some(c) => c.location(),
            None => path,
        };
        assert(comments::is_on_lines(
            0,
            crate::text::str_lossy(v.files[file as int].change.path@),
            *diff,
            lines@,
            words,
            comment,
        ));
        assert(draft_location(v.files[file as int], *diff, lines@, location@));
        self.draft = Some(Draft { editing: None, file, lines, location });
        true
    }

    /// Begins to edit the comment at the cursor: its text, if there is one.
    pub fn edit_comment(&mut self) -> (text: Option<String>)
        requires
            old(self).wf(),
        ensures
            final(self).wf(),
            match at_cursor(*old(self)) {
                Some(Row::Comment { file, comment, .. }) => {
                    &&& *final(self) == (GoroView { draft: final(self).draft, ..*old(self) })
                    &&& shown(old(self).state) matches Some(v)
                    &&& text matches Some(t)
                    &&& final(self).draft matches Some(draft)
                    &&& t@ == v.comments[comment as int].text@
                    &&& draft.editing == Some(v.comments[comment as int].id)
                    &&& draft.file == file
                    &&& draft.lines@.len() == 0
                    &&& draft.location@ == comments::location_text(v.comments[comment as int])
                },
                _ => text is None && *final(self) == *old(self),
            },
    {
        let review = match &self.state {
            State::Ready(review) => review,
            _ => {
                return None;
            },
        };
        let rows = review.rows();
        if self.place.cursor >= rows.len() {
            return None;
        }
        match rows[self.place.cursor] {
            Row::Comment { file, comment, .. } => {
                proof {
                    review::lemma_fresh_row(review@, self.place.cursor as int);
                }
                let c = &review.comments()[comment];
                let text = copy_text(c.text.as_str());
                let location = c.location();
                let id = c.id;
                self.draft = Some(Draft { editing: Some(id), file, lines: Vec::new(), location });
                Some(text)
            },
            _ => None,
        }
    }

    /// Puts a draft away.
    pub fn cancel_comment(&mut self)
        requires
            old(self).wf(),
        ensures
            final(self).wf(),
            *final(self) == (GoroView { draft: None, ..*old(self) }),
    {
        self.draft = None;
    }

    /// Shows other comments, and returns where to scroll.
    fn replace_comments(&mut self, list: Vec<Comment>, top: usize) -> (scroll: Option<usize>)
        requires
            old(self).wf(),
            old(self).state is Ready,
        ensures
            final(self).wf(),
            *final(self) == (GoroView {
                state: final(self).state,
                place: final(self).place,
                ..*old(self)
            }),
            shown(old(self).state) matches Some(v) && shown(final(self).state) matches Some(w)
                && became(
                v,
                ReviewView { comments: list@, ..v },
                w,
                top,
                old(self).place,
                final(self).place,
                scroll,
            ),
    {
        let ghost place = self.place;
        match &mut self.state {
            State::Ready(review) => {
                let ghost before = review@;
                let kept = Kept::of(review, self.place, top);
                review.set_comments(list);
                let scroll = self.rebuild(kept, top);
                proof {
                    kept.lemma_keeps(
                        before,
                        shown(self.state)->Some_0,
                        top,
                        place,
                        self.place,
                        scroll,
                    );
                }
                scroll
            },
            _ => None,
        }
    }

    /// Saves a draft with the text that was typed.
    pub fn save_comment(&mut self, typed: &str, top: usize) -> (aftermath: Aftermath)
        requires
            old(self).wf(),
            (old(self).draft matches Some(draft) ==> draft.editing is None && crate::text::trimmed(
                typed@,
            ).len() > 0 ==> (shown(old(self).state) matches Some(v) ==> draft.file < v.files.len())),
        ensures
            final(self).wf(),
            *final(self) == (GoroView {
                state: final(self).state,
                place: final(self).place,
                draft: None,
                ..*old(self)
            }),
            match (old(self).draft, shown(old(self).state)) {
                (Some(draft), Some(v)) => {
                    &&& aftermath.save
                    &&& shown(final(self).state) matches Some(w) && saved(
                        v,
                        draft,
                        crate::text::trimmed(typed@),
                        w.comments,
                    ) && became(
                        v,
                        ReviewView { comments: w.comments, ..v },
                        w,
                        top,
                        old(self).place,
                        final(self).place,
                        aftermath.scroll,
                    )
                },
                _ => {
                    &&& !aftermath.save && aftermath.scroll is None
                    &&& final(self).state == old(self).state
                    &&& final(self).place == old(self).place
                },
            },
    {
        let ghost before_view = *self;
        let draft = match self.draft.take() {
            Some(draft) => draft,
            None => {
                return Aftermath { scroll: None, save: false };
            },
        };
        let text = trim(typed);
        let review = match &self.state {
            State::Ready(review) => review,
            _ => {
                return Aftermath { scroll: None, save: false };
            },
        };
        let ghost v = review@;
        let ghost views = comments::comment_views(v.comments);
        let mut list = copy_comments(review.comments());
        proof {
            comments::lemma_same_views(v.comments, list@);
        }
        let empty = text.as_str().unicode_len() == 0;
        match draft.editing {
            Some(id) => {
                if empty {
                    list = drop_comments(list, id);
                } else {
                    retell(&mut list, id, text);
                }
            },
            None => {
                if !empty {
                    let id = max_id(list.as_slice()).wrapping_add(1);
                    let entry = &review.files()[draft.file];
                    if let Some(d) = entry.diff() {
                        let diff: &FileDiff = d;
                        let ghost words = text;
                        let comment = Comment::on_lines(
                            id,
                            entry.change.path_lossy().as_str(),
                            diff,
                            draft.lines.as_slice(),
                            text,
                        );
                        assert(comments::is_on_lines(
                            largest_id(views).wrapping_add(1),
                            crate::text::str_lossy(v.files[draft.file as int].change.path@),
                            *diff,
                            draft.lines@,
                            words,
                            comment,
                        ));
                        assert(rows::diff_of(v.files[draft.file as int]) == Some(*diff));
                        let ghost before = list@;
                        if let Some(c) = comment {
                            list.push(c);
                            assert(comments::comment_views(list@)
                                =~= comments::comment_views(before).push(c.deep_view()));
                        }
                    }
                }
            },
        }
        assert(saved(v, draft, crate::text::trimmed(typed@), list@));
        let scroll = self.replace_comments(list, top);
        Aftermath { scroll, save: true }
    }

    /// Deletes the comment under the cursor. Returns what is left to be done, if there was one.
    pub fn delete_comment_at_cursor(&mut self, top: usize) -> (aftermath: Option<Aftermath>)
        requires
            old(self).wf(),
        ensures
            final(self).wf(),
            match at_cursor(*old(self)) {
                Some(Row::Comment { comment, .. }) => {
                    &&& told(
                        GoroView {
                            state: final(self).state,
                            place: final(self).place,
                            ..*old(self)
                        },
                        "Comment deleted"@,
                        false,
                        *final(self),
                    )
                    &&& shown(old(self).state) matches Some(v) && shown(
                        final(self).state,
                    ) matches Some(w) && aftermath matches Some(a) && a.save
                        && comments::comment_views(w.comments) == comments::comment_views(
                        v.comments,
                    ).remove(comment as int) && became(
                        v,
                        ReviewView { comments: w.comments, ..v },
                        w,
                        top,
                        old(self).place,
                        final(self).place,
                        a.scroll,
                    )
                },
                _ => aftermath is None && *final(self) == *old(self),
            },
    {
        let review = match &self.state {
            State::Ready(review) => review,
            _ => {
                return None;
            },
        };
        let rows = review.rows();
        if self.place.cursor >= rows.len() {
            return None;
        }
        let ghost v = review@;
        match rows[self.place.cursor] {
            Row::Comment { comment, .. } => {
                proof {
                    review::lemma_fresh_row(review@, self.place.cursor as int);
                }
                let mut list = copy_comments(review.comments());
                proof {
                    comments::lemma_same_views(v.comments, list@);
                }
                let ghost copies = list@;
                list.remove(comment);
                assert(comments::comment_views(list@) =~= comments::comment_views(copies).remove(
                    comment as int,
                ));
                let scroll = self.replace_comments(list, top);
                self.set_status(copy_text("Comment deleted"), false);
                Some(Aftermath { scroll, save: true })
            },
            _ => None,
        }
    }

    /// The comments as markdown, for the clipboard.
    pub fn copy_comments(&mut self) -> (text: Option<String>)
        requires
            old(self).wf(),
        ensures
            final(self).wf(),
            match shown(old(self).state) {
                Some(v) => {
                    &&& text matches Some(t) && is_markdown(v.comments, t@)
                    &&& told(
                        *old(self),
                        "Copied "@ + crate::text::digits(v.comments.len())
                            + " comment(s) as markdown"@,
                        false,
                        *final(self),
                    )
                },
                None => text is None && *final(self) == *old(self),
            },
    {
        let review = match &self.state {
            State::Ready(review) => review,
            _ => {
                return None;
            },
        };
        let count: usize = review.comments().len();
        let text = to_markdown(review.comments());
        let mut words = copy_text("Copied ");
        push_number(&mut words, count as u64);
        push_text(&mut words, " comment(s) as markdown");
        self.set_status(words, false);
        Some(text)
    }

    /// An agent waits for this review.
    pub fn add_waiter(&mut self)
        requires
            old(self).wf(),
        ensures
            final(self).wf(),
            told(
                *old(self),
                "An agent is waiting for your review: ⌘⇧↵ sends your comments"@,
                false,
                *final(self),
            ),
    {
        self.set_status(
            copy_text("An agent is waiting for your review: ⌘⇧↵ sends your comments"),
            false,
        );
    }

    /// Sends the review to the agents that wait for it, of which there are `waiting`: the
    /// comments as markdown. They are then gone from the review.
    pub fn send_review(&mut self, waiting: usize, top: usize) -> (sent: Option<(String, Aftermath)>)
        requires
            old(self).wf(),
        ensures
            final(self).wf(),
            if waiting == 0 {
                sent is None && told(
                    *old(self),
                    "No agent is waiting (`goro --wait`); press y to copy comments"@,
                    false,
                    *final(self),
                )
            } else {
                match shown(old(self).state) {
                    None => sent is None && *final(self) == *old(self),
                    Some(v) => {
                        &&& told(
                            GoroView {
                                state: final(self).state,
                                place: final(self).place,
                                ..*old(self)
                            },
                            "Sent "@ + crate::text::digits(v.comments.len())
                                + " comment(s) to the agent"@,
                            false,
                            *final(self),
                        )
                        &&& sent matches Some((text, a))
                        &&& shown(final(self).state) matches Some(w)
                        &&& is_markdown(v.comments, text@)
                        &&& a.save
                        &&& w.comments.len() == 0
                        &&& became(
                            v,
                            ReviewView { comments: w.comments, ..v },
                            w,
                            top,
                            old(self).place,
                            final(self).place,
                            a.scroll,
                        )
                    },
                }
            },
    {
        if waiting == 0 {
            self.set_status(
                copy_text("No agent is waiting (`goro --wait`); press y to copy comments"),
                false,
            );
            return None;
        }
        let review = match &self.state {
            State::Ready(review) => review,
            _ => {
                return None;
            },
        };
        let count: usize = review.comments().len();
        let text = to_markdown(review.comments());
        let scroll = self.replace_comments(Vec::new(), top);
        let mut words = copy_text("Sent ");
        push_number(&mut words, count as u64);
        push_text(&mut words, " comment(s) to the agent");
        self.set_status(words, false);
        Some((text, Aftermath { scroll, save: true }))
    }
}

/// The row at the cursor.
pub open spec fn at_cursor(view: GoroView) -> Option<Row> {
    match shown(view.state) {
        Some(v) if view.place.cursor < v.rows.len() => Some(v.rows[view.place.cursor as int]),
        _ => None,
    }
}

/// Whether a text is the markdown of comments.
pub open spec fn is_markdown(list: Seq<Comment>, text: Seq<char>) -> bool {
    exists|order: Seq<int>|
        comments::is_listing(list, order) && #[trigger] comments::markdown(list, order) == text
}

// ---------------------------------------------------------------------------
// Marking reviewed, and what is remembered.

/// The last hunk header up to a row.
pub open spec fn header_up_to(rows: Seq<Row>, row: int) -> Option<int>
    decreases row + 1,
{
    if row < 0 {
        None
    } else if rows[row] is Hunk {
        Some(row)
    } else {
        header_up_to(rows, row - 1)
    }
}

/// Where the cursor is when a hunk is marked: on the hunk's header, since toggling collapses
/// the hunk's lines.
pub open spec fn marking_row(rows: Seq<Row>, cursor: usize) -> usize {
    if cursor < rows.len() && row_lines(rows[cursor as int]).len() > 0 {
        match header_up_to(rows, cursor as int) {
            Some(header) => header as usize,
            None => cursor,
        }
    } else {
        cursor
    }
}

fn find_header(rows: &[Row], cursor: usize) -> (row: usize)
    ensures
        row == marking_row(rows@, cursor),
        row <= cursor,
{
    if cursor >= rows.len() {
        return cursor;
    }
    if lines_of_row(rows[cursor]).len() == 0 {
        return cursor;
    }
    let mut row: usize = cursor;
    while row > 0
        invariant
            row <= cursor < rows@.len(),
            row_lines(rows@[cursor as int]).len() > 0,
            header_up_to(rows@, cursor as int) == header_up_to(rows@, row as int),
        decreases row,
    {
        match rows[row] {
            Row::Hunk { .. } => {
                return row;
            },
            _ => {},
        }
        row = row - 1;
    }
    match rows[0] {
        Row::Hunk { .. } => 0,
        _ => {
            assert(header_up_to(rows@, -1) is None);
            cursor
        },
    }
}

impl GoroView {
    /// Toggles reviewed for the hunk at the cursor, or the whole file on its header.
    pub fn toggle_reviewed(&mut self, top: usize) -> (aftermath: Aftermath)
        requires
            old(self).wf(),
        ensures
            final(self).wf(),
            *final(self) == (GoroView {
                state: final(self).state,
                place: final(self).place,
                ..*old(self)
            }),
            match shown(old(self).state) {
                Some(v) => {
                    let row = marking_row(v.rows, old(self).place.cursor);
                    &&& aftermath.save
                    &&& shown(final(self).state) matches Some(w) && w.fresh() && position_kept(
                        v,
                        w,
                        top,
                        Place { cursor: row, select_anchor: None },
                        final(self).place,
                        aftermath.scroll,
                    ) && (if row < v.rows.len() {
                        w.same_state(
                            ReviewView {
                                reviewed: review::toggled(
                                    v.reviewed,
                                    review::marked_hashes(v, v.rows[row as int]),
                                ),
                                ..v
                            },
                        )
                    } else {
                        w == v
                    })
                },
                None => !aftermath.save && aftermath.scroll is None && *final(self) == *old(self),
            },
    {
        match &mut self.state {
            State::Ready(review) => {
                let ghost before = review@;
                let row = find_header(review.rows(), self.place.cursor);
                let place = Place { cursor: row, select_anchor: None };
                let kept = Kept::of(review, place, top);
                review.toggle_reviewed(row);
                let (next, scroll) = kept.resolve(review, top);
                proof {
                    kept.lemma_keeps(before, review@, top, place, next, scroll);
                }
                self.place = next;
                Aftermath { scroll, save: true }
            },
            _ => Aftermath { scroll: None, save: false },
        }
    }

    /// Collapses a directory of the tree, or expands it.
    pub fn toggle_dir(&mut self, section: Section, path: &str)
        requires
            old(self).wf(),
        ensures
            final(self).wf(),
            *final(self) == (GoroView { state: final(self).state, ..*old(self) }),
            match shown(old(self).state) {
                Some(v) => shown(final(self).state) == Some(
                    ReviewView {
                        collapsed: toggled_dir(v.collapsed, (section, path@)),
                        tree: crate::tree::tree_rows(
                            toggled_dir(v.collapsed, (section, path@)),
                            v.files,
                            0,
                        ),
                        ..v
                    },
                ),
                None => final(self).state == old(self).state,
            },
    {
        if let State::Ready(review) = &mut self.state {
            review.toggle_dir(section, path);
        }
    }

    /// What is to be remembered of the repository.
    pub fn state_to_save(&self) -> (state: Option<RepoState>)
        ensures
            match (shown(self.state), state) {
                (Some(v), Some(s)) => {
                    &&& v.seen == (match s.seen {
                        Some(seen) => Some(seen@),
                        None => None,
                    })
                    &&& forall|hash: u64| #[trigger]
                        s.reviewed@.contains(hash) <==> v.reviewed.contains(hash)
                            && review::has_hash(v.hashes, hash)
                    &&& comments::same_comments(v.comments, s.comments@)
                },
                (None, None) => true,
                _ => false,
            },
    {
        match &self.state {
            State::Ready(review) => Some(
                RepoState {
                    seen: match review.seen() {
                        Some(seen) => Some(seen.copy()),
                        None => None,
                    },
                    reviewed: review.reviewed_for_save(),
                    comments: copy_comments(review.comments()),
                },
            ),
            _ => None,
        }
    }
}

/// The directories that are collapsed once one is toggled.
pub open spec fn toggled_dir(
    collapsed: Set<(Section, Seq<char>)>,
    dir: (Section, Seq<char>),
) -> Set<(Section, Seq<char>)> {
    if collapsed.contains(dir) {
        collapsed.remove(dir)
    } else {
        collapsed.insert(dir)
    }
}

// ---------------------------------------------------------------------------
// What becomes of comments.

proof fn lemma_largest_id(views: Seq<CommentView>)
    ensures
        forall|i: int| 0 <= i < views.len() ==> (#[trigger] views[i]).id <= largest_id(views),
    decreases views.len(),
{
    if views.len() > 0 {
        lemma_largest_id(views.drop_last());
        assert forall|i: int| 0 <= i < views.len() implies (#[trigger] views[i]).id <= largest_id(
            views,
        ) by {
            if i < views.len() - 1 {
                assert(views.drop_last()[i] == views[i]);
            }
        }
    }
}

proof fn lemma_dropped(views: Seq<CommentView>, id: u64)
    ensures
        forall|i: int| 0 <= i < dropped(views, id).len() ==> (#[trigger] dropped(views, id)[i]).id
            != id,
        forall|i: int|
            0 <= i < dropped(views, id).len() ==> views.contains(#[trigger] dropped(views, id)[i]),
        forall|i: int|
            0 <= i < views.len() && (#[trigger] views[i]).id != id ==> dropped(views, id).contains(
                views[i],
            ),
    decreases views.len(),
{
    if views.len() > 0 {
        let rest = views.drop_last();
        lemma_dropped(rest, id);
        let (before, all) = (dropped(rest, id), dropped(views, id));
        assert forall|i: int| 0 <= i < all.len() implies views.contains(#[trigger] all[i]) by {
            if i < before.len() {
                assert(rest.contains(before[i]));
                let k = rest.index_of(before[i]);
                assert(views[k] == all[i]);
            } else {
                assert(views[views.len() - 1] == all[i]);
            }
        }
        assert forall|i: int| 0 <= i < views.len() && (#[trigger] views[i]).id != id implies
            all.contains(views[i]) by {
            if i < rest.len() {
                assert(rest[i] == views[i]);
                let k = before.index_of(views[i]);
                assert(all[k] == views[i]);
            } else {
                assert(all[before.len() as int] == views[i]);
            }
        }
    }
}

proof fn lemma_comment_from(views: Seq<CommentView>, id: u64, from: int)
    requires
        0 <= from <= views.len(),
    ensures
        from <= comment_from(views, id, from) <= views.len(),
        comment_from(views, id, from) < views.len() ==> views[comment_from(views, id, from)].id
            == id,
        forall|i: int|
            from <= i < comment_from(views, id, from) ==> (#[trigger] views[i]).id != id,
    decreases views.len() - from,
{
    if from < views.len() && views[from].id != id {
        lemma_comment_from(views, id, from + 1);
    }
}

/// Saving what was typed changes the one comment that it is for, and no other. An edited comment
/// has the new text and is else as it was, or is gone if there is none; a new one stands behind
/// all others, with the text, and with an id that none of them has (as long as ids last).
pub proof fn law_saving_changes_one_comment(
    v: ReviewView,
    draft: Draft,
    text: Seq<char>,
    after: Seq<Comment>,
)
    requires
        saved(v, draft, text, after),
    ensures
        ({
            let before = comments::comment_views(v.comments);
            let views = comments::comment_views(after);
            match draft.editing {
                Some(id) if text.len() == 0 => {
                    &&& forall|i: int| 0 <= i < views.len() ==> (#[trigger] views[i]).id != id
                    &&& forall|i: int| 0 <= i < views.len() ==> before.contains(#[trigger] views[i])
                    &&& forall|i: int|
                        0 <= i < before.len() && (#[trigger] before[i]).id != id ==> views.contains(
                            before[i],
                        )
                },
                Some(id) => {
                    &&& views.len() == before.len()
                    &&& forall|i: int|
                        0 <= i < views.len() && (#[trigger] before[i]).id != id ==> views[i]
                            == before[i]
                    &&& forall|i: int|
                        0 <= i < views.len() ==> (#[trigger] views[i]).id == before[i].id
                            && views[i].path == before[i].path && views[i].side == before[i].side
                            && views[i].start == before[i].start && views[i].end == before[i].end
                            && views[i].excerpt == before[i].excerpt
                    &&& (exists|i: int| 0 <= i < before.len() && (#[trigger] before[i]).id == id)
                        ==> exists|i: int|
                        0 <= i < views.len() && (#[trigger] views[i]).id == id && views[i].text
                            == text
                },
                None => {
                    &&& views.len() == before.len() || views.len() == before.len() + 1
                    &&& forall|i: int| 0 <= i < before.len() ==> #[trigger] views[i] == before[i]
                    &&& text.len() == 0 ==> views == before
                    &&& views.len() == before.len() + 1 ==> views.last().text == text && (
                    largest_id(before) < u64::MAX ==> forall|i: int|
                        0 <= i < before.len() ==> (#[trigger] before[i]).id != views.last().id)
                },
            }
        }),
{
    let before = comments::comment_views(v.comments);
    let views = comments::comment_views(after);
    match draft.editing {
        Some(id) => {
            lemma_dropped(before, id);
            lemma_comment_from(before, id, 0);
            let at = comment_from(before, id, 0);
            if text.len() > 0 {
                if at < before.len() {
                    assert(views[at].id == id && views[at].text == text);
                }
                if exists|i: int| 0 <= i < before.len() && (#[trigger] before[i]).id == id {
                    let i = choose|i: int| 0 <= i < before.len() && (#[trigger] before[i]).id == id;
                    assert(at < before.len());
                }
            }
        },
        None => {
            lemma_largest_id(before);
        },
    }
}

/// Something is staged if and only if a file of the staged section is shown.
pub proof fn law_something_is_staged_if_a_staged_file_is_shown(files: Seq<ReviewFile>, count: int)
    requires
        0 <= count <= files.len(),
    ensures
        staged_in(files, count) > 0 <==> exists|i: int|
            0 <= i < count && (#[trigger] files[i]).change.section == Section::Staged,
        staged_in(files, count) <= count,
    decreases count,
{
    if count > 0 {
        law_something_is_staged_if_a_staged_file_is_shown(files, count - 1);
        if files[count - 1].change.section == Section::Staged {
        } else if staged_in(files, count) > 0 {
            let i = choose|i: int|
                0 <= i < count - 1 && (#[trigger] files[i]).change.section == Section::Staged;
            assert(0 <= i < count);
        }
    }
}

} // verus!
