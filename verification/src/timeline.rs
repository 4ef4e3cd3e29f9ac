//! What the diff compares: the working tree, one turn of an agent, or a whole session; and
//! the timeline of turns.
use vstd::prelude::*;

use crate::picker::{ItemView, PickerItem};
use crate::text::{
    chars_of, copy_text, first_line, number_text, push_number, push_text, same_text, take_start, trim,
};
use crate::turns;
use crate::turns::{Session, SessionView, Snapshot, SnapshotView, Turn, TurnView};

verus! {

/// What the diff compares.
#[derive(Debug, PartialEq, Eq)]
pub enum Mode {
    /// HEAD, index and worktree: staged, unstaged and untracked changes.
    WorkingTree,
    /// One agent turn: its start snapshot to its end (or the worktree while it runs).
    Turn { session: String, turn: usize },
    /// A whole session: its first snapshot to the worktree now.
    Session { session: String },
}

/// What the diff compares, as text.
pub enum ModeView {
    WorkingTree,
    Turn { session: Seq<char>, turn: usize },
    Session { session: Seq<char> },
}

impl DeepView for Mode {
    type V = ModeView;

    open spec fn deep_view(&self) -> ModeView {
        match *self {
            Mode::WorkingTree => ModeView::WorkingTree,
            Mode::Turn { session, turn } => ModeView::Turn { session: session@, turn },
            Mode::Session { session } => ModeView::Session { session: session@ },
        }
    }
}

impl Mode {
    /// Whether this is the working tree.
    pub fn is_working_tree(&self) -> (result: bool)
        ensures
            result == (self.deep_view() == ModeView::WorkingTree),
    {
        match self {
            Mode::WorkingTree => true,
            _ => false,
        }
    }

    /// Whether two modes compare the same.
    pub fn same(&self, other: &Mode) -> (result: bool)
        ensures
            result == (self.deep_view() == other.deep_view()),
    {
        match (self, other) {
            (Mode::WorkingTree, Mode::WorkingTree) => true,
            (Mode::Turn { session: a, turn: m }, Mode::Turn { session: b, turn: n }) => *m == *n
                && same_text(a.as_str(), b.as_str()),
            (Mode::Session { session: a }, Mode::Session { session: b }) => same_text(
                a.as_str(),
                b.as_str(),
            ),
            _ => false,
        }
    }
}

// ---------------------------------------------------------------------------
// The trees to compare.

/// The first session from `from` on with an id.
pub open spec fn session_from(sessions: Seq<SessionView>, id: Seq<char>, from: int) -> Option<int>
    decreases sessions.len() - from,
{
    if from >= sessions.len() {
        None
    } else if sessions[from].id == id {
        Some(from)
    } else {
        session_from(sessions, id, from + 1)
    }
}

fn find_session(sessions: &[Session], id: &str) -> (found: Option<usize>)
    ensures
        match found {
            Some(s) => s < sessions@.len() && session_from(sessions.deep_view(), id@, 0) == Some(
                s as int,
            ),
            None => session_from(sessions.deep_view(), id@, 0) is None,
        },
{
    let ghost all = sessions.deep_view();
    let mut at: usize = 0;
    while at < sessions.len()
        invariant
            all == sessions.deep_view(),
            at <= sessions@.len(),
            session_from(all, id@, 0) == session_from(all, id@, at as int),
        decreases sessions.len() - at,
    {
        assert(all[at as int] == sessions@[at as int].deep_view());
        if same_text(sessions[at].id.as_str(), id) {
            return Some(at);
        }
        at = at + 1;
    }
    None
}

/// A turn's first snapshot.
pub open spec fn turn_snapshot(turn: TurnView) -> Option<SnapshotView> {
    match turn.start {
        Some(start) => Some(start),
        None => turn.end,
    }
}

fn first_snapshot(turn: &Turn) -> (snapshot: Option<&Snapshot>)
    ensures
        match snapshot {
            Some(s) => turn_snapshot(turn.deep_view()) == Some(s.deep_view()),
            None => turn_snapshot(turn.deep_view()) is None,
        },
{
    match &turn.start {
        Some(start) => Some(start),
        None => match &turn.end {
            Some(end) => Some(end),
            None => None,
        },
    }
}

/// The first snapshot of the turns from `from` on.
pub open spec fn snapshot_from(turns: Seq<TurnView>, from: int) -> Option<SnapshotView>
    decreases turns.len() - from,
{
    if from >= turns.len() {
        None
    } else if turn_snapshot(turns[from]) is Some {
        turn_snapshot(turns[from])
    } else {
        snapshot_from(turns, from + 1)
    }
}

/// For turn and session modes: the tree to compare from, and the tree to compare to (`None`:
/// the worktree now). `None` for the working tree.
pub open spec fn trees_of(mode: ModeView, sessions: Seq<SessionView>) -> Result<
    Option<(Seq<char>, Option<Seq<char>>)>,
    Seq<char>,
> {
    match mode {
        ModeView::WorkingTree => Ok(None),
        ModeView::Turn { session, turn } => match session_from(sessions, session, 0) {
            None => Err("that session's snapshots are gone"@),
            Some(s) => if turn >= sessions[s].turns.len() {
                Err("that turn's snapshots are gone"@)
            } else {
                let t = sessions[s].turns[turn as int];
                match turn_snapshot(t) {
                    None => Err("that turn has no snapshots"@),
                    Some(old) => Ok(
                        Some(
                            (
                                old.tree,
                                match t.end {
                                    Some(end) => Some(end.tree),
                                    None => None,
                                },
                            ),
                        ),
                    ),
                }
            },
        },
        ModeView::Session { session } => match session_from(sessions, session, 0) {
            None => Err("that session's snapshots are gone"@),
            Some(s) => match snapshot_from(sessions[s].turns, 0) {
                None => Err("that session has no snapshots"@),
                Some(first) => Ok(Some((first.tree, None))),
            },
        },
    }
}

/// A session is found by its id.
proof fn lemma_session_found(sessions: Seq<SessionView>, i: int, from: int)
    requires
        turns::ids_distinct(sessions),
        0 <= from <= i < sessions.len(),
    ensures
        session_from(sessions, sessions[i].id, from) == Some(i),
    decreases i - from,
{
    if from < i {
        assert(sessions[from].id != sessions[i].id);
        lemma_session_found(sessions, i, from + 1);
    }
}

/// A turn is compared from its start to its end, or to the worktree while it runs; a session from
/// its first snapshot to the worktree. (A turn whose start is missing is compared from its end.)
pub proof fn law_turns_are_compared_from_start_to_end(
    sessions: Seq<SessionView>,
    i: int,
    turn: usize,
)
    requires
        turns::is_timeline(sessions),
        0 <= i < sessions.len(),
        turn < sessions[i].turns.len(),
    ensures
        trees_of(ModeView::WorkingTree, sessions) == Ok::<
            Option<(Seq<char>, Option<Seq<char>>)>,
            Seq<char>,
        >(None),
        trees_of(ModeView::Turn { session: sessions[i].id, turn }, sessions) matches Ok(
            Some((from, to)),
        ) && {
            let t = sessions[i].turns[turn as int];
            &&& t.start matches Some(start) ==> from == start.tree
            &&& t.start is None ==> from == t.end->Some_0.tree
            &&& t.end matches Some(end) ==> to == Some(end.tree)
            &&& t.end is None ==> to is None
        },
        trees_of(ModeView::Session { session: sessions[i].id }, sessions) matches Ok(
            Some((from, to)),
        ) && {
            let first = sessions[i].turns[0];
            &&& first.start matches Some(start) ==> from == start.tree
            &&& first.start is None ==> from == first.end->Some_0.tree
            &&& to is None
        },
{
    lemma_session_found(sessions, i, 0);
    assert(turns::is_session(sessions[i]));
    assert(turns::is_turn(sessions[i].turns[turn as int], sessions[i].id));
    assert(turns::is_turn(sessions[i].turns[0], sessions[i].id));
}

/// The trees to compare, as text.
pub open spec fn trees_view(trees: Result<Option<(String, Option<String>)>, String>) -> Result<
    Option<(Seq<char>, Option<Seq<char>>)>,
    Seq<char>,
> {
    match trees {
        Ok(None) => Ok(None),
        Ok(Some((old, new))) => Ok(Some((old@, new.deep_view()))),
        Err(text) => Err(text@),
    }
}

/// For turn and session modes: the tree to compare from, and the tree to compare to (`None`:
/// the worktree now). `None` for the working tree.
pub fn comparison_trees(mode: &Mode, sessions: &[Session]) -> (trees: Result<
    Option<(String, Option<String>)>,
    String,
>)
    ensures
        trees_view(trees) == trees_of(mode.deep_view(), sessions.deep_view()),
{
    let ghost all = sessions.deep_view();
    match mode {
        Mode::WorkingTree => Ok(None),
        Mode::Turn { session, turn } => match find_session(sessions, session.as_str()) {
            None => Err(copy_text("that session's snapshots are gone")),
            Some(s) => {
                assert(all[s as int] == sessions@[s as int].deep_view());
                if *turn >= sessions[s].turns.len() {
                    return Err(copy_text("that turn's snapshots are gone"));
                }
                let t = &sessions[s].turns[*turn];
                assert(all[s as int].turns[*turn as int] == t.deep_view());
                match first_snapshot(t) {
                    None => Err(copy_text("that turn has no snapshots")),
                    Some(old) => Ok(
                        Some(
                            (
                                copy_text(old.tree.as_str()),
                                match &t.end {
                                    Some(end) => Some(copy_text(end.tree.as_str())),
                                    None => None,
                                },
                            ),
                        ),
                    ),
                }
            },
        },
        Mode::Session { session } => match find_session(sessions, session.as_str()) {
            None => Err(copy_text("that session's snapshots are gone")),
            Some(s) => {
                assert(all[s as int] == sessions@[s as int].deep_view());
                let ghost turns = all[s as int].turns;
                let mut at: usize = 0;
                while at < sessions[s].turns.len()
                    invariant
                        s < sessions@.len(),
                        turns == sessions@[s as int].turns.deep_view(),
                        turns == all[s as int].turns,
                        all == sessions.deep_view(),
                        session_from(all, session@, 0) == Some(s as int),
                        mode.deep_view() == (ModeView::Session { session: session@ }),
                        at <= turns.len(),
                        snapshot_from(turns, 0) == snapshot_from(turns, at as int),
                    decreases turns.len() - at,
                {
                    let t = &sessions[s].turns[at];
                    assert(turns[at as int] == t.deep_view());
                    match first_snapshot(t) {
                        Some(first) => {
                            return Ok(Some((copy_text(first.tree.as_str()), None)));
                        },
                        None => {},
                    }
                    at = at + 1;
                }
                Err(copy_text("that session has no snapshots"))
            },
        },
    }
}

// ---------------------------------------------------------------------------
// Stepping through turns.

/// Where stepping through the turns leads: turns are in timeline order, oldest first, within
/// the current session. From the working tree or a session view it goes to the latest turn.
/// `None` if no turn is recorded; the mode stays where the session has no such turn.
pub open spec fn stepped(mode: ModeView, sessions: Seq<SessionView>, delta: int) -> Option<ModeView> {
    match mode {
        ModeView::Turn { session, turn } => {
            let count = match session_from(sessions, session, 0) {
                Some(s) => sessions[s].turns.len() as int,
                None => 0,
            };
            if 0 <= turn + delta < count {
                Some(ModeView::Turn { session, turn: (turn + delta) as usize })
            } else {
                Some(mode)
            }
        },
        _ => if sessions.len() > 0 && sessions[0].turns.len() > 0 {
            Some(
                ModeView::Turn {
                    session: sessions[0].id,
                    turn: (sessions[0].turns.len() - 1) as usize,
                },
            )
        } else {
            None
        },
    }
}

/// Where stepping through the turns leads; `None` if no turn is recorded.
pub fn step_turn(mode: &Mode, sessions: &[Session], forward: bool) -> (next: Option<Mode>)
    ensures
        next.deep_view() == stepped(
            mode.deep_view(),
            sessions.deep_view(),
            if forward {
                1
            } else {
                -1
            },
        ),
{
    let ghost all = sessions.deep_view();
    match mode {
        Mode::Turn { session, turn } => {
            let count: usize = match find_session(sessions, session.as_str()) {
                Some(s) => {
                    assert(all[s as int] == sessions@[s as int].deep_view());
                    sessions[s].turns.len()
                },
                None => 0,
            };
            let to: usize = if forward && *turn < count && *turn + 1 < count {
                *turn + 1
            } else if !forward && *turn > 0 && *turn - 1 < count {
                *turn - 1
            } else {
                *turn
            };
            Some(Mode::Turn { session: copy_text(session.as_str()), turn: to })
        },
        _ => {
            if sessions.len() > 0 && sessions[0].turns.len() > 0 {
                assert(all[0] == sessions@[0].deep_view());
                Some(
                    Mode::Turn {
                        session: copy_text(sessions[0].id.as_str()),
                        turn: sessions[0].turns.len() - 1,
                    },
                )
            } else {
                None
            }
        },
    }
}

/// Stepping to the next turn and back again returns to the same turn.
pub proof fn law_stepping_back_undoes_stepping(
    sessions: Seq<SessionView>,
    session: Seq<char>,
    turn: usize,
)
    requires
        session_from(sessions, session, 0) matches Some(s) && turn + 1 < sessions[s].turns.len(),
        turn < usize::MAX,
    ensures
        stepped(ModeView::Turn { session, turn }, sessions, 1) matches Some(next) && stepped(
            next,
            sessions,
            -1,
        ) == Some(ModeView::Turn { session, turn }),
{
}

// ---------------------------------------------------------------------------
// Labels.

/// "3m ago"-style label for a time, both in milliseconds.
pub open spec fn time_text(at_ms: u64, now_ms: u64) -> Seq<char> {
    let secs = if now_ms > at_ms {
        (now_ms - at_ms) / 1000
    } else {
        0
    };
    if secs < 60 {
        "just now"@
    } else if secs < 3600 {
        crate::text::digits((secs / 60) as nat) + "m ago"@
    } else if secs < 86_400 {
        crate::text::digits((secs / 3600) as nat) + "h ago"@
    } else {
        crate::text::digits((secs / 86_400) as nat) + "d ago"@
    }
}

/// "3m ago"-style label for a Unix time in milliseconds.
pub fn time_label(at_ms: u64, now_ms: u64) -> (label: String)
    ensures
        label@ == time_text(at_ms, now_ms),
{
    let secs: u64 = if now_ms > at_ms {
        (now_ms - at_ms) / 1000
    } else {
        0
    };
    if secs < 60 {
        return copy_text("just now");
    }
    let mut label;
    if secs < 3600 {
        label = number_text(secs / 60);
        push_text(&mut label, "m ago");
    } else if secs < 86_400 {
        label = number_text(secs / 3600);
        push_text(&mut label, "h ago");
    } else {
        label = number_text(secs / 86_400);
        push_text(&mut label, "d ago");
    }
    label
}

/// How many characters of a prompt the timeline shows.
pub const PROMPT_CHARS: usize = 80;

/// The first line of a prompt, shortened.
pub open spec fn prompt_text(prompt: Seq<char>) -> Seq<char> {
    let line = crate::text::trimmed(crate::text::first_line_of(prompt));
    if line.len() > PROMPT_CHARS {
        line.take(PROMPT_CHARS as int) + "…"@
    } else {
        line
    }
}

/// The first line of a prompt, shortened.
pub fn prompt_line(prompt: &str) -> (line: String)
    ensures
        line@ == prompt_text(prompt@),
{
    let line = trim(first_line(prompt).as_str());
    if chars_of(line.as_str()).len() > PROMPT_CHARS {
        let mut short = take_start(line.as_str(), PROMPT_CHARS);
        push_text(&mut short, "…");
        short
    } else {
        line
    }
}

/// When a turn began, as far as that is recorded.
pub open spec fn turn_at(turn: TurnView) -> u64 {
    match turn_snapshot(turn) {
        Some(snapshot) => snapshot.meta.at_ms,
        None => 0,
    }
}

fn time_of_turn(turn: &Turn) -> (at: u64)
    ensures
        at == turn_at(turn.deep_view()),
{
    match first_snapshot(turn) {
        Some(snapshot) => snapshot.meta.at_ms,
        None => 0,
    }
}

// ---------------------------------------------------------------------------
// The timeline.

/// A row of the timeline, and what picking it shows.
#[derive(Debug, PartialEq, Eq)]
pub struct TimelineRow {
    pub item: PickerItem,
    pub mode: Mode,
}

/// A row of the timeline, as text.
pub struct TimelineRowView {
    pub item: ItemView,
    pub mode: ModeView,
}

impl DeepView for TimelineRow {
    type V = TimelineRowView;

    open spec fn deep_view(&self) -> TimelineRowView {
        TimelineRowView { item: self.item.deep_view(), mode: self.mode.deep_view() }
    }
}

/// The row of the working tree.
pub open spec fn tree_row() -> TimelineRowView {
    TimelineRowView {
        item: ItemView {
            title: "Working tree"@,
            detail: "staged, unstaged and untracked changes"@,
            tag: None,
            note: None,
        },
        mode: ModeView::WorkingTree,
    }
}

/// The row of a whole session.
pub open spec fn session_row(session: SessionView, now_ms: u64) -> TimelineRowView {
    TimelineRowView {
        item: ItemView {
            title: "Whole session ("@ + crate::text::digits(session.turns.len()) + " turns)"@,
            detail: session.agent + " · session "@ + crate::text::start_of(session.id, 8),
            tag: None,
            note: Some(time_text(session.last_at_ms, now_ms)),
        },
        mode: ModeView::Session { session: session.id },
    }
}

/// The row of a turn.
pub open spec fn turn_row(session: SessionView, turn: int, now_ms: u64) -> TimelineRowView {
    let t = session.turns[turn];
    TimelineRowView {
        item: ItemView {
            title: "  Turn "@ + crate::text::digits((turn + 1) as nat),
            detail: match t.prompt {
                Some(prompt) => prompt_text(prompt),
                None => "(no prompt recorded)"@,
            },
            tag: if t.end is None {
                Some("running"@)
            } else {
                None
            },
            note: Some(time_text(turn_at(t), now_ms)),
        },
        mode: ModeView::Turn { session: session.id, turn: turn as usize },
    }
}

/// The rows of the first `count` turns of a session, the latest first.
pub open spec fn turn_rows(session: SessionView, count: int, now_ms: u64) -> Seq<TimelineRowView> {
    Seq::new(count as nat, |i: int| turn_row(session, count - 1 - i, now_ms))
}

/// The rows of the timeline for the first `count` sessions: the working tree, then each
/// session with its turns.
pub open spec fn timeline_rows(sessions: Seq<SessionView>, count: int, now_ms: u64) -> Seq<
    TimelineRowView,
>
    decreases count,
{
    if count <= 0 {
        seq![tree_row()]
    } else {
        let session = sessions[count - 1];
        timeline_rows(sessions, count - 1, now_ms).push(session_row(session, now_ms)) + turn_rows(
            session,
            session.turns.len() as int,
            now_ms,
        )
    }
}

fn row_of_session(session: &Session, now_ms: u64) -> (row: TimelineRow)
    ensures
        row.deep_view() == session_row(session.deep_view(), now_ms),
{
    let mut title = copy_text("Whole session (");
    push_number(&mut title, session.turns.len() as u64);
    push_text(&mut title, " turns)");
    let mut detail = copy_text(session.agent.as_str());
    push_text(&mut detail, " · session ");
    push_text(&mut detail, take_start(session.id.as_str(), 8).as_str());
    TimelineRow {
        item: PickerItem {
            title,
            detail,
            tag: None,
            note: Some(time_label(session.last_at_ms, now_ms)),
        },
        mode: Mode::Session { session: copy_text(session.id.as_str()) },
    }
}

fn row_of_turn(session: &Session, turn: usize, now_ms: u64) -> (row: TimelineRow)
    requires
        turn < session.turns@.len(),
    ensures
        row.deep_view() == turn_row(session.deep_view(), turn as int, now_ms),
{
    let total: usize = session.turns.len();
    let t = &session.turns[turn];
    assert(session.deep_view().turns[turn as int] == t.deep_view());
    let mut title = copy_text("  Turn ");
    push_number(&mut title, turn as u64 + 1);
    TimelineRow {
        item: PickerItem {
            title,
            detail: match &t.prompt {
                Some(prompt) => prompt_line(prompt.as_str()),
                None => copy_text("(no prompt recorded)"),
            },
            tag: match &t.end {
                None => Some(copy_text("running")),
                Some(_) => None,
            },
            note: Some(time_label(time_of_turn(t), now_ms)),
        },
        mode: Mode::Turn { session: copy_text(session.id.as_str()), turn },
    }
}

/// The rows of the timeline: the working tree, then each session with its turns, the latest
/// first.
pub fn timeline(sessions: &[Session], now_ms: u64) -> (rows: Vec<TimelineRow>)
    ensures
        rows.deep_view() == timeline_rows(sessions.deep_view(), sessions@.len() as int, now_ms),
{
    let ghost all = sessions.deep_view();
    let first = TimelineRow {
        item: PickerItem {
            title: copy_text("Working tree"),
            detail: copy_text("staged, unstaged and untracked changes"),
            tag: None,
            note: None,
        },
        mode: Mode::WorkingTree,
    };
    let mut rows: Vec<TimelineRow> = Vec::new();
    rows.push(first);
    assert(rows.deep_view() =~= seq![tree_row()]);
    let mut s: usize = 0;
    while s < sessions.len()
        invariant
            all == sessions.deep_view(),
            s <= sessions@.len(),
            rows.deep_view() == timeline_rows(all, s as int, now_ms),
        decreases sessions.len() - s,
    {
        let session = &sessions[s];
        let ghost view = session.deep_view();
        assert(all[s as int] == view);
        let ghost before = rows.deep_view();
        rows.push(row_of_session(session, now_ms));
        assert(rows.deep_view() =~= before.push(session_row(view, now_ms)));
        let ghost head = rows.deep_view();
        let total: usize = session.turns.len();
        let mut t: usize = total;
        assert(rows.deep_view() =~= head + Seq::new(0, |i: int| turn_row(view, total - 1 - i, now_ms)));
        while t > 0
            invariant
                t <= total,
                total == session.turns@.len(),
                view == session.deep_view(),
                rows.deep_view() == head + Seq::new(
                    (total - t) as nat,
                    |i: int| turn_row(view, total - 1 - i, now_ms),
                ),
            decreases t,
        {
            t = t - 1;
            let ghost sofar = rows.deep_view();
            let row = row_of_turn(session, t, now_ms);
            let ghost added = row.deep_view();
            rows.push(row);
            assert(rows.deep_view() =~= sofar.push(added));
            assert(rows.deep_view() =~= head + Seq::new(
                (total - t) as nat,
                |i: int| turn_row(view, total - 1 - i, now_ms),
            ));
        }
        assert(rows.deep_view() =~= timeline_rows(all, s + 1, now_ms));
        s = s + 1;
    }
    rows
}

/// Every row of the timeline of a turn or session can be shown: its session is recorded, and
/// its turn is one of the session's.
pub proof fn law_timeline_rows_are_recorded(
    sessions: Seq<SessionView>,
    count: int,
    now_ms: u64,
    row: int,
)
    requires
        0 <= count <= sessions.len(),
        forall|s: int| 0 <= s < sessions.len() ==> (#[trigger] sessions[s]).turns.len() <= usize::MAX,
        0 <= row < timeline_rows(sessions, count, now_ms).len(),
    ensures
        match timeline_rows(sessions, count, now_ms)[row].mode {
            ModeView::WorkingTree => row == 0,
            ModeView::Session { session } => exists|s: int|
                0 <= s < count && (#[trigger] sessions[s]).id == session,
            ModeView::Turn { session, turn } => exists|s: int|
                0 <= s < count && (#[trigger] sessions[s]).id == session && turn
                    < sessions[s].turns.len(),
        },
    decreases count,
{
    if count > 0 {
        let before = timeline_rows(sessions, count - 1, now_ms);
        let session = sessions[count - 1];
        if row < before.len() {
            law_timeline_rows_are_recorded(sessions, count - 1, now_ms, row);
            assert(timeline_rows(sessions, count, now_ms)[row] == before[row]);
        } else if row == before.len() {
            assert(timeline_rows(sessions, count, now_ms)[row] == session_row(session, now_ms));
            assert(before.len() > 0) by {
                lemma_timeline_not_empty(sessions, count - 1, now_ms);
            }
        } else {
            let turn = session.turns.len() - 1 - (row - before.len() - 1);
            assert(timeline_rows(sessions, count, now_ms)[row] == turn_row(session, turn, now_ms));
        }
    }
}

proof fn lemma_timeline_not_empty(sessions: Seq<SessionView>, count: int, now_ms: u64)
    ensures
        timeline_rows(sessions, count, now_ms).len() > 0,
    decreases count,
{
    if count > 0 {
        lemma_timeline_not_empty(sessions, count - 1, now_ms);
    }
}

// ---------------------------------------------------------------------------
// The bar that says what is shown.

/// The title and detail of the bar above a turn or session; none above the working tree.
pub open spec fn mode_bar_text(mode: ModeView, sessions: Seq<SessionView>, now_ms: u64) -> Option<
    (Seq<char>, Seq<char>),
> {
    match mode {
        ModeView::WorkingTree => None,
        ModeView::Turn { session, turn } => match session_from(sessions, session, 0) {
            Some(s) if turn < sessions[s].turns.len() => {
                let t = sessions[s].turns[turn as int];
                Some(
                    (
                        "Turn "@ + crate::text::digits((turn + 1) as nat) + " of "@
                            + crate::text::digits(sessions[s].turns.len()) + " · "@
                            + sessions[s].agent,
                        "“"@ + (match t.prompt {
                            Some(prompt) => prompt_text(prompt),
                            None => ""@,
                        }) + "” · "@ + time_text(turn_at(t), now_ms) + (if t.end is None {
                            " · running"@
                        } else {
                            ""@
                        }),
                    ),
                )
            },
            _ => None,
        },
        ModeView::Session { session } => match session_from(sessions, session, 0) {
            Some(s) => Some(
                (
                    "Whole session · "@ + crate::text::digits(sessions[s].turns.len())
                        + " turns · "@ + sessions[s].agent,
                    "start of session → now · "@ + time_text(sessions[s].last_at_ms, now_ms),
                ),
            ),
            None => None,
        },
    }
}

/// The title and detail of the bar above a turn or session; none above the working tree.
pub fn mode_bar(mode: &Mode, sessions: &[Session], now_ms: u64) -> (bar: Option<(String, String)>)
    ensures
        match bar {
            Some((title, detail)) => mode_bar_text(mode.deep_view(), sessions.deep_view(), now_ms)
                == Some((title@, detail@)),
            None => mode_bar_text(mode.deep_view(), sessions.deep_view(), now_ms) is None,
        },
{
    let ghost all = sessions.deep_view();
    match mode {
        Mode::WorkingTree => None,
        Mode::Turn { session, turn } => match find_session(sessions, session.as_str()) {
            None => None,
            Some(s) => {
                let s_ref = &sessions[s];
                assert(all[s as int] == s_ref.deep_view());
                if *turn >= s_ref.turns.len() {
                    return None;
                }
                let t = &s_ref.turns[*turn];
                assert(all[s as int].turns[*turn as int] == t.deep_view());
                let mut title = copy_text("Turn ");
                push_number(&mut title, *turn as u64 + 1);
                push_text(&mut title, " of ");
                push_number(&mut title, s_ref.turns.len() as u64);
                push_text(&mut title, " · ");
                push_text(&mut title, s_ref.agent.as_str());
                let mut detail = copy_text("“");
                match &t.prompt {
                    Some(prompt) => {
                        push_text(&mut detail, prompt_line(prompt.as_str()).as_str());
                    },
                    None => {
                        push_text(&mut detail, "");
                    },
                }
                push_text(&mut detail, "” · ");
                push_text(&mut detail, time_label(time_of_turn(t), now_ms).as_str());
                match &t.end {
                    None => {
                        push_text(&mut detail, " · running");
                    },
                    Some(_) => {
                        push_text(&mut detail, "");
                    },
                }
                Some((title, detail))
            },
        },
        Mode::Session { session } => match find_session(sessions, session.as_str()) {
            None => None,
            Some(s) => {
                let s_ref = &sessions[s];
                assert(all[s as int] == s_ref.deep_view());
                let mut title = copy_text("Whole session · ");
                push_number(&mut title, s_ref.turns.len() as u64);
                push_text(&mut title, " turns · ");
                push_text(&mut title, s_ref.agent.as_str());
                let mut detail = copy_text("start of session → now · ");
                push_text(&mut detail, time_label(s_ref.last_at_ms, now_ms).as_str());
                Some((title, detail))
            },
        },
    }
}

/// Stepping goes from a turn to the next or the one before it, and stays at the last and the
/// first. From anywhere else it goes to the last turn of the session that was active last.
pub proof fn law_stepping_goes_one_turn_at_a_time(
    sessions: Seq<SessionView>,
    i: int,
    turn: usize,
    other: ModeView,
)
    requires
        turns::is_timeline(sessions),
        turns::latest_first(sessions),
        0 <= i < sessions.len(),
        turn < sessions[i].turns.len() <= usize::MAX,
        !(other is Turn),
    ensures
        ({
            let at = ModeView::Turn { session: sessions[i].id, turn };
            &&& stepped(at, sessions, 1) matches Some(ModeView::Turn { session, turn: to })
            &&& session == sessions[i].id
            &&& turn + 1 < sessions[i].turns.len() ==> to == turn + 1
            &&& turn + 1 == sessions[i].turns.len() ==> to == turn
        }),
        ({
            let at = ModeView::Turn { session: sessions[i].id, turn };
            &&& stepped(at, sessions, -1) matches Some(ModeView::Turn { session, turn: to })
            &&& session == sessions[i].id
            &&& turn > 0 ==> to == turn - 1
            &&& turn == 0 ==> to == 0
        }),
        stepped(other, sessions, 1) == stepped(other, sessions, -1),
        stepped(other, sessions, 1) matches Some(ModeView::Turn { session, turn: to })
            && sessions[0].last_at_ms >= sessions[i].last_at_ms && session == sessions[0].id
            && (sessions[0].turns.len() <= usize::MAX ==> to + 1 == sessions[0].turns.len()),
{
    lemma_session_found(sessions, i, 0);
    assert(turns::is_session(sessions[0]));
    if i > 0 {
        assert(sessions[0].last_at_ms >= sessions[i].last_at_ms);
    }
}

} // verus!
