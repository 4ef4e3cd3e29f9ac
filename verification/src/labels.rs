//! What the window says around the diff: the file tree, the commit box, the banner, the status
//! bar and the repository switcher.
use vstd::prelude::*;

use crate::bytes::{copy, same};
use crate::diff_rows;
use crate::diff_rows::section_label;
use crate::picker::{ItemView, PickerItem};
use crate::repo::ChangeStatus;
use crate::review;
use crate::review::{Review, ReviewView};
use crate::switcher;
use crate::switcher::note_of_changes;
use crate::text::{copy_text, from_utf8_lossy, push_number, push_text, split_lines};
use crate::tree::TreeRow;
use crate::view;
use crate::view::{GoroView, State};

verus! {

broadcast use crate::bytes::lemma_deep;

// ---------------------------------------------------------------------------
// The commit box.

/// What the commit button says.
pub open spec fn commit_words(amend: bool, staged: usize) -> Seq<char> {
    if amend {
        "Amend commit"@
    } else if staged == 0 {
        "Nothing staged"@
    } else if staged == 1 {
        "Commit 1 file"@
    } else {
        "Commit "@ + crate::text::digits(staged as nat) + " files"@
    }
}

/// What the commit button says.
pub fn commit_label(amend: bool, staged: usize) -> (label: String)
    ensures
        label@ == commit_words(amend, staged),
{
    if amend {
        copy_text("Amend commit")
    } else if staged == 0 {
        copy_text("Nothing staged")
    } else if staged == 1 {
        copy_text("Commit 1 file")
    } else {
        let mut label = copy_text("Commit ");
        push_number(&mut label, staged as u64);
        push_text(&mut label, " files");
        label
    }
}

/// Whether the commit button can be pressed.
pub fn can_commit(busy: bool, staged: usize, amend: bool) -> (result: bool)
    ensures
        result <==> !busy && (staged > 0 || amend),
{
    !busy && (staged > 0 || amend)
}

/// The sign of a check box.
pub fn check_mark(on: bool) -> (mark: &'static str)
    ensures
        mark@ == (if on {
            "☑"@
        } else {
            "☐"@
        }),
{
    if on {
        "☑"
    } else {
        "☐"
    }
}

// ---------------------------------------------------------------------------
// The file tree.

/// What a row of the file tree shows.
#[derive(Debug, PartialEq, Eq)]
pub enum TreeLook {
    Section(String),
    Dir { depth: usize, label: String },
    File {
        depth: usize,
        file: usize,
        status: ChangeStatus,
        name: String,
        reviewed: bool,
        /// How many new lines it has since the last look.
        new_lines: Option<String>,
    },
}

/// Whether a row of the file tree looks so. "New since last look" is about the working tree,
/// not a turn's snapshots.
pub open spec fn tree_looks(v: ReviewView, row: TreeRow, show_new: bool, look: TreeLook) -> bool {
    match row {
        TreeRow::Section { section, count } => look matches TreeLook::Section(label) && label@
            == diff_rows::section_name(section) + " ("@ + crate::text::digits(count as nat) + ")"@,
        TreeRow::Dir { depth, name, expanded, .. } => look matches TreeLook::Dir {
            depth: shown_depth,
            label,
        } && shown_depth == depth && label@ == (if expanded {
            "▾ "@
        } else {
            "▸ "@
        }) + name@ + "/"@,
        TreeRow::File { depth, name, file } => {
            let count = if file < v.new_per_file.len() {
                v.new_per_file[file as int]
            } else {
                0
            };
            &&& look matches TreeLook::File {
                depth: shown_depth,
                file: shown_file,
                status,
                name: shown_name,
                reviewed,
                new_lines,
            }
            &&& shown_depth == depth
            &&& shown_file == file
            &&& status == v.files[file as int].change.status
            &&& shown_name@ == name@
            &&& reviewed == diff_rows::all_reviewed(v, file)
            &&& match new_lines {
                Some(text) => show_new && count > 0 && text@ == "● "@ + crate::text::digits(
                    count as nat,
                ),
                None => !show_new || count == 0,
            }
        },
    }
}

/// What a row of the file tree shows.
pub fn tree_look(review: &Review, row: &TreeRow, show_new: bool) -> (look: TreeLook)
    requires
        *row matches TreeRow::File { file, .. } ==> file < review@.files.len(),
    ensures
        tree_looks(review@, *row, show_new, look),
{
    match row {
        TreeRow::Section { section, count } => {
            let mut label = copy_text(section_label(*section));
            push_text(&mut label, " (");
            push_number(&mut label, *count as u64);
            push_text(&mut label, ")");
            TreeLook::Section(label)
        },
        TreeRow::Dir { depth, name, expanded, .. } => {
            let mut label = copy_text(
                if *expanded {
                    "▾ "
                } else {
                    "▸ "
                },
            );
            push_text(&mut label, name.as_str());
            push_text(&mut label, "/");
            TreeLook::Dir { depth: *depth, label }
        },
        TreeRow::File { depth, name, file } => {
            let count = review.file_new_count(*file);
            TreeLook::File {
                depth: *depth,
                file: *file,
                status: review.files()[*file].change.status,
                name: copy_text(name.as_str()),
                reviewed: review.file_is_reviewed(*file),
                new_lines: if show_new && count > 0 {
                    let mut text = copy_text("● ");
                    push_number(&mut text, count as u64);
                    Some(text)
                } else {
                    None
                },
            }
        },
    }
}

// ---------------------------------------------------------------------------
// Rows and messages.

/// How a row of the diff stream is marked.
#[derive(Debug, Clone, Copy, PartialEq, Eq, Structural)]
pub struct RowFlags {
    pub is_cursor: bool,
    pub is_selected: bool,
    /// A changed line added since the last look.
    pub is_new: bool,
}

/// How a row of the diff stream is marked.
pub fn row_flags(window: &GoroView, ix: usize) -> (flags: RowFlags)
    requires
        window.wf(),
    ensures
        flags.is_cursor == (ix == window.place.cursor),
        flags.is_selected == (window.place.select_anchor matches Some(a) && (a <= ix
            <= window.place.cursor || window.place.cursor <= ix <= a)),
        flags.is_new == (window.mode is WorkingTree && (view::shown(window.state) matches Some(v)
            && v.new_rows.contains(ix))),
{
    let cursor = window.place.cursor;
    RowFlags {
        is_cursor: ix == cursor,
        is_selected: match window.place.select_anchor {
            Some(a) => (a <= ix && ix <= cursor) || (cursor <= ix && ix <= a),
            None => false,
        },
        is_new: window.mode.is_working_tree() && match &window.state {
            State::Ready(review) => review.is_new(ix),
            _ => false,
        },
    }
}

/// The message that stands in place of the diff, if any.
pub fn center_message(window: &GoroView) -> (message: Option<String>)
    ensures
        match window.state {
            State::Loading => message matches Some(text) && text@ == ""@,
            State::NoRepository => message matches Some(text) && text@
                == "No repository found. Press ⌘P (Ctrl+P) to open one."@,
            State::Failed(why) => message matches Some(text) && text@ == why@,
            State::Ready(review) => if review@.files.len() == 0 {
                message matches Some(text) && text@ == "No changes. The working tree is clean."@
            } else {
                message is None
            },
        },
{
    match &window.state {
        State::Loading => Some(copy_text("")),
        State::NoRepository => Some(
            copy_text("No repository found. Press ⌘P (Ctrl+P) to open one."),
        ),
        State::Failed(why) => Some(copy_text(why.as_str())),
        State::Ready(review) => if review.is_empty() {
            Some(copy_text("No changes. The working tree is clean."))
        } else {
            None
        },
    }
}

/// The window's title.
pub fn window_title(name: &str) -> (title: String)
    ensures
        title@ == name@ + " — Goro"@,
{
    let mut title = copy_text(name);
    push_text(&mut title, " — Goro");
    title
}

/// What the banner says while an agent waits for the review.
pub fn wait_banner(window: &GoroView, waited_on: bool) -> (banner: Option<String>)
    ensures
        match banner {
            Some(text) => waited_on && text@ == "An agent is waiting for your review · "@
                + crate::text::digits(
                match view::shown(window.state) {
                    Some(v) => v.comments.len(),
                    None => 0,
                },
            ) + " comment(s)"@,
            None => !waited_on,
        },
{
    if !waited_on {
        return None;
    }
    let count: usize = match &window.state {
        State::Ready(review) => review.comments().len(),
        _ => 0,
    };
    let mut text = copy_text("An agent is waiting for your review · ");
    push_number(&mut text, count as u64);
    push_text(&mut text, " comment(s)");
    Some(text)
}

/// The title of the box in which a comment is written.
pub fn draft_title(editing: bool, location: &str) -> (title: String)
    ensures
        title@ == (if editing {
            "Edit"@
        } else {
            "New"@
        }) + " comment on "@ + location@,
{
    let mut title = copy_text(
        if editing {
            "Edit"
        } else {
            "New"
        },
    );
    push_text(&mut title, " comment on ");
    push_text(&mut title, location);
    title
}

// ---------------------------------------------------------------------------
// The status bar.

/// How many lines of an error the status bar shows.
pub const MAX_ERROR_LINES: usize = 12;

/// What the status bar shows.
#[derive(Debug, PartialEq, Eq)]
pub struct StatusBar {
    /// The first lines of an error.
    pub error: Option<Vec<String>>,
    /// What it says of the lines of the error that are not shown.
    pub more: Option<String>,
    pub message: String,
    /// What it says of lines that are new since the last look.
    pub new_lines: Option<String>,
}

/// How many lines are new since the last look; none in a turn's snapshots.
pub open spec fn new_lines(window: GoroView) -> nat {
    match view::shown(window.state) {
        Some(v) if window.mode is WorkingTree => v.new_rows.len(),
        _ => 0,
    }
}

/// What the status bar shows.
pub fn status_bar(window: &GoroView) -> (bar: StatusBar)
    ensures
        match window.status {
            Some(s) if s.is_error => {
                let lines = crate::text::text_lines(s.text@);
                &&& bar.error matches Some(shown) && shown.deep_view() == crate::store::at_most(
                    lines,
                    MAX_ERROR_LINES as int,
                )
                &&& match bar.more {
                    Some(text) => lines.len() > MAX_ERROR_LINES && text@ == "… "@
                        + crate::text::digits((lines.len() - MAX_ERROR_LINES) as nat)
                        + " more lines"@,
                    None => lines.len() <= MAX_ERROR_LINES,
                }
                &&& bar.message@ == ""@
            },
            Some(s) => bar.error is None && bar.more is None && bar.message@ == s.text@,
            None => bar.error is None && bar.more is None && bar.message@ == ""@,
        },
        match bar.new_lines {
            Some(text) => new_lines(*window) > 0 && text@ == "● "@ + crate::text::digits(
                new_lines(*window),
            ) + " new since last look (tab)"@,
            None => new_lines(*window) == 0,
        },
{
    let count: usize = match &window.state {
        State::Ready(review) => if window.mode.is_working_tree() {
            review.new_count()
        } else {
            0
        },
        _ => 0,
    };
    let new_lines = if count > 0 {
        let mut text = copy_text("● ");
        push_number(&mut text, count as u64);
        push_text(&mut text, " new since last look (tab)");
        Some(text)
    } else {
        None
    };
    match &window.status {
        Some(s) => {
            if !s.is_error {
                return StatusBar {
                    error: None,
                    more: None,
                    message: copy_text(s.text.as_str()),
                    new_lines,
                };
            }
            let mut lines = split_lines(s.text.as_str());
            let ghost all = lines.deep_view();
            let total: usize = lines.len();
            let more = if total > MAX_ERROR_LINES {
                let mut text = copy_text("… ");
                push_number(&mut text, (total - MAX_ERROR_LINES) as u64);
                push_text(&mut text, " more lines");
                lines.truncate(MAX_ERROR_LINES);
                Some(text)
            } else {
                None
            };
            assert(lines.deep_view() =~= crate::store::at_most(all, MAX_ERROR_LINES as int));
            StatusBar { error: Some(lines), more, message: copy_text(""), new_lines }
        },
        None => StatusBar { error: None, more: None, message: copy_text(""), new_lines },
    }
}

// ---------------------------------------------------------------------------
// The repository switcher.

/// A repository that the switcher lists.
#[derive(Debug, PartialEq, Eq)]
pub struct ListedRepo {
    pub root: Vec<u8>,
    /// An agent worked in it lately.
    pub agent: bool,
}

impl DeepView for ListedRepo {
    type V = (Seq<u8>, bool);

    open spec fn deep_view(&self) -> (Seq<u8>, bool) {
        (self.root@, self.agent)
    }
}

/// Whether a repository is listed.
pub open spec fn is_listed(list: Seq<(Seq<u8>, bool)>, root: Seq<u8>) -> bool {
    exists|i: int| 0 <= i < list.len() && (#[trigger] list[i]).0 == root
}

/// A list with the first `count` roots that it doesn't hold yet.
pub open spec fn with_roots(
    list: Seq<(Seq<u8>, bool)>,
    roots: Seq<Seq<u8>>,
    agent: bool,
    count: int,
) -> Seq<(Seq<u8>, bool)>
    decreases count,
{
    if count <= 0 {
        list
    } else {
        let before = with_roots(list, roots, agent, count - 1);
        if is_listed(before, roots[count - 1]) {
            before
        } else {
            before.push((roots[count - 1], agent))
        }
    }
}

/// The repositories that the switcher lists: those that agents worked in, then those that were
/// opened recently, each once.
pub open spec fn listed_repos(agents: Seq<Seq<u8>>, recent: Seq<Seq<u8>>) -> Seq<(Seq<u8>, bool)> {
    with_roots(
        with_roots(seq![], agents, true, agents.len() as int),
        recent,
        false,
        recent.len() as int,
    )
}

fn add_roots(list: &mut Vec<ListedRepo>, roots: &[Vec<u8>], agent: bool)
    ensures
        final(list).deep_view() == with_roots(
            old(list).deep_view(),
            roots.deep_view(),
            agent,
            roots@.len() as int,
        ),
{
    let ghost start = list.deep_view();
    let ghost all = roots.deep_view();
    let mut i: usize = 0;
    while i < roots.len()
        invariant
            i <= roots@.len(),
            all == roots.deep_view(),
            list.deep_view() == with_roots(start, all, agent, i as int),
        decreases roots.len() - i,
    {
        let ghost before = list.deep_view();
        let root = &roots[i];
        assert(all[i as int] == root@);
        let mut found = false;
        let mut k: usize = 0;
        while k < list.len() && !found
            invariant
                k <= list@.len(),
                before == list.deep_view(),
                found ==> is_listed(before, root@),
                !found ==> forall|j: int| 0 <= j < k ==> (#[trigger] before[j]).0 != root@,
            decreases list.len() - k,
        {
            assert(before[k as int] == list@[k as int].deep_view());
            if same(list[k].root.as_slice(), root.as_slice()) {
                assert(before[k as int].0 == root@);
                found = true;
            }
            k = k + 1;
        }
        if !found {
            list.push(ListedRepo { root: copy(root.as_slice()), agent });
            assert(list.deep_view() =~= before.push((root@, agent)));
        }
        i = i + 1;
    }
}

/// The repositories that the switcher lists: those that agents worked in, then those that were
/// opened recently, each once.
pub fn list_repos(agents: &[Vec<u8>], recent: &[Vec<u8>]) -> (list: Vec<ListedRepo>)
    ensures
        list.deep_view() == listed_repos(agents.deep_view(), recent.deep_view()),
{
    let mut list: Vec<ListedRepo> = Vec::new();
    assert(list.deep_view() =~= seq![]);
    add_roots(&mut list, agents, true);
    add_roots(&mut list, recent, false);
    list
}

/// The switcher lists no repository twice.
pub proof fn law_the_switcher_lists_repositories_once(agents: Seq<Seq<u8>>, recent: Seq<Seq<u8>>)
    ensures
        once(listed_repos(agents, recent)),
{
    lemma_once(seq![], agents, true, agents.len() as int);
    lemma_once(
        with_roots(seq![], agents, true, agents.len() as int),
        recent,
        false,
        recent.len() as int,
    );
}

/// Whether no repository is listed twice.
pub open spec fn once(list: Seq<(Seq<u8>, bool)>) -> bool {
    forall|i: int, j: int|
        #![trigger list[i], list[j]]
        0 <= i < j < list.len() ==> list[i].0 != list[j].0
}

proof fn lemma_once(list: Seq<(Seq<u8>, bool)>, roots: Seq<Seq<u8>>, agent: bool, count: int)
    requires
        once(list),
    ensures
        once(with_roots(list, roots, agent, count)),
    decreases count,
{
    if count > 0 {
        lemma_once(list, roots, agent, count - 1);
    }
}

/// How the switcher shows a repository: one without a name goes by its path, and the one that
/// is shown is marked open.
pub open spec fn repo_item_view(
    name: Option<Seq<char>>,
    root: Seq<u8>,
    agent: bool,
    open: bool,
    changes: Option<usize>,
) -> ItemView {
    let path = crate::text::lossy(root);
    ItemView {
        title: match name {
            Some(name) => name,
            None => path,
        },
        detail: path,
        tag: if agent {
            Some("agent"@)
        } else {
            None
        },
        note: if open {
            Some("open"@)
        } else {
            match changes {
                Some(count) => Some(switcher::changes_note(count)),
                None => None,
            }
        },
    }
}

/// How the switcher shows a repository.
pub fn repo_item(
    name: &Option<String>,
    root: &[u8],
    agent: bool,
    open: bool,
    changes: Option<usize>,
) -> (item: PickerItem)
    ensures
        item.deep_view() == repo_item_view(name.deep_view(), root@, agent, open, changes),
{
    let path = from_utf8_lossy(root);
    PickerItem {
        title: match name {
            Some(name) => copy_text(name.as_str()),
            None => copy_text(path.as_str()),
        },
        detail: path,
        tag: if agent {
            Some(copy_text("agent"))
        } else {
            None
        },
        note: if open {
            Some(copy_text("open"))
        } else {
            match changes {
                Some(count) => Some(note_of_changes(count)),
                None => None,
            }
        },
    }
}

} // verus!
