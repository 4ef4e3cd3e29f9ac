//! Live updates: which events count, and which worktree paths may have changed.
use vstd::prelude::*;

use crate::bytes::{append, copy, same};
use crate::review;
use crate::review::Dirty;

verus! {

broadcast use crate::bytes::lemma_deep;

/// What a file system event is about, as `notify` reports it.
#[verifier::external_type_specification]
#[verifier::external_body]
pub struct ExEventKind(notify::EventKind);

/// What a file system event is about.
#[derive(Debug, Clone, Copy, PartialEq, Eq, Structural)]
pub enum Event {
    Any,
    Access,
    Create,
    CreateFolder,
    /// Only the access time changed.
    AccessTime,
    Modify,
    Remove,
    RemoveFolder,
    Other,
}

/// What an event of `notify` is about.
pub uninterp spec fn event_of(kind: notify::EventKind) -> Event;

/// Tells the variants of `notify::EventKind` apart.
#[verifier::external_body]
fn event(kind: &notify::EventKind) -> (event: Event)
    ensures
        event == event_of(*kind),
{
    match kind {
        notify::EventKind::Any => Event::Any,
        notify::EventKind::Access(_) => Event::Access,
        notify::EventKind::Create(notify::event::CreateKind::Folder) => Event::CreateFolder,
        notify::EventKind::Create(_) => Event::Create,
        notify::EventKind::Modify(notify::event::ModifyKind::Metadata(
            notify::event::MetadataKind::AccessTime,
        )) => Event::AccessTime,
        notify::EventKind::Modify(_) => Event::Modify,
        notify::EventKind::Remove(notify::event::RemoveKind::Folder) => Event::RemoveFolder,
        notify::EventKind::Remove(_) => Event::Remove,
        notify::EventKind::Other => Event::Other,
    }
}

/// Whether an event is a write. Reads must not count: Linux reports opens and reads, and
/// reloading reads files, which would trigger itself forever.
pub open spec fn is_write(event: Event) -> bool {
    match event {
        Event::Any | Event::Create | Event::CreateFolder | Event::Modify | Event::Remove
        | Event::RemoveFolder => true,
        Event::Access | Event::AccessTime | Event::Other => false,
    }
}

/// Whether an event is a write.
pub fn counts(event: Event) -> (result: bool)
    ensures
        result == is_write(event),
{
    match event {
        Event::Any | Event::Create | Event::CreateFolder | Event::Modify | Event::Remove
        | Event::RemoveFolder => true,
        Event::Access | Event::AccessTime | Event::Other => false,
    }
}

/// Whether an event is a write.
pub fn is_change(kind: &notify::EventKind) -> (result: bool)
    ensures
        result == is_write(event_of(*kind)),
{
    counts(event(kind))
}

/// Whether an event made a directory or took one away.
pub fn moves_folder(kind: &notify::EventKind) -> (result: bool)
    ensures
        result == (event_of(*kind) == Event::CreateFolder || event_of(*kind)
            == Event::RemoveFolder),
{
    let event = event(kind);
    event == Event::CreateFolder || event == Event::RemoveFolder
}

/// The first part of a relative path.
pub open spec fn first_part(rela: Seq<u8>) -> Seq<u8> {
    rela.take(crate::bytes::find_byte(rela, 47, 0))
}

/// The bytes of a text.
pub open spec fn named(text: &str) -> Seq<u8> {
    crate::bytes::text_bytes(text@)
}

/// The parts of `.git` whose changes affect status.
pub open spec fn git_state(rela: Seq<u8>) -> bool {
    let first = first_part(rela);
    first == named("index") || first == named("HEAD") || first == named("packed-refs") || first
        == named("refs")
}

/// The parts of `.git` whose changes affect status.
pub fn is_git_state(rela: &[u8]) -> (result: bool)
    ensures
        result == git_state(rela@),
{
    let end = crate::bytes::position(rela, 47);
    let first = vstd::slice::slice_subrange(rela, 0, end);
    assert(first@ =~= first_part(rela@));
    same(first, "index".as_bytes()) || same(first, "HEAD".as_bytes()) || same(
        first,
        "packed-refs".as_bytes(),
    ) || same(first, "refs".as_bytes())
}

/// Where the part of a path that starts at `at` ends: at a slash, or with the path.
pub open spec fn part_end(path: Seq<u8>, at: int) -> int {
    crate::bytes::find_byte(path, 47, at)
}

/// Whether a part starts somewhere that says something: it is neither empty nor a `.` that the
/// path doesn't begin with.
pub open spec fn has_part(path: Seq<u8>, at: int) -> bool {
    let end = part_end(path, at);
    (at == 0 || path[at - 1] == 47) && at < end && !(at > 0 && end == at + 1 && path[at] == 46)
}

/// Where the parts of a path that start before `count` start and end.
pub open spec fn parts_before(path: Seq<u8>, count: int) -> Seq<(int, int)>
    decreases count,
{
    if count <= 0 {
        Seq::empty()
    } else if has_part(path, count - 1) {
        parts_before(path, count - 1).push((count - 1, part_end(path, count - 1)))
    } else {
        parts_before(path, count - 1)
    }
}

/// Where the parts of a path start and end.
pub open spec fn parts(path: Seq<u8>) -> Seq<(int, int)> {
    parts_before(path, path.len() as int)
}

/// The text of a part.
pub open spec fn part(path: Seq<u8>, ix: int) -> Seq<u8> {
    path.subrange(parts(path)[ix].0, parts(path)[ix].1)
}

/// Whether a path starts at the root.
pub open spec fn is_absolute(path: Seq<u8>) -> bool {
    path.len() > 0 && path[0] == 47
}

/// Whether a path begins with the parts of a directory.
pub open spec fn is_below(path: Seq<u8>, dir: Seq<u8>) -> bool {
    &&& is_absolute(path) == is_absolute(dir)
    &&& parts(dir).len() <= parts(path).len()
    &&& forall|ix: int| 0 <= ix < parts(dir).len() ==> #[trigger] part(path, ix) == part(dir, ix)
}

/// What remains of a path below a directory: from its first part that isn't one of the
/// directory to the end of its last. Nothing for the directory itself. A path is below no
/// directory at all as a whole.
pub open spec fn below(path: Seq<u8>, dir: Seq<u8>) -> Option<Seq<u8>> {
    let all = parts(path);
    if dir.len() == 0 {
        Some(
            path.take(
                if all.len() > 0 {
                    all.last().1
                } else if is_absolute(path) {
                    1
                } else {
                    0
                },
            ),
        )
    } else if !is_below(path, dir) {
        None
    } else if all.len() == parts(dir).len() {
        Some(Seq::empty())
    } else {
        Some(path.subrange(all[parts(dir).len() as int].0, all.last().1))
    }
}

proof fn lemma_part_end(path: Seq<u8>, at: int)
    requires
        0 <= at <= path.len(),
    ensures
        at <= part_end(path, at) <= path.len(),
    decreases path.len() - at,
{
    if at < path.len() && path[at] != 47 {
        lemma_part_end(path, at + 1);
    }
}

/// Parts follow each other, and lie in the path.
proof fn lemma_parts(path: Seq<u8>, count: int)
    requires
        0 <= count <= path.len(),
    ensures
        forall|ix: int|
            0 <= ix < parts_before(path, count).len() ==> {
                let (start, end) = #[trigger] parts_before(path, count)[ix];
                0 <= start < end <= path.len() && start < count
            },
        forall|ix: int|
            0 <= ix < parts_before(path, count).len() ==> (#[trigger] parts_before(
                path,
                count,
            )[ix]).0 <= parts_before(path, count).last().0,
    decreases count,
{
    if count > 0 {
        lemma_parts(path, count - 1);
        lemma_part_end(path, count - 1);
        let before = parts_before(path, count - 1);
        let all = parts_before(path, count);
        assert forall|ix: int| 0 <= ix < all.len() implies {
            let (start, end) = #[trigger] all[ix];
            0 <= start < end <= path.len() && start < count && start <= all.last().0
        } by {
            if ix < before.len() {
                assert(all[ix] == before[ix]);
            }
        }
    }
}

/// Where a part ends, as positions.
spec fn spans(found: Seq<(usize, usize)>) -> Seq<(int, int)> {
    found.map_values(|span: (usize, usize)| (span.0 as int, span.1 as int))
}

fn find_parts(path: &[u8]) -> (found: Vec<(usize, usize)>)
    ensures
        spans(found@) == parts(path@),
{
    let mut found: Vec<(usize, usize)> = Vec::new();
    let mut at: usize = 0;
    assert(spans(found@) =~= Seq::<(int, int)>::empty());
    while at < path.len()
        invariant
            at <= path@.len(),
            spans(found@) == parts_before(path@, at as int),
        decreases path.len() - at,
    {
        if at == 0 || path[at - 1] == 47 {
            let mut end: usize = at;
            while end < path.len() && path[end] != 47
                invariant
                    at <= end <= path@.len(),
                    part_end(path@, at as int) == part_end(path@, end as int),
                decreases path.len() - end,
            {
                end = end + 1;
            }
            let dot = at > 0 && end == at + 1 && path[at] == 46;
            if at < end && !dot {
                let ghost before = spans(found@);
                found.push((at, end));
                assert(spans(found@) =~= before.push((at as int, end as int)));
            }
        }
        at = at + 1;
    }
    found
}

fn starts_at_root(path: &[u8]) -> (result: bool)
    ensures
        result == is_absolute(path@),
{
    path.len() > 0 && path[0] == 47
}

fn strip<'a>(path: &'a [u8], dir: &[u8]) -> (rest: Option<&'a [u8]>)
    ensures
        match rest {
            Some(r) => below(path@, dir@) == Some(r@),
            None => below(path@, dir@) is None,
        },
{
    let all = find_parts(path);
    let ghost shown = parts(path@);
    let count: usize = all.len();
    proof {
        lemma_parts(path@, path@.len() as int);
        lemma_parts(dir@, dir@.len() as int);
        assert(shown.len() == count);
        assert(forall|ix: int|
            0 <= ix < count ==> #[trigger] shown[ix] == (all@[ix].0 as int, all@[ix].1 as int));
    }
    if dir.len() == 0 {
        let end: usize = if count > 0 {
            assert(shown.last() == shown[count - 1]);
            all[count - 1].1
        } else if starts_at_root(path) {
            1
        } else {
            0
        };
        let rest = vstd::slice::slice_subrange(path, 0, end);
        assert(rest@ =~= path@.take(end as int));
        return Some(rest);
    }
    let base = find_parts(dir);
    let ghost wanted = parts(dir@);
    assert(wanted.len() == base@.len());
    if starts_at_root(path) != starts_at_root(dir) || base.len() > count {
        return None;
    }
    let mut ix: usize = 0;
    while ix < base.len()
        invariant
            ix <= base@.len() <= count == all@.len(),
            spans(all@) == parts(path@),
            spans(base@) == parts(dir@),
            forall|k: int|
                0 <= k < count ==> 0 <= (#[trigger] parts(path@)[k]).0 <= parts(path@)[k].1
                    <= path@.len(),
            forall|k: int|
                0 <= k < base@.len() ==> 0 <= (#[trigger] parts(dir@)[k]).0 <= parts(dir@)[k].1
                    <= dir@.len(),
            forall|k: int| 0 <= k < ix ==> #[trigger] part(path@, k) == part(dir@, k),
            below(path@, dir@) is Some ==> is_below(path@, dir@),
        decreases base.len() - ix,
    {
        proof {
            assert(parts(path@)[ix as int] == spans(all@)[ix as int]);
            assert(parts(dir@)[ix as int] == spans(base@)[ix as int]);
        }
        let a = vstd::slice::slice_subrange(path, all[ix].0, all[ix].1);
        let b = vstd::slice::slice_subrange(dir, base[ix].0, base[ix].1);
        proof {
            assert(a@ == part(path@, ix as int));
            assert(b@ == part(dir@, ix as int));
        }
        if !same(a, b) {
            return None;
        }
        ix = ix + 1;
    }
    if base.len() == count {
        let rest = vstd::slice::slice_subrange(path, 0, 0);
        assert(rest@ =~= Seq::<u8>::empty());
        return Some(rest);
    }
    proof {
        assert(shown.last() == shown[count - 1]);
        assert(shown[base@.len() as int].0 <= shown.last().0);
    }
    Some(vstd::slice::slice_subrange(path, all[base.len()].0, all[count - 1].1))
}
/// Where a path of an event lies.
#[derive(Debug, PartialEq, Eq)]
pub enum Place {
    /// In git's own directory; whether status depends on it.
    Git { state: bool },
    /// Nowhere of interest.
    Elsewhere,
    /// In the worktree, by its relative path.
    Worktree { rela: Vec<u8> },
}

/// Where a path of an event lies, as a sequence.
pub enum PlaceView {
    Git { state: bool },
    Elsewhere,
    Worktree { rela: Seq<u8> },
}

impl DeepView for Place {
    type V = PlaceView;

    open spec fn deep_view(&self) -> PlaceView {
        match *self {
            Place::Git { state } => PlaceView::Git { state },
            Place::Elsewhere => PlaceView::Elsewhere,
            Place::Worktree { rela } => PlaceView::Worktree { rela: rela@ },
        }
    }
}

/// Where a path lies: git's directory comes first, since it may lie in the worktree.
pub open spec fn place_of(path: Seq<u8>, root: Seq<u8>, git_dir: Seq<u8>) -> PlaceView {
    match below(path, git_dir) {
        Some(rela) => PlaceView::Git { state: git_state(rela) },
        None => match below(path, root) {
            Some(rela) => if rela.len() == 0 {
                PlaceView::Elsewhere
            } else {
                PlaceView::Worktree { rela }
            },
            None => PlaceView::Elsewhere,
        },
    }
}

/// Where a path lies.
pub fn locate(path: &[u8], root: &[u8], git_dir: &[u8]) -> (place: Place)
    ensures
        place.deep_view() == place_of(path@, root@, git_dir@),
{
    if let Some(rela) = strip(path, git_dir) {
        return Place::Git { state: is_git_state(rela) };
    }
    match strip(path, root) {
        Some(rela) => if rela.len() == 0 {
            Place::Elsewhere
        } else {
            Place::Worktree { rela: copy(rela) }
        },
        None => Place::Elsewhere,
    }
}

/// The first parts of a path, with one slash between two.
pub open spec fn first_parts(path: Seq<u8>, count: int) -> Seq<u8>
    decreases count,
{
    if count <= 0 {
        if is_absolute(path) {
            seq![47u8]
        } else {
            Seq::empty()
        }
    } else if count == 1 {
        first_parts(path, 0) + part(path, 0)
    } else {
        first_parts(path, count - 1).push(47) + part(path, count - 1)
    }
}

/// A path and its parent directories, from the outermost on, each with whether it is meant
/// as a directory: like git, a path is ignored if it or any parent directory is.
pub open spec fn prefixes_of(rela: Seq<u8>) -> Seq<(Seq<u8>, bool)> {
    let count = parts(rela).len();
    (if is_absolute(rela) {
        seq![(seq![47u8], count > 0)]
    } else {
        Seq::empty()
    }) + Seq::new(count, |ix: int| (first_parts(rela, ix + 1), ix + 1 < count))
}

/// A path and its parent directories, from the outermost on.
pub fn prefixes(rela: &[u8]) -> (prefixes: Vec<(Vec<u8>, bool)>)
    ensures
        prefixes.deep_view() == prefixes_of(rela@),
{
    let all = find_parts(rela);
    let count: usize = all.len();
    let mut prefixes: Vec<(Vec<u8>, bool)> = Vec::new();
    let mut prefix: Vec<u8> = Vec::new();
    let ghost mut root: Seq<(Seq<u8>, bool)> = Seq::empty();
    proof {
        lemma_parts(rela@, rela@.len() as int);
        assert(prefixes.deep_view() =~= root);
    }
    if starts_at_root(rela) {
        prefix.push(47);
        prefixes.push((copy(prefix.as_slice()), count > 0));
        proof {
            root = seq![(seq![47u8], count > 0)];
            assert(prefix@ =~= seq![47u8]);
            assert(prefixes.deep_view() =~= root);
        }
    }
    assert(prefix@ =~= first_parts(rela@, 0));
    let mut ix: usize = 0;
    assert(prefixes.deep_view() =~= root + Seq::new(
        0,
        |k: int| (first_parts(rela@, k + 1), k + 1 < count),
    ));
    while ix < count
        invariant
            ix <= count == all@.len(),
            spans(all@) == parts(rela@),
            forall|k: int|
                0 <= k < count ==> 0 <= (#[trigger] parts(rela@)[k]).0 <= parts(rela@)[k].1
                    <= rela@.len(),
            prefix@ == first_parts(rela@, ix as int),
            prefixes.deep_view() == root + Seq::new(
                ix as nat,
                |k: int| (first_parts(rela@, k + 1), k + 1 < count),
            ),
        decreases count - ix,
    {
        assert(parts(rela@)[ix as int] == spans(all@)[ix as int]);
        let name = vstd::slice::slice_subrange(rela, all[ix].0, all[ix].1);
        assert(name@ == part(rela@, ix as int));
        if ix > 0 {
            prefix.push(47);
        }
        append(&mut prefix, name);
        assert(prefix@ =~= first_parts(rela@, ix + 1));
        let ghost before = prefixes.deep_view();
        prefixes.push((copy(prefix.as_slice()), ix + 1 < count));
        assert(prefixes.deep_view() =~= before.push((prefix@, ix + 1 < count)));
        assert(prefixes.deep_view() =~= root + Seq::new(
            (ix + 1) as nat,
            |k: int| (first_parts(rela@, k + 1), k + 1 < count),
        ));
        ix = ix + 1;
    }
    assert(prefixes.deep_view() =~= prefixes_of(rela@));
    prefixes
}

/// What is known of a path of an event.
#[derive(Debug)]
pub enum Noticed {
    Git { state: bool },
    Worktree {
        rela: Vec<u8>,
        ignored: bool,
        /// Whether the path is a directory, or was one that the event took away: by the event's
        /// kind as well (see [`moves_folder`]), since what is gone can't be asked any more.
        is_dir: bool,
    },
}

/// Whether git's state changed among the first `count` things.
pub open spec fn state_changed(noticed: Seq<Noticed>, count: int) -> bool {
    exists|i: int| 0 <= i < count && #[trigger] noticed[i] == (Noticed::Git { state: true })
}

/// Whether a thing is a worktree path that git doesn't ignore.
pub open spec fn is_relevant(thing: Noticed) -> bool {
    thing matches Noticed::Worktree { ignored, .. } && !ignored
}

/// Whether a directory changed: it appeared, vanished or was renamed, and anything below may
/// differ.
pub open spec fn dir_changed(noticed: Seq<Noticed>) -> bool {
    exists|i: int|
        0 <= i < noticed.len() && is_relevant(#[trigger] noticed[i]) && noticed[i]->is_dir
}

/// Whether one of the first `count` things is a worktree path that git doesn't ignore.
pub open spec fn path_changed(noticed: Seq<Noticed>, count: int, path: Seq<u8>) -> bool {
    exists|i: int|
        0 <= i < count && is_relevant(#[trigger] noticed[i]) && noticed[i]->rela@ == path
}

/// Turn what was noticed into a report, or `None` if nothing relevant changed. Changes of
/// git's state alone report no dirty worktree paths.
pub fn classify(noticed: Vec<Noticed>) -> (report: Option<Dirty>)
    ensures
        match report {
            None => !dir_changed(noticed@) && !state_changed(noticed@, noticed@.len() as int)
                && forall|path: Seq<u8>|
                !#[trigger] path_changed(noticed@, noticed@.len() as int, path),
            Some(Dirty::All) => dir_changed(noticed@),
            Some(Dirty::Paths(paths)) => {
                &&& !dir_changed(noticed@)
                &&& state_changed(noticed@, noticed@.len() as int) || paths@.len() > 0
                &&& review::listed_once(paths@)
                &&& forall|path: Seq<u8>| #[trigger]
                    review::is_listed(paths@, path) <==> path_changed(
                        noticed@,
                        noticed@.len() as int,
                        path,
                    )
            },
        },
{
    let ghost all = noticed@;
    let mut changed = false;
    let mut paths: Vec<Vec<u8>> = Vec::new();
    for thing in iter: noticed
        invariant
            iter.seq() == all,
            changed == state_changed(all, iter.index() as int),
            review::listed_once(paths@),
            forall|path: Seq<u8>| #[trigger]
                review::is_listed(paths@, path) <==> path_changed(
                    all,
                    iter.index() as int,
                    path,
                ),
            forall|i: int|
                0 <= i < iter.index() ==> !(is_relevant(#[trigger] all[i]) && all[i]->is_dir),
    {
        let ghost n = iter.index() as int;
        let ghost before = paths@;
        assert(thing == all[n]);
        proof {
            assert forall|path: Seq<u8>| #[trigger]
                path_changed(all, n + 1, path) <==> path_changed(all, n, path) || (is_relevant(
                    all[n],
                ) && all[n]->rela@ == path) by {
                if path_changed(all, n, path) {
                    let i = choose|i: int|
                        0 <= i < n && is_relevant(#[trigger] all[i]) && all[i]->rela@ == path;
                    assert(is_relevant(all[i]) && all[i]->rela@ == path);
                }
            }
            if state_changed(all, n) {
                let i = choose|i: int|
                    0 <= i < n && #[trigger] all[i] == (Noticed::Git { state: true });
                assert(all[i] == (Noticed::Git { state: true }));
            }
        }
        match thing {
            Noticed::Git { state } => {
                if state {
                    assert(all[n] == (Noticed::Git { state: true }));
                    changed = true;
                }
            },
            Noticed::Worktree { rela, ignored, is_dir } => {
                if !ignored {
                    if is_dir {
                        assert(is_relevant(all[n]) && all[n]->is_dir);
                        return Some(Dirty::All);
                    }
                    let ghost path = rela@;
                    let more = vec![rela];
                    review::add_paths(&mut paths, more);
                    proof {
                        assert forall|p: Seq<u8>| #[trigger]
                            review::is_listed(more@, p) <==> p == path by {
                            if p == path {
                                assert(more@[0]@ == p);
                            }
                        }
                    }
                }
            },
        }
    }
    if paths.len() == 0 && !changed {
        proof {
            assert forall|path: Seq<u8>| !#[trigger] path_changed(
                all,
                all.len() as int,
                path,
            ) by {
                assert(!review::is_listed(paths@, path));
            }
        }
        None
    } else {
        Some(Dirty::Paths(paths))
    }
}

// ---------------------------------------------------------------------------
// When to report.

/// Quiet period after the last event before reporting, in nanoseconds.
pub const DEBOUNCE_NS: u64 = 25_000_000;

/// Report at least this often while events keep arriving, in nanoseconds.
pub const MAX_DELAY_NS: u64 = 100_000_000;

/// What is left of the longest delay.
pub open spec fn time_left(elapsed_ns: u64) -> nat {
    if elapsed_ns < MAX_DELAY_NS {
        (MAX_DELAY_NS - elapsed_ns) as nat
    } else {
        0
    }
}

/// How long to wait for another event, once the first one is `elapsed_ns` old: the quiet
/// period, but no longer than what is left of the longest delay.
pub fn quiet_period(elapsed_ns: u64) -> (wait_ns: u64)
    ensures
        wait_ns == (if time_left(elapsed_ns) < DEBOUNCE_NS {
            time_left(elapsed_ns)
        } else {
            DEBOUNCE_NS as nat
        }),
        elapsed_ns <= MAX_DELAY_NS ==> elapsed_ns + wait_ns <= MAX_DELAY_NS,
{
    let left: u64 = MAX_DELAY_NS.saturating_sub(elapsed_ns);
    if left < DEBOUNCE_NS {
        left
    } else {
        DEBOUNCE_NS
    }
}

/// Whether to report although events keep arriving.
pub fn is_overdue(elapsed_ns: u64) -> (overdue: bool)
    ensures
        overdue <==> time_left(elapsed_ns) == 0,
{
    elapsed_ns >= MAX_DELAY_NS
}

// ---------------------------------------------------------------------------
// Laws.

/// A path in a directory.
pub open spec fn within(dir: Seq<u8>, rela: Seq<u8>) -> Seq<u8> {
    dir + seq![47u8] + rela
}

/// Whether a relative path is written plainly: it begins and ends with a part, and not with `.`.
pub open spec fn is_plain_path(rela: Seq<u8>) -> bool {
    &&& parts(rela).len() > 0
    &&& parts(rela)[0].0 == 0
    &&& parts(rela).last().1 == rela.len()
    &&& !(part_end(rela, 0) == 1 && rela[0] == 46)
}

proof fn lemma_end_within(dir: Seq<u8>, rela: Seq<u8>, at: int)
    requires
        0 <= at <= dir.len(),
    ensures
        part_end(within(dir, rela), at) == part_end(dir, at),
    decreases dir.len() - at,
{
    let path = within(dir, rela);
    if at < dir.len() {
        assert(path[at] == dir[at]);
        if dir[at] != 47 {
            lemma_end_within(dir, rela, at + 1);
        }
    } else {
        assert(path[at] == 47);
    }
}

proof fn lemma_end_behind(dir: Seq<u8>, rela: Seq<u8>, i: int)
    requires
        0 <= i <= rela.len(),
    ensures
        part_end(within(dir, rela), dir.len() + 1 + i) == dir.len() + 1 + part_end(rela, i),
    decreases rela.len() - i,
{
    let path = within(dir, rela);
    if i < rela.len() {
        assert(path[dir.len() + 1 + i] == rela[i]);
        if rela[i] != 47 {
            lemma_end_behind(dir, rela, i + 1);
        }
    }
}

proof fn lemma_parts_within(dir: Seq<u8>, rela: Seq<u8>, n: int)
    requires
        0 <= n <= dir.len(),
    ensures
        parts_before(within(dir, rela), n) == parts_before(dir, n),
    decreases n,
{
    if n > 0 {
        let path = within(dir, rela);
        lemma_parts_within(dir, rela, n - 1);
        lemma_end_within(dir, rela, n - 1);
        assert(path[n - 1] == dir[n - 1]);
        if n > 1 {
            assert(path[n - 2] == dir[n - 2]);
        }
    }
}

/// Parts, further on.
pub open spec fn moved_on(found: Seq<(int, int)>, by: int) -> Seq<(int, int)> {
    found.map_values(|span: (int, int)| (span.0 + by, span.1 + by))
}

proof fn lemma_parts_behind(dir: Seq<u8>, rela: Seq<u8>, i: int)
    requires
        0 <= i <= rela.len(),
        !(rela.len() > 0 && part_end(rela, 0) == 1 && rela[0] == 46),
    ensures
        parts_before(within(dir, rela), dir.len() + 1 + i) == parts(dir) + moved_on(
            parts_before(rela, i),
            dir.len() as int + 1,
        ),
    decreases i,
{
    let path = within(dir, rela);
    let by = dir.len() as int + 1;
    if i == 0 {
        lemma_parts_within(dir, rela, dir.len() as int);
        assert(path[dir.len() as int] == 47);
        assert(!has_part(path, dir.len() as int));
        assert(parts(dir) + moved_on(parts_before(rela, 0), by) =~= parts(dir));
    } else {
        lemma_parts_behind(dir, rela, i - 1);
        lemma_end_behind(dir, rela, i - 1);
        let at = by + i - 1;
        assert(path[at] == rela[i - 1]);
        if i > 1 {
            assert(path[at - 1] == rela[i - 2]);
        } else {
            assert(path[at - 1] == 47);
        }
        assert(has_part(path, at) == has_part(rela, i - 1));
        let before = parts_before(rela, i - 1);
        if has_part(rela, i - 1) {
            let span = (i - 1, part_end(rela, i - 1));
            assert(moved_on(before.push(span), by) =~= moved_on(before, by).push(
                (span.0 + by, span.1 + by),
            ));
            assert(parts(dir) + moved_on(before.push(span), by) =~= (parts(dir) + moved_on(
                before,
                by,
            )).push((span.0 + by, span.1 + by)));
        }
    }
}

/// What lies in a directory is named from there: the path of it in the directory is what remains
/// below the directory.
pub proof fn law_paths_are_named_from_the_directory(dir: Seq<u8>, rela: Seq<u8>)
    requires
        dir.len() > 0,
        is_plain_path(rela),
    ensures
        below(within(dir, rela), dir) == Some(rela),
{
    let path = within(dir, rela);
    let by = dir.len() as int + 1;
    lemma_parts_behind(dir, rela, rela.len() as int);
    lemma_parts(dir, dir.len() as int);
    lemma_parts(path, path.len() as int);
    let (all, base, rest) = (parts(path), parts(dir), parts(rela));
    assert(path.len() == by + rela.len());
    assert(all == base + moved_on(rest, by));
    assert(path[0] == dir[0]);
    assert forall|ix: int| 0 <= ix < base.len() implies #[trigger] part(path, ix) == part(
        dir,
        ix,
    ) by {
        assert(all[ix] == base[ix]);
        assert(path.subrange(base[ix].0, base[ix].1) =~= dir.subrange(base[ix].0, base[ix].1));
    }
    assert(is_below(path, dir));
    assert(all[base.len() as int] == moved_on(rest, by)[0]);
    assert(all.last() == moved_on(rest, by)[rest.len() - 1]);
    assert(path.subrange(by, path.len() as int) =~= rela);
}

/// A change in git's own directory counts as one of its state only for the index, `HEAD` and refs,
/// and never as one of the worktree, even where that directory lies in the worktree.
pub proof fn law_only_gits_state_is_reported(root: Seq<u8>, git_dir: Seq<u8>, rela: Seq<u8>)
    requires
        git_dir.len() > 0,
        is_plain_path(rela),
    ensures
        place_of(within(git_dir, rela), root, git_dir) matches PlaceView::Git { state } && (state
            <==> {
            let first = rela.take(part_end(rela, 0));
            first == named("index") || first == named("HEAD") || first == named("packed-refs")
                || first == named("refs")
        }),
{
    law_paths_are_named_from_the_directory(git_dir, rela);
}

} // verus!
