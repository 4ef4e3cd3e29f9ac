//! What actions and their undoing do to a repository: a model of its index, worktree and
//! objects, what it means that git and the file system do as they are told, and the laws that
//! lead from state to state.
use vstd::prelude::*;

use crate::actions::{is_whole, paths_named};
use crate::calls;
use crate::calls::{CallView, FileKind, OpErrorView, ReplyView, StepView};
use crate::diff::FileDiff;
use crate::ops;
use crate::ops::{
    answer, blob_call, cleared_step, entry_call, entry_step, entry_write, first_entry, hash_call,
    index_restored, index_unchanged, raw_hash_step, restored_step, undo_checked, undo_step, word,
    worktree_restored, worktree_unchanged, IndexEntryView, IndexStateView, SavedFileView,
    SelectionView, UndoView, WorktreeStateView,
};
use crate::repo::{FileChange, Section};

verus! {

/// The state of a repository.
pub struct World {
    /// The index, by path.
    pub entries: Map<Seq<u8>, IndexEntryView>,
    /// The files of the worktree, by path: their bytes and what they are.
    pub files: Map<Seq<u8>, (Seq<u8>, FileKind)>,
    /// The objects that git keeps, by id.
    pub objects: Map<Seq<char>, Seq<u8>>,
    /// The id that git gives to bytes.
    pub id: spec_fn(Seq<u8>) -> Seq<char>,
}

impl World {
    /// The index entry of a path.
    pub open spec fn entry(self, path: Seq<u8>) -> Option<IndexEntryView> {
        if self.entries.contains_key(path) {
            Some(self.entries[path])
        } else {
            None
        }
    }

    /// The file at a path.
    pub open spec fn file(self, path: Seq<u8>) -> Option<(Seq<u8>, FileKind)> {
        if self.files.contains_key(path) {
            Some(self.files[path])
        } else {
            None
        }
    }

    /// What is known of the file at a path by its id.
    pub open spec fn saved(self, path: Seq<u8>) -> Option<SavedFileView> {
        match self.file(path) {
            Some((bytes, kind)) => Some(SavedFileView { oid: (self.id)(bytes), kind }),
            None => None,
        }
    }

    /// Whether git keeps bytes under their id.
    pub open spec fn keeps(self, bytes: Seq<u8>) -> bool {
        self.objects.contains_key((self.id)(bytes)) && self.objects[(self.id)(bytes)] == bytes
    }

    /// The state with an index entry put in or taken out.
    pub open spec fn with_entry(self, path: Seq<u8>, entry: Option<IndexEntryView>) -> World {
        World {
            entries: match entry {
                Some(e) => self.entries.insert(path, e),
                None => self.entries.remove(path),
            },
            ..self
        }
    }
}

/// Whether a state still has all objects of another, and names them alike.
pub open spec fn grew(before: World, after: World) -> bool {
    &&& after.id == before.id
    &&& forall|oid: Seq<char>| #[trigger]
        before.objects.contains_key(oid) ==> after.objects.contains_key(oid) && after.objects[oid]
            == before.objects[oid]
}

/// Whether different bytes have different ids.
pub open spec fn tells_apart(id: spec_fn(Seq<u8>) -> Seq<char>) -> bool {
    forall|a: Seq<u8>, b: Seq<u8>| #[trigger] id(a) == #[trigger] id(b) ==> a == b
}

/// Whether an entry is one that git can list and be given: neither its mode nor its id holds a
/// comma.
pub open spec fn is_plain(entry: Option<IndexEntryView>) -> bool {
    entry matches Some(e) ==> !e.mode.contains(',') && !e.oid.contains(',')
}

/// Whether a call runs a git command that writes neither the index nor the worktree.
pub open spec fn is_reading(call: CallView) -> bool {
    call matches CallView::Git { args, .. } && args.len() > 0 && (args[0] == word("hash-object")
        || args[0] == word("ls-files") || args[0] == word("cat-file"))
}

/// Whether git does as it is told: what it prints of an index entry, of the id of bytes and of
/// an object is so, what it is given for the index is there afterwards, and no object is lost.
pub open spec fn git_answers(
    before: World,
    call: CallView,
    reply: ReplyView,
    after: World,
) -> bool {
    &&& grew(before, after)
    &&& is_reading(call) ==> after.entries == before.entries && after.files == before.files
    &&& forall|path: Seq<u8>|
        call == #[trigger] entry_call(path) ==> after == before && (reply matches ReplyView::Git(
            Ok(out),
        ) && first_entry(crate::bytes::pieces(out, 0), path, 0) == before.entry(path))
    &&& forall|bytes: Seq<u8>, write: bool|
        call == #[trigger] hash_call(bytes, write) ==> (if write {
            after.keeps(bytes)
        } else {
            after == before
        }) && (reply matches ReplyView::Git(Ok(out)) && answer(out) == (before.id)(bytes))
    &&& forall|oid: Seq<char>|
        call == #[trigger] blob_call(oid) && before.objects.contains_key(oid) ==> after == before
            && reply == ReplyView::Git(Ok(before.objects[oid]))
    &&& forall|state: IndexStateView|
        call == #[trigger] entry_write(state) && is_plain(state.before) ==> after
            == before.with_entry(state.path, state.before) && (reply matches ReplyView::Git(
            Ok(_),
        ))
}

/// Whether a call is answered as it should be, and what it does is done.
pub open spec fn answers(before: World, call: CallView, reply: ReplyView, after: World) -> bool {
    match call {
        CallView::Git { .. } => git_answers(before, call, reply, after),
        CallView::ReadKind { path } => after == before && reply == ReplyView::Kind(
            match before.file(path) {
                Some((_, kind)) => Ok(Some(kind)),
                None => Ok(None),
            },
        ),
        CallView::ReadRaw { path } => after == before && reply == ReplyView::Raw(
            Ok(before.file(path)),
        ),
        CallView::Remove { path } => after == (World {
            files: before.files.remove(path),
            ..before
        }) && reply == ReplyView::Done(Ok(())),
        CallView::Write { path, kind, bytes } => after == (World {
            files: before.files.insert(path, (bytes, kind)),
            ..before
        }) && reply == ReplyView::Done(Ok(())),
        _ => after == before,
    }
}

/// Whether an operation ran through these states with these replies: each reply answers the
/// call that the operation made after those before.
pub open spec fn ran<V>(
    op: spec_fn(Seq<ReplyView>) -> StepView<V>,
    replies: Seq<ReplyView>,
    worlds: Seq<World>,
) -> bool {
    &&& worlds.len() == replies.len() + 1
    &&& forall|i: int|
        0 <= i < replies.len() ==> (op(#[trigger] replies.take(i)) matches StepView::Call(call)
            && answers(worlds[i], call, replies[i], worlds[i + 1]))
}

// ---------------------------------------------------------------------------
// Following a run.

/// Whether an operation stands where a part of it stands, from reply `at` on, until the part is
/// done.
spec fn stands_by<V, W>(
    op: spec_fn(Seq<ReplyView>) -> StepView<V>,
    part: spec_fn(Seq<ReplyView>) -> StepView<W>,
    replies: Seq<ReplyView>,
    at: int,
) -> bool {
    forall|n: int|
        at <= n <= replies.len() ==> {
            let told = #[trigger] replies.take(n);
            &&& part(told) matches StepView::Call(call) ==> op(told) == StepView::<V>::Call(call)
            &&& part(told) matches StepView::Failed(error) ==> op(told) == StepView::<V>::Failed(
                error,
            )
        }
}

/// Whether a part is done with the same value at the same place, however many replies follow.
spec fn settles<W>(
    part: spec_fn(Seq<ReplyView>) -> StepView<W>,
    replies: Seq<ReplyView>,
    value: W,
    end: int,
) -> bool {
    forall|n: int|
        end <= n <= replies.len() ==> part(#[trigger] replies.take(n)) == StepView::Done(
            value,
            end,
        )
}

/// The call that a part makes at its start is answered.
proof fn lemma_answered<V, W>(
    op: spec_fn(Seq<ReplyView>) -> StepView<V>,
    part: spec_fn(Seq<ReplyView>) -> StepView<W>,
    replies: Seq<ReplyView>,
    worlds: Seq<World>,
    at: int,
    call: CallView,
)
    requires
        ran(op, replies, worlds),
        stands_by(op, part, replies, at),
        0 <= at < replies.len(),
        part(replies.take(at)) == StepView::<W>::Call(call),
    ensures
        answers(worlds[at], call, replies[at], worlds[at + 1]),
{
    assert(op(replies.take(at)) == StepView::<V>::Call(call));
}

/// A part fails only with the last reply.
proof fn lemma_failed<V, W>(
    op: spec_fn(Seq<ReplyView>) -> StepView<V>,
    part: spec_fn(Seq<ReplyView>) -> StepView<W>,
    replies: Seq<ReplyView>,
    worlds: Seq<World>,
    at: int,
    end: int,
)
    requires
        ran(op, replies, worlds),
        stands_by(op, part, replies, at),
        0 <= at <= end <= replies.len(),
        part(replies.take(end)) is Failed,
    ensures
        end == replies.len(),
{
    assert(op(replies.take(end)) is Failed);
}

// ---------------------------------------------------------------------------
// Checking.

/// Whether the index entries from `k` on are as an action left them.
pub open spec fn entries_left(world: World, states: Seq<IndexStateView>, k: int) -> bool {
    forall|j: int|
        k <= j < states.len() ==> (#[trigger] states[j]).after == world.entry(states[j].path)
}

/// Whether the files from `k` on are as an action left them.
pub open spec fn files_left(world: World, states: Seq<WorktreeStateView>, k: int) -> bool {
    forall|j: int|
        k <= j < states.len() ==> (#[trigger] states[j]).after == world.saved(states[j].path)
}

/// One index entry is read.
proof fn lemma_entry_read<V, W>(
    op: spec_fn(Seq<ReplyView>) -> StepView<V>,
    part: spec_fn(Seq<ReplyView>) -> StepView<W>,
    replies: Seq<ReplyView>,
    worlds: Seq<World>,
    at: int,
    path: Seq<u8>,
)
    requires
        ran(op, replies, worlds),
        stands_by(op, part, replies, at),
        0 <= at < replies.len(),
        part(replies.take(at)) == StepView::<W>::Call(entry_call(path)),
    ensures
        worlds[at + 1] == worlds[at],
        entry_step(replies, at, path) == StepView::Done(worlds[at].entry(path), at + 1),
        forall|n: int|
            at < n <= replies.len() ==> entry_step(#[trigger] replies.take(n), at, path)
                == StepView::Done(worlds[at].entry(path), at + 1),
{
    lemma_answered(op, part, replies, worlds, at, entry_call(path));
    assert forall|n: int| at < n <= replies.len() implies entry_step(
        #[trigger] replies.take(n),
        at,
        path,
    ) == StepView::Done(worlds[at].entry(path), at + 1) by {
        assert(replies.take(n)[at] == replies[at]);
    }
}

proof fn lemma_index_checked<V>(
    op: spec_fn(Seq<ReplyView>) -> StepView<V>,
    replies: Seq<ReplyView>,
    worlds: Seq<World>,
    at: int,
    states: Seq<IndexStateView>,
    k: int,
)
    requires
        ran(op, replies, worlds),
        0 <= at <= replies.len(),
        0 <= k,
        stands_by(op, |r: Seq<ReplyView>| index_unchanged(r, at, states, k), replies, at),
    ensures
        match index_unchanged(replies, at, states, k) {
            StepView::Call(_) => true,
            StepView::Done(_, end) => {
                &&& at <= end <= replies.len()
                &&& worlds[end] == worlds[at]
                &&& entries_left(worlds[at], states, k)
                &&& settles(
                    |r: Seq<ReplyView>| index_unchanged(r, at, states, k),
                    replies,
                    (),
                    end,
                )
            },
            StepView::Failed(error) => {
                &&& error is Stale
                &&& worlds.last() == worlds[at]
                &&& !entries_left(worlds[at], states, k)
            },
        },
    decreases states.len() - k,
{
    let part = |r: Seq<ReplyView>| index_unchanged(r, at, states, k);
    if k < states.len() && at < replies.len() {
        let path = states[k].path;
        assert(replies.take(at).len() == at);
        assert(part(replies.take(at)) == StepView::<()>::Call(entry_call(path)));
        lemma_entry_read(op, part, replies, worlds, at, path);
        if worlds[at].entry(path) == states[k].after {
            let rest = |r: Seq<ReplyView>| index_unchanged(r, at + 1, states, k + 1);
            assert forall|n: int| at + 1 <= n <= replies.len() implies part(
                #[trigger] replies.take(n),
            ) == rest(replies.take(n)) by {}
            assert(stands_by(op, rest, replies, at + 1));
            lemma_index_checked(op, replies, worlds, at + 1, states, k + 1);
            if entries_left(worlds[at], states, k + 1) {
                assert(entries_left(worlds[at], states, k));
            }
        } else {
            assert(part(replies.take(at + 1)) is Failed);
            lemma_failed(op, part, replies, worlds, at, at + 1);
        }
    }
}

/// One file is read and hashed.
proof fn lemma_file_read<V, W>(
    op: spec_fn(Seq<ReplyView>) -> StepView<V>,
    part: spec_fn(Seq<ReplyView>) -> StepView<W>,
    replies: Seq<ReplyView>,
    worlds: Seq<World>,
    at: int,
    path: Seq<u8>,
)
    requires
        ran(op, replies, worlds),
        stands_by(op, part, replies, at),
        0 <= at <= replies.len(),
        forall|n: int|
            at <= n <= replies.len() ==> (raw_hash_step(
                #[trigger] replies.take(n),
                at,
                path,
            ) matches StepView::Call(call) ==> part(replies.take(n)) == StepView::<W>::Call(call)),
    ensures
        match raw_hash_step(replies, at, path) {
            StepView::Call(_) => true,
            StepView::Failed(_) => false,
            StepView::Done(saved, end) => {
                &&& at < end <= replies.len()
                &&& saved == worlds[at].saved(path)
                &&& worlds[end] == worlds[at]
                &&& settles(
                    |r: Seq<ReplyView>| raw_hash_step(r, at, path),
                    replies,
                    saved,
                    end,
                )
            },
        },
{
    if at < replies.len() {
        assert(replies.take(at).len() == at);
        assert(part(replies.take(at)) == StepView::<W>::Call(CallView::ReadRaw { path }));
        lemma_answered(op, part, replies, worlds, at, CallView::ReadRaw { path });
        assert forall|n: int| at < n <= replies.len() implies (#[trigger] replies.take(n))[at]
            == replies[at] by {}
        if let Some((bytes, kind)) = worlds[at].file(path) {
            if at + 1 < replies.len() {
                let call = hash_call(bytes, false);
                assert(replies.take(at + 1).len() == at + 1);
                assert(part(replies.take(at + 1)) == StepView::<W>::Call(call));
                assert(op(replies.take(at + 1)) == StepView::<V>::Call(call));
                assert(answers(worlds[at + 1], call, replies[at + 1], worlds[at + 2]));
                assert forall|n: int| at + 1 < n <= replies.len() implies (#[trigger] replies.take(
                    n,
                ))[at + 1] == replies[at + 1] by {}
            }
        }
    }
}

proof fn lemma_worktree_checked<V>(
    op: spec_fn(Seq<ReplyView>) -> StepView<V>,
    replies: Seq<ReplyView>,
    worlds: Seq<World>,
    at: int,
    states: Seq<WorktreeStateView>,
    k: int,
)
    requires
        ran(op, replies, worlds),
        0 <= at <= replies.len(),
        0 <= k,
        stands_by(op, |r: Seq<ReplyView>| worktree_unchanged(r, at, states, k), replies, at),
    ensures
        match worktree_unchanged(replies, at, states, k) {
            StepView::Call(_) => true,
            StepView::Done(_, end) => {
                &&& at <= end <= replies.len()
                &&& worlds[end] == worlds[at]
                &&& files_left(worlds[at], states, k)
                &&& settles(
                    |r: Seq<ReplyView>| worktree_unchanged(r, at, states, k),
                    replies,
                    (),
                    end,
                )
            },
            StepView::Failed(error) => {
                &&& error is Stale
                &&& worlds.last() == worlds[at]
                &&& !files_left(worlds[at], states, k)
            },
        },
    decreases states.len() - k,
{
    let part = |r: Seq<ReplyView>| worktree_unchanged(r, at, states, k);
    if k < states.len() {
        let path = states[k].path;
        lemma_file_read(op, part, replies, worlds, at, path);
        if let StepView::Done(saved, next) = raw_hash_step(replies, at, path) {
            let read = |r: Seq<ReplyView>| raw_hash_step(r, at, path);
            assert forall|n: int| next <= n <= replies.len() implies raw_hash_step(
                #[trigger] replies.take(n),
                at,
                path,
            ) == StepView::Done(saved, next) by {
                assert(read(replies.take(n)) == StepView::Done(saved, next));
            }
            if saved == states[k].after {
                let rest = |r: Seq<ReplyView>| worktree_unchanged(r, next, states, k + 1);
                assert forall|n: int| next <= n <= replies.len() implies part(
                    #[trigger] replies.take(n),
                ) == rest(replies.take(n)) by {}
                assert(stands_by(op, rest, replies, next));
                lemma_worktree_checked(op, replies, worlds, next, states, k + 1);
                if files_left(worlds[at], states, k + 1) {
                    assert(files_left(worlds[at], states, k));
                }
            } else {
                assert(part(replies.take(next)) is Failed);
                lemma_failed(op, part, replies, worlds, at, next);
            }
        }
    }
}

// ---------------------------------------------------------------------------
// Putting back.

/// Whether a path is one of those from `k` on.
pub open spec fn is_entry_of(states: Seq<IndexStateView>, k: int, path: Seq<u8>) -> bool {
    exists|j: int| k <= j < states.len() && (#[trigger] states[j]).path == path
}

/// Whether a path is one of those from `k` on.
pub open spec fn is_file_of(states: Seq<WorktreeStateView>, k: int, path: Seq<u8>) -> bool {
    exists|j: int| k <= j < states.len() && (#[trigger] states[j]).path == path
}

/// Whether states are each of another path, and git can be given all of them.
pub open spec fn are_entries(states: Seq<IndexStateView>) -> bool {
    &&& forall|i: int, j: int|
        #![trigger states[i], states[j]]
        0 <= i < j < states.len() ==> states[i].path != states[j].path
    &&& forall|j: int| 0 <= j < states.len() ==> is_plain((#[trigger] states[j]).before)
}

/// Whether states are each of another path.
pub open spec fn are_files(states: Seq<WorktreeStateView>) -> bool {
    forall|i: int, j: int|
        #![trigger states[i], states[j]]
        0 <= i < j < states.len() ==> states[i].path != states[j].path
}

/// Whether the index entries from `k` on are as they were before an action, and all others as
/// in another state.
spec fn entries_back(from: World, to: World, states: Seq<IndexStateView>, k: int) -> bool {
    &&& to == (World { entries: to.entries, ..from })
    &&& forall|j: int|
        k <= j < states.len() ==> to.entry((#[trigger] states[j]).path) == states[j].before
    &&& forall|path: Seq<u8>|
        !is_entry_of(states, k, path) ==> #[trigger] to.entry(path) == from.entry(path)
}

proof fn lemma_index_put_back<V>(
    op: spec_fn(Seq<ReplyView>) -> StepView<V>,
    replies: Seq<ReplyView>,
    worlds: Seq<World>,
    at: int,
    states: Seq<IndexStateView>,
    k: int,
)
    requires
        ran(op, replies, worlds),
        0 <= at <= replies.len(),
        0 <= k,
        are_entries(states),
        stands_by(op, |r: Seq<ReplyView>| index_restored(r, at, states, k), replies, at),
    ensures
        match index_restored(replies, at, states, k) {
            StepView::Call(_) => true,
            StepView::Failed(_) => false,
            StepView::Done(_, end) => {
                &&& at <= end <= replies.len()
                &&& entries_back(worlds[at], worlds[end], states, k)
                &&& settles(|r: Seq<ReplyView>| index_restored(r, at, states, k), replies, (), end)
            },
        },
    decreases states.len() - k,
{
    let part = |r: Seq<ReplyView>| index_restored(r, at, states, k);
    if k < states.len() && at < replies.len() {
        let state = states[k];
        assert(replies.take(at).len() == at);
        assert(part(replies.take(at)) == StepView::<()>::Call(entry_write(state)));
        lemma_answered(op, part, replies, worlds, at, entry_write(state));
        let rest = |r: Seq<ReplyView>| index_restored(r, at + 1, states, k + 1);
        assert forall|n: int| at + 1 <= n <= replies.len() implies part(#[trigger] replies.take(n))
            == rest(replies.take(n)) by {
            assert(replies.take(n)[at] == replies[at]);
        }
        assert(stands_by(op, rest, replies, at + 1));
        lemma_index_put_back(op, replies, worlds, at + 1, states, k + 1);
        if let StepView::Done(_, end) = index_restored(replies, at, states, k) {
            let (from, to) = (worlds[at], worlds[end]);
            assert(!is_entry_of(states, k + 1, state.path)) by {
                assert forall|j: int| k + 1 <= j < states.len() implies (#[trigger] states[j]).path
                    != state.path by {
                    assert(states[k].path != states[j].path);
                }
            }
            assert(to.entry(state.path) == state.before);
            assert forall|j: int| k <= j < states.len() implies to.entry(
                (#[trigger] states[j]).path,
            ) == states[j].before by {}
            assert forall|path: Seq<u8>| !is_entry_of(states, k, path) implies #[trigger] to.entry(
                path,
            ) == from.entry(path) by {
                assert(states[k].path != path);
                assert(!is_entry_of(states, k + 1, path));
            }
        }
    }
}

/// The file that a state says there was.
pub open spec fn file_before(objects: Map<Seq<char>, Seq<u8>>, state: WorktreeStateView) -> Option<
    (Seq<u8>, FileKind),
> {
    match state.before {
        Some(saved) => Some((objects[saved.oid], saved.kind)),
        None => None,
    }
}

/// Whether git keeps what the files of some states held.
pub open spec fn are_kept(
    objects: Map<Seq<char>, Seq<u8>>,
    states: Seq<WorktreeStateView>,
) -> bool {
    forall|j: int|
        0 <= j < states.len() ==> ((#[trigger] states[j]).before matches Some(saved)
            ==> objects.contains_key(saved.oid))
}

/// Whether the files from `k` on are as they were before an action, and all others as in
/// another state.
spec fn files_back(from: World, to: World, states: Seq<WorktreeStateView>, k: int) -> bool {
    &&& to == (World { files: to.files, ..from })
    &&& forall|j: int|
        k <= j < states.len() ==> to.file((#[trigger] states[j]).path) == file_before(
            from.objects,
            states[j],
        )
    &&& forall|path: Seq<u8>|
        !is_file_of(states, k, path) ==> #[trigger] to.file(path) == from.file(path)
}

/// One file is put back.
proof fn lemma_file_put_back<V>(
    op: spec_fn(Seq<ReplyView>) -> StepView<V>,
    replies: Seq<ReplyView>,
    worlds: Seq<World>,
    at: int,
    state: WorktreeStateView,
)
    requires
        ran(op, replies, worlds),
        0 <= at <= replies.len(),
        state.before matches Some(saved) ==> worlds[at].objects.contains_key(saved.oid),
        stands_by(
            op,
            |r: Seq<ReplyView>| restored_step(r, at, state.path, state.before),
            replies,
            at,
        ),
    ensures
        match restored_step(replies, at, state.path, state.before) {
            StepView::Call(_) => true,
            StepView::Failed(_) => false,
            StepView::Done(_, end) => {
                &&& at < end <= replies.len()
                &&& worlds[end] == (World { files: worlds[end].files, ..worlds[at] })
                &&& worlds[end].file(state.path) == file_before(worlds[at].objects, state)
                &&& forall|path: Seq<u8>|
                    path != state.path ==> #[trigger] worlds[end].file(path) == worlds[at].file(
                        path,
                    )
                &&& settles(
                    |r: Seq<ReplyView>| restored_step(r, at, state.path, state.before),
                    replies,
                    (),
                    end,
                )
            },
        },
{
    let path = state.path;
    let part = |r: Seq<ReplyView>| restored_step(r, at, path, state.before);
    assert forall|n: int, i: int| 0 <= i < n <= replies.len() implies (#[trigger] replies.take(
        n,
    ))[i] == #[trigger] replies[i] by {}
    if at < replies.len() {
        let first = CallView::ReadKind { path };
        assert(replies.take(at).len() == at);
        assert(part(replies.take(at)) == StepView::<()>::Call(first));
        lemma_answered(op, part, replies, worlds, at, first);
        assert(replies[at] is Kind);
        let clear = if worlds[at].file(path) is Some {
            at + 2
        } else {
            at + 1
        };
        if clear == at + 2 && at + 1 < replies.len() {
            let second = CallView::Remove { path };
            assert(replies.take(at + 1).len() == at + 1);
            assert(replies.take(at + 1)[at] == replies[at]);
            assert(part(replies.take(at + 1)) == StepView::<()>::Call(second));
            assert(op(replies.take(at + 1)) == StepView::<V>::Call(second));
            assert(answers(worlds[at + 1], second, replies[at + 1], worlds[at + 2]));
        }
        if clear <= replies.len() {
            assert(cleared_step(replies, at, path) == StepView::Done((), clear));
            assert forall|n: int| clear <= n <= replies.len() implies cleared_step(
                #[trigger] replies.take(n),
                at,
                path,
            ) == StepView::Done((), clear) by {
                assert(replies.take(n)[at] == replies[at]);
                if clear == at + 2 {
                    assert(replies.take(n)[at + 1] == replies[at + 1]);
                }
            }
            assert(worlds[clear].files =~= worlds[at].files.remove(path));
            assert(worlds[clear].file(path) is None);
            if let Some(saved) = state.before {
                if clear < replies.len() {
                    let third = blob_call(saved.oid);
                    assert(replies.take(clear).len() == clear);
                    assert(part(replies.take(clear)) == StepView::<()>::Call(third));
                    assert(op(replies.take(clear)) == StepView::<V>::Call(third));
                    assert(answers(worlds[clear], third, replies[clear], worlds[clear + 1]));
                    if clear + 1 < replies.len() {
                        let bytes = worlds[at].objects[saved.oid];
                        let last = CallView::Write { path, kind: saved.kind, bytes };
                        assert(replies.take(clear + 1).len() == clear + 1);
                        assert(replies.take(clear + 1)[clear] == replies[clear]);
                        assert(part(replies.take(clear + 1)) == StepView::<()>::Call(last));
                        assert(op(replies.take(clear + 1)) == StepView::<V>::Call(last));
                        assert(answers(
                            worlds[clear + 1],
                            last,
                            replies[clear + 1],
                            worlds[clear + 2],
                        ));
                        assert forall|n: int| clear + 2 <= n <= replies.len() implies part(
                            #[trigger] replies.take(n),
                        ) == StepView::Done((), clear + 2) by {
                            assert(replies.take(n)[clear] == replies[clear]);
                            assert(replies.take(n)[clear + 1] == replies[clear + 1]);
                        }
                    }
                }
            }
        }
    }
}

proof fn lemma_worktree_put_back<V>(
    op: spec_fn(Seq<ReplyView>) -> StepView<V>,
    replies: Seq<ReplyView>,
    worlds: Seq<World>,
    at: int,
    states: Seq<WorktreeStateView>,
    k: int,
)
    requires
        ran(op, replies, worlds),
        0 <= at <= replies.len(),
        0 <= k,
        are_files(states),
        are_kept(worlds[at].objects, states),
        stands_by(op, |r: Seq<ReplyView>| worktree_restored(r, at, states, k), replies, at),
    ensures
        match worktree_restored(replies, at, states, k) {
            StepView::Call(_) => true,
            StepView::Failed(_) => false,
            StepView::Done(_, end) => {
                &&& at <= end <= replies.len()
                &&& files_back(worlds[at], worlds[end], states, k)
                &&& settles(
                    |r: Seq<ReplyView>| worktree_restored(r, at, states, k),
                    replies,
                    (),
                    end,
                )
            },
        },
    decreases states.len() - k,
{
    let part = |r: Seq<ReplyView>| worktree_restored(r, at, states, k);
    if k < states.len() {
        let state = states[k];
        let one = |r: Seq<ReplyView>| restored_step(r, at, state.path, state.before);
        assert(stands_by(op, one, replies, at)) by {
            assert forall|n: int| at <= n <= replies.len() implies {
                let told = #[trigger] replies.take(n);
                &&& one(told) matches StepView::Call(call) ==> op(told) == StepView::<V>::Call(
                    call,
                )
                &&& one(told) matches StepView::Failed(error) ==> op(told)
                    == StepView::<V>::Failed(error)
            } by {
                let told = replies.take(n);
                assert(one(told) is Call ==> part(told) == StepView::<()>::Call(one(told)->Call_0));
                assert(one(told) is Failed ==> part(told) == StepView::<()>::Failed(
                    one(told)->Failed_0,
                ));
            }
        }
        lemma_file_put_back(op, replies, worlds, at, state);
        if let StepView::Done(_, next) = restored_step(replies, at, state.path, state.before) {
            assert forall|n: int| next <= n <= replies.len() implies restored_step(
                #[trigger] replies.take(n),
                at,
                state.path,
                state.before,
            ) == StepView::Done((), next) by {
                assert(one(replies.take(n)) == StepView::Done((), next));
            }
            let rest = |r: Seq<ReplyView>| worktree_restored(r, next, states, k + 1);
            assert forall|n: int| next <= n <= replies.len() implies part(
                #[trigger] replies.take(n),
            ) == rest(replies.take(n)) by {}
            assert(stands_by(op, rest, replies, next));
            lemma_worktree_put_back(op, replies, worlds, next, states, k + 1);
            if let StepView::Done(_, end) = worktree_restored(replies, at, states, k) {
                let (from, to) = (worlds[at], worlds[end]);
                assert(!is_file_of(states, k + 1, state.path)) by {
                    assert forall|j: int| k + 1 <= j < states.len() implies (
                    #[trigger] states[j]).path != state.path by {
                        assert(states[k].path != states[j].path);
                    }
                }
                assert(to.file(state.path) == file_before(from.objects, state));
                assert forall|path: Seq<u8>| !is_file_of(states, k, path) implies
                    #[trigger] to.file(path) == from.file(path) by {
                    assert(states[k].path != path);
                    assert(!is_file_of(states, k + 1, path));
                    assert(worlds[next].file(path) == from.file(path));
                }
            }
        }
    }
}

// ---------------------------------------------------------------------------
// Undoing.

/// Whether an undo holds what an action, which led from one state to another, found before and
/// left behind; and git keeps what the files held.
pub open spec fn is_recorded(undo: UndoView, before: World, after: World) -> bool {
    &&& after.id == before.id
    &&& forall|j: int|
        0 <= j < undo.index.len() ==> {
            let state = #[trigger] undo.index[j];
            state.before == before.entry(state.path) && state.after == after.entry(state.path)
        }
    &&& forall|j: int|
        0 <= j < undo.worktree.len() ==> {
            let state = #[trigger] undo.worktree[j];
            &&& state.before == before.saved(state.path)
            &&& state.after == after.saved(state.path)
            &&& before.file(state.path) matches Some((bytes, _)) ==> after.keeps(bytes)
        }
}

/// Whether an undo names each path once, and index entries that git can be given.
pub open spec fn is_valid(undo: UndoView) -> bool {
    are_entries(undo.index) && are_files(undo.worktree)
}

/// Whether two states are the same on the index entries and files of an undo: the bytes of each
/// file, and what it is.
pub open spec fn agree_on(undo: UndoView, a: World, b: World) -> bool {
    &&& forall|j: int|
        0 <= j < undo.index.len() ==> a.entry((#[trigger] undo.index[j]).path) == b.entry(
            undo.index[j].path,
        )
    &&& forall|j: int|
        0 <= j < undo.worktree.len() ==> a.file((#[trigger] undo.worktree[j]).path) == b.file(
            undo.worktree[j].path,
        )
}

/// Whether two states are the same but for the index entries and files of an undo.
pub open spec fn agree_elsewhere(undo: UndoView, a: World, b: World) -> bool {
    &&& forall|path: Seq<u8>|
        !is_entry_of(undo.index, 0, path) ==> #[trigger] a.entry(path) == b.entry(path)
    &&& forall|path: Seq<u8>|
        !is_file_of(undo.worktree, 0, path) ==> #[trigger] a.file(path) == b.file(path)
}

/// Files that are known by the same ids are the same.
proof fn lemma_left_is_same(undo: UndoView, before: World, after: World, now: World)
    requires
        is_recorded(undo, before, after),
        grew(after, now),
        tells_apart(after.id),
    ensures
        entries_left(now, undo.index, 0) && files_left(now, undo.worktree, 0) <==> agree_on(
            undo,
            now,
            after,
        ),
{
    let same = agree_on(undo, now, after);
    let left = entries_left(now, undo.index, 0) && files_left(now, undo.worktree, 0);
    if left {
        assert forall|j: int| 0 <= j < undo.worktree.len() implies now.file(
            (#[trigger] undo.worktree[j]).path,
        ) == after.file(undo.worktree[j].path) by {
            let path = undo.worktree[j].path;
            assert(undo.worktree[j].after == now.saved(path));
            if let (Some((a, _)), Some((b, _))) = (now.file(path), after.file(path)) {
                assert((after.id)(a) == (after.id)(b));
            }
        }
        assert forall|j: int| 0 <= j < undo.index.len() implies now.entry(
            (#[trigger] undo.index[j]).path,
        ) == after.entry(undo.index[j].path) by {}
        assert(same);
    }
    if same {
        assert forall|j: int| 0 <= j < undo.worktree.len() implies (
        #[trigger] undo.worktree[j]).after == now.saved(undo.worktree[j].path) by {}
        assert forall|j: int| 0 <= j < undo.index.len() implies (#[trigger] undo.index[j]).after
            == now.entry(undo.index[j].path) by {}
        assert(left);
    }
}

/// Whether an operation stands where an undo's checks stand, and these found what they had to.
proof fn lemma_undo_checked(undo: UndoView, replies: Seq<ReplyView>, worlds: Seq<World>)
    requires
        ran(|r: Seq<ReplyView>| undo_step(undo, r), replies, worlds),
    ensures
        match undo_checked(undo, replies) {
            StepView::Call(_) => true,
            StepView::Done(_, end) => {
                &&& 0 <= end <= replies.len()
                &&& worlds[end] == worlds[0]
                &&& entries_left(worlds[0], undo.index, 0)
                &&& files_left(worlds[0], undo.worktree, 0)
                &&& settles(|r: Seq<ReplyView>| undo_checked(undo, r), replies, (), end)
            },
            StepView::Failed(error) => {
                &&& error is Stale
                &&& worlds.last() == worlds[0]
                &&& !(entries_left(worlds[0], undo.index, 0) && files_left(
                    worlds[0],
                    undo.worktree,
                    0,
                ))
            },
        },
{
    let op = |r: Seq<ReplyView>| undo_step(undo, r);
    let (index, files) = (undo.index, undo.worktree);
    let one = |r: Seq<ReplyView>| index_unchanged(r, 0, index, 0);
    assert(stands_by(op, one, replies, 0));
    lemma_index_checked(op, replies, worlds, 0, index, 0);
    if let StepView::Done(_, at) = index_unchanged(replies, 0, index, 0) {
        assert forall|n: int| at <= n <= replies.len() implies index_unchanged(
            #[trigger] replies.take(n),
            0,
            index,
            0,
        ) == StepView::Done((), at) by {
            assert(one(replies.take(n)) == StepView::Done((), at));
        }
        let two = |r: Seq<ReplyView>| worktree_unchanged(r, at, files, 0);
        assert(stands_by(op, two, replies, at));
        lemma_worktree_checked(op, replies, worlds, at, files, 0);
        if let StepView::Done(_, mid) = worktree_unchanged(replies, at, files, 0) {
            assert forall|n: int| mid <= n <= replies.len() implies undo_checked(
                undo,
                #[trigger] replies.take(n),
            ) == StepView::Done((), mid) by {
                assert(two(replies.take(n)) == StepView::Done((), mid));
            }
        }
    }
}

/// Whether all index entries and files of an undo are back, and all others as in another state.
spec fn all_back(undo: UndoView, from: World, to: World) -> bool {
    &&& forall|j: int|
        0 <= j < undo.index.len() ==> to.entry((#[trigger] undo.index[j]).path)
            == undo.index[j].before
    &&& forall|j: int|
        0 <= j < undo.worktree.len() ==> to.file((#[trigger] undo.worktree[j]).path)
            == file_before(from.objects, undo.worktree[j])
    &&& agree_elsewhere(undo, to, from)
}

proof fn lemma_undo_put_back(
    undo: UndoView,
    replies: Seq<ReplyView>,
    worlds: Seq<World>,
    mid: int,
)
    requires
        is_valid(undo),
        ran(|r: Seq<ReplyView>| undo_step(undo, r), replies, worlds),
        undo_checked(undo, replies) matches StepView::Done(_, end) && end == mid,
        0 <= mid <= replies.len(),
        settles(|r: Seq<ReplyView>| undo_checked(undo, r), replies, (), mid),
        are_kept(worlds[mid].objects, undo.worktree),
    ensures
        match undo_step(undo, replies) {
            StepView::Call(_) => true,
            StepView::Failed(_) => false,
            StepView::Done(_, _) => all_back(undo, worlds[mid], worlds.last()),
        },
{
    let op = |r: Seq<ReplyView>| undo_step(undo, r);
    let (index, files) = (undo.index, undo.worktree);
    let checked = |r: Seq<ReplyView>| undo_checked(undo, r);
    assert forall|n: int| mid <= n <= replies.len() implies undo_checked(
        undo,
        #[trigger] replies.take(n),
    ) == StepView::Done((), mid) by {
        assert(checked(replies.take(n)) == StepView::Done((), mid));
    }
    let three = |r: Seq<ReplyView>| index_restored(r, mid, index, 0);
    assert(stands_by(op, three, replies, mid));
    lemma_index_put_back(op, replies, worlds, mid, index, 0);
    if let StepView::Done(_, next) = index_restored(replies, mid, index, 0) {
        assert forall|n: int| next <= n <= replies.len() implies index_restored(
            #[trigger] replies.take(n),
            mid,
            index,
            0,
        ) == StepView::Done((), next) by {
            assert(three(replies.take(n)) == StepView::Done((), next));
        }
        let four = |r: Seq<ReplyView>| worktree_restored(r, next, files, 0);
        assert(stands_by(op, four, replies, next));
        lemma_worktree_put_back(op, replies, worlds, next, files, 0);
        if let StepView::Done(_, end) = worktree_restored(replies, next, files, 0) {
            assert(four(replies.take(end)) == StepView::Done((), end));
            assert(op(replies.take(end)) is Done);
            assert(end == replies.len());
            lemma_both_back(undo, worlds[mid], worlds[next], worlds.last());
        }
    }
}

proof fn lemma_both_back(undo: UndoView, from: World, between: World, to: World)
    requires
        entries_back(from, between, undo.index, 0),
        files_back(between, to, undo.worktree, 0),
    ensures
        all_back(undo, from, to),
{
    assert forall|path: Seq<u8>| #[trigger] to.entry(path) == between.entry(path) by {}
    assert forall|path: Seq<u8>| #[trigger] from.file(path) == between.file(path) by {}
    assert forall|path: Seq<u8>| !is_entry_of(undo.index, 0, path) implies #[trigger] to.entry(
        path,
    ) == from.entry(path) by {
        assert(between.entry(path) == from.entry(path));
    }
    assert forall|j: int| 0 <= j < undo.index.len() implies to.entry(
        (#[trigger] undo.index[j]).path,
    ) == undo.index[j].before by {
        assert(between.entry(undo.index[j].path) == undo.index[j].before);
    }
}

/// Undoing an action reverses it, or refuses. Where git and the file system do as they are told,
/// an undo that ended was done if and only if the index entries and files of the action were,
/// byte for byte and in what they are, as the action had left them; then they are as they were
/// before the action, and everything else is untouched. Else it says that they are stale, and
/// nothing at all has changed.
pub proof fn law_undo_reverses_or_refuses(
    undo: UndoView,
    before: World,
    after: World,
    replies: Seq<ReplyView>,
    worlds: Seq<World>,
)
    requires
        is_valid(undo),
        is_recorded(undo, before, after),
        tells_apart(after.id),
        ran(|r: Seq<ReplyView>| undo_step(undo, r), replies, worlds),
        grew(after, worlds[0]),
        !(undo_step(undo, replies) is Call),
    ensures
        undo_step(undo, replies) is Done <==> agree_on(undo, worlds[0], after),
        undo_step(undo, replies) is Done ==> agree_on(undo, worlds.last(), before)
            && agree_elsewhere(undo, worlds.last(), worlds[0]),
        !(undo_step(undo, replies) is Done) ==> (undo_step(undo, replies) matches StepView::Failed(
            error,
        ) && error is Stale) && worlds.last() == worlds[0],
{
    let now = worlds[0];
    lemma_left_is_same(undo, before, after, now);
    lemma_undo_checked(undo, replies, worlds);
    if let StepView::Done(_, mid) = undo_checked(undo, replies) {
        assert forall|j: int| 0 <= j < undo.worktree.len() implies ((
        #[trigger] undo.worktree[j]).before matches Some(saved) ==> now.objects.contains_key(
            saved.oid,
        )) by {
            if let Some((bytes, _)) = before.file(undo.worktree[j].path) {
                assert(after.objects.contains_key((after.id)(bytes)));
            }
        }
        lemma_undo_put_back(undo, replies, worlds, mid);
        let last = worlds.last();
        assert forall|j: int| 0 <= j < undo.worktree.len() implies last.file(
            (#[trigger] undo.worktree[j]).path,
        ) == before.file(undo.worktree[j].path) by {
            if let Some((bytes, _)) = before.file(undo.worktree[j].path) {
                assert(after.objects.contains_key((after.id)(bytes)));
            }
        }
        assert forall|j: int| 0 <= j < undo.index.len() implies last.entry(
            (#[trigger] undo.index[j]).path,
        ) == before.entry(undo.index[j].path) by {}
    }
}

/// Checks that came to an end settle.
proof fn lemma_checks_settle(undo: UndoView, replies: Seq<ReplyView>)
    ensures
        undo_checked(undo, replies) matches StepView::Done(_, end) ==> 0 <= end <= replies.len()
            && settles(|r: Seq<ReplyView>| undo_checked(undo, r), replies, (), end),
{
    if let StepView::Done(_, end) = undo_checked(undo, replies) {
        let part = |r: Seq<ReplyView>| undo_checked(undo, r);
        let at = index_unchanged(replies, 0, undo.index, 0)->Done_1;
        lemma_index_check_settles(replies, 0, undo.index, 0, replies.len() as int);
        lemma_worktree_check_settles(replies, at, undo.worktree, 0, replies.len() as int);
        assert forall|n: int| end <= n <= replies.len() implies part(#[trigger] replies.take(n))
            == StepView::Done((), end) by {
            lemma_index_check_settles(replies, 0, undo.index, 0, n);
            lemma_worktree_check_settles(replies, at, undo.worktree, 0, n);
        }
    }
}

proof fn lemma_index_check_settles(
    replies: Seq<ReplyView>,
    at: int,
    states: Seq<IndexStateView>,
    k: int,
    n: int,
)
    requires
        0 <= at <= replies.len(),
        0 <= k,
        n <= replies.len(),
    ensures
        index_unchanged(replies, at, states, k) matches StepView::Done(_, end) ==> at <= end
            <= replies.len() && (end <= n ==> index_unchanged(replies.take(n), at, states, k)
            == StepView::Done((), end)),
    decreases states.len() - k,
{
    if k < states.len() && at < replies.len() {
        lemma_index_check_settles(replies, at + 1, states, k + 1, n);
        if at < n {
            assert(replies.take(n)[at] == replies[at]);
        }
    }
}

proof fn lemma_worktree_check_settles(
    replies: Seq<ReplyView>,
    at: int,
    states: Seq<WorktreeStateView>,
    k: int,
    n: int,
)
    requires
        0 <= at <= replies.len(),
        0 <= k,
        n <= replies.len(),
    ensures
        worktree_unchanged(replies, at, states, k) matches StepView::Done(_, end) ==> at <= end
            <= replies.len() && (end <= n ==> worktree_unchanged(replies.take(n), at, states, k)
            == StepView::Done((), end)),
    decreases states.len() - k,
{
    if k < states.len() {
        if let StepView::Done(_, next) = raw_hash_step(replies, at, states[k].path) {
            lemma_worktree_check_settles(replies, next, states, k + 1, n);
            if next <= n {
                assert(replies.take(n)[at] == replies[at]);
                if at + 1 < next {
                    assert(replies.take(n)[at + 1] == replies[at + 1]);
                }
                assert(raw_hash_step(replies.take(n), at, states[k].path) == raw_hash_step(
                    replies,
                    at,
                    states[k].path,
                ));
            }
        }
    }
}

/// Whether an undo asked for a call after `at` replies, and the next reply says that it was
/// done.
pub open spec fn was_made(undo: UndoView, replies: Seq<ReplyView>, at: int, call: CallView) -> bool {
    &&& 0 <= at < replies.len()
    &&& undo_step(undo, replies.take(at)) == StepView::<()>::Call(call)
    &&& (replies[at] matches ReplyView::Git(Ok(_))) || (replies[at] matches ReplyView::Done(
        Ok(_),
    ))
}

/// Whether an undo wrote an index entry.
pub open spec fn entry_was_put_back(
    undo: UndoView,
    replies: Seq<ReplyView>,
    state: IndexStateView,
) -> bool {
    exists|at: int| #[trigger] was_made(undo, replies, at, entry_write(state))
}

/// Whether an undo wrote a file, as it was and with what git printed for it, by the reply before
/// `at`.
pub open spec fn file_was_written(
    undo: UndoView,
    replies: Seq<ReplyView>,
    at: int,
    path: Seq<u8>,
    saved: SavedFileView,
) -> bool {
    &&& was_made(undo, replies, at - 1, blob_call(saved.oid))
    &&& replies[at - 1] matches ReplyView::Git(Ok(bytes))
    &&& was_made(undo, replies, at, CallView::Write { path, kind: saved.kind, bytes })
}

/// Whether an undo found no file at a path, by reply `at`, or took it away after that.
pub open spec fn file_was_cleared(
    undo: UndoView,
    replies: Seq<ReplyView>,
    at: int,
    path: Seq<u8>,
) -> bool {
    &&& 0 <= at < replies.len()
    &&& undo_step(undo, replies.take(at)) == StepView::<()>::Call(CallView::ReadKind { path })
    &&& replies[at] == ReplyView::Kind(Ok(None)) || was_made(
        undo,
        replies,
        at + 1,
        CallView::Remove { path },
    )
}

/// Whether an undo wrote a file back, or left none where there was none.
pub open spec fn file_was_put_back(
    undo: UndoView,
    replies: Seq<ReplyView>,
    state: WorktreeStateView,
) -> bool {
    match state.before {
        Some(saved) => exists|at: int| #[trigger] file_was_written(
            undo,
            replies,
            at,
            state.path,
            saved,
        ),
        None => exists|at: int| #[trigger] file_was_cleared(undo, replies, at, state.path),
    }
}

proof fn lemma_entries_put_back(
    undo: UndoView,
    replies: Seq<ReplyView>,
    at: int,
    k: int,
    j: int,
)
    requires
        0 <= at <= replies.len(),
        0 <= k,
        index_restored(replies, at, undo.index, k) is Done,
        stands_by(
            |r: Seq<ReplyView>| undo_step(undo, r),
            |r: Seq<ReplyView>| index_restored(r, at, undo.index, k),
            replies,
            at,
        ),
    ensures
        at <= index_restored(replies, at, undo.index, k)->Done_1 <= replies.len(),
        settles(
            |r: Seq<ReplyView>| index_restored(r, at, undo.index, k),
            replies,
            (),
            index_restored(replies, at, undo.index, k)->Done_1,
        ),
        k <= j < undo.index.len() ==> entry_was_put_back(undo, replies, undo.index[j]),
    decreases undo.index.len() - k,
{
    let op = |r: Seq<ReplyView>| undo_step(undo, r);
    let part = |r: Seq<ReplyView>| index_restored(r, at, undo.index, k);
    if k < undo.index.len() {
        let call = entry_write(undo.index[k]);
        assert(replies.take(at).len() == at);
        assert(part(replies.take(at)) == StepView::<()>::Call(call));
        assert(op(replies.take(at)) == StepView::<()>::Call(call));
        assert(was_made(undo, replies, at, call));
        let rest = |r: Seq<ReplyView>| index_restored(r, at + 1, undo.index, k + 1);
        assert forall|n: int| at + 1 <= n <= replies.len() implies part(#[trigger] replies.take(n))
            == rest(replies.take(n)) by {
            assert(replies.take(n)[at] == replies[at]);
        }
        assert(stands_by(op, rest, replies, at + 1));
        lemma_entries_put_back(undo, replies, at + 1, k + 1, j);
    }
}

proof fn lemma_one_file_put_back(
    undo: UndoView,
    replies: Seq<ReplyView>,
    at: int,
    state: WorktreeStateView,
)
    requires
        0 <= at <= replies.len(),
        restored_step(replies, at, state.path, state.before) is Done,
        stands_by(
            |r: Seq<ReplyView>| undo_step(undo, r),
            |r: Seq<ReplyView>| restored_step(r, at, state.path, state.before),
            replies,
            at,
        ),
    ensures
        at <= restored_step(replies, at, state.path, state.before)->Done_1 <= replies.len(),
        settles(
            |r: Seq<ReplyView>| restored_step(r, at, state.path, state.before),
            replies,
            (),
            restored_step(replies, at, state.path, state.before)->Done_1,
        ),
        file_was_put_back(undo, replies, state),
{
    let path = state.path;
    let op = |r: Seq<ReplyView>| undo_step(undo, r);
    let part = |r: Seq<ReplyView>| restored_step(r, at, path, state.before);
    let first = CallView::ReadKind { path };
    assert(replies.take(at).len() == at);
    assert(part(replies.take(at)) == StepView::<()>::Call(first));
    assert(op(replies.take(at)) == StepView::<()>::Call(first));
    let clear = cleared_step(replies, at, path)->Done_1;
    assert(clear == at + 1 || clear == at + 2);
    assert forall|n: int| at < n <= replies.len() implies (#[trigger] replies.take(n))[at]
        == replies[at] by {}
    if clear == at + 2 {
        let second = CallView::Remove { path };
        assert(replies.take(at + 1).len() == at + 1);
        assert(part(replies.take(at + 1)) == StepView::<()>::Call(second));
        assert(op(replies.take(at + 1)) == StepView::<()>::Call(second));
        assert(was_made(undo, replies, at + 1, second));
    }
    assert(file_was_cleared(undo, replies, at, path));
    assert forall|n: int| clear <= n <= replies.len() implies cleared_step(
        #[trigger] replies.take(n),
        at,
        path,
    ) == StepView::Done((), clear) by {
        if clear == at + 2 {
            assert(replies.take(n)[at + 1] == replies[at + 1]);
        }
    }
    if let Some(saved) = state.before {
        let third = blob_call(saved.oid);
        let bytes = calls::git_out(replies, clear, third)->Done_0;
        let last = CallView::Write { path, kind: saved.kind, bytes };
        assert(replies.take(clear).len() == clear);
        assert(part(replies.take(clear)) == StepView::<()>::Call(third));
        assert(op(replies.take(clear)) == StepView::<()>::Call(third));
        assert(was_made(undo, replies, clear, third));
        assert(replies.take(clear + 1).len() == clear + 1);
        assert(replies.take(clear + 1)[clear] == replies[clear]);
        assert(part(replies.take(clear + 1)) == StepView::<()>::Call(last));
        assert(op(replies.take(clear + 1)) == StepView::<()>::Call(last));
        assert(was_made(undo, replies, clear + 1, last));
        assert(file_was_written(undo, replies, clear + 1, path, saved));
        assert forall|n: int| clear + 2 <= n <= replies.len() implies part(
            #[trigger] replies.take(n),
        ) == StepView::Done((), clear + 2) by {
            assert(replies.take(n)[clear] == replies[clear]);
            assert(replies.take(n)[clear + 1] == replies[clear + 1]);
        }
    }
}

proof fn lemma_files_put_back(
    undo: UndoView,
    replies: Seq<ReplyView>,
    at: int,
    k: int,
    j: int,
)
    requires
        0 <= at <= replies.len(),
        0 <= k <= j < undo.worktree.len(),
        worktree_restored(replies, at, undo.worktree, k) is Done,
        stands_by(
            |r: Seq<ReplyView>| undo_step(undo, r),
            |r: Seq<ReplyView>| worktree_restored(r, at, undo.worktree, k),
            replies,
            at,
        ),
    ensures
        file_was_put_back(undo, replies, undo.worktree[j]),
    decreases undo.worktree.len() - k,
{
    let op = |r: Seq<ReplyView>| undo_step(undo, r);
    let part = |r: Seq<ReplyView>| worktree_restored(r, at, undo.worktree, k);
    let state = undo.worktree[k];
    let one = |r: Seq<ReplyView>| restored_step(r, at, state.path, state.before);
    assert forall|n: int| at <= n <= replies.len() implies {
        let told = #[trigger] replies.take(n);
        &&& one(told) matches StepView::Call(call) ==> op(told) == StepView::<()>::Call(call)
        &&& one(told) matches StepView::Failed(error) ==> op(told) == StepView::<()>::Failed(error)
    } by {
        let told = replies.take(n);
        assert(one(told) is Call ==> part(told) == one(told));
        assert(one(told) is Failed ==> part(told) == one(told));
    }
    assert(stands_by(op, one, replies, at));
    lemma_one_file_put_back(undo, replies, at, state);
    if k < j {
        let next = restored_step(replies, at, state.path, state.before)->Done_1;
        let rest = |r: Seq<ReplyView>| worktree_restored(r, next, undo.worktree, k + 1);
        assert forall|n: int| next <= n <= replies.len() implies part(#[trigger] replies.take(n))
            == rest(replies.take(n)) by {
            assert(one(replies.take(n)) == StepView::Done((), next));
        }
        assert(stands_by(op, rest, replies, next));
        lemma_files_put_back(undo, replies, next, k + 1, j);
    }
}

/// An undo that is done has put everything back: it asked for every index entry to be written
/// or taken out, and for every file to be written as it was saved or to be gone, and each of
/// these calls was done.
pub proof fn law_undo_puts_everything_back(undo: UndoView, replies: Seq<ReplyView>)
    requires
        undo_step(undo, replies) is Done,
    ensures
        forall|j: int|
            0 <= j < undo.index.len() ==> entry_was_put_back(
                undo,
                replies,
                #[trigger] undo.index[j],
            ),
        forall|j: int|
            0 <= j < undo.worktree.len() ==> file_was_put_back(
                undo,
                replies,
                #[trigger] undo.worktree[j],
            ),
{
    let op = |r: Seq<ReplyView>| undo_step(undo, r);
    lemma_checks_settle(undo, replies);
    let mid = undo_checked(undo, replies)->Done_1;
    let checked = |r: Seq<ReplyView>| undo_checked(undo, r);
    assert forall|n: int| mid <= n <= replies.len() implies undo_checked(
        undo,
        #[trigger] replies.take(n),
    ) == StepView::Done((), mid) by {
        assert(checked(replies.take(n)) == StepView::Done((), mid));
    }
    let three = |r: Seq<ReplyView>| index_restored(r, mid, undo.index, 0);
    assert(stands_by(op, three, replies, mid));
    assert forall|j: int| 0 <= j < undo.index.len() implies entry_was_put_back(
        undo,
        replies,
        #[trigger] undo.index[j],
    ) by {
        lemma_entries_put_back(undo, replies, mid, 0, j);
    }
    lemma_entries_put_back(undo, replies, mid, 0, 0);
    let next = index_restored(replies, mid, undo.index, 0)->Done_1;
    assert forall|n: int| next <= n <= replies.len() implies index_restored(
        #[trigger] replies.take(n),
        mid,
        undo.index,
        0,
    ) == StepView::Done((), next) by {
        assert(three(replies.take(n)) == StepView::Done((), next));
    }
    let four = |r: Seq<ReplyView>| worktree_restored(r, next, undo.worktree, 0);
    assert(stands_by(op, four, replies, next));
    assert forall|j: int| 0 <= j < undo.worktree.len() implies file_was_put_back(
        undo,
        replies,
        #[trigger] undo.worktree[j],
    ) by {
        lemma_files_put_back(undo, replies, next, 0, j);
    }
}

/// How many replies an undo needs at most.
pub open spec fn longest(undo: UndoView) -> nat {
    2 * undo.index.len() + 6 * undo.worktree.len()
}

proof fn lemma_index_check_ends(
    replies: Seq<ReplyView>,
    at: int,
    states: Seq<IndexStateView>,
    k: int,
)
    requires
        0 <= k <= states.len(),
        at + states.len() - k <= replies.len(),
    ensures
        match index_unchanged(replies, at, states, k) {
            StepView::Call(_) => false,
            StepView::Done(_, end) => end == at + states.len() - k,
            StepView::Failed(_) => true,
        },
    decreases states.len() - k,
{
    if k < states.len() {
        lemma_index_check_ends(replies, at + 1, states, k + 1);
    }
}

proof fn lemma_worktree_check_ends(
    replies: Seq<ReplyView>,
    at: int,
    states: Seq<WorktreeStateView>,
    k: int,
)
    requires
        0 <= k <= states.len(),
        at + 2 * (states.len() - k) <= replies.len(),
    ensures
        match worktree_unchanged(replies, at, states, k) {
            StepView::Call(_) => false,
            StepView::Done(_, end) => end <= at + 2 * (states.len() - k),
            StepView::Failed(_) => true,
        },
    decreases states.len() - k,
{
    if k < states.len() {
        if let StepView::Done(_, next) = raw_hash_step(replies, at, states[k].path) {
            lemma_worktree_check_ends(replies, next, states, k + 1);
        }
    }
}

proof fn lemma_index_restore_ends(
    replies: Seq<ReplyView>,
    at: int,
    states: Seq<IndexStateView>,
    k: int,
)
    requires
        0 <= k <= states.len(),
        at + states.len() - k <= replies.len(),
    ensures
        match index_restored(replies, at, states, k) {
            StepView::Call(_) => false,
            StepView::Done(_, end) => end == at + states.len() - k,
            StepView::Failed(_) => true,
        },
    decreases states.len() - k,
{
    if k < states.len() {
        lemma_index_restore_ends(replies, at + 1, states, k + 1);
    }
}

proof fn lemma_worktree_restore_ends(
    replies: Seq<ReplyView>,
    at: int,
    states: Seq<WorktreeStateView>,
    k: int,
)
    requires
        0 <= k <= states.len(),
        at + 4 * (states.len() - k) <= replies.len(),
    ensures
        !(worktree_restored(replies, at, states, k) is Call),
    decreases states.len() - k,
{
    if k < states.len() {
        if let StepView::Done(_, next) = restored_step(
            replies,
            at,
            states[k].path,
            states[k].before,
        ) {
            assert(next <= at + 4);
            lemma_worktree_restore_ends(replies, next, states, k + 1);
        }
    }
}

/// An undo ends: after as many replies as it can need, it makes no further call.
pub proof fn law_undo_ends(undo: UndoView, replies: Seq<ReplyView>)
    requires
        replies.len() >= longest(undo),
    ensures
        !(undo_step(undo, replies) is Call),
{
    lemma_index_check_ends(replies, 0, undo.index, 0);
    if let StepView::Done(_, at) = index_unchanged(replies, 0, undo.index, 0) {
        lemma_worktree_check_ends(replies, at, undo.worktree, 0);
        if let StepView::Done(_, mid) = worktree_unchanged(replies, at, undo.worktree, 0) {
            lemma_index_restore_ends(replies, mid, undo.index, 0);
            if let StepView::Done(_, next) = index_restored(replies, mid, undo.index, 0) {
                lemma_worktree_restore_ends(replies, next, undo.worktree, 0);
            }
        }
    }
}

// ---------------------------------------------------------------------------
// Recording.

/// Git keeps its objects throughout a run.
proof fn lemma_grew<V>(
    op: spec_fn(Seq<ReplyView>) -> StepView<V>,
    replies: Seq<ReplyView>,
    worlds: Seq<World>,
    i: int,
    j: int,
)
    requires
        ran(op, replies, worlds),
        0 <= i <= j <= replies.len(),
    ensures
        grew(worlds[i], worlds[j]),
    decreases j - i,
{
    if i < j {
        lemma_grew(op, replies, worlds, i, j - 1);
        assert(op(replies.take(j - 1)) is Call);
        assert(grew(worlds[j - 1], worlds[j]));
    }
}

/// The index entries of paths are read.
proof fn lemma_snapshot<V>(
    op: spec_fn(Seq<ReplyView>) -> StepView<V>,
    replies: Seq<ReplyView>,
    worlds: Seq<World>,
    at: int,
    paths: Seq<Seq<u8>>,
    found: Seq<Option<IndexEntryView>>,
)
    requires
        ran(op, replies, worlds),
        0 <= at <= replies.len(),
        found.len() <= paths.len(),
        forall|i: int| 0 <= i < found.len() ==> #[trigger] found[i] == worlds[at].entry(paths[i]),
        stands_by(
            op,
            |r: Seq<ReplyView>| ops::snapshot_from(r, at, paths, found),
            replies,
            at,
        ),
    ensures
        match ops::snapshot_from(replies, at, paths, found) {
            StepView::Call(_) => true,
            StepView::Failed(_) => false,
            StepView::Done(all, end) => {
                &&& at <= end <= replies.len()
                &&& worlds[end] == worlds[at]
                &&& all.len() == paths.len()
                &&& forall|i: int|
                    0 <= i < all.len() ==> #[trigger] all[i] == worlds[at].entry(paths[i])
                &&& settles(
                    |r: Seq<ReplyView>| ops::snapshot_from(r, at, paths, found),
                    replies,
                    all,
                    end,
                )
            },
        },
    decreases paths.len() - found.len(),
{
    let part = |r: Seq<ReplyView>| ops::snapshot_from(r, at, paths, found);
    if found.len() < paths.len() && at < replies.len() {
        let path = paths[found.len() as int];
        assert(replies.take(at).len() == at);
        assert(part(replies.take(at)) == StepView::<Seq<Option<IndexEntryView>>>::Call(
            entry_call(path),
        ));
        lemma_entry_read(op, part, replies, worlds, at, path);
        let more = found.push(worlds[at].entry(path));
        let rest = |r: Seq<ReplyView>| ops::snapshot_from(r, at + 1, paths, more);
        assert forall|n: int| at + 1 <= n <= replies.len() implies part(#[trigger] replies.take(n))
            == rest(replies.take(n)) by {}
        assert(stands_by(op, rest, replies, at + 1));
        lemma_snapshot(op, replies, worlds, at + 1, paths, more);
    }
}

/// An action on the index: the entries of paths are read, the index is written, and they are
/// read again.
spec fn index_action(
    paths: Seq<Seq<u8>>,
    write: spec_fn(Seq<ReplyView>, int) -> StepView<Seq<u8>>,
    description: Seq<char>,
    replies: Seq<ReplyView>,
) -> StepView<UndoView> {
    match ops::snapshot_step(replies, 0, paths) {
        StepView::Call(call) => StepView::Call(call),
        StepView::Failed(error) => StepView::Failed(error),
        StepView::Done(before, at) => match write(replies, at) {
            StepView::Call(call) => StepView::Call(call),
            StepView::Failed(error) => StepView::Failed(error),
            StepView::Done(_, at) => match ops::snapshot_step(replies, at, paths) {
                StepView::Call(call) => StepView::Call(call),
                StepView::Failed(error) => StepView::Failed(error),
                StepView::Done(after, at) => StepView::Done(
                    UndoView {
                        description,
                        index: ops::zipped(paths, before, after),
                        worktree: Seq::empty(),
                    },
                    at,
                ),
            },
        },
    }
}

/// Whether a write goes on from its start, and settles.
spec fn write_settles(
    write: spec_fn(Seq<ReplyView>, int) -> StepView<Seq<u8>>,
    replies: Seq<ReplyView>,
    at: int,
) -> bool {
    write(replies, at) matches StepView::Done(value, end) ==> at <= end <= replies.len()
        && settles(|r: Seq<ReplyView>| write(r, at), replies, value, end)
}

/// Whether paths differ.
pub open spec fn are_distinct(paths: Seq<Seq<u8>>) -> bool {
    forall|i: int, j: int|
        #![trigger paths[i], paths[j]]
        0 <= i < j < paths.len() ==> paths[i] != paths[j]
}

/// Whether every entry of a state's index is one that git can be given.
pub open spec fn has_plain_entries(world: World) -> bool {
    forall|path: Seq<u8>| is_plain(#[trigger] world.entry(path))
}

proof fn lemma_index_action_recorded(
    paths: Seq<Seq<u8>>,
    write: spec_fn(Seq<ReplyView>, int) -> StepView<Seq<u8>>,
    description: Seq<char>,
    replies: Seq<ReplyView>,
    worlds: Seq<World>,
    record: UndoView,
)
    requires
        ran(
            |r: Seq<ReplyView>| index_action(paths, write, description, r),
            replies,
            worlds,
        ),
        forall|at: int| 0 <= at <= replies.len() ==> #[trigger] write_settles(write, replies, at),
        index_action(paths, write, description, replies) matches StepView::Done(done, _) && done
            == record,
        are_distinct(paths),
        has_plain_entries(worlds[0]),
    ensures
        is_valid(record),
        is_recorded(record, worlds[0], worlds.last()),
{
    let op = |r: Seq<ReplyView>| index_action(paths, write, description, r);
    let none = Seq::<Option<IndexEntryView>>::empty();
    let one = |r: Seq<ReplyView>| ops::snapshot_from(r, 0, paths, none);
    assert(stands_by(op, one, replies, 0));
    lemma_snapshot(op, replies, worlds, 0, paths, none);
    let (before, at) = (ops::snapshot_step(replies, 0, paths)->Done_0, ops::snapshot_step(replies, 0, paths)->Done_1);
    assert(write_settles(write, replies, at));
    let (value, mid) = (write(replies, at)->Done_0, write(replies, at)->Done_1);
    let two = |r: Seq<ReplyView>| write(r, at);
    assert forall|n: int| mid <= n <= replies.len() implies ops::snapshot_step(
        #[trigger] replies.take(n),
        0,
        paths,
    ) == StepView::Done(before, at) && write(replies.take(n), at) == StepView::Done(
        value,
        mid,
    ) by {
        assert(one(replies.take(n)) == StepView::Done(before, at));
        assert(two(replies.take(n)) == StepView::Done(value, mid));
    }
    let three = |r: Seq<ReplyView>| ops::snapshot_from(r, mid, paths, none);
    assert(stands_by(op, three, replies, mid));
    lemma_snapshot(op, replies, worlds, mid, paths, none);
    let (after, end) = (ops::snapshot_step(replies, mid, paths)->Done_0, ops::snapshot_step(replies, mid, paths)->Done_1);
    assert(three(replies.take(end)) == StepView::Done(after, end));
    assert(op(replies.take(end)) is Done);
    assert(end == replies.len());
    lemma_grew(op, replies, worlds, 0, replies.len() as int);
    assert forall|j: int| 0 <= j < record.index.len() implies {
        let state = #[trigger] record.index[j];
        state.before == worlds[0].entry(state.path) && state.after == worlds.last().entry(
            state.path,
        ) && state.path == paths[j] && is_plain(state.before)
    } by {
        assert(before[j] == worlds[0].entry(paths[j]));
        assert(after[j] == worlds[mid].entry(paths[j]));
    }
}

proof fn lemma_stage_write_settles(
    replies: Seq<ReplyView>,
    at: int,
    change: FileChange,
    diff: Option<FileDiff>,
    selection: SelectionView,
)
    requires
        0 <= at <= replies.len(),
    ensures
        write_settles(
            |r: Seq<ReplyView>, from: int| ops::stage_write(r, from, change, diff, selection),
            replies,
            at,
        ),
{
    let write = |r: Seq<ReplyView>, from: int|
        ops::stage_write(r, from, change, diff, selection);
    if let StepView::Done(value, end) = write(replies, at) {
        assert forall|n: int| end <= n <= replies.len() implies write(
            #[trigger] replies.take(n),
            at,
        ) == StepView::Done(value, end) by {
            assert(replies.take(n)[at] == replies[at]);
            if at + 1 < n {
                assert(replies.take(n)[at + 1] == replies[at + 1]);
            }
        }
    }
}

proof fn lemma_unstage_write_settles(
    replies: Seq<ReplyView>,
    at: int,
    change: FileChange,
    diff: Option<FileDiff>,
    selection: SelectionView,
)
    requires
        0 <= at <= replies.len(),
    ensures
        write_settles(
            |r: Seq<ReplyView>, from: int| ops::unstage_write(r, from, change, diff, selection),
            replies,
            at,
        ),
{
    let write = |r: Seq<ReplyView>, from: int|
        ops::unstage_write(r, from, change, diff, selection);
    if let StepView::Done(value, end) = write(replies, at) {
        assert forall|n: int| end <= n <= replies.len() implies write(
            #[trigger] replies.take(n),
            at,
        ) == StepView::Done(value, end) by {
            assert(replies.take(n)[at] == replies[at]);
            if at + 1 < n {
                assert(replies.take(n)[at + 1] == replies[at + 1]);
            }
        }
    }
}

/// What staging did is recorded: its undo holds the index entries of the change as they were
/// and as they are now, so that [`law_undo_reverses_or_refuses`] holds of it.
pub proof fn law_staging_is_recorded(
    change: FileChange,
    diff: Option<FileDiff>,
    selection: SelectionView,
    replies: Seq<ReplyView>,
    worlds: Seq<World>,
    record: UndoView,
)
    requires
        ran(|r: Seq<ReplyView>| ops::stage_step(change, diff, selection, r), replies, worlds),
        ops::stage_step(change, diff, selection, replies) matches StepView::Done(done, _) && done
            == record,
        are_distinct(ops::paths_of(change)),
        has_plain_entries(worlds[0]),
    ensures
        is_valid(record),
        is_recorded(record, worlds[0], worlds.last()),
{
    let op = |r: Seq<ReplyView>| ops::stage_step(change, diff, selection, r);
    let write = |r: Seq<ReplyView>, at: int| ops::stage_write(r, at, change, diff, selection);
    let (paths, description) = (ops::paths_of(change), ops::described("stage ", change.path@));
    let action = |r: Seq<ReplyView>| index_action(paths, write, description, r);
    assert forall|r: Seq<ReplyView>| #[trigger] op(r) == action(r) by {}
    assert(ran(action, replies, worlds));
    assert forall|at: int| 0 <= at <= replies.len() implies #[trigger] write_settles(
        write,
        replies,
        at,
    ) by {
        lemma_stage_write_settles(replies, at, change, diff, selection);
    }
    lemma_index_action_recorded(paths, write, description, replies, worlds, record);
}

/// What unstaging did is recorded: its undo holds the index entries of the change as they were
/// and as they are now, so that [`law_undo_reverses_or_refuses`] holds of it.
pub proof fn law_unstaging_is_recorded(
    change: FileChange,
    diff: Option<FileDiff>,
    selection: SelectionView,
    replies: Seq<ReplyView>,
    worlds: Seq<World>,
    record: UndoView,
)
    requires
        ran(|r: Seq<ReplyView>| ops::unstage_step(change, diff, selection, r), replies, worlds),
        ops::unstage_step(change, diff, selection, replies) matches StepView::Done(done, _)
            && done == record,
        are_distinct(ops::paths_of(change)),
        has_plain_entries(worlds[0]),
    ensures
        is_valid(record),
        is_recorded(record, worlds[0], worlds.last()),
{
    let op = |r: Seq<ReplyView>| ops::unstage_step(change, diff, selection, r);
    let write = |r: Seq<ReplyView>, at: int| ops::unstage_write(r, at, change, diff, selection);
    let (paths, description) = (ops::paths_of(change), ops::described("unstage ", change.path@));
    let action = |r: Seq<ReplyView>| index_action(paths, write, description, r);
    assert forall|r: Seq<ReplyView>| #[trigger] op(r) == action(r) by {}
    assert(ran(action, replies, worlds));
    assert forall|at: int| 0 <= at <= replies.len() implies #[trigger] write_settles(
        write,
        replies,
        at,
    ) by {
        lemma_unstage_write_settles(replies, at, change, diff, selection);
    }
    lemma_index_action_recorded(paths, write, description, replies, worlds, record);
}

/// Reading a file or asking git for a hash leaves the files as they are.
proof fn lemma_reads<V, W>(
    op: spec_fn(Seq<ReplyView>) -> StepView<V>,
    part: spec_fn(Seq<ReplyView>) -> StepView<W>,
    replies: Seq<ReplyView>,
    worlds: Seq<World>,
    from: int,
    at: int,
    call: CallView,
)
    requires
        ran(op, replies, worlds),
        stands_by(op, part, replies, from),
        0 <= from <= at < replies.len(),
        part(replies.take(at)) == StepView::<W>::Call(call),
        is_reading(call) || call is ReadRaw,
    ensures
        worlds[at + 1].files == worlds[at].files,
        worlds[at + 1].id == worlds[at].id,
        call matches CallView::ReadRaw { path } ==> replies[at] == ReplyView::Raw(
            Ok(worlds[at].file(path)),
        ),
{
    assert(op(replies.take(at)) == StepView::<V>::Call(call));
}

/// Comparing a file with what was reviewed leaves the files as they are.
proof fn lemma_compared<V>(
    op: spec_fn(Seq<ReplyView>) -> StepView<V>,
    replies: Seq<ReplyView>,
    worlds: Seq<World>,
    change: FileChange,
    diff: Option<FileDiff>,
    read: Option<Seq<char>>,
)
    requires
        ran(op, replies, worlds),
        stands_by(
            op,
            |r: Seq<ReplyView>| ops::unchanged_step(r, change, diff, read),
            replies,
            0,
        ),
    ensures
        ops::unchanged_step(replies, change, diff, read) matches StepView::Done(_, end) ==> {
            &&& 0 <= end <= replies.len()
            &&& worlds[end].files == worlds[0].files
            &&& worlds[end].id == worlds[0].id
            &&& settles(
                |r: Seq<ReplyView>| ops::unchanged_step(r, change, diff, read),
                replies,
                (),
                end,
            )
        },
{
    let part = |r: Seq<ReplyView>| ops::unchanged_step(r, change, diff, read);
    let path = change.path@;
    if ops::is_known(change, diff, read) && replies.len() > 0 {
        assert(replies.take(0).len() == 0);
        lemma_reads(op, part, replies, worlds, 0, 0, CallView::ReadRaw { path });
        let file = worlds[0].file(path);
        let clean = if file is Some {
            2
        } else {
            1int
        };
        if let Some((bytes, kind)) = file {
            if replies.len() > 1 {
                let call = if kind == FileKind::Symlink {
                    hash_call(bytes, false)
                } else {
                    ops::git_call(
                        seq![word("hash-object"), word("--path=") + path, word("--stdin")],
                        Some(bytes),
                    )
                };
                assert(replies.take(1).len() == 1 && replies.take(1)[0] == replies[0]);
                assert(part(replies.take(1)) == StepView::<()>::Call(call));
                lemma_reads(op, part, replies, worlds, 0, 1, call);
            }
        }
        if ops::unchanged_step(replies, change, diff, read) is Done {
            assert(clean <= replies.len());
            if !(change.new is Absent) && diff is Some && clean < replies.len() {
                let call = hash_call(diff->Some_0.new@, false);
                let told = replies.take(clean);
                assert(told.len() == clean && told[0] == replies[0]);
                if clean == 2 {
                    assert(told[1] == replies[1]);
                }
                assert(part(told) == StepView::<()>::Call(call));
                lemma_reads(op, part, replies, worlds, 0, clean, call);
            }
            let end = ops::unchanged_step(replies, change, diff, read)->Done_1;
            assert forall|n: int| end <= n <= replies.len() implies part(
                #[trigger] replies.take(n),
            ) == StepView::Done((), end) by {
                let told = replies.take(n);
                assert(told[0] == replies[0]);
                if n > 1 {
                    assert(told[1] == replies[1]);
                }
                if n > 2 {
                    assert(told[2] == replies[2]);
                }
            }
        }
    }
}

/// Keeping a blob reachable settles.
proof fn lemma_keep_settles(
    replies: Seq<ReplyView>,
    at: int,
    oid: Seq<char>,
    message: Seq<char>,
    limit: usize,
    n: int,
)
    requires
        0 <= at,
        ops::keep_step(replies, at, oid, message, limit) is Done,
        ops::keep_step(replies, at, oid, message, limit)->Done_1 <= n <= replies.len(),
    ensures
        at <= ops::keep_step(replies, at, oid, message, limit)->Done_1 <= replies.len(),
        ops::keep_step(replies.take(n), at, oid, message, limit) == ops::keep_step(
            replies,
            at,
            oid,
            message,
            limit,
        ),
{
    assert forall|i: int| 0 <= i < n implies replies.take(n)[i] == #[trigger] replies[i] by {}
    assert(ops::parent_step(replies, at + 1, limit) is Done);
    let next = ops::parent_step(replies, at + 1, limit)->Done_1;
    assert(at + 1 < next <= n);
    assert(ops::parent_step(replies.take(n), at + 1, limit) == ops::parent_step(
        replies,
        at + 1,
        limit,
    ));
}

/// A file is read and its bytes are written as an object.
proof fn lemma_file_saved<V>(
    op: spec_fn(Seq<ReplyView>) -> StepView<V>,
    replies: Seq<ReplyView>,
    worlds: Seq<World>,
    at: int,
    path: Seq<u8>,
)
    requires
        ran(op, replies, worlds),
        0 <= at <= replies.len(),
        stands_by(op, |r: Seq<ReplyView>| ops::save_step(r, at, path), replies, at),
    ensures
        ops::save_step(replies, at, path) matches StepView::Done(saved, end) ==> {
            &&& at < end <= replies.len()
            &&& saved == worlds[at].saved(path)
            &&& worlds[at].file(path) matches Some((bytes, _)) ==> worlds.last().keeps(bytes)
            &&& settles(|r: Seq<ReplyView>| ops::save_step(r, at, path), replies, saved, end)
        },
{
    let part = |r: Seq<ReplyView>| ops::save_step(r, at, path);
    if part(replies) is Done {
        assert(replies.take(at).len() == at);
        assert(at < replies.len());
        assert(part(replies.take(at)) == StepView::<Option<SavedFileView>>::Call(
            CallView::ReadRaw { path },
        ));
        lemma_answered(op, part, replies, worlds, at, CallView::ReadRaw { path });
        if let Some((bytes, kind)) = worlds[at].file(path) {
            let call = hash_call(bytes, true);
            let told = replies.take(at + 1);
            assert(told.len() == at + 1 && told[at] == replies[at]);
            assert(at + 1 < replies.len());
            assert(part(told) == StepView::<Option<SavedFileView>>::Call(call));
            assert(op(told) == StepView::<V>::Call(call));
            assert(answers(worlds[at + 1], call, replies[at + 1], worlds[at + 2]));
            lemma_grew(op, replies, worlds, at + 2, replies.len() as int);
            assert(worlds[at + 2].objects.contains_key((worlds[at + 2].id)(bytes)));
        }
        let (saved, end) = (part(replies)->Done_0, part(replies)->Done_1);
        assert forall|n: int| end <= n <= replies.len() implies part(#[trigger] replies.take(n))
            == StepView::Done(saved, end) by {
            assert(replies.take(n)[at] == replies[at]);
            if at + 1 < end {
                assert(replies.take(n)[at + 1] == replies[at + 1]);
            }
        }
    }
}

/// What a file holds is saved before a discard.
proof fn lemma_saved<V>(
    op: spec_fn(Seq<ReplyView>) -> StepView<V>,
    replies: Seq<ReplyView>,
    worlds: Seq<World>,
    at: int,
    change: FileChange,
)
    requires
        ran(op, replies, worlds),
        0 <= at <= replies.len(),
        stands_by(op, |r: Seq<ReplyView>| ops::saved_step(r, at, change), replies, at),
    ensures
        ops::saved_step(replies, at, change) matches StepView::Done(saved, end) ==> {
            &&& at < end <= replies.len()
            &&& saved == worlds[at].saved(change.path@)
            &&& worlds[at].file(change.path@) matches Some((bytes, _)) ==> worlds.last().keeps(
                bytes,
            )
            &&& settles(
                |r: Seq<ReplyView>| ops::saved_step(r, at, change),
                replies,
                saved,
                end,
            )
        },
{
    let part = |r: Seq<ReplyView>| ops::saved_step(r, at, change);
    let path = change.path@;
    let save = |r: Seq<ReplyView>| ops::save_step(r, at, path);
    assert(stands_by(op, save, replies, at)) by {
        assert forall|n: int| at <= n <= replies.len() implies {
            let told = #[trigger] replies.take(n);
            &&& save(told) matches StepView::Call(call) ==> op(told) == StepView::<V>::Call(call)
            &&& save(told) matches StepView::Failed(error) ==> op(told) == StepView::<V>::Failed(
                error,
            )
        } by {
            let told = replies.take(n);
            assert(save(told) is Call ==> part(told) is Call && part(told)->Call_0 == save(
                told,
            )->Call_0);
            assert(save(told) is Failed ==> part(told) is Failed && part(told)->Failed_0 == save(
                told,
            )->Failed_0);
        }
    }
    lemma_file_saved(op, replies, worlds, at, path);
    if part(replies) is Done {
        let (saved, mid) = (save(replies)->Done_0, save(replies)->Done_1);
        let end = part(replies)->Done_1;
        let message = ops::described("goro: discard ", path);
        if let Some(s) = saved {
            lemma_keep_settles(
                replies,
                mid,
                s.oid,
                message,
                ops::UNDO_HISTORY,
                replies.len() as int,
            );
        }
        assert forall|n: int| end <= n <= replies.len() implies part(#[trigger] replies.take(n))
            == StepView::Done(saved, end) by {
            assert(save(replies.take(n)) == StepView::Done(saved, mid));
            if let Some(s) = saved {
                lemma_keep_settles(replies, mid, s.oid, message, ops::UNDO_HISTORY, n);
            }
        }
    }
}

proof fn lemma_discard_write_settles(
    replies: Seq<ReplyView>,
    at: int,
    change: FileChange,
    diff: Option<FileDiff>,
    selection: SelectionView,
)
    requires
        0 <= at <= replies.len(),
    ensures
        ops::discard_write(replies, at, change, diff, selection) matches StepView::Done(_, end)
            ==> {
            &&& at <= end <= replies.len()
            &&& settles(
                |r: Seq<ReplyView>| ops::discard_write(r, at, change, diff, selection),
                replies,
                (),
                end,
            )
        },
{
    let part = |r: Seq<ReplyView>| ops::discard_write(r, at, change, diff, selection);
    if let StepView::Done(_, end) = part(replies) {
        assert forall|n: int| end <= n <= replies.len() implies part(#[trigger] replies.take(n))
            == StepView::Done((), end) by {
            assert(replies.take(n)[at] == replies[at]);
            if at + 1 < n {
                assert(replies.take(n)[at + 1] == replies[at + 1]);
            }
        }
    }
}

/// What a discard did is recorded: its undo holds what the file was and what it is now, and git
/// keeps what it held, so that [`law_undo_reverses_or_refuses`] holds of it.
#[verifier::spinoff_prover]
#[verifier::rlimit(30)]
pub proof fn law_discarding_is_recorded(
    change: FileChange,
    diff: Option<FileDiff>,
    read: Option<Seq<char>>,
    selection: SelectionView,
    replies: Seq<ReplyView>,
    worlds: Seq<World>,
    record: UndoView,
)
    requires
        ran(
            |r: Seq<ReplyView>| ops::discard_step(change, diff, read, selection, r),
            replies,
            worlds,
        ),
        ops::discard_step(change, diff, read, selection, replies) matches StepView::Done(done, _)
            && done == record,
    ensures
        is_valid(record),
        is_recorded(record, worlds[0], worlds.last()),
{
    let op = |r: Seq<ReplyView>| ops::discard_step(change, diff, read, selection, r);
    let path = change.path@;
    let one = |r: Seq<ReplyView>| ops::unchanged_step(r, change, diff, read);
    assert(stands_by(op, one, replies, 0));
    lemma_compared(op, replies, worlds, change, diff, read);
    let at = one(replies)->Done_1;
    assert forall|n: int| at <= n <= replies.len() implies ops::unchanged_step(
        #[trigger] replies.take(n),
        change,
        diff,
        read,
    ) == StepView::Done((), at) by {
        assert(one(replies.take(n)) == StepView::Done((), at));
    }
    let two = |r: Seq<ReplyView>| ops::saved_step(r, at, change);
    assert(stands_by(op, two, replies, at));
    lemma_saved(op, replies, worlds, at, change);
    let (saved, mid) = (two(replies)->Done_0, two(replies)->Done_1);
    assert forall|n: int| mid <= n <= replies.len() implies ops::saved_step(
        #[trigger] replies.take(n),
        at,
        change,
    ) == StepView::Done(saved, mid) by {
        assert(two(replies.take(n)) == StepView::Done(saved, mid));
    }
    lemma_discard_write_settles(replies, mid, change, diff, selection);
    let three = |r: Seq<ReplyView>| ops::discard_write(r, mid, change, diff, selection);
    let next = three(replies)->Done_1;
    assert forall|n: int| next <= n <= replies.len() implies ops::discard_write(
        #[trigger] replies.take(n),
        mid,
        change,
        diff,
        selection,
    ) == StepView::Done((), next) by {
        assert(three(replies.take(n)) == StepView::Done((), next));
    }
    let four = |r: Seq<ReplyView>| raw_hash_step(r, next, path);
    assert(stands_by(op, four, replies, next));
    lemma_file_read(op, four, replies, worlds, next, path);
    let end = four(replies)->Done_1;
    assert(four(replies.take(end)) is Done);
    assert(op(replies.take(end)) is Done);
    assert(end == replies.len());
    lemma_grew(op, replies, worlds, 0, replies.len() as int);
    assert(worlds[at].file(path) == worlds[0].file(path));
    assert(record.worktree[0].path == path);
}

// ---------------------------------------------------------------------------
// What whole files become.

/// The mode that git has for what a file is.
pub open spec fn mode_for(kind: FileKind) -> Seq<char> {
    match kind {
        FileKind::Regular => "100644"@,
        FileKind::Executable => "100755"@,
        FileKind::Symlink => "120000"@,
    }
}

/// Whether the file at a path is there and is what an index entry says: of its mode, and with the
/// bytes of its object.
pub open spec fn is_checked_out(world: World, path: Seq<u8>, entry: IndexEntryView) -> bool {
    &&& world.file(path) matches Some((bytes, kind))
    &&& entry.mode == mode_for(kind)
    &&& world.objects.contains_key(entry.oid) && world.objects[entry.oid] == bytes
}

/// A call that runs git with these words and no input.
pub open spec fn plain_git(args: Seq<Seq<u8>>) -> CallView {
    CallView::Git { args, stdin: None, internal: false }
}

/// `git restore --worktree -- <path>`
pub open spec fn restore_worktree(path: Seq<u8>) -> CallView {
    plain_git(seq![word("restore"), word("--worktree"), word("--"), path])
}

/// `git add -A -- <path>`
pub open spec fn add_all(path: Seq<u8>) -> CallView {
    plain_git(seq![word("add"), word("-A"), word("--"), path])
}

/// `git restore --staged -- <paths>`
pub open spec fn restore_staged(paths: Seq<Seq<u8>>) -> CallView {
    plain_git(seq![word("restore"), word("--staged"), word("--")] + paths)
}

/// `git rm -q --cached -- <paths>`
pub open spec fn remove_cached(paths: Seq<Seq<u8>>) -> CallView {
    plain_git(seq![word("rm"), word("-q"), word("--cached"), word("--")] + paths)
}

/// Whether the index is the same but for some paths, and the worktree is the same.
pub open spec fn only_index_changed(before: World, after: World, paths: Seq<Seq<u8>>) -> bool {
    &&& after.files == before.files
    &&& forall|path: Seq<u8>|
        !paths.contains(path) ==> #[trigger] after.entry(path) == before.entry(path)
}

/// Whether git does what its commands on whole files are for, where it says that it did, in a
/// repository that converts no files, with the last commit's entries in `head` if there is a
/// commit. `git restore --worktree` makes a file what its index entry says; `git add` makes the
/// index entry what the file is, or takes it out; `git restore --staged` makes index entries
/// what the last commit has, and `git rm --cached` takes them out.
pub open spec fn whole_files_follow(
    head: Option<Map<Seq<u8>, IndexEntryView>>,
    before: World,
    call: CallView,
    reply: ReplyView,
    after: World,
) -> bool {
    &&& forall|path: Seq<u8>|
        call == #[trigger] restore_worktree(path) && (reply matches ReplyView::Git(Ok(_))) ==> {
            &&& after.entries == before.entries
            &&& before.entry(path) matches Some(entry) && is_checked_out(after, path, entry)
            &&& forall|other: Seq<u8>|
                other != path ==> #[trigger] after.file(other) == before.file(other)
        }
    &&& forall|path: Seq<u8>|
        call == #[trigger] add_all(path) && (
        reply matches ReplyView::Git(Ok(_))) ==> {
            &&& only_index_changed(before, after, seq![path])
            &&& match after.entry(path) {
                Some(entry) => is_checked_out(after, path, entry),
                None => after.file(path) is None,
            }
        }
    &&& forall|paths: Seq<Seq<u8>>|
        call == #[trigger] restore_staged(paths) && (reply matches ReplyView::Git(Ok(_))) ==> {
            &&& only_index_changed(before, after, paths)
            &&& forall|i: int|
                0 <= i < paths.len() ==> after.entry(#[trigger] paths[i]) == committed(
                    head,
                    paths[i],
                )
        }
    &&& forall|paths: Seq<Seq<u8>>|
        call == #[trigger] remove_cached(paths) && (reply matches ReplyView::Git(Ok(_))) ==> {
            &&& only_index_changed(before, after, paths)
            &&& forall|i: int|
                0 <= i < paths.len() ==> after.entry(#[trigger] paths[i]) is None
        }
    &&& call == plain_git(seq![word("rev-parse"), word("-q"), word("--verify"), word("HEAD")])
        ==> after.entries == before.entries && after.files == before.files && (reply is Git
        && (reply->Git_0 is Ok <==> head is Some))
}

/// What the last commit has for a path.
pub open spec fn committed(
    head: Option<Map<Seq<u8>, IndexEntryView>>,
    path: Seq<u8>,
) -> Option<IndexEntryView> {
    match head {
        Some(entries) => if entries.contains_key(path) {
            Some(entries[path])
        } else {
            None
        },
        None => None,
    }
}

/// Whether git does so throughout a run.
pub open spec fn whole_files_followed<V>(
    op: spec_fn(Seq<ReplyView>) -> StepView<V>,
    head: Option<Map<Seq<u8>, IndexEntryView>>,
    replies: Seq<ReplyView>,
    worlds: Seq<World>,
) -> bool {
    forall|i: int|
        0 <= i < replies.len() ==> (op(#[trigger] replies.take(i)) matches StepView::Call(call)
            ==> whole_files_follow(head, worlds[i], call, replies[i], worlds[i + 1]))
}

/// Where an action on the index reads, writes and reads again: it writes from reply `part.0` on
/// and has done so by `part.1`.
proof fn lemma_index_action_parts(
    paths: Seq<Seq<u8>>,
    write: spec_fn(Seq<ReplyView>, int) -> StepView<Seq<u8>>,
    description: Seq<char>,
    replies: Seq<ReplyView>,
    worlds: Seq<World>,
) -> (part: (int, int))
    requires
        ran(
            |r: Seq<ReplyView>| index_action(paths, write, description, r),
            replies,
            worlds,
        ),
        forall|at: int| 0 <= at <= replies.len() ==> #[trigger] write_settles(write, replies, at),
        index_action(paths, write, description, replies) is Done,
    ensures
        0 <= part.0 <= part.1 <= replies.len(),
        worlds[part.0] == worlds[0],
        worlds[part.1] == worlds.last(),
        write(replies, part.0) matches StepView::Done(_, end) && end == part.1,
        forall|n: int|
            part.0 <= n <= replies.len() ==> (write(
                #[trigger] replies.take(n),
                part.0,
            ) matches StepView::Call(call) ==> index_action(
                paths,
                write,
                description,
                replies.take(n),
            ) == StepView::<UndoView>::Call(call)),
{
    let op = |r: Seq<ReplyView>| index_action(paths, write, description, r);
    let none = Seq::<Option<IndexEntryView>>::empty();
    let one = |r: Seq<ReplyView>| ops::snapshot_from(r, 0, paths, none);
    assert(stands_by(op, one, replies, 0));
    lemma_snapshot(op, replies, worlds, 0, paths, none);
    let before = ops::snapshot_step(replies, 0, paths)->Done_0;
    let at = ops::snapshot_step(replies, 0, paths)->Done_1;
    assert(write_settles(write, replies, at));
    let (value, mid) = (write(replies, at)->Done_0, write(replies, at)->Done_1);
    let two = |r: Seq<ReplyView>| write(r, at);
    assert forall|n: int| at <= n <= replies.len() implies ops::snapshot_step(
        #[trigger] replies.take(n),
        0,
        paths,
    ) == StepView::Done(before, at) by {
        assert(one(replies.take(n)) == StepView::Done(before, at));
    }
    assert forall|n: int| mid <= n <= replies.len() implies write(#[trigger] replies.take(n), at)
        == StepView::Done(value, mid) by {
        assert(two(replies.take(n)) == StepView::Done(value, mid));
    }
    let three = |r: Seq<ReplyView>| ops::snapshot_from(r, mid, paths, none);
    assert(stands_by(op, three, replies, mid));
    lemma_snapshot(op, replies, worlds, mid, paths, none);
    let (after, end) = (
        ops::snapshot_step(replies, mid, paths)->Done_0,
        ops::snapshot_step(replies, mid, paths)->Done_1,
    );
    assert(three(replies.take(end)) == StepView::Done(after, end));
    assert(op(replies.take(end)) is Done);
    assert(end == replies.len());
    (at, mid)
}

/// Staging all of a change leaves the index with what the file is: its bytes and its mode, or no
/// entry where there is no file. The worktree and all other entries stay as they were.
#[verifier::spinoff_prover]
#[verifier::rlimit(40)]
pub proof fn law_staging_a_file_makes_the_index_match(
    change: FileChange,
    diff: Option<FileDiff>,
    selection: SelectionView,
    head: Option<Map<Seq<u8>, IndexEntryView>>,
    replies: Seq<ReplyView>,
    worlds: Seq<World>,
)
    requires
        ran(|r: Seq<ReplyView>| ops::stage_step(change, diff, selection, r), replies, worlds),
        whole_files_followed(
            |r: Seq<ReplyView>| ops::stage_step(change, diff, selection, r),
            head,
            replies,
            worlds,
        ),
        is_whole(selection, diff),
        ops::stage_step(change, diff, selection, replies) is Done,
    ensures
        only_index_changed(worlds[0], worlds.last(), seq![change.path@]),
        match worlds.last().entry(change.path@) {
            Some(entry) => is_checked_out(worlds.last(), change.path@, entry),
            None => worlds.last().file(change.path@) is None,
        },
{
    let op = |r: Seq<ReplyView>| ops::stage_step(change, diff, selection, r);
    let write = |r: Seq<ReplyView>, at: int| ops::stage_write(r, at, change, diff, selection);
    let (paths, description) = (ops::paths_of(change), ops::described("stage ", change.path@));
    let action = |r: Seq<ReplyView>| index_action(paths, write, description, r);
    assert forall|r: Seq<ReplyView>| #[trigger] op(r) == action(r) by {}
    assert(ran(action, replies, worlds));
    assert forall|at: int| 0 <= at <= replies.len() implies #[trigger] write_settles(
        write,
        replies,
        at,
    ) by {
        lemma_stage_write_settles(replies, at, change, diff, selection);
    }
    let (at, mid) = lemma_index_action_parts(paths, write, description, replies, worlds);
    crate::actions::lemma_whole(selection, diff);
    assert(at < replies.len() && mid == at + 1);
    let told = replies.take(at);
    assert(told.len() == at);
    assert(write(told, at) is Call);
    let call = write(told, at)->Call_0;
    assert(op(told) == StepView::<UndoView>::Call(call));
    assert(call == add_all(change.path@));
    assert(whole_files_follow(head, worlds[at], call, replies[at], worlds[at + 1]));
}

/// Unstaging all of a change leaves the index with what the last commit has for its paths, or
/// with nothing where there is no commit. The worktree and all other entries stay as they were.
#[verifier::spinoff_prover]
#[verifier::rlimit(40)]
pub proof fn law_unstaging_a_file_makes_the_index_match(
    change: FileChange,
    diff: Option<FileDiff>,
    selection: SelectionView,
    head: Option<Map<Seq<u8>, IndexEntryView>>,
    replies: Seq<ReplyView>,
    worlds: Seq<World>,
)
    requires
        ran(|r: Seq<ReplyView>| ops::unstage_step(change, diff, selection, r), replies, worlds),
        whole_files_followed(
            |r: Seq<ReplyView>| ops::unstage_step(change, diff, selection, r),
            head,
            replies,
            worlds,
        ),
        is_whole(selection, diff),
        ops::unstage_step(change, diff, selection, replies) is Done,
    ensures
        only_index_changed(worlds[0], worlds.last(), paths_named(change)),
        worlds.last().entry(change.path@) == committed(head, change.path@),
        change.old_path matches Some(old) ==> worlds.last().entry(old@) == committed(head, old@),
{
    let op = |r: Seq<ReplyView>| ops::unstage_step(change, diff, selection, r);
    let write = |r: Seq<ReplyView>, at: int| ops::unstage_write(r, at, change, diff, selection);
    let (paths, description) = (ops::paths_of(change), ops::described("unstage ", change.path@));
    let action = |r: Seq<ReplyView>| index_action(paths, write, description, r);
    assert forall|r: Seq<ReplyView>| #[trigger] op(r) == action(r) by {}
    assert(ran(action, replies, worlds));
    assert forall|at: int| 0 <= at <= replies.len() implies #[trigger] write_settles(
        write,
        replies,
        at,
    ) by {
        lemma_unstage_write_settles(replies, at, change, diff, selection);
    }
    let (at, mid) = lemma_index_action_parts(paths, write, description, replies, worlds);
    crate::actions::lemma_whole(selection, diff);
    assert(paths =~= paths_named(change));
    assert(at + 1 < replies.len() && mid == at + 2);
    let asked = replies.take(at);
    assert(asked.len() == at);
    let first = plain_git(seq![word("rev-parse"), word("-q"), word("--verify"), word("HEAD")]);
    assert(write(asked, at) == StepView::<Seq<u8>>::Call(first));
    assert(op(asked) == StepView::<UndoView>::Call(first));
    assert(whole_files_follow(head, worlds[at], first, replies[at], worlds[at + 1]));
    let told = replies.take(at + 1);
    assert(told.len() == at + 1 && told[at] == replies[at]);
    let call = if head is Some {
        restore_staged(paths)
    } else {
        remove_cached(paths)
    };
    assert(write(told, at) == StepView::<Seq<u8>>::Call(call));
    assert(op(told) == StepView::<UndoView>::Call(call));
    assert(whole_files_follow(head, worlds[at + 1], call, replies[at + 1], worlds[at + 2]));
    assert(only_index_changed(worlds[at + 1], worlds[at + 2], paths));
    assert forall|path: Seq<u8>| !paths.contains(path) implies #[trigger] worlds.last().entry(path)
        == worlds[0].entry(path) by {
        assert(worlds[at + 2].entry(path) == worlds[at + 1].entry(path));
    }
    assert(paths[0] == change.path@);
    if let Some(old) = change.old_path {
        assert(paths[1] == old@);
    }
}

/// Where a discard changes the worktree: from reply `mid` on, and it has done so by `next`.
#[verifier::spinoff_prover]
#[verifier::rlimit(30)]
proof fn lemma_discard_parts(
    change: FileChange,
    diff: Option<FileDiff>,
    read: Option<Seq<char>>,
    selection: SelectionView,
    replies: Seq<ReplyView>,
    worlds: Seq<World>,
) -> (part: (int, int))
    requires
        ran(
            |r: Seq<ReplyView>| ops::discard_step(change, diff, read, selection, r),
            replies,
            worlds,
        ),
        ops::discard_step(change, diff, read, selection, replies) is Done,
    ensures
        0 <= part.0 <= part.1 <= replies.len(),
        worlds[part.1] == worlds.last(),
        ops::discard_write(
            replies,
            part.0,
            change,
            diff,
            selection,
        ) matches StepView::Done(_, end) && end == part.1,
        forall|n: int|
            part.0 <= n <= replies.len() ==> (ops::discard_write(
                #[trigger] replies.take(n),
                part.0,
                change,
                diff,
                selection,
            ) matches StepView::Call(call) ==> ops::discard_step(
                change,
                diff,
                read,
                selection,
                replies.take(n),
            ) == StepView::<UndoView>::Call(call)),
{
    let op = |r: Seq<ReplyView>| ops::discard_step(change, diff, read, selection, r);
    let path = change.path@;
    let one = |r: Seq<ReplyView>| ops::unchanged_step(r, change, diff, read);
    assert(stands_by(op, one, replies, 0));
    lemma_compared(op, replies, worlds, change, diff, read);
    let at = one(replies)->Done_1;
    assert forall|n: int| at <= n <= replies.len() implies ops::unchanged_step(
        #[trigger] replies.take(n),
        change,
        diff,
        read,
    ) == StepView::Done((), at) by {
        assert(one(replies.take(n)) == StepView::Done((), at));
    }
    let two = |r: Seq<ReplyView>| ops::saved_step(r, at, change);
    assert(stands_by(op, two, replies, at));
    lemma_saved(op, replies, worlds, at, change);
    let (saved, mid) = (two(replies)->Done_0, two(replies)->Done_1);
    assert forall|n: int| mid <= n <= replies.len() implies ops::saved_step(
        #[trigger] replies.take(n),
        at,
        change,
    ) == StepView::Done(saved, mid) by {
        assert(two(replies.take(n)) == StepView::Done(saved, mid));
    }
    lemma_discard_write_settles(replies, mid, change, diff, selection);
    let three = |r: Seq<ReplyView>| ops::discard_write(r, mid, change, diff, selection);
    let next = three(replies)->Done_1;
    assert forall|n: int| next <= n <= replies.len() implies ops::discard_write(
        #[trigger] replies.take(n),
        mid,
        change,
        diff,
        selection,
    ) == StepView::Done((), next) by {
        assert(three(replies.take(n)) == StepView::Done((), next));
    }
    let four = |r: Seq<ReplyView>| raw_hash_step(r, next, path);
    assert(stands_by(op, four, replies, next));
    lemma_file_read(op, four, replies, worlds, next, path);
    let end = four(replies)->Done_1;
    assert(four(replies.take(end)) is Done);
    assert(op(replies.take(end)) is Done);
    assert(end == replies.len());
    (mid, next)
}

/// Discarding all of a change leaves the worktree with what the index has: the file is there,
/// with the bytes and the mode of its index entry, whether it was there before or not; or, if it
/// was untracked, it is gone.
#[verifier::spinoff_prover]
#[verifier::rlimit(40)]
pub proof fn law_discarding_a_file_makes_the_worktree_match(
    change: FileChange,
    diff: Option<FileDiff>,
    read: Option<Seq<char>>,
    selection: SelectionView,
    head: Option<Map<Seq<u8>, IndexEntryView>>,
    replies: Seq<ReplyView>,
    worlds: Seq<World>,
)
    requires
        ran(
            |r: Seq<ReplyView>| ops::discard_step(change, diff, read, selection, r),
            replies,
            worlds,
        ),
        whole_files_followed(
            |r: Seq<ReplyView>| ops::discard_step(change, diff, read, selection, r),
            head,
            replies,
            worlds,
        ),
        is_whole(selection, diff),
        ops::discard_step(change, diff, read, selection, replies) is Done,
    ensures
        change.section != Section::Untracked ==> (worlds.last().entry(change.path@) matches Some(
            entry,
        ) && is_checked_out(worlds.last(), change.path@, entry)),
        change.section == Section::Untracked ==> worlds.last().file(change.path@) is None,
{
    let op = |r: Seq<ReplyView>| ops::discard_step(change, diff, read, selection, r);
    let path = change.path@;
    let (mid, next) = lemma_discard_parts(change, diff, read, selection, replies, worlds);
    crate::actions::lemma_whole(selection, diff);
    assert(mid < replies.len());
    let told = replies.take(mid);
    assert(told.len() == mid);
    if change.section == Section::Untracked {
        assert(mid + 1 < replies.len() && next == mid + 2);
        let more = replies.take(mid + 1);
        assert(more.len() == mid + 1 && more[mid] == replies[mid]);
        let call = CallView::Remove { path };
        assert(ops::discard_write(more, mid, change, diff, selection) == StepView::<()>::Call(
            call,
        ));
        assert(op(more) == StepView::<UndoView>::Call(call));
        assert(answers(worlds[mid + 1], call, replies[mid + 1], worlds[mid + 2]));
    } else {
        assert(next == mid + 1);
        let call = restore_worktree(path);
        assert(ops::discard_write(told, mid, change, diff, selection) == StepView::<()>::Call(
            call,
        ));
        assert(op(told) == StepView::<UndoView>::Call(call));
        assert(whole_files_follow(head, worlds[mid], call, replies[mid], worlds[mid + 1]));
        assert(worlds[mid + 1].entry(path) == worlds[mid].entry(path));
    }
}

// ---------------------------------------------------------------------------
// What is discarded.

/// `git hash-object --path=<path> --stdin` on bytes: their id as git would check them in.
pub open spec fn checked_in_id(path: Seq<u8>, bytes: Seq<u8>) -> CallView {
    CallView::Git {
        args: seq![word("hash-object"), word("--path=") + path, word("--stdin")],
        stdin: Some(bytes),
        internal: false,
    }
}

/// Whether git checks files in as they are, throughout a run.
pub open spec fn nothing_is_converted<V>(
    op: spec_fn(Seq<ReplyView>) -> StepView<V>,
    replies: Seq<ReplyView>,
    worlds: Seq<World>,
) -> bool {
    forall|i: int|
        0 <= i < replies.len() ==> (op(#[trigger] replies.take(i)) matches StepView::Call(call)
            ==> forall|path: Seq<u8>, bytes: Seq<u8>|
            call == #[trigger] checked_in_id(path, bytes) ==> (replies[i] matches ReplyView::Git(
                Ok(out),
            ) && answer(out) == (worlds[i].id)(bytes)))
}

/// A discard changes a file only if it holds, byte for byte, what the user reviewed: the new side
/// of the diff, or no file where the diff has none. A file that is anything else by then is left
/// alone. (In a repository that converts no files; a run that made a call that changes the
/// worktree, or came to an end.)
#[verifier::spinoff_prover]
#[verifier::rlimit(40)]
pub proof fn law_discard_leaves_newer_work_alone(
    change: FileChange,
    diff: FileDiff,
    read: Option<Seq<char>>,
    selection: SelectionView,
    replies: Seq<ReplyView>,
    worlds: Seq<World>,
)
    requires
        ran(
            |r: Seq<ReplyView>| ops::discard_step(change, Some(diff), read, selection, r),
            replies,
            worlds,
        ),
        nothing_is_converted(
            |r: Seq<ReplyView>| ops::discard_step(change, Some(diff), read, selection, r),
            replies,
            worlds,
        ),
        tells_apart(worlds[0].id),
        ops::discard_step(change, Some(diff), read, selection, replies) is Done || (
        ops::discard_step(change, Some(diff), read, selection, replies) matches StepView::Call(call)
            && ops::writes_worktree(call)),
    ensures
        change.new is Absent ==> worlds[0].file(change.path@) is None,
        !(change.new is Absent) ==> (worlds[0].file(change.path@) matches Some((bytes, _)) && bytes
            == diff.new@),
{
    let op = |r: Seq<ReplyView>| ops::discard_step(change, Some(diff), read, selection, r);
    let part = |r: Seq<ReplyView>| ops::unchanged_step(r, change, Some(diff), read);
    let path = change.path@;
    ops::lemma_unchanged_is_quiet(replies, change, Some(diff), read);
    assert(part(replies) is Done);
    assert(stands_by(op, part, replies, 0));
    assert(replies.len() > 0);
    assert(replies.take(0).len() == 0);
    lemma_reads(op, part, replies, worlds, 0, 0, CallView::ReadRaw { path });
    assert(op(replies.take(0)) is Call);
    assert(worlds[1] == worlds[0]);
    let file = worlds[0].file(path);
    let clean = if file is Some {
        2
    } else {
        1int
    };
    if let Some((bytes, kind)) = file {
        assert(replies.len() > 1);
        let call = if kind == FileKind::Symlink {
            hash_call(bytes, false)
        } else {
            checked_in_id(path, bytes)
        };
        let told = replies.take(1);
        assert(told.len() == 1 && told[0] == replies[0]);
        assert(part(told) == StepView::<()>::Call(call));
        assert(op(told) == StepView::<UndoView>::Call(call));
        assert(answers(worlds[1], call, replies[1], worlds[2]));
        assert(ops::clean_hash_step(replies, 0, path) == StepView::Done(
            Some((worlds[0].id)(bytes)),
            2,
        ));
        lemma_reads(op, part, replies, worlds, 0, 1, call);
    }
    if !(change.new is Absent) {
        assert(clean < replies.len());
        let call = hash_call(diff.new@, false);
        let told = replies.take(clean);
        assert(told.len() == clean && told[0] == replies[0]);
        if clean == 2 {
            assert(told[1] == replies[1]);
        }
        assert(part(told) == StepView::<()>::Call(call));
        assert(op(told) == StepView::<UndoView>::Call(call));
        assert(answers(worlds[clean], call, replies[clean], worlds[clean + 1]));
        assert(worlds[clean].id == worlds[0].id);
    }
}

} // verus!
