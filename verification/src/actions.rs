//! What staging, unstaging and discarding ask for: laws on the calls that they make.
use vstd::prelude::*;

use crate::calls;
use crate::calls::{CallView, FileKind, ReplyView, StepView};
use crate::diff::{FileDiff, LineKind};
use crate::ops;
use crate::ops::{word, SelectionView, UndoView};
use crate::patch;
use crate::patch::{Direction, Header};
use crate::repo::{ChangeStatus, FileChange, Section};

verus! {

/// Whether a selection is the whole of a change: all of the file, or lines among which is every
/// one that was added or removed.
pub open spec fn is_whole(selection: SelectionView, diff: Option<FileDiff>) -> bool {
    match selection {
        SelectionView::File => true,
        SelectionView::Lines(chosen) => diff matches Some(d) && forall|ix: int|
            0 <= ix < d.lines@.len() && (#[trigger] d.lines@[ix]).kind != LineKind::Context
                ==> chosen.contains(ix as usize),
    }
}

/// Whether `marks` marks exactly the chosen ones of `count` lines.
pub open spec fn marks_chosen(marks: Seq<bool>, count: nat, chosen: Seq<usize>) -> bool {
    &&& marks.len() == count
    &&& forall|ix: int|
        0 <= ix < count ==> (#[trigger] marks[ix] <==> chosen.contains(ix as usize))
}

/// Whether bytes are a patch for a path that makes (or, in reverse, undoes) exactly the chosen
/// changes of a diff (see [`crate::apply::law_patch_applies`]).
pub open spec fn is_patch(
    bytes: Option<Seq<u8>>,
    path: Seq<u8>,
    diff: FileDiff,
    chosen: Seq<usize>,
    direction: Direction,
    header: Header,
) -> bool {
    exists|marks: Seq<bool>|
        marks_chosen(marks, diff.lines@.len(), chosen) && #[trigger] patch::patch_of(
            path,
            diff,
            marks,
            direction,
            header,
        ) == Ok::<Option<Seq<u8>>, patch::PatchError>(bytes)
}

/// A whole selection is acted on as the file, and no other is.
pub proof fn lemma_whole(selection: SelectionView, diff: Option<FileDiff>)
    ensures
        ops::effective_selection(selection, diff) == Ok::<SelectionView, calls::OpErrorView>(
            SelectionView::File,
        ) ==> is_whole(selection, diff),
        is_whole(selection, diff) ==> !(ops::effective_selection(selection, diff) matches Ok(
            SelectionView::Lines(_),
        )),
        ops::effective_selection(selection, diff) matches Ok(SelectionView::Lines(chosen))
            ==> selection == SelectionView::Lines(chosen) && diff is Some,
{
    if let SelectionView::Lines(chosen) = selection {
        if let Some(d) = diff {
            let lines = d.lines@;
            if is_whole(selection, diff) {
                assert forall|ix: int| #[trigger] ops::is_changed(lines, ix) implies chosen.contains(
                    ix as usize,
                ) by {
                    assert(lines[ix].kind != LineKind::Context);
                }
            }
            if ops::picks_every_change(lines, chosen) {
                assert forall|ix: int|
                    0 <= ix < lines.len() && (#[trigger] lines[ix]).kind != LineKind::Context implies
                    chosen.contains(ix as usize) by {
                    assert(ops::is_changed(lines, ix));
                }
            }
        }
    }
}

/// The patch that is handed over is one for the chosen lines.
proof fn lemma_patch_step(
    replies: Seq<ReplyView>,
    at: int,
    args: Seq<Seq<u8>>,
    path: Seq<u8>,
    diff: FileDiff,
    chosen: Seq<usize>,
    direction: Direction,
    header: Header,
)
    ensures
        ops::patch_step(replies, at, args, path, diff, chosen, direction, header) matches StepView::Call(
            call,
        ) ==> at >= replies.len() && (call matches CallView::Git { args: given, stdin, internal }
            && given == args && !internal && stdin is Some && is_patch(
            stdin,
            path,
            diff,
            chosen,
            direction,
            header,
        )),
{
    let marks = ops::chosen_marks(diff.lines@.len(), chosen);
    assert(marks_chosen(marks, diff.lines@.len(), chosen)) by {
        assert forall|ix: int| 0 <= ix < diff.lines@.len() implies (#[trigger] marks[ix]
            <==> chosen.contains(ix as usize)) by {}
    }
    let made = patch::patch_of(path, diff, marks, direction, header);
}

/// The words of `git apply` on the index.
pub open spec fn applies_to_index(args: Seq<Seq<u8>>, reverse: bool) -> bool {
    &&& args.len() > 0 && args[0] == word("apply") && args.last() == word("-")
    &&& args.contains(word("--cached"))
    &&& args.contains(word("-R")) <==> reverse
}

/// The words of `git apply -R` on the worktree.
pub open spec fn reverts_in_worktree(args: Seq<Seq<u8>>) -> bool {
    &&& args.len() > 0 && args[0] == word("apply") && args.last() == word("-")
    &&& !args.contains(word("--cached")) && !args.contains(word("--index"))
    &&& args.contains(word("-R"))
}

/// Different words have different bytes.
proof fn lemma_apply_words()
    ensures
        word("-R") != word("apply"),
        word("-R") != word("--cached"),
        word("-R") != word("--whitespace=nowarn"),
        word("-R") != word("-"),
        word("--cached") != word("apply"),
        word("--cached") != word("--whitespace=nowarn"),
        word("--cached") != word("-"),
        word("--index") != word("apply"),
        word("--index") != word("-R"),
        word("--index") != word("--whitespace=nowarn"),
        word("--index") != word("-"),
        word("ls-files") != word("apply"),
        word("ls-files") != word("add"),
        word("add") != word("apply"),
        word("rev-parse") != word("apply"),
        word("restore") != word("apply"),
        word("rm") != word("apply"),
{
    reveal_strlit("-R");
    reveal_strlit("apply");
    reveal_strlit("--cached");
    reveal_strlit("--whitespace=nowarn");
    reveal_strlit("-");
    reveal_strlit("--index");
    reveal_strlit("ls-files");
    reveal_strlit("add");
    reveal_strlit("rev-parse");
    reveal_strlit("restore");
    reveal_strlit("rm");
    ops::lemma_words_differ("-R", "apply");
    ops::lemma_words_differ("-R", "--cached");
    ops::lemma_words_differ("-R", "--whitespace=nowarn");
    ops::lemma_words_differ("-R", "-");
    ops::lemma_words_differ("--cached", "apply");
    ops::lemma_words_differ("--cached", "--whitespace=nowarn");
    ops::lemma_words_differ("--cached", "-");
    ops::lemma_words_differ("--index", "apply");
    ops::lemma_words_differ("--index", "-R");
    ops::lemma_words_differ("--index", "--whitespace=nowarn");
    ops::lemma_words_differ("--index", "-");
    ops::lemma_words_differ("ls-files", "apply");
    ops::lemma_words_differ("ls-files", "add");
    ops::lemma_words_differ("add", "apply");
    ops::lemma_words_differ("rev-parse", "apply");
    ops::lemma_words_differ("restore", "apply");
    ops::lemma_words_differ("rm", "apply");
}

/// The words with which lines are staged, unstaged and discarded.
proof fn lemma_apply_args()
    ensures
        applies_to_index(
            seq![word("apply"), word("--cached"), word("--whitespace=nowarn"), word("-")],
            false,
        ),
        applies_to_index(
            seq![
                word("apply"),
                word("--cached"),
                word("-R"),
                word("--whitespace=nowarn"),
                word("-"),
            ],
            true,
        ),
        reverts_in_worktree(
            seq![word("apply"), word("-R"), word("--whitespace=nowarn"), word("-")],
        ),
{
    lemma_apply_words();
    let a = seq![word("apply"), word("--cached"), word("--whitespace=nowarn"), word("-")];
    let b = seq![
        word("apply"),
        word("--cached"),
        word("-R"),
        word("--whitespace=nowarn"),
        word("-"),
    ];
    let c = seq![word("apply"), word("-R"), word("--whitespace=nowarn"), word("-")];
    assert(a[1] == word("--cached"));
    assert(b[1] == word("--cached") && b[2] == word("-R"));
    assert(c[1] == word("-R"));
}

/// Whether a call only asks for an index entry.
pub open spec fn asks_for_entry(call: CallView) -> bool {
    call matches CallView::Git { args, .. } && args.len() == 5 && args[0] == word("ls-files")
}

/// Reading index entries settles.
proof fn lemma_snapshot_settles(
    replies: Seq<ReplyView>,
    at: int,
    paths: Seq<Seq<u8>>,
    found: Seq<Option<ops::IndexEntryView>>,
    n: int,
)
    requires
        0 <= at <= replies.len(),
        n <= replies.len(),
    ensures
        ops::snapshot_from(replies, at, paths, found) matches StepView::Done(all, end) ==> at
            <= end <= replies.len() && (end <= n ==> ops::snapshot_from(
            replies.take(n),
            at,
            paths,
            found,
        ) == StepView::Done(all, end)),
    decreases paths.len() - found.len(),
{
    if found.len() < paths.len() && at < replies.len() {
        let path = paths[found.len() as int];
        if let StepView::Done(entry, next) = ops::entry_step(replies, at, path) {
            lemma_snapshot_settles(replies, next, paths, found.push(entry), n);
            if at < n {
                assert(replies.take(n)[at] == replies[at]);
            }
        }
    }
}

/// Staging acts on what was chosen and on nothing else. It adds the file as a whole only if the
/// selection is all of the change; else it hands git a patch with exactly the chosen changes, to
/// be applied to the index as it is. A file that isn't in the index yet gets the mode that the
/// file was found to have: executable or not.
#[verifier::spinoff_prover]
#[verifier::rlimit(40)]
pub proof fn law_staging_acts_on_what_was_chosen(
    change: FileChange,
    diff: Option<FileDiff>,
    selection: SelectionView,
    replies: Seq<ReplyView>,
    call: CallView,
)
    requires
        ops::stage_step(change, diff, selection, replies) == StepView::<UndoView>::Call(call),
    ensures
        change.section != Section::Staged && change.section != Section::Snapshot && change.status
            != ChangeStatus::Conflicted,
        asks_for_entry(call) || call == (CallView::ReadKind { path: change.path@ }) || {
            &&& call matches CallView::Git { args, stdin, internal }
            &&& !internal
            &&& is_whole(selection, diff) ==> args == seq![
                word("add"),
                word("-A"),
                word("--"),
                change.path@,
            ] && stdin is None
            &&& !is_whole(selection, diff) ==> {
                &&& selection matches SelectionView::Lines(chosen)
                &&& applies_to_index(args, false)
                &&& stdin is Some
                &&& !(change.old is Absent) ==> is_patch(
                    stdin,
                    change.path@,
                    diff->Some_0,
                    chosen,
                    Direction::Forward,
                    Header::Modify,
                )
                &&& change.old is Absent ==> is_new_file_patch(
                    replies,
                    stdin,
                    change.path@,
                    diff->Some_0,
                    chosen,
                )
            }
        },
{
    lemma_apply_args();
    lemma_apply_words();
    lemma_whole(selection, diff);
    let paths = ops::paths_of(change);
    ops::lemma_snapshot_is_quiet(replies, 0, paths, Seq::empty());
    if let StepView::Done(_, at) = ops::snapshot_step(replies, 0, paths) {
        let args = seq![word("apply"), word("--cached"), word("--whitespace=nowarn"), word("-")];
        lemma_snapshot_settles(replies, 0, paths, Seq::empty(), replies.len() as int);
        if let SelectionView::Lines(chosen) = selection {
            if diff is Some {
                let d = diff->Some_0;
                let path = change.path@;
                let (f, modify) = (Direction::Forward, Header::Modify);
                let (plain, exec) = (
                    Header::NewFile { mode: "100644" },
                    Header::NewFile { mode: "100755" },
                );
                lemma_patch_step(replies, at, args, path, d, chosen, f, modify);
                lemma_patch_step(replies, at + 1, args, path, d, chosen, f, plain);
                lemma_patch_step(replies, at + 1, args, path, d, chosen, f, exec);
                if change.old is Absent && at < replies.len() {
                    assert(replies[at] == replies.last() || at + 1 < replies.len());
                }
            }
        }
        if let StepView::Done(_, next) = ops::stage_write(replies, at, change, diff, selection) {
            ops::lemma_snapshot_is_quiet(replies, next, paths, Seq::empty());
        }
    }
}

/// Whether bytes are a patch that makes a new file of the chosen lines, with the mode for what
/// the last reply says that the file is: neither a link nor gone, but executable or not.
pub open spec fn is_new_file_patch(
    replies: Seq<ReplyView>,
    bytes: Option<Seq<u8>>,
    path: Seq<u8>,
    diff: FileDiff,
    chosen: Seq<usize>,
) -> bool {
    &&& replies.len() > 0
    &&& replies.last() matches ReplyView::Kind(Ok(Some(kind)))
    &&& kind != FileKind::Symlink
    &&& kind == FileKind::Executable ==> is_patch(
        bytes,
        path,
        diff,
        chosen,
        Direction::Forward,
        Header::NewFile { mode: "100755" },
    )
    &&& kind == FileKind::Regular ==> is_patch(
        bytes,
        path,
        diff,
        chosen,
        Direction::Forward,
        Header::NewFile { mode: "100644" },
    )
}

/// The digits of the two modes.
proof fn lemma_modes()
    ensures
        forall|i: int| 0 <= i < "100644"@.len() ==> '0' <= #[trigger] "100644"@[i] <= '9',
        forall|i: int| 0 <= i < "100755"@.len() ==> '0' <= #[trigger] "100755"@[i] <= '9',
        word("new file mode 100644") == vstd::utf8::encode_utf8("new file mode "@)
            + vstd::utf8::encode_utf8("100644"@),
        word("new file mode 100755") == vstd::utf8::encode_utf8("new file mode "@)
            + vstd::utf8::encode_utf8("100755"@),
{
    reveal_strlit("100644");
    reveal_strlit("100755");
    reveal_strlit("new file mode ");
    reveal_strlit("new file mode 100644");
    reveal_strlit("new file mode 100755");
    crate::utf8::lemma_encode_concat("new file mode "@, "100644"@);
    crate::utf8::lemma_encode_concat("new file mode "@, "100755"@);
    assert("new file mode "@ + "100644"@ =~= "new file mode 100644"@);
    assert("new file mode "@ + "100755"@ =~= "new file mode 100755"@);
}

/// Lines of a file that isn't in the index are staged with the mode of that file. The call before
/// asks what the file is; where the reply says that it is executable, the patch says so too, and
/// where it says that it is not, neither does the patch.
#[verifier::spinoff_prover]
#[verifier::rlimit(40)]
pub proof fn law_new_files_are_staged_with_their_mode(
    change: FileChange,
    diff: Option<FileDiff>,
    selection: SelectionView,
    replies: Seq<ReplyView>,
    args: Seq<Seq<u8>>,
    patch: Seq<u8>,
    internal: bool,
)
    requires
        change.old is Absent,
        ops::stage_step(change, diff, selection, replies) == StepView::<UndoView>::Call(
            CallView::Git { args, stdin: Some(patch), internal },
        ),
    ensures
        replies.len() > 0,
        ops::stage_step(change, diff, selection, replies.drop_last()) == StepView::<UndoView>::Call(
            CallView::ReadKind { path: change.path@ },
        ),
        replies.last() matches ReplyView::Kind(Ok(Some(kind))) && {
            ||| kind == FileKind::Executable && patch::second_line(patch) == word(
                "new file mode 100755",
            )
            ||| kind == FileKind::Regular && patch::second_line(patch) == word(
                "new file mode 100644",
            )
        },
{
    let call = CallView::Git { args, stdin: Some(patch), internal };
    law_staging_acts_on_what_was_chosen(change, diff, selection, replies, call);
    let paths = ops::paths_of(change);
    let none = Seq::<Option<ops::IndexEntryView>>::empty();
    lemma_entries_asked_plainly(replies, 0, paths, none);
    assert(ops::snapshot_step(replies, 0, paths) is Done);
    let at = ops::snapshot_step(replies, 0, paths)->Done_1;
    lemma_snapshot_settles(replies, 0, paths, none, replies.len() as int);
    if let StepView::Done(_, next) = ops::stage_write(replies, at, change, diff, selection) {
        lemma_entries_asked_plainly(replies, next, paths, none);
    }
    assert(ops::stage_write(replies, at, change, diff, selection) is Call);
    lemma_whole(selection, diff);
    assert(!is_whole(selection, diff));
    assert(at + 1 == replies.len());
    let told = replies.drop_last();
    assert(told =~= replies.take(at));
    lemma_snapshot_settles(replies, 0, paths, none, at);
    assert(told.len() == at);
    lemma_modes();
    let chosen = selection->Lines_0;
    let d = diff->Some_0;
    let kind = replies.last()->Kind_0->Ok_0->Some_0;
    let mode = if kind == FileKind::Executable {
        "100755"
    } else {
        "100644"
    };
    let header = Header::NewFile { mode };
    let marks = choose|marks: Seq<bool>|
        marks_chosen(marks, d.lines@.len(), chosen) && #[trigger] patch::patch_of(
            change.path@,
            d,
            marks,
            Direction::Forward,
            header,
        ) == Ok::<Option<Seq<u8>>, patch::PatchError>(Some(patch));
    let ps = patch::patch_hunks(d.hunks@, d.lines@, marks, Direction::Forward, 0, 0);
    patch::law_patches_name_the_mode_of_new_files(
        change.path@,
        mode,
        patch::rendered_hunks(d.old@, d.new@, d.lines@, ps),
    );
}

/// Index entries are asked for without input.
proof fn lemma_entries_asked_plainly(
    replies: Seq<ReplyView>,
    at: int,
    paths: Seq<Seq<u8>>,
    found: Seq<Option<ops::IndexEntryView>>,
)
    ensures
        ops::snapshot_from(replies, at, paths, found) matches StepView::Call(call) ==> (
        call matches CallView::Git { stdin, .. } && stdin is None),
    decreases paths.len() - found.len(),
{
    if found.len() < paths.len() {
        if let StepView::Done(entry, next) = ops::entry_step(
            replies,
            at,
            paths[found.len() as int],
        ) {
            lemma_entries_asked_plainly(replies, next, paths, found.push(entry));
        }
    }
}

/// Whether a call asks whether there is a commit.
pub open spec fn asks_for_head(call: CallView) -> bool {
    call == (CallView::Git {
        args: seq![word("rev-parse"), word("-q"), word("--verify"), word("HEAD")],
        stdin: None,
        internal: false,
    })
}

/// Unstaging acts on what was chosen and on nothing else. It puts the index entries of the whole
/// change back, to what the last commit holds if the reply before says that there is one and out
/// of the index if not, only if the selection is all of the change; else it hands git a patch with
/// exactly the chosen changes, to be undone in the index.
#[verifier::spinoff_prover]
#[verifier::rlimit(40)]
pub proof fn law_unstaging_acts_on_what_was_chosen(
    change: FileChange,
    diff: Option<FileDiff>,
    selection: SelectionView,
    replies: Seq<ReplyView>,
    call: CallView,
)
    requires
        ops::unstage_step(change, diff, selection, replies) == StepView::<UndoView>::Call(call),
    ensures
        change.section == Section::Staged,
        asks_for_entry(call) || (asks_for_head(call) && is_whole(selection, diff)) || {
            &&& call matches CallView::Git { args, stdin, internal }
            &&& !internal
            &&& is_whole(selection, diff) ==> stdin is None && replies.len() > 0 && {
                ||| replies.last() matches ReplyView::Git(Ok(_)) && args == seq![
                    word("restore"),
                    word("--staged"),
                    word("--"),
                ] + paths_named(change)
                ||| replies.last() matches ReplyView::Git(Err(_)) && args == seq![
                    word("rm"),
                    word("-q"),
                    word("--cached"),
                    word("--"),
                ] + paths_named(change)
            }
            &&& !is_whole(selection, diff) ==> {
                &&& selection matches SelectionView::Lines(chosen)
                &&& applies_to_index(args, true)
                &&& stdin is Some
                &&& is_patch(
                    stdin,
                    change.path@,
                    diff->Some_0,
                    chosen,
                    Direction::Reverse,
                    Header::Modify,
                )
            }
        },
{
    lemma_apply_args();
    lemma_apply_words();
    lemma_whole(selection, diff);
    let paths = ops::paths_of(change);
    assert(paths =~= paths_named(change));
    ops::lemma_snapshot_is_quiet(replies, 0, paths, Seq::empty());
    if let StepView::Done(_, at) = ops::snapshot_step(replies, 0, paths) {
        lemma_snapshot_settles(replies, 0, paths, Seq::empty(), replies.len() as int);
        if let SelectionView::Lines(chosen) = selection {
            if diff is Some {
                lemma_patch_step(
                    replies,
                    at,
                    seq![
                        word("apply"),
                        word("--cached"),
                        word("-R"),
                        word("--whitespace=nowarn"),
                        word("-"),
                    ],
                    change.path@,
                    diff->Some_0,
                    chosen,
                    Direction::Reverse,
                    Header::Modify,
                );
            }
        }
        if let StepView::Done(_, next) = ops::unstage_write(replies, at, change, diff, selection) {
            ops::lemma_snapshot_is_quiet(replies, next, paths, Seq::empty());
        }
    }
}

/// The paths that a change is about: its own, and the one that it was renamed from.
pub open spec fn paths_named(change: FileChange) -> Seq<Seq<u8>> {
    match change.old_path {
        Some(old) => seq![change.path@].push(old@),
        None => seq![change.path@],
    }
}

/// Discarding acts on what was chosen and on nothing else. It removes an untracked file, and
/// restores a tracked one from the index, only if the selection is all of the change; else it
/// hands git a patch with exactly the chosen changes, to be undone in the worktree.
#[verifier::spinoff_prover]
#[verifier::rlimit(40)]
pub proof fn law_discarding_acts_on_what_was_chosen(
    change: FileChange,
    diff: Option<FileDiff>,
    read: Option<Seq<char>>,
    selection: SelectionView,
    replies: Seq<ReplyView>,
    call: CallView,
)
    requires
        ops::discard_step(change, diff, read, selection, replies) == StepView::<UndoView>::Call(
            call,
        ),
        ops::writes_worktree(call),
    ensures
        change.section != Section::Staged && change.section != Section::Snapshot && change.status
            != ChangeStatus::Conflicted,
        is_whole(selection, diff) && change.section == Section::Untracked ==> call
            == (CallView::Remove { path: change.path@ }) && replies.len() > 0 && replies.last()
            == ReplyView::Directory(false),
        is_whole(selection, diff) && change.section != Section::Untracked ==> call
            == (CallView::Git {
            args: seq![word("restore"), word("--worktree"), word("--"), change.path@],
            stdin: None,
            internal: false,
        }),
        !is_whole(selection, diff) ==> {
            &&& selection matches SelectionView::Lines(chosen)
            &&& call matches CallView::Git { args, stdin, internal }
            &&& !internal
            &&& reverts_in_worktree(args)
            &&& stdin is Some
            &&& is_patch(
                stdin,
                change.path@,
                diff->Some_0,
                chosen,
                Direction::Reverse,
                Header::Modify,
            )
        },
{
    lemma_apply_args();
    lemma_whole(selection, diff);
    ops::lemma_quiet_words();
    ops::lemma_unchanged_is_quiet(replies, change, diff, read);
    if let StepView::Done(_, at) = ops::unchanged_step(replies, change, diff, read) {
        ops::lemma_saved_is_quiet(replies, at, change);
        if let StepView::Done(_, mid) = ops::saved_step(replies, at, change) {
            if let SelectionView::Lines(chosen) = selection {
                if diff is Some {
                    lemma_patch_step(
                        replies,
                        mid,
                        seq![word("apply"), word("-R"), word("--whitespace=nowarn"), word("-")],
                        change.path@,
                        diff->Some_0,
                        chosen,
                        Direction::Reverse,
                        Header::Modify,
                    );
                }
            }
            lemma_saved_place(replies, at, change);
            lemma_compared_place(replies, change, diff, read);
        }
    }
}

/// Comparing a file uses no more replies than there are.
proof fn lemma_compared_place(
    replies: Seq<ReplyView>,
    change: FileChange,
    diff: Option<FileDiff>,
    read: Option<Seq<char>>,
)
    ensures
        ops::unchanged_step(replies, change, diff, read) matches StepView::Done(_, end) ==> 0 <= end
            <= replies.len(),
{
}

/// Saving a file uses no more replies than there are.
proof fn lemma_saved_place(replies: Seq<ReplyView>, at: int, change: FileChange)
    ensures
        ops::saved_step(replies, at, change) matches StepView::Done(_, end) ==> at < end
            <= replies.len(),
{
}

/// Before what was discarded is gone, git keeps it: in a tree of its own, on a commit that the
/// undo ref points to. The commits form a chain. A chain that has reached its length is set aside
/// as the previous one, and the commit starts a new one; else it follows the last.
#[verifier::spinoff_prover]
#[verifier::rlimit(40)]
pub proof fn law_undo_history_is_a_chain(
    replies: Seq<ReplyView>,
    at: int,
    oid: Seq<char>,
    message: Seq<char>,
    limit: usize,
    end: int,
    last: Option<Seq<u8>>,
)
    requires
        0 <= at <= replies.len(),
        ops::keep_step(replies, at, oid, message, limit) matches StepView::Done(_, e) && e == end,
        last == (match replies[at + 1] {
            ReplyView::Git(Ok(out)) => Some(out),
            _ => None,
        }),
    ensures
        at + 4 <= end <= replies.len(),
        ops::keep_step(replies.take(at), at, oid, message, limit) == StepView::<Seq<u8>>::Call(
            CallView::Git {
                args: seq![word("mktree")],
                stdin: Some(
                    word("100644 blob ") + crate::bytes::text_bytes(oid) + seq![9u8, 48u8, 10u8],
                ),
                internal: true,
            },
        ),
        ops::keep_step(replies.take(at + 1), at, oid, message, limit) matches StepView::Call(
            CallView::Git { args, .. },
        ) && args.contains(word("refs/goro/undo")),
        ops::keep_step(replies.take(end - 2), at, oid, message, limit) matches StepView::Call(
            CallView::Git { args, .. },
        ) && args[0] == word("commit-tree") && {
            let full = last is Some && ops::chain_length(replies[at + 2]->Git_0->Ok_0) >= limit;
            &&& args.len() == 6 <==> last is Some && !full
            &&& args.len() == 4 <==> last is None || full
            &&& args.len() == 6 ==> args[4] == word("-p") && args[5] == crate::bytes::text_bytes(
                ops::answer(last->Some_0),
            )
            &&& full ==> ops::keep_step(replies.take(at + 3), at, oid, message, limit)
                == StepView::<Seq<u8>>::Call(
                CallView::Git {
                    args: seq![
                        word("update-ref"),
                        word("refs/goro/undo-previous"),
                        crate::bytes::text_bytes(ops::answer(last->Some_0)),
                    ],
                    stdin: None,
                    internal: true,
                },
            )
        },
        replies[end - 2] matches ReplyView::Git(Ok(out)) && ops::keep_step(
            replies.take(end - 1),
            at,
            oid,
            message,
            limit,
        ) == StepView::<Seq<u8>>::Call(
            CallView::Git {
                args: seq![
                    word("update-ref"),
                    word("refs/goro/undo"),
                    crate::bytes::text_bytes(ops::answer(out)),
                ],
                stdin: None,
                internal: true,
            },
        ),
{
    assert forall|n: int, i: int| 0 <= i < n <= replies.len() implies (#[trigger] replies.take(
        n,
    ))[i] == #[trigger] replies[i] by {}
    lemma_chain_places(replies, at, oid, message, limit);
    assert(crate::bytes::decimal(0) =~= seq![48u8]);
    assert(ops::listed_blob(oid, 0) =~= word("100644 blob ") + crate::bytes::text_bytes(oid)
        + seq![9u8, 48u8, 10u8]);
    let ask = seq![word("rev-parse"), word("-q"), word("--verify"), word(ops::UNDO_REF)];
    assert(ask[3] == word("refs/goro/undo"));
    lemma_chain_prefix(replies, at, oid, message, limit, at);
    lemma_chain_prefix(replies, at, oid, message, limit, at + 1);
    lemma_chain_prefix(replies, at, oid, message, limit, at + 3);
    lemma_chain_prefix(replies, at, oid, message, limit, end - 2);
    lemma_chain_prefix(replies, at, oid, message, limit, end - 1);
    assert(ops::keep_step(replies.take(at + 1), at, oid, message, limit) == StepView::<
        Seq<u8>,
    >::Call(CallView::Git { args: ask, stdin: None, internal: false }));
}

/// How many replies recording takes.
proof fn lemma_chain_places(
    replies: Seq<ReplyView>,
    at: int,
    oid: Seq<char>,
    message: Seq<char>,
    limit: usize,
)
    requires
        0 <= at <= replies.len(),
        ops::keep_step(replies, at, oid, message, limit) is Done,
    ensures
        ({
            let end = ops::keep_step(replies, at, oid, message, limit)->Done_1;
            let next = ops::parent_step(replies, at + 1, limit)->Done_1;
            &&& at + 4 <= end <= replies.len()
            &&& end == next + 2
            &&& next == at + 2 || next == at + 3 || next == at + 4
        }),
{
}

/// Where recording stands after some of the replies.
proof fn lemma_chain_prefix(
    replies: Seq<ReplyView>,
    at: int,
    oid: Seq<char>,
    message: Seq<char>,
    limit: usize,
    n: int,
)
    requires
        0 <= at <= n <= replies.len(),
        ops::keep_step(replies, at, oid, message, limit) is Done,
    ensures
        replies.take(n).len() == n,
        n > at ==> replies.take(n)[at] == replies[at],
        n > at + 1 ==> replies.take(n)[at + 1] == replies[at + 1],
        n > at + 2 ==> replies.take(n)[at + 2] == replies[at + 2],
        n > at + 3 ==> replies.take(n)[at + 3] == replies[at + 3],
        n > at + 4 ==> replies.take(n)[at + 4] == replies[at + 4],
{
}

} // verus!
