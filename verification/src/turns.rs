//! Agent turns: snapshots of the working tree taken by agent hooks at the start and end
//! of each turn, so a turn's changes can be reviewed on their own.
//!
//! A snapshot is a commit (tree = the working tree, including untracked files git doesn't
//! ignore) built through a temporary index, so the user's index is never touched. It lives
//! at `refs/goro/turns/<session>/<unix ms>-<start|end>`, with its metadata as JSON in the
//! commit message.
use vstd::prelude::*;

use crate::bytes::{append, bytes_of, copy, same, split};
use crate::calls;
use crate::calls::{do_work, run_git, Call, CallView, Reply, ReplyView, Step, StepView};
use crate::ops;
use crate::order;
use crate::repo::{ChangeStatus, ChangeView, EntryKind, FileChange, Section, Source, SourceView};
use crate::sorting;
use crate::sorting::{sort, Ranked};
use crate::store::{push_hex, stable_hash};
use crate::text::{
    begins, chars_of, copy_text, from_utf8_lossy, parse_number, part_of, push_number, push_text,
    same_text, split_text, trim,
};

verus! {

broadcast use crate::bytes::lemma_deep;

pub const TURNS_REF: &'static str = "refs/goro/turns";

/// Snapshots kept per repository.
pub const KEEP_SNAPSHOTS: usize = 400;

pub const MESSAGE_PREFIX: &'static str = "goro turn snapshot\n\n";

#[derive(Debug, Clone, Copy, PartialEq, Eq, Structural)]
pub enum TurnEvent {
    Start,
    End,
}

#[derive(Debug, PartialEq, Eq)]
pub struct SnapshotMeta {
    /// The agent's name.
    pub agent: String,
    pub event: TurnEvent,
    pub session_id: String,
    /// Set by agents that have one; the turns of others pair by order.
    pub turn_id: Option<String>,
    /// The user's prompt, on turn start.
    pub prompt: Option<String>,
    pub at_ms: u64,
}

/// A snapshot's metadata, as text.
pub struct MetaView {
    pub agent: Seq<char>,
    pub event: TurnEvent,
    pub session_id: Seq<char>,
    pub turn_id: Option<Seq<char>>,
    pub prompt: Option<Seq<char>>,
    pub at_ms: u64,
}

impl DeepView for SnapshotMeta {
    type V = MetaView;

    open spec fn deep_view(&self) -> MetaView {
        MetaView {
            agent: self.agent@,
            event: self.event,
            session_id: self.session_id@,
            turn_id: self.turn_id.deep_view(),
            prompt: self.prompt.deep_view(),
            at_ms: self.at_ms,
        }
    }
}

fn copy_option(text: &Option<String>) -> (copy: Option<String>)
    ensures
        copy.deep_view() == text.deep_view(),
{
    match text {
        Some(t) => Some(t.clone()),
        None => None,
    }
}

impl SnapshotMeta {
    /// A copy.
    pub fn copy(&self) -> (copy: SnapshotMeta)
        ensures
            copy.deep_view() == self.deep_view(),
    {
        SnapshotMeta {
            agent: self.agent.clone(),
            event: self.event,
            session_id: self.session_id.clone(),
            turn_id: copy_option(&self.turn_id),
            prompt: copy_option(&self.prompt),
            at_ms: self.at_ms,
        }
    }
}

#[derive(Debug, PartialEq, Eq)]
pub struct Snapshot {
    pub commit: String,
    pub tree: String,
    pub meta: SnapshotMeta,
}

/// A snapshot, as text.
pub struct SnapshotView {
    pub commit: Seq<char>,
    pub tree: Seq<char>,
    pub meta: MetaView,
}

impl DeepView for Snapshot {
    type V = SnapshotView;

    open spec fn deep_view(&self) -> SnapshotView {
        SnapshotView { commit: self.commit@, tree: self.tree@, meta: self.meta.deep_view() }
    }
}

// ---------------------------------------------------------------------------
// Names.

/// A character that is safe in a ref.
pub open spec fn simple_char(c: char) -> bool {
    ('a' <= c && c <= 'z') || ('A' <= c && c <= 'Z') || ('0' <= c && c <= '9') || c == '-' || c
        == '_'
}

/// Whether an id can stand in a ref as it is.
pub open spec fn simple_id(id: Seq<char>) -> bool {
    0 < id.len() <= 100 && id[0] != '-' && forall|i: int|
        0 <= i < id.len() ==> simple_char(#[trigger] id[i])
}

/// A ref-safe path component for an id: kept as is when simple, else a stable hash.
pub open spec fn component_of(id: Seq<char>) -> Seq<char> {
    if simple_id(id) {
        id
    } else {
        seq!['h'] + crate::store::hex_digits(
            crate::store::fnv_parts(seq![crate::bytes::text_bytes(id)]) as nat,
            16,
        )
    }
}

/// A ref-safe path component for `id`: kept as is when simple, else a stable hash.
pub fn ref_component(id: &str) -> (component: String)
    ensures
        component@ == component_of(id@),
{
    let chars = chars_of(id);
    let mut simple = chars.len() > 0 && chars.len() <= 100 && chars[0] != '-';
    let mut i: usize = 0;
    while i < chars.len()
        invariant
            i <= chars@.len(),
            chars@ == id@,
            simple <==> 0 < chars@.len() <= 100 && chars@[0] != '-' && forall|k: int|
                0 <= k < i ==> simple_char(#[trigger] chars@[k]),
        decreases chars.len() - i,
    {
        let c = chars[i];
        let fits = ('a' <= c && c <= 'z') || ('A' <= c && c <= 'Z') || ('0' <= c && c <= '9') || c
            == '-' || c == '_';
        if !fits {
            assert(!simple_char(chars@[i as int]));
            simple = false;
        }
        i = i + 1;
    }
    if simple {
        copy_text(id)
    } else {
        let parts = vec![id.as_bytes()];
        let hash = stable_hash(parts.as_slice());
        proof {
            assert(crate::store::part_bytes(parts@) =~= seq![crate::bytes::text_bytes(id@)]);
        }
        let mut component = copy_text("h");
        push_hex(&mut component, hash, 16);
        proof {
            reveal_strlit("h");
            assert("h"@ =~= seq!['h']);
        }
        component
    }
}

/// An event's name.
pub open spec fn event_name(event: TurnEvent) -> Seq<char> {
    match event {
        TurnEvent::Start => "start"@,
        TurnEvent::End => "end"@,
    }
}

/// The ref of a snapshot: `refs/goro/turns/<session>/<unix ms>-<start|end>`.
pub open spec fn snapshot_ref(meta: MetaView) -> Seq<char> {
    TURNS_REF@ + "/"@ + component_of(meta.session_id) + "/"@ + crate::text::digits(
        meta.at_ms as nat,
    ) + "-"@ + event_name(meta.event)
}

/// The ref of a snapshot.
pub fn ref_name(meta: &SnapshotMeta) -> (name: String)
    ensures
        name@ == snapshot_ref(meta.deep_view()),
{
    let mut name = copy_text(TURNS_REF);
    push_text(&mut name, "/");
    push_text(&mut name, ref_component(meta.session_id.as_str()).as_str());
    push_text(&mut name, "/");
    push_number(&mut name, meta.at_ms);
    push_text(&mut name, "-");
    push_text(
        &mut name,
        match meta.event {
            TurnEvent::Start => "start",
            TurnEvent::End => "end",
        },
    );
    name
}

// ---------------------------------------------------------------------------
// Taking a snapshot.

/// A path below a directory.
pub open spec fn joined(dir: Seq<u8>, name: Seq<u8>) -> Seq<u8> {
    if dir.len() == 0 || dir.last() == 47 {
        dir + name
    } else {
        dir + seq![47u8] + name
    }
}

/// A path below a directory.
pub fn join(dir: &[u8], name: &[u8]) -> (path: Vec<u8>)
    ensures
        path@ == joined(dir@, name@),
{
    let mut path = copy(dir);
    if dir.len() != 0 && dir[dir.len() - 1] != 47 {
        crate::bytes::append_byte(&mut path, 47);
    }
    append(&mut path, name);
    path
}

/// The name of a temporary index, after the process and the time.
pub open spec fn temp_name(pid: u32, nanos: u64) -> Seq<char> {
    "goro-index-"@ + crate::text::digits(pid as nat) + "-"@ + crate::text::digits(nanos as nat)
}

/// The name of a temporary index, after the process and the time.
pub fn temp_index_name(pid: u32, nanos: u64) -> (name: String)
    ensures
        name@ == temp_name(pid, nanos),
{
    let mut name = copy_text("goro-index-");
    push_number(&mut name, pid as u64);
    push_text(&mut name, "-");
    push_number(&mut name, nanos);
    name
}

/// Removes the temporary index, whether that works or not.
pub open spec fn forgotten<V>(
    replies: Seq<ReplyView>,
    at: int,
    path: Seq<u8>,
    result: StepView<V>,
) -> StepView<V> {
    if at >= replies.len() {
        StepView::Call(CallView::Forget { path })
    } else {
        match result {
            StepView::Done(value, _) => StepView::Done(value, at + 1),
            other => other,
        }
    }
}

/// Adds everything to the temporary index, writes it as a tree, and removes the index,
/// also where one of the first two failed.
pub open spec fn tree_through(replies: Seq<ReplyView>, at: int, index: Seq<u8>) -> StepView<
    Seq<char>,
> {
    let add = calls::git_out(
        replies,
        at,
        CallView::IndexedGit { args: seq![ops::word("add"), ops::word("-A")], index },
    );
    match add {
        StepView::Call(call) => StepView::Call(call),
        StepView::Failed(error) => forgotten(replies, at + 1, index, StepView::Failed(error)),
        StepView::Done(_, next) => match calls::git_out(
            replies,
            next,
            CallView::IndexedGit { args: seq![ops::word("write-tree")], index },
        ) {
            StepView::Call(call) => StepView::Call(call),
            StepView::Failed(error) => forgotten(replies, next + 1, index, StepView::Failed(error)),
            StepView::Done(out, next) => forgotten(
                replies,
                next,
                index,
                StepView::Done(ops::answer(out), next),
            ),
        },
    }
}

/// Asks where git keeps its files.
pub open spec fn git_dir_call() -> CallView {
    ops::git_call(seq![ops::word("rev-parse"), ops::word("--absolute-git-dir")], None)
}

/// A tree of the current working tree, written through a temporary copy of the index.
pub open spec fn tree_step(replies: Seq<ReplyView>, temp: Seq<char>) -> StepView<Seq<char>> {
    match calls::git_out(replies, 0, git_dir_call()) {
        StepView::Call(call) => StepView::Call(call),
        StepView::Failed(error) => StepView::Failed(error),
        StepView::Done(out, at) => {
            let dir = crate::bytes::text_bytes(ops::answer(out));
            let index = joined(dir, crate::bytes::text_bytes(temp));
            match calls::work_done(
                replies,
                at,
                CallView::CopyIfExists { from: joined(dir, ops::word("index")), to: index },
            ) {
                StepView::Call(call) => StepView::Call(call),
                StepView::Failed(error) => StepView::Failed(error),
                StepView::Done(_, at) => tree_through(replies, at, index),
            }
        },
    }
}

fn forget<V: DeepView>(
    replies: &[Reply],
    at: usize,
    path: &[u8],
    result: Result<V, calls::OpError>,
) -> (step: Step<V>)
    ensures
        step.deep_view() == forgotten(
            calls::told(replies@),
            at as int,
            path@,
            match result {
                Ok(value) => StepView::Done(value.deep_view(), 0),
                Err(error) => StepView::Failed(error.deep_view()),
            },
        ),
{
    if at >= replies.len() {
        return Step::Call(Call::Forget { path: copy(path) });
    }
    match result {
        Ok(value) => Step::Done(value, at + 1),
        Err(error) => Step::Failed(error),
    }
}

fn write_through(replies: &[Reply], at: usize, index: &[u8]) -> (step: Step<String>)
    ensures
        step.deep_view() == tree_through(calls::told(replies@), at as int, index@),
{
    let count: usize = replies.len();
    assert(calls::told(replies@).len() == count);
    let args = vec![bytes_of("add"), bytes_of("-A")];
    assert(args.deep_view() =~= seq![ops::word("add"), ops::word("-A")]);
    let next = match run_git(replies, at, Call::IndexedGit { args, index: copy(index) }) {
        Step::Call(call) => {
            return Step::Call(call);
        },
        Step::Failed(error) => {
            return forget(replies, at + 1, index, Err(error));
        },
        Step::Done(_, next) => next,
    };
    let args = vec![bytes_of("write-tree")];
    assert(args.deep_view() =~= seq![ops::word("write-tree")]);
    match run_git(replies, next, Call::IndexedGit { args, index: copy(index) }) {
        Step::Call(call) => Step::Call(call),
        Step::Failed(error) => forget(replies, next + 1, index, Err(error)),
        Step::Done(out, next) => {
            let tree = trim(from_utf8_lossy(out.as_slice()).as_str());
            forget(replies, next, index, Ok(tree))
        },
    }
}

/// A tree of the current working tree (tracked and untracked, ignoring what git
/// ignores), written through a temporary copy of the index.
pub fn worktree_tree(temp: &str, replies: &[Reply]) -> (step: Step<String>)
    ensures
        step.deep_view() == tree_step(calls::told(replies@), temp@),
{
    let args = vec![bytes_of("rev-parse"), bytes_of("--absolute-git-dir")];
    assert(args.deep_view() =~= seq![ops::word("rev-parse"), ops::word("--absolute-git-dir")]);
    let (dir, at) = match run_git(
        replies,
        0,
        Call::Git { args, stdin: None, internal: false },
    ) {
        Step::Call(call) => {
            return Step::Call(call);
        },
        Step::Failed(error) => {
            return Step::Failed(error);
        },
        Step::Done(out, at) => (trim(from_utf8_lossy(out.as_slice()).as_str()), at),
    };
    let index = join(dir.as_str().as_bytes(), temp.as_bytes());
    let from = join(dir.as_str().as_bytes(), "index".as_bytes());
    // Starting from the real index keeps its stat cache, so unchanged files aren't
    // re-hashed.
    match do_work(replies, at, Call::CopyIfExists { from, to: copy(index.as_slice()) }) {
        Step::Call(call) => Step::Call(call),
        Step::Failed(error) => Step::Failed(error),
        Step::Done(_, at) => write_through(replies, at, index.as_slice()),
    }
}

/// Recording a snapshot: the tree, a commit with the metadata as its message, and the ref.
pub open spec fn snapshot_step(
    meta: MetaView,
    json: Seq<char>,
    temp: Seq<char>,
    replies: Seq<ReplyView>,
) -> StepView<SnapshotView> {
    match tree_step(replies, temp) {
        StepView::Call(call) => StepView::Call(call),
        StepView::Failed(error) => StepView::Failed(error),
        StepView::Done(tree, at) => match calls::git_out(
            replies,
            at,
            ops::internal_call(
                seq![
                    ops::word("commit-tree"),
                    crate::bytes::text_bytes(tree),
                    ops::word("-m"),
                    crate::bytes::text_bytes(MESSAGE_PREFIX@ + json),
                ],
                None,
            ),
        ) {
            StepView::Call(call) => StepView::Call(call),
            StepView::Failed(error) => StepView::Failed(error),
            StepView::Done(out, at) => {
                let commit = ops::answer(out);
                match calls::git_out(
                    replies,
                    at,
                    ops::internal_call(
                        seq![
                            ops::word("update-ref"),
                            crate::bytes::text_bytes(snapshot_ref(meta)),
                            crate::bytes::text_bytes(commit),
                        ],
                        None,
                    ),
                ) {
                    StepView::Call(call) => StepView::Call(call),
                    StepView::Failed(error) => StepView::Failed(error),
                    StepView::Done(_, at) => StepView::Done(
                        SnapshotView { commit, tree, meta },
                        at,
                    ),
                }
            },
        },
    }
}

/// Only replies that came are used.
pub proof fn lemma_snapshot_used(
    meta: MetaView,
    json: Seq<char>,
    temp: Seq<char>,
    replies: Seq<ReplyView>,
)
    ensures
        snapshot_step(meta, json, temp, replies) matches StepView::Done(taken, used) ==> 0 <= used
            <= replies.len() && taken.meta == meta,
{
}

/// Snapshot the working tree and record it for `meta`, whose JSON is `json`.
pub fn snapshot(meta: &SnapshotMeta, json: &str, temp: &str, replies: &[Reply]) -> (step: Step<
    Snapshot,
>)
    ensures
        step.deep_view() == snapshot_step(
            meta.deep_view(),
            json@,
            temp@,
            calls::told(replies@),
        ),
{
    let (tree, at) = match worktree_tree(temp, replies) {
        Step::Call(call) => {
            return Step::Call(call);
        },
        Step::Failed(error) => {
            return Step::Failed(error);
        },
        Step::Done(tree, at) => (tree, at),
    };
    let mut message = copy_text(MESSAGE_PREFIX);
    push_text(&mut message, json);
    let args = vec![
        bytes_of("commit-tree"),
        bytes_of(tree.as_str()),
        bytes_of("-m"),
        bytes_of(message.as_str()),
    ];
    assert(args.deep_view() =~= seq![
        ops::word("commit-tree"),
        crate::bytes::text_bytes(tree@),
        ops::word("-m"),
        crate::bytes::text_bytes(MESSAGE_PREFIX@ + json@),
    ]);
    let (commit, at) = match run_git(
        replies,
        at,
        Call::Git { args, stdin: None, internal: true },
    ) {
        Step::Call(call) => {
            return Step::Call(call);
        },
        Step::Failed(error) => {
            return Step::Failed(error);
        },
        Step::Done(out, at) => (trim(from_utf8_lossy(out.as_slice()).as_str()), at),
    };
    let name = ref_name(meta);
    let args = vec![
        bytes_of("update-ref"),
        bytes_of(name.as_str()),
        bytes_of(commit.as_str()),
    ];
    assert(args.deep_view() =~= seq![
        ops::word("update-ref"),
        crate::bytes::text_bytes(name@),
        crate::bytes::text_bytes(commit@),
    ]);
    match run_git(replies, at, Call::Git { args, stdin: None, internal: true }) {
        Step::Call(call) => Step::Call(call),
        Step::Failed(error) => Step::Failed(error),
        Step::Done(_, at) => Step::Done(Snapshot { commit, tree, meta: meta.copy() }, at),
    }
}

/// Taking a snapshot never touches the user's index: what adds or writes an index runs on
/// the temporary one, and no file of the worktree is written or removed.
pub proof fn law_snapshots_leave_the_index_alone(
    meta: MetaView,
    json: Seq<char>,
    temp: Seq<char>,
    replies: Seq<ReplyView>,
    call: CallView,
)
    requires
        snapshot_step(meta, json, temp, replies) == StepView::<SnapshotView>::Call(call),
    ensures
        !(call is Remove) && !(call is Write),
        call matches CallView::Git { args, .. } ==> args.len() > 0 && (args[0] == ops::word(
            "rev-parse",
        ) || args[0] == ops::word("commit-tree") || args[0] == ops::word("update-ref")),
{
}

// ---------------------------------------------------------------------------
// Reading snapshots.

/// A recorded snapshot whose metadata is still JSON.
#[derive(Debug, PartialEq, Eq)]
pub struct Record {
    pub commit: String,
    pub tree: String,
    pub json: String,
}

/// A recorded snapshot, as text.
pub struct RecordView {
    pub commit: Seq<char>,
    pub tree: Seq<char>,
    pub json: Seq<char>,
}

impl DeepView for Record {
    type V = RecordView;

    open spec fn deep_view(&self) -> RecordView {
        RecordView { commit: self.commit@, tree: self.tree@, json: self.json@ }
    }
}

/// How many newlines a text begins with.
pub open spec fn leading_newlines(text: Seq<char>) -> int
    decreases text.len(),
{
    if text.len() > 0 && text[0] == '\n' {
        1 + leading_newlines(text.drop_first())
    } else {
        0
    }
}

/// What a record of three fields with 0x1f between them says, if its third field is a
/// snapshot's message.
pub open spec fn record_in(part: Seq<char>) -> Option<RecordView> {
    let text = part.skip(leading_newlines(part));
    let first = crate::text::find_char(text, '\u{1f}', 0);
    let second = crate::text::find_char(text, '\u{1f}', first + 1);
    if first < text.len() && second < text.len() && crate::text::starts_with(
        text.skip(second + 1),
        MESSAGE_PREFIX@,
    ) {
        Some(
            RecordView {
                commit: text.take(first),
                tree: text.subrange(first + 1, second),
                json: crate::text::trimmed(text.skip(second + 1 + MESSAGE_PREFIX@.len())),
            },
        )
    } else {
        None
    }
}

/// What the records among the parts say.
pub open spec fn records_in(parts: Seq<Seq<char>>) -> Seq<RecordView>
    decreases parts.len(),
{
    if parts.len() == 0 {
        Seq::empty()
    } else {
        let before = records_in(parts.drop_last());
        match record_in(parts.last()) {
            Some(record) => before.push(record),
            None => before,
        }
    }
}

proof fn lemma_find_char(text: Seq<char>, c: char, from: int)
    requires
        0 <= from,
    ensures
        from <= text.len() ==> from <= crate::text::find_char(text, c, from) <= text.len(),
        from > text.len() ==> crate::text::find_char(text, c, from) == text.len(),
    decreases text.len() - from,
{
    if from < text.len() && text[from] != c {
        lemma_find_char(text, c, from + 1);
    }
}

/// Where the characters from a position on hold one, or their number.
fn find_from(chars: &[char], c: char, from: usize) -> (at: usize)
    requires
        from <= chars@.len(),
    ensures
        at == crate::text::find_char(chars@, c, from as int),
        from <= at <= chars@.len(),
{
    let mut i: usize = from;
    while i < chars.len() && chars[i] != c
        invariant
            from <= i <= chars@.len(),
            crate::text::find_char(chars@, c, from as int) == crate::text::find_char(
                chars@,
                c,
                i as int,
            ),
        decreases chars.len() - i,
    {
        i = i + 1;
    }
    i
}

fn without_newlines(part: &str) -> (chars: Vec<char>)
    ensures
        chars@ == part@.skip(leading_newlines(part@)),
{
    let all = chars_of(part);
    let count: usize = all.len();
    let mut start: usize = 0;
    assert(all@.skip(0) =~= all@);
    while start < count && all[start] == '\n'
        invariant
            start <= count == all@.len(),
            leading_newlines(all@) == start + leading_newlines(all@.skip(start as int)),
        decreases count - start,
    {
        assert(all@.skip(start as int).drop_first() =~= all@.skip(start + 1));
        start = start + 1;
    }
    assert(leading_newlines(all@.skip(start as int)) == 0);
    let mut chars: Vec<char> = Vec::new();
    let mut i: usize = start;
    while i < count
        invariant
            start <= i <= count == all@.len(),
            chars@ == all@.subrange(start as int, i as int),
        decreases count - i,
    {
        chars.push(all[i]);
        i = i + 1;
        assert(chars@ =~= all@.subrange(start as int, i as int));
    }
    assert(chars@ =~= all@.skip(start as int));
    chars
}

fn parse_record(part: &str) -> (record: Option<Record>)
    ensures
        record.deep_view() == record_in(part@),
{
    let chars = without_newlines(part);
    let count: usize = chars.len();
    let first = find_from(chars.as_slice(), '\u{1f}', 0);
    proof {
        lemma_find_char(chars@, '\u{1f}', first + 1);
    }
    if first >= count {
        return None;
    }
    let second = find_from(chars.as_slice(), '\u{1f}', first + 1);
    if second >= count || !begins(chars.as_slice(), second + 1, MESSAGE_PREFIX) {
        return None;
    }
    let prefix: usize = chars_of(MESSAGE_PREFIX).len();
    assert(chars@.skip(second + 1).len() == count - second - 1);
    let from: usize = second + 1 + prefix;
    let json = part_of(chars.as_slice(), from, count);
    proof {
        assert(chars@.subrange(from as int, count as int) =~= chars@.skip(from as int));
        assert(chars@.subrange(0, first as int) =~= chars@.take(first as int));
    }
    Some(
        Record {
            commit: part_of(chars.as_slice(), 0, first),
            tree: part_of(chars.as_slice(), first + 1, second),
            json: trim(json.as_str()),
        },
    )
}

/// Asks for the recorded snapshots: records separated by 0x1e, fields by 0x1f.
pub open spec fn snapshots_call() -> CallView {
    ops::git_call(
        seq![
            ops::word("for-each-ref"),
            ops::word("--format=%(objectname)%1f%(tree)%1f%(contents)%1e"),
            ops::word(TURNS_REF),
        ],
        None,
    )
}

/// The recorded snapshots.
pub open spec fn records_step(replies: Seq<ReplyView>) -> StepView<Seq<RecordView>> {
    match calls::git_out(replies, 0, snapshots_call()) {
        StepView::Call(call) => StepView::Call(call),
        StepView::Failed(error) => StepView::Failed(error),
        StepView::Done(out, at) => StepView::Done(
            records_in(crate::text::text_pieces(crate::text::lossy(out), '\u{1e}')),
            at,
        ),
    }
}

/// The recorded snapshots; their metadata is still JSON.
pub fn read_records(replies: &[Reply]) -> (step: Step<Vec<Record>>)
    ensures
        step.deep_view() == records_step(calls::told(replies@)),
{
    let args = vec![
        bytes_of("for-each-ref"),
        bytes_of("--format=%(objectname)%1f%(tree)%1f%(contents)%1e"),
        bytes_of(TURNS_REF),
    ];
    assert(args.deep_view() =~= seq![
        ops::word("for-each-ref"),
        ops::word("--format=%(objectname)%1f%(tree)%1f%(contents)%1e"),
        ops::word(TURNS_REF),
    ]);
    let (out, at) = match run_git(
        replies,
        0,
        Call::Git { args, stdin: None, internal: false },
    ) {
        Step::Call(call) => {
            return Step::Call(call);
        },
        Step::Failed(error) => {
            return Step::Failed(error);
        },
        Step::Done(out, at) => (out, at),
    };
    let parts = split_text(from_utf8_lossy(out.as_slice()).as_str(), '\u{1e}');
    let ghost all = parts.deep_view();
    let mut records: Vec<Record> = Vec::new();
    let mut k: usize = 0;
    proof {
        assert(all.take(0) =~= Seq::<Seq<char>>::empty());
        assert(records.deep_view() =~= Seq::<RecordView>::empty());
    }
    while k < parts.len()
        invariant
            k <= parts@.len(),
            all == parts.deep_view(),
            records.deep_view() == records_in(all.take(k as int)),
        decreases parts.len() - k,
    {
        proof {
            assert(all.take(k + 1).drop_last() =~= all.take(k as int));
            assert(all.take(k + 1).last() == parts@[k as int]@);
        }
        if let Some(record) = parse_record(parts[k].as_str()) {
            let ghost before = records.deep_view();
            let ghost shown = record.deep_view();
            records.push(record);
            assert(records.deep_view() =~= before.push(shown));
        }
        k = k + 1;
    }
    assert(all.take(k as int) =~= all);
    Step::Done(records, at)
}

// ---------------------------------------------------------------------------
// Pairing snapshots into turns.

#[derive(Debug, PartialEq, Eq)]
pub struct Turn {
    pub prompt: Option<String>,
    pub start: Option<Snapshot>,
    /// `None` while the turn is still running.
    pub end: Option<Snapshot>,
}

/// A turn, as text.
pub struct TurnView {
    pub prompt: Option<Seq<char>>,
    pub start: Option<SnapshotView>,
    pub end: Option<SnapshotView>,
}

impl DeepView for Turn {
    type V = TurnView;

    open spec fn deep_view(&self) -> TurnView {
        TurnView {
            prompt: self.prompt.deep_view(),
            start: self.start.deep_view(),
            end: self.end.deep_view(),
        }
    }
}

#[derive(Debug, PartialEq, Eq)]
pub struct Session {
    pub id: String,
    pub agent: String,
    /// In order.
    pub turns: Vec<Turn>,
    /// Time of the latest snapshot.
    pub last_at_ms: u64,
}

/// A session, as text.
pub struct SessionView {
    pub id: Seq<char>,
    pub agent: Seq<char>,
    pub turns: Seq<TurnView>,
    pub last_at_ms: u64,
}

impl DeepView for Session {
    type V = SessionView;

    open spec fn deep_view(&self) -> SessionView {
        SessionView {
            id: self.id@,
            agent: self.agent@,
            turns: self.turns.deep_view(),
            last_at_ms: self.last_at_ms,
        }
    }
}

impl Ranked for Snapshot {
    /// By time.
    open spec fn before(&self, other: &Self) -> bool {
        self.meta.at_ms < other.meta.at_ms
    }

    fn is_before(&self, other: &Self) -> (result: bool) {
        self.meta.at_ms < other.meta.at_ms
    }

    proof fn lemma_weak(a: &Self, b: &Self, c: &Self) {
    }
}

impl Ranked for Session {
    /// The latest first.
    open spec fn before(&self, other: &Self) -> bool {
        other.last_at_ms < self.last_at_ms
    }

    fn is_before(&self, other: &Self) -> (result: bool) {
        other.last_at_ms < self.last_at_ms
    }

    proof fn lemma_weak(a: &Self, b: &Self, c: &Self) {
    }
}

/// Whether a turn waits for this end: it has none, and the same id if both have to do with
/// one.
pub open spec fn awaits(turn: TurnView, end: SnapshotView) -> bool {
    turn.end is None && match (end.meta.turn_id, turn.start) {
        (Some(id), Some(start)) => start.meta.turn_id == Some(id),
        _ => true,
    }
}

/// The latest of the first `count` turns that waits for an end.
pub open spec fn open_turn(turns: Seq<TurnView>, end: SnapshotView, count: int) -> Option<int>
    decreases count,
{
    if count <= 0 {
        None
    } else if awaits(turns[count - 1], end) {
        Some(count - 1)
    } else {
        open_turn(turns, end, count - 1)
    }
}

/// A session's turns with one more snapshot: a start opens a turn, an end closes the latest
/// that waits for it, or stands alone.
pub open spec fn turns_with(turns: Seq<TurnView>, snapshot: SnapshotView) -> Seq<TurnView> {
    match snapshot.meta.event {
        TurnEvent::Start => turns.push(
            TurnView { prompt: snapshot.meta.prompt, start: Some(snapshot), end: None },
        ),
        TurnEvent::End => match open_turn(turns, snapshot, turns.len() as int) {
            Some(t) => turns.update(t, TurnView { end: Some(snapshot), ..turns[t] }),
            None => turns.push(TurnView { prompt: None, start: None, end: Some(snapshot) }),
        },
    }
}

/// The first session from `k` on with an id.
pub open spec fn session_from(sessions: Seq<SessionView>, id: Seq<char>, k: int) -> int
    decreases sessions.len() - k,
{
    if k >= sessions.len() {
        sessions.len() as int
    } else if sessions[k].id == id {
        k
    } else {
        session_from(sessions, id, k + 1)
    }
}

/// Sessions with one more snapshot, which goes to the session with its id.
pub open spec fn sessions_with(sessions: Seq<SessionView>, snapshot: SnapshotView) -> Seq<
    SessionView,
> {
    let at = session_from(sessions, snapshot.meta.session_id, 0);
    let known = if at < sessions.len() {
        sessions
    } else {
        sessions.push(
            SessionView {
                id: snapshot.meta.session_id,
                agent: snapshot.meta.agent,
                turns: Seq::empty(),
                last_at_ms: 0,
            },
        )
    };
    known.update(
        at,
        SessionView {
            turns: turns_with(known[at].turns, snapshot),
            last_at_ms: snapshot.meta.at_ms,
            ..known[at]
        },
    )
}

/// The sessions of snapshots in the order of their times.
pub open spec fn paired(snapshots: Seq<SnapshotView>) -> Seq<SessionView>
    decreases snapshots.len(),
{
    if snapshots.len() == 0 {
        Seq::empty()
    } else {
        sessions_with(paired(snapshots.drop_last()), snapshots.last())
    }
}

/// Snapshots as text.
pub open spec fn snapshot_views(snapshots: Seq<Snapshot>) -> Seq<SnapshotView> {
    snapshots.map_values(|s: Snapshot| s.deep_view())
}

/// Whether `listed` are the sessions of some snapshots, most recently active first.
pub open spec fn sessions_of(snapshots: Seq<Snapshot>, listed: Seq<Session>) -> bool {
    exists|found: Seq<Session>|
        found.map_values(|s: Session| s.deep_view()) == paired(
            snapshot_views(sorting::sorted(snapshots)),
        ) && listed == #[trigger] sorting::sorted(found)
}

fn same_id(a: &Option<String>, b: &Option<String>) -> (result: bool)
    ensures
        result == (a.deep_view() == b.deep_view()),
{
    match (a, b) {
        (None, None) => true,
        (Some(x), Some(y)) => same_text(x.as_str(), y.as_str()),
        _ => false,
    }
}

fn does_await(turn: &Turn, end: &Snapshot) -> (result: bool)
    ensures
        result == awaits(turn.deep_view(), end.deep_view()),
{
    turn.end.is_none() && match (&end.meta.turn_id, &turn.start) {
        (Some(_), Some(start)) => same_id(&start.meta.turn_id, &end.meta.turn_id),
        _ => true,
    }
}

proof fn lemma_open_turn(turns: Seq<TurnView>, end: SnapshotView, count: int)
    requires
        count <= turns.len(),
    ensures
        open_turn(turns, end, count) matches Some(t) ==> 0 <= t < count,
    decreases count,
{
    if count > 0 && !awaits(turns[count - 1], end) {
        lemma_open_turn(turns, end, count - 1);
    }
}

fn add_to_turns(turns: &mut Vec<Turn>, snapshot: Snapshot)
    ensures
        final(turns).deep_view() == turns_with(old(turns).deep_view(), snapshot.deep_view()),
{
    let ghost before = turns.deep_view();
    let ghost shown = snapshot.deep_view();
    match snapshot.meta.event {
        TurnEvent::Start => {
            let turn = Turn {
                prompt: copy_option(&snapshot.meta.prompt),
                start: Some(snapshot),
                end: None,
            };
            turns.push(turn);
            assert(turns.deep_view() =~= turns_with(before, shown));
        },
        TurnEvent::End => {
            let mut count: usize = turns.len();
            while count > 0 && !does_await(&turns[count - 1], &snapshot)
                invariant
                    count <= turns@.len(),
                    turns.deep_view() == before,
                    snapshot.deep_view() == shown,
                    open_turn(before, shown, before.len() as int) == open_turn(
                        before,
                        shown,
                        count as int,
                    ),
                decreases count,
            {
                assert(before[count - 1] == turns@[count - 1].deep_view());
                count = count - 1;
            }
            if count > 0 {
                assert(before[count - 1] == turns@[count - 1].deep_view());
                assert(open_turn(before, shown, before.len() as int) == Some(count - 1));
                turns[count - 1].end = Some(snapshot);
                assert(turns.deep_view() =~= turns_with(before, shown));
            } else {
                turns.push(Turn { prompt: None, start: None, end: Some(snapshot) });
                assert(turns.deep_view() =~= turns_with(before, shown));
            }
        },
    }
}

fn add_snapshot(sessions: &mut Vec<Session>, snapshot: Snapshot)
    ensures
        final(sessions).deep_view() == sessions_with(
            old(sessions).deep_view(),
            snapshot.deep_view(),
        ),
{
    let ghost before = sessions.deep_view();
    let ghost shown = snapshot.deep_view();
    let mut at: usize = 0;
    while at < sessions.len() && !same_text(
        sessions[at].id.as_str(),
        snapshot.meta.session_id.as_str(),
    )
        invariant
            at <= sessions@.len(),
            sessions.deep_view() == before,
            snapshot.deep_view() == shown,
            session_from(before, shown.meta.session_id, 0) == session_from(
                before,
                shown.meta.session_id,
                at as int,
            ),
        decreases sessions.len() - at,
    {
        assert(before[at as int] == sessions@[at as int].deep_view());
        at = at + 1;
    }
    proof {
        if at < sessions@.len() {
            assert(before[at as int] == sessions@[at as int].deep_view());
        }
        assert(session_from(before, shown.meta.session_id, 0) == at);
    }
    if at == sessions.len() {
        let turns: Vec<Turn> = Vec::new();
        assert(turns.deep_view() =~= Seq::<TurnView>::empty());
        sessions.push(
            Session {
                id: snapshot.meta.session_id.clone(),
                agent: snapshot.meta.agent.clone(),
                turns,
                last_at_ms: 0,
            },
        );
    }
    let ghost known = sessions.deep_view();
    proof {
        if at == before.len() {
            assert(known =~= before.push(
                SessionView {
                    id: shown.meta.session_id,
                    agent: shown.meta.agent,
                    turns: Seq::empty(),
                    last_at_ms: 0,
                },
            ));
        }
        assert(known[at as int] == sessions@[at as int].deep_view());
    }
    sessions[at].last_at_ms = snapshot.meta.at_ms;
    let ghost mid = sessions@;
    add_to_turns(&mut sessions[at].turns, snapshot);
    proof {
        assert(sessions.deep_view() =~= sessions_with(before, shown)) by {
            assert forall|i: int| 0 <= i < known.len() implies #[trigger] sessions.deep_view()[i]
                == sessions_with(before, shown)[i] by {
                if i != at {
                    assert(known[i] == mid[i].deep_view());
                }
            }
        }
    }
}

/// All recorded sessions, most recently active first.
pub fn list(snapshots: Vec<Snapshot>) -> (listed: Vec<Session>)
    ensures
        sessions_of(snapshots@, listed@),
        is_timeline(session_views(listed@)),
        latest_first(session_views(listed@)),
        forall|i: int|
            0 <= i < snapshots@.len() ==> sessions_have(
                session_views(listed@),
                (#[trigger] snapshots@[i]).deep_view(),
            ),
{
    let ghost given = snapshots@;
    let ordered = sort(snapshots);
    let ghost all = ordered@;
    let mut sessions: Vec<Session> = Vec::new();
    proof {
        assert(snapshot_views(all).take(0) =~= Seq::<SnapshotView>::empty());
        assert(sessions.deep_view() =~= Seq::<SessionView>::empty());
    }
    for snapshot in iter: ordered
        invariant
            iter.seq() == all,
            sessions.deep_view() == paired(snapshot_views(all).take(iter.index() as int)),
    {
        proof {
            let views = snapshot_views(all);
            assert(views.take(iter.index() + 1).drop_last() =~= views.take(iter.index() as int));
            assert(views.take(iter.index() + 1).last() == snapshot.deep_view());
        }
        add_snapshot(&mut sessions, snapshot);
    }
    proof {
        assert(snapshot_views(all).take(all.len() as int) =~= snapshot_views(all));
        assert(sessions@.map_values(|s: Session| s.deep_view()) =~= sessions.deep_view());
    }
    let listed = sort(sessions);
    assert(listed@ == sorting::sorted(sessions@));
    proof {
        law_listed_sessions_are_a_timeline(given, listed@);
    }
    listed
}

// ---------------------------------------------------------------------------
// What the turns of a session are.

/// Whether an end can be that of a turn with this start: it names none, or the same turn.
pub open spec fn asks_for(end: SnapshotView, start: SnapshotView) -> bool {
    end.meta.turn_id is None || end.meta.turn_id == start.meta.turn_id
}

/// Whether a turn is one of a session: it has a start or an end, which are of this session and
/// belong together, the start first; and it is known by what was asked at its start.
pub open spec fn is_turn(turn: TurnView, id: Seq<char>) -> bool {
    &&& turn.start is Some || turn.end is Some
    &&& turn.start matches Some(s) ==> s.meta.event == TurnEvent::Start && s.meta.session_id == id
        && turn.prompt == s.meta.prompt
    &&& turn.start is None ==> turn.prompt is None
    &&& turn.end matches Some(e) ==> e.meta.event == TurnEvent::End && e.meta.session_id == id
    &&& turn.start matches Some(s) ==> (turn.end matches Some(e) ==> s.meta.at_ms <= e.meta.at_ms
        && asks_for(e, s))
}

/// The snapshot that a turn begins with.
pub open spec fn opening(turn: TurnView) -> SnapshotView {
    match turn.start {
        Some(s) => s,
        None => turn.end->Some_0,
    }
}

/// Whether a turn was over by a time.
pub open spec fn is_over(turn: TurnView, at_ms: u64) -> bool {
    turn.end matches Some(e) && e.meta.at_ms <= at_ms
}

/// Whether one turn can stand before another. They begin in order. An end belongs to the latest
/// turn that waited for it: one that started before that end, and later than the turn that got
/// it, was over by then or asked for another end. An end stands alone only if no turn before
/// it waited for it.
pub open spec fn can_precede(a: TurnView, b: TurnView) -> bool {
    &&& opening(a).meta.at_ms <= opening(b).meta.at_ms
    &&& a.start is Some && a.end is Some && b.start is Some && b.start->Some_0.meta.at_ms
        < a.end->Some_0.meta.at_ms && asks_for(a.end->Some_0, b.start->Some_0) ==> is_over(
        b,
        a.end->Some_0.meta.at_ms,
    )
    &&& b.start is None && (a.start is None || asks_for(b.end->Some_0, a.start->Some_0))
        ==> is_over(a, b.end->Some_0.meta.at_ms)
}

/// Whether turns are those of a session, in order.
pub open spec fn is_history(turns: Seq<TurnView>, id: Seq<char>) -> bool {
    &&& forall|i: int| 0 <= i < turns.len() ==> is_turn(#[trigger] turns[i], id)
    &&& forall|i: int, j: int|
        #![trigger turns[i], turns[j]]
        0 <= i < j < turns.len() ==> can_precede(turns[i], turns[j])
}

/// Whether all snapshots of a turn were taken by a time.
pub open spec fn is_by(turn: TurnView, at_ms: u64) -> bool {
    &&& turn.start matches Some(s) ==> s.meta.at_ms <= at_ms
    &&& turn.end matches Some(e) ==> e.meta.at_ms <= at_ms
}

/// Whether all snapshots of turns were taken by a time.
pub open spec fn are_by(turns: Seq<TurnView>, at_ms: u64) -> bool {
    forall|i: int| 0 <= i < turns.len() ==> is_by(#[trigger] turns[i], at_ms)
}

/// Whether a turn holds a snapshot.
pub open spec fn turn_has(turn: TurnView, snapshot: SnapshotView) -> bool {
    turn.start == Some(snapshot) || turn.end == Some(snapshot)
}

/// Whether turns hold a snapshot.
pub open spec fn turns_have(turns: Seq<TurnView>, snapshot: SnapshotView) -> bool {
    exists|i: int| 0 <= i < turns.len() && turn_has(#[trigger] turns[i], snapshot)
}

/// Whether a turn holds a snapshot of a time.
pub open spec fn is_at(turn: TurnView, at_ms: u64) -> bool {
    (turn.start matches Some(s) && s.meta.at_ms == at_ms) || (turn.end matches Some(e)
        && e.meta.at_ms == at_ms)
}

/// Whether a session is one: its turns are in order, it is of the agent that its first snapshot
/// names, and its time is that of its latest snapshot.
pub open spec fn is_session(session: SessionView) -> bool {
    &&& session.turns.len() > 0
    &&& is_history(session.turns, session.id)
    &&& session.agent == opening(session.turns[0]).meta.agent
    &&& are_by(session.turns, session.last_at_ms)
    &&& exists|i: int|
        0 <= i < session.turns.len() && is_at(#[trigger] session.turns[i], session.last_at_ms)
}

/// Whether sessions are all sessions, each once.
pub open spec fn is_timeline(sessions: Seq<SessionView>) -> bool {
    &&& forall|i: int| 0 <= i < sessions.len() ==> is_session(#[trigger] sessions[i])
    &&& ids_distinct(sessions)
}

/// Whether sessions hold a snapshot, in the one that it is of.
pub open spec fn sessions_have(sessions: Seq<SessionView>, snapshot: SnapshotView) -> bool {
    exists|i: int|
        0 <= i < sessions.len() && (#[trigger] sessions[i]).id == snapshot.meta.session_id
            && turns_have(sessions[i].turns, snapshot)
}

/// The turn found is the latest that waits.
proof fn lemma_open_is_latest(turns: Seq<TurnView>, end: SnapshotView, count: int)
    requires
        0 <= count <= turns.len(),
    ensures
        match open_turn(turns, end, count) {
            Some(t) => 0 <= t < count && awaits(turns[t], end) && forall|j: int|
                t < j < count ==> !awaits(#[trigger] turns[j], end),
            None => forall|j: int| 0 <= j < count ==> !awaits(#[trigger] turns[j], end),
        },
    decreases count,
{
    if count > 0 && !awaits(turns[count - 1], end) {
        lemma_open_is_latest(turns, end, count - 1);
    }
}

proof fn lemma_history_grows(turns: Seq<TurnView>, snapshot: SnapshotView, id: Seq<char>)
    requires
        is_history(turns, id),
        are_by(turns, snapshot.meta.at_ms),
        snapshot.meta.session_id == id,
    ensures
        is_history(turns_with(turns, snapshot), id),
        are_by(turns_with(turns, snapshot), snapshot.meta.at_ms),
        turns_with(turns, snapshot).len() > 0,
        turns.len() > 0 ==> opening(turns_with(turns, snapshot)[0]) == opening(turns[0]),
        turns.len() == 0 ==> opening(turns_with(turns, snapshot)[0]) == snapshot,
        turns_have(turns_with(turns, snapshot), snapshot),
        forall|other: SnapshotView| #[trigger]
            turns_have(turns, other) ==> turns_have(turns_with(turns, snapshot), other),
{
    let after = turns_with(turns, snapshot);
    let n = turns.len() as int;
    lemma_open_is_latest(turns, snapshot, n);
    let at = match snapshot.meta.event {
        TurnEvent::Start => n,
        TurnEvent::End => match open_turn(turns, snapshot, n) {
            Some(t) => t,
            None => n,
        },
    };
    assert(turn_has(after[at], snapshot));
    assert forall|other: SnapshotView| #[trigger] turns_have(turns, other) implies turns_have(
        after,
        other,
    ) by {
        let i = choose|i: int| 0 <= i < turns.len() && turn_has(#[trigger] turns[i], other);
        assert(turn_has(after[i], other));
    }
    assert forall|i: int| 0 <= i < after.len() implies is_turn(#[trigger] after[i], id) && is_by(
        after[i],
        snapshot.meta.at_ms,
    ) by {
        if i < n {
            assert(is_turn(turns[i], id) && is_by(turns[i], snapshot.meta.at_ms));
        }
    }
    assert forall|i: int, j: int|
        #![trigger after[i], after[j]]
        0 <= i < j < after.len() implies can_precede(after[i], after[j]) by {
        assert(is_turn(turns[i], id) && is_by(turns[i], snapshot.meta.at_ms));
        if j < n {
            assert(is_turn(turns[j], id) && is_by(turns[j], snapshot.meta.at_ms));
            assert(can_precede(turns[i], turns[j]));
        }
    }
}

proof fn lemma_timeline_grows(sessions: Seq<SessionView>, snapshot: SnapshotView)
    requires
        is_timeline(sessions),
        forall|i: int|
            0 <= i < sessions.len() ==> (#[trigger] sessions[i]).last_at_ms
                <= snapshot.meta.at_ms,
    ensures
        is_timeline(sessions_with(sessions, snapshot)),
        forall|i: int|
            0 <= i < sessions_with(sessions, snapshot).len() ==> (#[trigger] sessions_with(
                sessions,
                snapshot,
            )[i]).last_at_ms <= snapshot.meta.at_ms,
        sessions_have(sessions_with(sessions, snapshot), snapshot),
        forall|other: SnapshotView| #[trigger]
            sessions_have(sessions, other) ==> sessions_have(
                sessions_with(sessions, snapshot),
                other,
            ),
{
    let id = snapshot.meta.session_id;
    let at = session_from(sessions, id, 0);
    lemma_session_from(sessions, id, 0);
    let fresh = SessionView {
        id,
        agent: snapshot.meta.agent,
        turns: Seq::empty(),
        last_at_ms: 0,
    };
    let known = if at < sessions.len() {
        sessions
    } else {
        sessions.push(fresh)
    };
    let after = sessions_with(sessions, snapshot);
    let turns = known[at].turns;
    assert forall|i: int| 0 <= i < turns.len() implies is_by(
        #[trigger] turns[i],
        snapshot.meta.at_ms,
    ) by {
        assert(is_session(sessions[at]));
        assert(is_by(sessions[at].turns[i], sessions[at].last_at_ms));
    }
    assert(is_history(turns, id)) by {
        if at < sessions.len() {
            assert(is_session(sessions[at]));
        }
    }
    lemma_history_grows(turns, snapshot, id);
    let grown = after[at].turns;
    let place = choose|i: int| 0 <= i < grown.len() && turn_has(#[trigger] grown[i], snapshot);
    assert(is_at(grown[place], snapshot.meta.at_ms));
    assert(is_session(after[at])) by {
        if at < sessions.len() {
            assert(is_session(sessions[at]));
        }
    }
    assert forall|i: int| 0 <= i < after.len() implies is_session(#[trigger] after[i])
        && after[i].last_at_ms <= snapshot.meta.at_ms by {
        if i != at {
            assert(after[i] == sessions[i]);
        }
    }
    assert(after[at].id == id);
    assert forall|other: SnapshotView| #[trigger] sessions_have(sessions, other) implies
        sessions_have(after, other) by {
        let i = choose|i: int|
            0 <= i < sessions.len() && (#[trigger] sessions[i]).id == other.meta.session_id
                && turns_have(sessions[i].turns, other);
        assert(after[i].id == other.meta.session_id);
        if i == at {
            assert(turns_have(turns, other));
        }
        assert(turns_have(after[i].turns, other));
    }
}

/// Whether snapshots are in the order of their times.
pub open spec fn in_time(snapshots: Seq<SnapshotView>) -> bool {
    forall|i: int, j: int|
        #![trigger snapshots[i], snapshots[j]]
        0 <= i < j < snapshots.len() ==> snapshots[i].meta.at_ms <= snapshots[j].meta.at_ms
}

/// Snapshots become sessions of turns. Each session is of one id, its turns begin in order, and
/// an end is that of the latest turn that waited for it: every turn that started later, and
/// before that end, was over by then or asks for another end. No snapshot is left out.
pub proof fn law_ends_belong_to_the_latest_open_turn(snapshots: Seq<SnapshotView>)
    requires
        in_time(snapshots),
    ensures
        is_timeline(paired(snapshots)),
        snapshots.len() > 0 ==> forall|i: int|
            0 <= i < paired(snapshots).len() ==> (#[trigger] paired(snapshots)[i]).last_at_ms
                <= snapshots.last().meta.at_ms,
        forall|i: int|
            0 <= i < snapshots.len() ==> sessions_have(
                paired(snapshots),
                #[trigger] snapshots[i],
            ),
    decreases snapshots.len(),
{
    if snapshots.len() > 0 {
        let before = snapshots.drop_last();
        let last = snapshots.last();
        assert(in_time(before)) by {
            assert forall|i: int, j: int|
                #![trigger before[i], before[j]]
                0 <= i < j < before.len() implies before[i].meta.at_ms <= before[j].meta.at_ms by {
                assert(snapshots[i].meta.at_ms <= snapshots[j].meta.at_ms);
            }
        }
        law_ends_belong_to_the_latest_open_turn(before);
        if before.len() > 0 {
            assert(snapshots[before.len() - 1].meta.at_ms <= snapshots[before.len() as int].meta.at_ms);
        }
        lemma_timeline_grows(paired(before), last);
        assert forall|i: int| 0 <= i < snapshots.len() implies sessions_have(
            paired(snapshots),
            #[trigger] snapshots[i],
        ) by {
            if i < before.len() {
                assert(before[i] == snapshots[i]);
                assert(sessions_have(paired(before), before[i]));
            }
        }
    }
}

/// Whether sessions stand with the one that was active last first.
pub open spec fn latest_first(sessions: Seq<SessionView>) -> bool {
    forall|i: int, j: int|
        #![trigger sessions[i], sessions[j]]
        0 <= i < j < sessions.len() ==> sessions[i].last_at_ms >= sessions[j].last_at_ms
}

/// What is listed are the sessions of the snapshots: each once and with all its turns (see
/// [`law_ends_belong_to_the_latest_open_turn`]), the one that was active last first, and every
/// snapshot in the session that it is of.
#[verifier::spinoff_prover]
#[verifier::rlimit(40)]
pub proof fn law_listed_sessions_are_a_timeline(snapshots: Seq<Snapshot>, listed: Seq<Session>)
    requires
        sessions_of(snapshots, listed),
    ensures
        is_timeline(session_views(listed)),
        latest_first(session_views(listed)),
        forall|i: int|
            0 <= i < snapshots.len() ==> sessions_have(
                session_views(listed),
                (#[trigger] snapshots[i]).deep_view(),
            ),
{
    let ordered = sorting::sorted(snapshots);
    let views = snapshot_views(ordered);
    let found = choose|found: Seq<Session>|
        found.map_values(|s: Session| s.deep_view()) == paired(
            snapshot_views(sorting::sorted(snapshots)),
        ) && listed == #[trigger] sorting::sorted(found);
    let shown = found.map_values(|s: Session| s.deep_view());
    let all = session_views(listed);
    sorting::law_sorting_sorts(snapshots);
    assert(in_time(views)) by {
        assert forall|i: int, j: int|
            #![trigger views[i], views[j]]
            0 <= i < j < views.len() implies views[i].meta.at_ms <= views[j].meta.at_ms by {
            assert(!ordered[j].before(&ordered[i]));
        }
    }
    law_ends_belong_to_the_latest_open_turn(views);
    sorting::law_sorting_sorts(found);
    sorting::lemma_sorted_places(found);
    sorting::lemma_sorted_places(snapshots);
    let places = sorting::places(found);
    assert forall|i: int| 0 <= i < all.len() implies is_session(#[trigger] all[i]) by {
        assert(listed[i] == found[places[i]]);
        assert(all[i] == shown[places[i]]);
    }
    assert forall|i: int, j: int|
        #![trigger all[i], all[j]]
        0 <= i < j < all.len() implies all[i].last_at_ms >= all[j].last_at_ms && all[i].id
        != all[j].id by {
        assert(!listed[j].before(&listed[i]));
        assert(listed[i] == found[places[i]] && listed[j] == found[places[j]]);
        assert(all[i] == shown[places[i]] && all[j] == shown[places[j]]);
        assert(places[i] != places[j]);
        let (x, y) = (places[i], places[j]);
        if x < y {
            assert(shown[x].id != shown[y].id);
        } else {
            assert(shown[y].id != shown[x].id);
        }
    }
    assert forall|i: int| 0 <= i < snapshots.len() implies sessions_have(
        all,
        (#[trigger] snapshots[i]).deep_view(),
    ) by {
        let k = sorting::lemma_place_of(snapshots, i);
        assert(views[k] == snapshots[i].deep_view());
        assert(sessions_have(shown, views[k]));
        let at = choose|at: int|
            0 <= at < shown.len() && (#[trigger] shown[at]).id == views[k].meta.session_id
                && turns_have(shown[at].turns, views[k]);
        let to = sorting::lemma_place_of(found, at);
        assert(all[to] == shown[at]);
        assert(all[to].id == views[k].meta.session_id);
    }
}

/// Sessions as text.
pub open spec fn session_views(sessions: Seq<Session>) -> Seq<SessionView> {
    sessions.map_values(|s: Session| s.deep_view())
}

/// How many snapshots a turn holds.
pub open spec fn held(turn: TurnView) -> nat {
    (if turn.start is Some {
        1nat
    } else {
        0nat
    }) + (if turn.end is Some {
        1nat
    } else {
        0nat
    })
}

/// How many snapshots turns hold.
pub open spec fn held_in(turns: Seq<TurnView>) -> nat
    decreases turns.len(),
{
    if turns.len() == 0 {
        0
    } else {
        held_in(turns.drop_last()) + held(turns.last())
    }
}

/// How many snapshots sessions hold.
pub open spec fn held_by(sessions: Seq<SessionView>) -> nat
    decreases sessions.len(),
{
    if sessions.len() == 0 {
        0
    } else {
        held_by(sessions.drop_last()) + held_in(sessions.last().turns)
    }
}

proof fn lemma_held_updated(turns: Seq<TurnView>, t: int, turn: TurnView)
    requires
        0 <= t < turns.len(),
    ensures
        held_in(turns.update(t, turn)) == held_in(turns) - held(turns[t]) + held(turn),
    decreases turns.len(),
{
    let after = turns.update(t, turn);
    if t == turns.len() - 1 {
        assert(after.drop_last() =~= turns.drop_last());
    } else {
        assert(after.drop_last() =~= turns.drop_last().update(t, turn));
        lemma_held_updated(turns.drop_last(), t, turn);
    }
}

proof fn lemma_sessions_updated(sessions: Seq<SessionView>, at: int, session: SessionView)
    requires
        0 <= at < sessions.len(),
    ensures
        held_by(sessions.update(at, session)) == held_by(sessions) - held_in(sessions[at].turns)
            + held_in(session.turns),
    decreases sessions.len(),
{
    let after = sessions.update(at, session);
    if at == sessions.len() - 1 {
        assert(after.drop_last() =~= sessions.drop_last());
    } else {
        assert(after.drop_last() =~= sessions.drop_last().update(at, session));
        lemma_sessions_updated(sessions.drop_last(), at, session);
    }
}

proof fn lemma_turns_with(turns: Seq<TurnView>, snapshot: SnapshotView)
    ensures
        held_in(turns_with(turns, snapshot)) == held_in(turns) + 1,
{
    lemma_open_turn(turns, snapshot, turns.len() as int);
    lemma_open_awaits(turns, snapshot, turns.len() as int);
    let start = TurnView { prompt: snapshot.meta.prompt, start: Some(snapshot), end: None };
    let alone = TurnView { prompt: None, start: None, end: Some(snapshot) };
    assert(turns.push(start).drop_last() =~= turns);
    assert(turns.push(alone).drop_last() =~= turns);
    if snapshot.meta.event == TurnEvent::End {
        if let Some(t) = open_turn(turns, snapshot, turns.len() as int) {
            lemma_held_updated(turns, t, TurnView { end: Some(snapshot), ..turns[t] });
        }
    }
}

proof fn lemma_open_awaits(turns: Seq<TurnView>, end: SnapshotView, count: int)
    requires
        count <= turns.len(),
    ensures
        open_turn(turns, end, count) matches Some(t) ==> awaits(turns[t], end),
    decreases count,
{
    if count > 0 && !awaits(turns[count - 1], end) {
        lemma_open_awaits(turns, end, count - 1);
    }
}

proof fn lemma_session_from(sessions: Seq<SessionView>, id: Seq<char>, k: int)
    requires
        0 <= k <= sessions.len(),
    ensures
        k <= session_from(sessions, id, k) <= sessions.len(),
        session_from(sessions, id, k) < sessions.len() ==> sessions[session_from(
            sessions,
            id,
            k,
        )].id == id,
        forall|j: int| k <= j < session_from(sessions, id, k) ==> (#[trigger] sessions[j]).id != id,
    decreases sessions.len() - k,
{
    if k < sessions.len() && sessions[k].id != id {
        lemma_session_from(sessions, id, k + 1);
    }
}

/// Every snapshot stands in exactly one place of one turn: pairing loses none and makes up
/// none.
pub proof fn law_pairing_keeps_every_snapshot(snapshots: Seq<SnapshotView>)
    ensures
        held_by(paired(snapshots)) == snapshots.len(),
    decreases snapshots.len(),
{
    if snapshots.len() > 0 {
        law_pairing_keeps_every_snapshot(snapshots.drop_last());
        let sessions = paired(snapshots.drop_last());
        let snapshot = snapshots.last();
        let at = session_from(sessions, snapshot.meta.session_id, 0);
        lemma_session_from(sessions, snapshot.meta.session_id, 0);
        let fresh = SessionView {
            id: snapshot.meta.session_id,
            agent: snapshot.meta.agent,
            turns: Seq::empty(),
            last_at_ms: 0,
        };
        let known = if at < sessions.len() {
            sessions
        } else {
            sessions.push(fresh)
        };
        if at == sessions.len() {
            assert(known.drop_last() =~= sessions);
            assert(held_in(fresh.turns) == 0);
        }
        lemma_turns_with(known[at].turns, snapshot);
        lemma_sessions_updated(
            known,
            at,
            SessionView {
                turns: turns_with(known[at].turns, snapshot),
                last_at_ms: snapshot.meta.at_ms,
                ..known[at]
            },
        );
    }
}

/// No two sessions have the same id.
pub open spec fn ids_distinct(sessions: Seq<SessionView>) -> bool {
    forall|i: int, j: int|
        #![trigger sessions[i], sessions[j]]
        0 <= i < j < sessions.len() ==> sessions[i].id != sessions[j].id
}

/// Each session is listed once.
pub proof fn law_sessions_are_distinct(snapshots: Seq<SnapshotView>)
    ensures
        ids_distinct(paired(snapshots)),
    decreases snapshots.len(),
{
    if snapshots.len() > 0 {
        law_sessions_are_distinct(snapshots.drop_last());
        let sessions = paired(snapshots.drop_last());
        lemma_session_from(sessions, snapshots.last().meta.session_id, 0);
    }
}

// ---------------------------------------------------------------------------
// What changed between two trees.

/// The bytes that `gix::ObjectId::from_hex` reads from a hexadecimal object id, if any.
pub uninterp spec fn object_id_bytes(hex: Seq<u8>) -> Option<Seq<u8>>;

/// The value of a hexadecimal digit.
pub open spec fn hex_value(digit: u8) -> Option<int> {
    if 48 <= digit <= 57 {
        Some(digit - 48)
    } else if 97 <= digit <= 102 {
        Some(digit - 87)
    } else if 65 <= digit <= 70 {
        Some(digit - 55)
    } else {
        None
    }
}

/// Whether bytes are what hexadecimal digits of either case spell, two for each byte.
pub open spec fn spells(hex: Seq<u8>, bytes: Seq<u8>) -> bool {
    &&& hex.len() == 2 * bytes.len()
    &&& forall|i: int|
        0 <= i < bytes.len() ==> hex_value(hex[2 * i]) is Some && hex_value(hex[2 * i + 1]) is Some
            && #[trigger] bytes[i] == hex_value(hex[2 * i])->Some_0 * 16 + hex_value(
            hex[2 * i + 1],
        )->Some_0
}

/// Calls `gix::ObjectId::from_hex`. Of 40 hexadecimal digits it gives the 20 bytes that they
/// spell; other characters, and other lengths than 40 or 64, are refused. Whether 64 digits
/// are accepted depends on how the crate was built, and is left to the name.
#[verifier::external_body]
fn object_id(hex: &[u8]) -> (id: Option<Vec<u8>>)
    ensures
        id.deep_view() == object_id_bytes(hex@),
        id matches Some(bytes) ==> spells(hex@, bytes@),
        hex@.len() == 40 && (forall|i: int|
            0 <= i < 40 ==> hex_value(#[trigger] hex@[i]) is Some) ==> id is Some,
        hex@.len() != 40 && hex@.len() != 64 ==> id is None,
{
    gix::ObjectId::from_hex(hex).ok().map(|id| id.as_bytes().to_vec())
}

/// What `gix::bstr::ByteSlice::trim` leaves of bytes.
pub uninterp spec fn trimmed_bytes(bytes: Seq<u8>) -> Seq<u8>;

/// Calls `gix::bstr::ByteSlice::trim`, which takes white space (by Unicode's property) off
/// both ends. Bytes that begin and end with a visible ASCII character stay as they are.
#[verifier::external_body]
fn trim_bytes(bytes: &[u8]) -> (trimmed: &[u8])
    ensures
        trimmed@ == trimmed_bytes(bytes@),
        bytes@.len() > 0 && 33 <= bytes@[0] <= 126 && 33 <= bytes@.last() <= 126 ==> trimmed@
            == bytes@,
{
    gix::bstr::ByteSlice::trim(bytes)
}

/// Whether an id is the null id.
pub open spec fn is_null(id: Seq<u8>) -> bool {
    forall|i: int| 0 <= i < id.len() ==> #[trigger] id[i] == 48
}

/// What a mode says of an entry.
pub open spec fn kind_of_mode(mode: Seq<u8>) -> EntryKind {
    if mode == ops::word("100755") {
        EntryKind::BlobExecutable
    } else if mode == ops::word("120000") {
        EntryKind::Link
    } else if mode == ops::word("160000") {
        EntryKind::Commit
    } else {
        EntryKind::Blob
    }
}

/// One side of a change: absent where the id is null or no id.
pub open spec fn side_of(mode: Seq<u8>, id: Seq<u8>) -> SourceView {
    if is_null(id) {
        SourceView::Absent
    } else {
        match object_id_bytes(trimmed_bytes(id)) {
            Some(id) => SourceView::Blob { id, kind: kind_of_mode(mode) },
            None => SourceView::Absent,
        }
    }
}

/// One side of a change, from a mode and an object id as git prints them.
pub fn side(mode: &[u8], id: &[u8]) -> (source: Source)
    ensures
        source.deep_view() == side_of(mode@, id@),
{
    let mut null = true;
    let mut i: usize = 0;
    while i < id.len()
        invariant
            i <= id@.len(),
            null <==> forall|k: int| 0 <= k < i ==> #[trigger] id@[k] == 48,
        decreases id.len() - i,
    {
        if id[i] != 48 {
            null = false;
        }
        i = i + 1;
    }
    if null {
        return Source::Absent;
    }
    let kind = if same(mode, "100755".as_bytes()) {
        EntryKind::BlobExecutable
    } else if same(mode, "120000".as_bytes()) {
        EntryKind::Link
    } else if same(mode, "160000".as_bytes()) {
        EntryKind::Commit
    } else {
        EntryKind::Blob
    };
    match object_id(trim_bytes(id)) {
        Some(id) => Source::Blob { id, kind },
        None => Source::Absent,
    }
}

/// The fields that are not empty.
pub open spec fn not_empty(fields: Seq<Seq<u8>>) -> Seq<Seq<u8>>
    decreases fields.len(),
{
    if fields.len() == 0 {
        Seq::empty()
    } else if fields.last().len() == 0 {
        not_empty(fields.drop_last())
    } else {
        not_empty(fields.drop_last()).push(fields.last())
    }
}

/// A header without its colon.
pub open spec fn without_colon(header: Seq<u8>) -> Seq<u8> {
    if header.len() > 0 && header[0] == 58 {
        header.drop_first()
    } else {
        header
    }
}

/// The status of a change by its letter.
pub open spec fn status_of(status: Seq<u8>) -> ChangeStatus {
    if status.len() == 0 {
        ChangeStatus::Modified
    } else if status[0] == 82 {
        ChangeStatus::Renamed
    } else if status[0] == 67 {
        ChangeStatus::Copied
    } else if status[0] == 65 {
        ChangeStatus::Added
    } else if status[0] == 68 {
        ChangeStatus::Deleted
    } else if status[0] == 84 {
        ChangeStatus::TypeChanged
    } else {
        ChangeStatus::Modified
    }
}

/// The change that stands in the fields from `k` on, and how many fields it takes: a header
/// `:<old mode> <new mode> <old id> <new id> <status>`, the path, and for renames and copies
/// the new path.
pub open spec fn change_at(fields: Seq<Seq<u8>>, k: int) -> Option<(ChangeView, int)> {
    let parts = crate::bytes::pieces(without_colon(fields[k]), 32);
    let moved = status_of(parts[4]) == ChangeStatus::Renamed || status_of(parts[4])
        == ChangeStatus::Copied;
    let len = if moved {
        3int
    } else {
        2
    };
    if parts.len() != 5 || k + len > fields.len() {
        None
    } else {
        Some(
            (
                ChangeView {
                    section: Section::Snapshot,
                    status: status_of(parts[4]),
                    path: fields[k + len - 1],
                    old_path: if moved {
                        Some(fields[k + 1])
                    } else {
                        None
                    },
                    old: side_of(parts[0], parts[2]),
                    new: side_of(parts[1], parts[3]),
                },
                len,
            ),
        )
    }
}

/// The changes in the fields from `k` on, up to the first that is incomplete.
pub open spec fn changes_from(fields: Seq<Seq<u8>>, k: int) -> Seq<ChangeView>
    decreases fields.len() - k,
{
    if k >= fields.len() {
        Seq::empty()
    } else {
        match change_at(fields, k) {
            Some((change, len)) => if len > 0 {
                seq![change] + changes_from(fields, k + len)
            } else {
                Seq::empty()
            },
            None => Seq::empty(),
        }
    }
}

/// The changes that `git diff-tree -z --raw` prints.
pub open spec fn printed_changes(out: Seq<u8>) -> Seq<ChangeView> {
    changes_from(not_empty(crate::bytes::pieces(out, 0)), 0)
}

impl Ranked for FileChange {
    /// By path.
    open spec fn before(&self, other: &Self) -> bool {
        order::before(self.path@, other.path@)
    }

    fn is_before(&self, other: &Self) -> (result: bool) {
        order::is_before(self.path.as_slice(), other.path.as_slice())
    }

    proof fn lemma_weak(a: &Self, b: &Self, c: &Self) {
        order::lemma_irreflexive(a.path@);
        if order::before(a.path@, b.path@) && order::before(b.path@, a.path@) {
            order::lemma_transitive(a.path@, b.path@, a.path@);
        }
        order::lemma_total(a.path@, b.path@);
        order::lemma_total(b.path@, c.path@);
        if order::before(c.path@, a.path@) {
            if order::before(a.path@, b.path@) {
                order::lemma_transitive(c.path@, a.path@, b.path@);
            }
        }
    }
}

/// Whether changes are those printed, sorted by path.
pub open spec fn changes_of(out: Seq<u8>, changes: Seq<FileChange>) -> bool {
    exists|found: Seq<FileChange>|
        found.map_values(|c: FileChange| c.deep_view()) == printed_changes(out) && changes
            == #[trigger] sorting::sorted(found)
}

fn drop_empty(fields: Vec<Vec<u8>>) -> (kept: Vec<Vec<u8>>)
    ensures
        kept.deep_view() == not_empty(fields.deep_view()),
{
    let ghost all = fields@;
    let ghost shown = fields.deep_view();
    let mut kept: Vec<Vec<u8>> = Vec::new();
    proof {
        assert(shown.take(0) =~= Seq::<Seq<u8>>::empty());
        assert(kept.deep_view() =~= Seq::<Seq<u8>>::empty());
    }
    for field in iter: fields
        invariant
            iter.seq() == all,
            shown.len() == all.len(),
            forall|i: int| 0 <= i < all.len() ==> #[trigger] shown[i] == all[i]@,
            kept.deep_view() == not_empty(shown.take(iter.index() as int)),
    {
        proof {
            assert(shown.take(iter.index() + 1).drop_last() =~= shown.take(iter.index() as int));
            assert(shown.take(iter.index() + 1).last() == field@);
        }
        if field.len() > 0 {
            let ghost before = kept.deep_view();
            let ghost last = field;
            kept.push(field);
            assert(last.deep_view() == last@);
            assert(kept.deep_view() =~= before.push(last@));
        }
    }
    assert(shown.take(shown.len() as int) =~= shown);
    kept
}

fn parse_status(status: &[u8]) -> (result: ChangeStatus)
    ensures
        result == status_of(status@),
{
    if status.len() == 0 {
        return ChangeStatus::Modified;
    }
    match status[0] {
        82 => ChangeStatus::Renamed,
        67 => ChangeStatus::Copied,
        65 => ChangeStatus::Added,
        68 => ChangeStatus::Deleted,
        84 => ChangeStatus::TypeChanged,
        _ => ChangeStatus::Modified,
    }
}

fn parse_change(fields: &[Vec<u8>], k: usize) -> (result: Option<(FileChange, usize)>)
    requires
        k < fields@.len(),
    ensures
        match result {
            Some((change, len)) => change_at(fields@.map_values(|f: Vec<u8>| f@), k as int) == Some(
                (change.deep_view(), len as int),
            ) && 2 <= len <= 3 && k + len <= fields@.len(),
            None => change_at(fields@.map_values(|f: Vec<u8>| f@), k as int) is None,
        },
{
    let ghost all = fields@.map_values(|f: Vec<u8>| f@);
    let count: usize = fields.len();
    let header = fields[k].as_slice();
    let header_len: usize = header.len();
    let parts = if header_len > 0 && header[0] == 58 {
        let rest = vstd::slice::slice_subrange(header, 1, header_len);
        assert(rest@ =~= header@.drop_first());
        split(rest, 32)
    } else {
        split(header, 32)
    };
    let ghost shown = crate::bytes::pieces(without_colon(all[k as int]), 32);
    assert(parts.deep_view() == shown);
    if parts.len() != 5 {
        assert(shown.len() != 5);
        return None;
    }
    proof {
        assert forall|i: int| 0 <= i < 5 implies #[trigger] shown[i] == parts@[i]@ by {
            assert(shown[i] == parts@[i].deep_view());
        }
    }
    let status = parse_status(parts[4].as_slice());
    let moved = status == ChangeStatus::Renamed || status == ChangeStatus::Copied;
    let len: usize = if moved {
        3
    } else {
        2
    };
    if len > count - k {
        return None;
    }
    let change = FileChange {
        section: Section::Snapshot,
        status,
        path: copy(fields[k + len - 1].as_slice()),
        old_path: if moved {
            Some(copy(fields[k + 1].as_slice()))
        } else {
            None
        },
        old: side(parts[0].as_slice(), parts[2].as_slice()),
        new: side(parts[1].as_slice(), parts[3].as_slice()),
    };
    Some((change, len))
}

/// The changes that `git diff-tree -r -z --raw -M` prints, sorted by path.
pub fn parse_changes(out: &[u8]) -> (changes: Vec<FileChange>)
    ensures
        changes_of(out@, changes@),
{
    let fields = drop_empty(split(out, 0));
    let ghost all = fields@.map_values(|f: Vec<u8>| f@);
    proof {
        assert(all =~= fields.deep_view()) by {
            assert(fields.deep_view().len() == fields@.len());
            assert forall|i: int| 0 <= i < all.len() implies all[i] == fields.deep_view()[i] by {
                assert(fields.deep_view()[i] == fields@[i].deep_view());
            }
        }
    }
    let mut found: Vec<FileChange> = Vec::new();
    let mut k: usize = 0;
    let ghost mut shown: Seq<ChangeView> = Seq::empty();
    assert(shown + changes_from(all, 0) =~= changes_from(all, 0));
    assert(found@.map_values(|c: FileChange| c.deep_view()) =~= shown);
    while k < fields.len()
        invariant_except_break
            k <= fields@.len(),
            all == fields@.map_values(|f: Vec<u8>| f@),
            found@.map_values(|c: FileChange| c.deep_view()) == shown,
            shown + changes_from(all, k as int) == changes_from(all, 0),
        ensures
            found@.map_values(|c: FileChange| c.deep_view()) == changes_from(all, 0),
        decreases fields.len() - k,
    {
        match parse_change(fields.as_slice(), k) {
            None => {
                assert(changes_from(all, k as int) =~= Seq::<ChangeView>::empty());
                assert(shown + Seq::<ChangeView>::empty() =~= shown);
                break ;
            },
            Some((change, len)) => {
                let ghost view = change.deep_view();
                found.push(change);
                proof {
                    assert(shown.push(view) + changes_from(all, k + len) =~= shown + changes_from(
                        all,
                        k as int,
                    ));
                    shown = shown.push(view);
                    assert(found@.map_values(|c: FileChange| c.deep_view()) =~= shown);
                }
                k = k + len;
                proof {
                    if k >= fields@.len() {
                        assert(shown + changes_from(all, k as int) =~= shown);
                    }
                }
            },
        }
    }
    let changes = sort(found);
    assert(changes@ == sorting::sorted(found@));
    changes
}

/// The changes from one tree to another (rename detection on), sorted by path.
pub fn changes_between(old_tree: &str, new_tree: &str, replies: &[Reply]) -> (step: Step<
    Vec<FileChange>,
>)
    ensures
        match calls::git_out(
            calls::told(replies@),
            0,
            ops::git_call(
                seq![
                    ops::word("diff-tree"),
                    ops::word("-r"),
                    ops::word("-z"),
                    ops::word("--raw"),
                    ops::word("-M"),
                    crate::bytes::text_bytes(old_tree@),
                    crate::bytes::text_bytes(new_tree@),
                ],
                None,
            ),
        ) {
            StepView::Call(call) => step matches Step::Call(c) && c.deep_view() == call,
            StepView::Failed(error) => step matches Step::Failed(e) && e.deep_view() == error,
            StepView::Done(out, at) => step matches Step::Done(changes, used) && used == at
                && changes_of(out, changes@),
        },
{
    let args = vec![
        bytes_of("diff-tree"),
        bytes_of("-r"),
        bytes_of("-z"),
        bytes_of("--raw"),
        bytes_of("-M"),
        bytes_of(old_tree),
        bytes_of(new_tree),
    ];
    assert(args.deep_view() =~= seq![
        ops::word("diff-tree"),
        ops::word("-r"),
        ops::word("-z"),
        ops::word("--raw"),
        ops::word("-M"),
        crate::bytes::text_bytes(old_tree@),
        crate::bytes::text_bytes(new_tree@),
    ]);
    match run_git(replies, 0, Call::Git { args, stdin: None, internal: false }) {
        Step::Call(call) => Step::Call(call),
        Step::Failed(error) => Step::Failed(error),
        Step::Done(out, at) => Step::Done(parse_changes(out.as_slice()), at),
    }
}

// ---------------------------------------------------------------------------
// Pruning.

/// The ref of a snapshot, and when it was taken.
#[derive(Debug)]
pub struct StampedRef {
    pub at: u64,
    pub name: String,
}

impl Ranked for StampedRef {
    /// By time, then by name.
    open spec fn before(&self, other: &Self) -> bool {
        self.at < other.at || (self.at == other.at && order::before(
            crate::bytes::text_bytes(self.name@),
            crate::bytes::text_bytes(other.name@),
        ))
    }

    fn is_before(&self, other: &Self) -> (result: bool) {
        self.at < other.at || (self.at == other.at && order::is_before(
            self.name.as_str().as_bytes(),
            other.name.as_str().as_bytes(),
        ))
    }

    proof fn lemma_weak(a: &Self, b: &Self, c: &Self) {
        let (x, y, z) = (
            crate::bytes::text_bytes(a.name@),
            crate::bytes::text_bytes(b.name@),
            crate::bytes::text_bytes(c.name@),
        );
        order::lemma_irreflexive(x);
        if order::before(x, y) && order::before(y, x) {
            order::lemma_transitive(x, y, x);
        }
        order::lemma_total(x, y);
        order::lemma_total(y, z);
        if order::before(z, x) && order::before(x, y) {
            order::lemma_transitive(z, x, y);
        }
    }
}

/// Where the last part of a ref begins.
pub open spec fn leaf_start(name: Seq<char>) -> int
    decreases name.len(),
{
    if name.len() == 0 || name.last() == '/' {
        name.len() as int
    } else {
        leaf_start(name.drop_last())
    }
}

/// When the snapshot of a ref was taken: the number before the first dash of its last part.
pub open spec fn ref_time(name: Seq<char>) -> Option<u64> {
    let leaf = name.skip(leaf_start(name));
    match crate::text::number_value(leaf.take(crate::text::find_char(leaf, '-', 0))) {
        Some(n) => if n <= u64::MAX {
            Some(n as u64)
        } else {
            None
        },
        None => None,
    }
}

/// A line without a carriage return at its end.
pub open spec fn without_return(line: Seq<char>) -> Seq<char> {
    if line.len() > 0 && line.last() == '\r' {
        line.drop_last()
    } else {
        line
    }
}

/// The lines of a text. What follows the last line end is a line if it is not empty.
pub open spec fn lines_in(text: Seq<char>) -> Seq<Seq<char>> {
    let parts = crate::text::text_pieces(text, '\n');
    let ended = parts.drop_last().map_values(|l: Seq<char>| without_return(l));
    if parts.last().len() == 0 {
        ended
    } else {
        ended.push(parts.last())
    }
}

/// The refs of snapshots among lines, each with its time.
pub open spec fn stamped(lines: Seq<Seq<char>>) -> Seq<(u64, Seq<char>)>
    decreases lines.len(),
{
    if lines.len() == 0 {
        Seq::empty()
    } else {
        let before = stamped(lines.drop_last());
        match ref_time(lines.last()) {
            Some(at) => before.push((at, lines.last())),
            None => before,
        }
    }
}

/// The commands that delete refs.
pub open spec fn delete_commands(names: Seq<Seq<char>>) -> Seq<char>
    decreases names.len(),
{
    if names.len() == 0 {
        Seq::empty()
    } else {
        delete_commands(names.drop_last()) + "delete "@ + names.last() + "\n"@
    }
}

/// Whether `found` are the refs that are listed, and `commands` delete all of them but the newest
/// `keep`; without commands there are no more.
pub open spec fn prunes_found(
    listing: Seq<char>,
    keep: nat,
    commands: Option<Seq<char>>,
    found: Seq<StampedRef>,
) -> bool {
    let refs = sorting::sorted(found);
    &&& found.map_values(|r: StampedRef| (r.at, r.name@)) == stamped(lines_in(listing))
    &&& commands == (if found.len() <= keep {
        None
    } else {
        Some(
            delete_commands(refs.take(found.len() - keep).map_values(|r: StampedRef| r.name@)),
        )
    })
}

/// Whether `commands` delete all but the newest `keep` of the refs that are listed; without
/// commands there are no more.
pub open spec fn prunes(listing: Seq<char>, keep: nat, commands: Option<Seq<char>>) -> bool {
    exists|found: Seq<StampedRef>| #[trigger] prunes_found(listing, keep, commands, found)
}

fn find_leaf(chars: &[char]) -> (start: usize)
    ensures
        start == leaf_start(chars@),
        start <= chars@.len(),
{
    let mut start: usize = chars.len();
    assert(chars@.take(start as int) =~= chars@);
    while start > 0 && chars[start - 1] != '/'
        invariant
            start <= chars@.len(),
            leaf_start(chars@) == leaf_start(chars@.take(start as int)),
        decreases start,
    {
        assert(chars@.take(start as int).drop_last() =~= chars@.take(start - 1));
        start = start - 1;
    }
    start
}

fn time_of_ref(name: &str) -> (at: Option<u64>)
    ensures
        at == ref_time(name@),
{
    let chars = chars_of(name);
    let start = find_leaf(chars.as_slice());
    let count: usize = chars.len();
    let leaf = chars_of(part_of(chars.as_slice(), start, count).as_str());
    assert(leaf@ =~= name@.skip(start as int));
    let dash = find_from(leaf.as_slice(), '-', 0);
    let number = part_of(leaf.as_slice(), 0, dash);
    assert(number@ =~= leaf@.take(dash as int));
    parse_number(number.as_str(), u64::MAX)
}

fn list_lines(text: &str) -> (lines: Vec<String>)
    ensures
        lines.deep_view() == lines_in(text@),
{
    let parts = split_text(text, '\n');
    let ghost all = parts.deep_view();
    let count: usize = parts.len();
    let mut lines: Vec<String> = Vec::new();
    let ghost ended = all.drop_last().map_values(|l: Seq<char>| without_return(l));
    let mut k: usize = 0;
    assert(lines.deep_view() =~= ended.take(0));
    while k + 1 < count
        invariant
            k < count == parts@.len(),
            all == parts.deep_view(),
            ended == all.drop_last().map_values(|l: Seq<char>| without_return(l)),
            lines.deep_view() == ended.take(k as int),
        decreases count - k,
    {
        let chars = chars_of(parts[k].as_str());
        let len: usize = chars.len();
        let line = if len > 0 && chars[len - 1] == '\r' {
            part_of(chars.as_slice(), 0, len - 1)
        } else {
            copy_text(parts[k].as_str())
        };
        proof {
            assert(line@ =~= without_return(all[k as int]));
            assert(ended[k as int] == line@);
        }
        let ghost before = lines.deep_view();
        let ghost shown = line@;
        lines.push(line);
        k = k + 1;
        proof {
            assert(lines.deep_view() =~= before.push(shown));
            assert(ended.take(k as int) =~= ended.take(k - 1).push(ended[k - 1]));
        }
    }
    assert(ended.take(k as int) =~= ended);
    let chars = chars_of(parts[k].as_str());
    if chars.len() > 0 {
        let line = copy_text(parts[k].as_str());
        let ghost shown = line@;
        lines.push(line);
        assert(lines.deep_view() =~= ended.push(shown));
    }
    lines
}

/// The commands that delete all but the newest `keep` of the listed refs, if there are more.
pub fn prune_commands(listing: &str, keep: usize) -> (commands: Option<String>)
    ensures
        prunes(listing@, keep as nat, commands.deep_view()),
{
    let lines = list_lines(listing);
    let ghost all = lines.deep_view();
    let mut found: Vec<StampedRef> = Vec::new();
    let mut k: usize = 0;
    proof {
        assert(all.take(0) =~= Seq::<Seq<char>>::empty());
        assert(found@.map_values(|r: StampedRef| (r.at, r.name@)) =~= Seq::<
            (u64, Seq<char>),
        >::empty());
    }
    while k < lines.len()
        invariant
            k <= lines@.len(),
            all == lines.deep_view(),
            found@.map_values(|r: StampedRef| (r.at, r.name@)) == stamped(all.take(k as int)),
        decreases lines.len() - k,
    {
        proof {
            assert(all.take(k + 1).drop_last() =~= all.take(k as int));
            assert(all.take(k + 1).last() == lines@[k as int]@);
        }
        if let Some(at) = time_of_ref(lines[k].as_str()) {
            let ghost before = found@.map_values(|r: StampedRef| (r.at, r.name@));
            found.push(StampedRef { at, name: lines[k].clone() });
            assert(found@.map_values(|r: StampedRef| (r.at, r.name@)) =~= before.push(
                (at, lines@[k as int]@),
            ));
        }
        k = k + 1;
    }
    assert(all.take(k as int) =~= all);
    let total: usize = found.len();
    let ghost unsorted = found@;
    let refs = sort(found);
    proof {
        sorting::lemma_sorted_len(unsorted);
        assert(refs@ == sorting::sorted(unsorted));
    }
    if total <= keep {
        assert(prunes_found(listing@, keep as nat, None, unsorted));
        return None;
    }
    let stale: usize = total - keep;
    let ghost names = refs@.take(stale as int).map_values(|r: StampedRef| r.name@);
    let mut commands = String::new();
    let mut i: usize = 0;
    proof {
        assert(names.take(0) =~= Seq::<Seq<char>>::empty());
        assert(commands@ =~= Seq::<char>::empty());
    }
    while i < stale
        invariant
            i <= stale <= refs@.len(),
            names == refs@.take(stale as int).map_values(|r: StampedRef| r.name@),
            commands@ == delete_commands(names.take(i as int)),
        decreases stale - i,
    {
        proof {
            assert(names.take(i + 1).drop_last() =~= names.take(i as int));
            assert(names.take(i + 1).last() == refs@[i as int].name@);
        }
        push_text(&mut commands, "delete ");
        push_text(&mut commands, refs[i].name.as_str());
        push_text(&mut commands, "\n");
        i = i + 1;
    }
    assert(names.take(i as int) =~= names);
    assert(prunes_found(listing@, keep as nat, Some(commands@), unsorted));
    Some(commands)
}

/// Asks for the refs of the snapshots.
pub open spec fn refs_call() -> CallView {
    ops::git_call(
        seq![
            ops::word("for-each-ref"),
            ops::word("--format=%(refname)"),
            ops::word(TURNS_REF),
        ],
        None,
    )
}

/// Deletes refs.
pub open spec fn delete_call(commands: Seq<char>) -> CallView {
    ops::internal_call(
        seq![ops::word("update-ref"), ops::word("--stdin")],
        Some(crate::bytes::text_bytes(commands)),
    )
}

/// Deletes refs, if there are any to delete.
pub open spec fn delete_step(
    replies: Seq<ReplyView>,
    at: int,
    commands: Option<Seq<char>>,
) -> StepView<()> {
    match commands {
        None => StepView::Done((), at),
        Some(text) => match calls::git_out(replies, at, delete_call(text)) {
            StepView::Call(call) => StepView::Call(call),
            StepView::Failed(error) => StepView::Failed(error),
            StepView::Done(_, at) => StepView::Done((), at),
        },
    }
}

/// Whether a step deletes all but the newest `keep` of the listed refs.
pub open spec fn pruned(
    replies: Seq<ReplyView>,
    at: int,
    listing: Seq<char>,
    keep: nat,
    step: StepView<()>,
) -> bool {
    exists|commands: Option<Seq<char>>|
        #[trigger] prunes(listing, keep, commands) && step == delete_step(replies, at, commands)
}

/// Whether a step is where deleting all but the newest `keep` snapshots stands.
pub open spec fn prunes_to(replies: Seq<ReplyView>, keep: nat, step: StepView<()>) -> bool {
    match calls::git_out(replies, 0, refs_call()) {
        StepView::Call(call) => step == StepView::<()>::Call(call),
        StepView::Failed(error) => step == StepView::<()>::Failed(error),
        StepView::Done(out, at) => pruned(replies, at, crate::text::lossy(out), keep, step),
    }
}

/// Only replies that came are used.
pub proof fn lemma_prune_used(replies: Seq<ReplyView>, keep: nat, step: StepView<()>)
    requires
        prunes_to(replies, keep, step),
    ensures
        step matches StepView::Done(_, used) ==> 0 <= used <= replies.len(),
{
}

/// Delete all but the newest `keep` snapshots.
pub fn prune(keep: usize, replies: &[Reply]) -> (step: Step<()>)
    ensures
        prunes_to(calls::told(replies@), keep as nat, step.deep_view()),
{
    let args = vec![
        bytes_of("for-each-ref"),
        bytes_of("--format=%(refname)"),
        bytes_of(TURNS_REF),
    ];
    assert(args.deep_view() =~= seq![
        ops::word("for-each-ref"),
        ops::word("--format=%(refname)"),
        ops::word(TURNS_REF),
    ]);
    let (out, at) = match run_git(
        replies,
        0,
        Call::Git { args, stdin: None, internal: false },
    ) {
        Step::Call(call) => {
            return Step::Call(call);
        },
        Step::Failed(error) => {
            return Step::Failed(error);
        },
        Step::Done(out, at) => (out, at),
    };
    let commands = prune_commands(from_utf8_lossy(out.as_slice()).as_str(), keep);
    let ghost shown = commands.deep_view();
    assert(calls::git_out(calls::told(replies@), 0, refs_call()) == StepView::Done(
        out@,
        at as int,
    ));
    assert(prunes(crate::text::lossy(out@), keep as nat, shown));
    let text = match commands {
        None => {
            let step: Step<()> = Step::Done((), at);
            assert(step.deep_view() == delete_step(calls::told(replies@), at as int, shown));
            return step;
        },
        Some(text) => text,
    };
    let args = vec![bytes_of("update-ref"), bytes_of("--stdin")];
    assert(args.deep_view() =~= seq![ops::word("update-ref"), ops::word("--stdin")]);
    let call = Call::Git { args, stdin: Some(bytes_of(text.as_str())), internal: true };
    let step: Step<()> = match run_git(replies, at, call) {
        Step::Call(call) => Step::Call(call),
        Step::Failed(error) => Step::Failed(error),
        Step::Done(_, at) => Step::Done((), at),
    };
    assert(step.deep_view() == delete_step(calls::told(replies@), at as int, shown));
    step
}

// ---------------------------------------------------------------------------
// What is recorded.

/// A snapshot holds the whole worktree as it is: everything is added to a copy of the index,
/// that copy and no other is written as a tree, the tree is committed with the metadata, and the
/// ref of the snapshot is set to that commit. The copy is removed. What is given back is the
/// tree and the commit that git named.
#[verifier::spinoff_prover]
#[verifier::rlimit(40)]
pub proof fn law_snapshots_record_the_worktree(
    meta: MetaView,
    json: Seq<char>,
    temp: Seq<char>,
    replies: Seq<ReplyView>,
    index: Seq<u8>,
    own: Seq<u8>,
    taken: SnapshotView,
    used: int,
)
    requires
        snapshot_step(meta, json, temp, replies) == StepView::Done(taken, used),
        snapshot_step(meta, json, temp, replies.take(1)) == StepView::<SnapshotView>::Call(
            CallView::CopyIfExists { from: own, to: index },
        ),
    ensures
        used == 7 <= replies.len(),
        snapshot_step(meta, json, temp, replies.take(2)) == StepView::<SnapshotView>::Call(
            CallView::IndexedGit { args: seq![ops::word("add"), ops::word("-A")], index },
        ),
        snapshot_step(meta, json, temp, replies.take(3)) == StepView::<SnapshotView>::Call(
            CallView::IndexedGit { args: seq![ops::word("write-tree")], index },
        ),
        snapshot_step(meta, json, temp, replies.take(4)) == StepView::<SnapshotView>::Call(
            CallView::Forget { path: index },
        ),
        replies[3] matches ReplyView::Git(Ok(out)) && taken.tree == crate::text::trimmed(
            crate::text::lossy(out),
        ),
        snapshot_step(meta, json, temp, replies.take(5)) == StepView::<SnapshotView>::Call(
            CallView::Git {
                args: seq![
                    ops::word("commit-tree"),
                    crate::bytes::text_bytes(taken.tree),
                    ops::word("-m"),
                    crate::bytes::text_bytes(MESSAGE_PREFIX@ + json),
                ],
                stdin: None,
                internal: true,
            },
        ),
        replies[5] matches ReplyView::Git(Ok(out)) && taken.commit == crate::text::trimmed(
            crate::text::lossy(out),
        ),
        snapshot_step(meta, json, temp, replies.take(6)) == StepView::<SnapshotView>::Call(
            CallView::Git {
                args: seq![
                    ops::word("update-ref"),
                    crate::bytes::text_bytes(snapshot_ref(meta)),
                    crate::bytes::text_bytes(taken.commit),
                ],
                stdin: None,
                internal: true,
            },
        ),
        replies[6] matches ReplyView::Git(Ok(_)),
        taken.meta == meta,
{
    assert forall|n: int, i: int| 0 <= i < n <= 7 implies (#[trigger] replies.take(n))[i]
        == #[trigger] replies[i] by {}
    assert(replies.len() >= 7);
    assert(replies.take(1)[0] == replies[0]);
    assert(replies.take(2)[0] == replies[0] && replies.take(2)[1] == replies[1]);
    assert(replies.take(3)[0] == replies[0] && replies.take(3)[1] == replies[1]
        && replies.take(3)[2] == replies[2]);
    assert(replies.take(4)[0] == replies[0] && replies.take(4)[1] == replies[1]
        && replies.take(4)[2] == replies[2] && replies.take(4)[3] == replies[3]);
    assert(replies.take(5)[0] == replies[0] && replies.take(5)[1] == replies[1]
        && replies.take(5)[2] == replies[2] && replies.take(5)[3] == replies[3]
        && replies.take(5)[4] == replies[4]);
    assert(replies.take(6)[0] == replies[0] && replies.take(6)[1] == replies[1]
        && replies.take(6)[2] == replies[2] && replies.take(6)[3] == replies[3]
        && replies.take(6)[4] == replies[4] && replies.take(6)[5] == replies[5]);
}

proof fn lemma_find_at(text: Seq<char>, c: char, from: int, at: int)
    requires
        0 <= from <= at < text.len(),
        forall|i: int| from <= i < at ==> #[trigger] text[i] != c,
        text[at] == c,
    ensures
        crate::text::find_char(text, c, from) == at,
    decreases at - from,
{
    if from < at {
        assert(text[from] != c);
        lemma_find_at(text, c, from + 1, at);
    }
}

/// A recorded snapshot reads back: what git prints for it, the names of its commit and tree and
/// then its message, is read as that commit, that tree and the metadata.
pub proof fn law_recorded_snapshots_read_back(commit: Seq<char>, tree: Seq<char>, json: Seq<char>)
    requires
        commit.len() > 0,
        commit[0] != '\n',
        !commit.contains('\u{1f}'),
        !tree.contains('\u{1f}'),
    ensures
        record_in(
            commit + seq!['\u{1f}'] + tree + seq!['\u{1f}'] + (MESSAGE_PREFIX@ + json),
        ) == Some(RecordView { commit, tree, json: crate::text::trimmed(json) }),
{
    let message = MESSAGE_PREFIX@ + json;
    let part = commit + seq!['\u{1f}'] + tree + seq!['\u{1f}'] + message;
    assert(part[0] == commit[0]);
    assert(part.skip(0) =~= part);
    let first = commit.len() as int;
    let second = first + 1 + tree.len();
    assert forall|i: int| 0 <= i < first implies #[trigger] part[i] != '\u{1f}' by {
        assert(part[i] == commit[i]);
    }
    lemma_find_at(part, '\u{1f}', 0, first);
    assert forall|i: int| first + 1 <= i < second implies #[trigger] part[i] != '\u{1f}' by {
        assert(part[i] == tree[i - first - 1]);
    }
    lemma_find_at(part, '\u{1f}', first + 1, second);
    assert(part.skip(second + 1) =~= message);
    assert(message.take(MESSAGE_PREFIX@.len() as int) =~= MESSAGE_PREFIX@);
    assert(part.skip(second + 1 + MESSAGE_PREFIX@.len()) =~= json);
    assert(part.take(first) =~= commit);
    assert(part.subrange(first + 1, second) =~= tree);
}

proof fn lemma_leaf(before: Seq<char>, leaf: Seq<char>)
    requires
        before.len() > 0,
        before.last() == '/',
        !leaf.contains('/'),
    ensures
        leaf_start(before + leaf) == before.len(),
    decreases leaf.len(),
{
    let name = before + leaf;
    if leaf.len() == 0 {
        assert(name =~= before);
    } else {
        let less = leaf.drop_last();
        assert(name.drop_last() =~= before + less);
        assert(name.last() == leaf[leaf.len() - 1]);
        assert forall|i: int| 0 <= i < less.len() implies less[i] != '/' by {
            assert(less[i] == leaf[i]);
        }
        lemma_leaf(before, less);
    }
}

/// The ref of a snapshot says when it was taken.
pub proof fn law_refs_tell_the_time(meta: MetaView)
    ensures
        ref_time(snapshot_ref(meta)) == Some(meta.at_ms),
{
    reveal_strlit("/");
    reveal_strlit("-");
    reveal_strlit("start");
    reveal_strlit("end");
    let before = TURNS_REF@ + "/"@ + component_of(meta.session_id) + "/"@;
    let time = crate::text::digits(meta.at_ms as nat);
    let event = event_name(meta.event);
    let leaf = time + "-"@ + event;
    crate::text::law_digits_read_back(meta.at_ms as nat);
    assert forall|i: int| 0 <= i < leaf.len() implies leaf[i] != '/' by {
        if i < time.len() {
            assert('0' <= time[i] <= '9');
            assert(leaf[i] == time[i]);
        } else if i > time.len() {
            assert(leaf[i] == event[i - time.len() - 1]);
        }
    }
    lemma_leaf(before, leaf);
    let name = snapshot_ref(meta);
    assert(name =~= before + leaf);
    assert(name.skip(before.len() as int) =~= leaf);
    assert forall|i: int| 0 <= i < time.len() implies #[trigger] leaf[i] != '-' by {
        assert('0' <= time[i] <= '9');
        assert(leaf[i] == time[i]);
    }
    lemma_find_at(leaf, '-', 0, time.len() as int);
    assert(leaf.take(time.len() as int) =~= time);
    assert('0' <= time[0] <= '9');
}

/// Snapshots of one session that were taken at different times, or for different events, have
/// different refs.
pub proof fn law_refs_tell_snapshots_apart(a: MetaView, b: MetaView)
    requires
        a.session_id == b.session_id,
        snapshot_ref(a) == snapshot_ref(b),
    ensures
        a.at_ms == b.at_ms,
        a.event == b.event,
{
    law_refs_tell_the_time(a);
    law_refs_tell_the_time(b);
    reveal_strlit("start");
    reveal_strlit("end");
    assert(snapshot_ref(a).last() == event_name(a.event).last());
    assert(snapshot_ref(b).last() == event_name(b.event).last());
}

/// Whether refs are divided into those to delete and those to keep: as many as may be kept are,
/// and none of them is older than one that is deleted.
pub open spec fn is_divided(
    refs: Seq<(u64, Seq<char>)>,
    keep: nat,
    deleted: Seq<(u64, Seq<char>)>,
    kept: Seq<(u64, Seq<char>)>,
) -> bool {
    &&& deleted.len() + kept.len() == refs.len()
    &&& forall|i: int|
        0 <= i < refs.len() ==> deleted.contains(#[trigger] refs[i]) || kept.contains(refs[i])
    &&& forall|i: int| 0 <= i < deleted.len() ==> refs.contains(#[trigger] deleted[i])
    &&& forall|i: int| 0 <= i < kept.len() ==> refs.contains(#[trigger] kept[i])
    &&& kept.len() <= keep
    &&& deleted.len() > 0 ==> kept.len() == keep
    &&& forall|i: int, j: int|
        #![trigger deleted[i], kept[j]]
        0 <= i < deleted.len() && 0 <= j < kept.len() ==> deleted[i].0 <= kept[j].0
}

/// Whether commands delete the older ones of some refs, a line each, and keep the newest.
pub open spec fn keeps_the_newest(
    refs: Seq<(u64, Seq<char>)>,
    keep: nat,
    commands: Option<Seq<char>>,
    deleted: Seq<(u64, Seq<char>)>,
    kept: Seq<(u64, Seq<char>)>,
) -> bool {
    &&& is_divided(refs, keep, deleted, kept)
    &&& commands is None <==> deleted.len() == 0
    &&& commands matches Some(text) ==> text == delete_commands(
        deleted.map_values(|r: (u64, Seq<char>)| r.1),
    )
}

/// Pruning deletes as many refs as there are too many, and no newer one than any it keeps.
pub proof fn law_pruning_keeps_the_newest(
    listing: Seq<char>,
    keep: nat,
    commands: Option<Seq<char>>,
)
    requires
        prunes(listing, keep, commands),
    ensures
        exists|deleted: Seq<(u64, Seq<char>)>, kept: Seq<(u64, Seq<char>)>| #[trigger]
            keeps_the_newest(stamped(lines_in(listing)), keep, commands, deleted, kept),
{
    let all = stamped(lines_in(listing));
    let found = choose|found: Seq<StampedRef>| #[trigger] prunes_found(
        listing,
        keep,
        commands,
        found,
    );
    let listed = found.map_values(|r: StampedRef| (r.at, r.name@));
    assert(listed == all);
    let refs = sorting::sorted(found);
    sorting::law_sorting_sorts(found);
    sorting::lemma_sorted_places(found);
    let places = sorting::places(found);
    let cut = if found.len() <= keep {
        0
    } else {
        found.len() - keep
    };
    let shown = refs.map_values(|r: StampedRef| (r.at, r.name@));
    let deleted = shown.take(cut);
    let kept = shown.skip(cut);
    assert forall|i: int| 0 <= i < shown.len() implies all.contains(#[trigger] shown[i]) by {
        assert(refs[i] == found[places[i]]);
        assert(listed[places[i]] == shown[i]);
        assert(all[places[i]] == shown[i]);
    }
    assert forall|i: int| 0 <= i < all.len() implies deleted.contains(#[trigger] all[i])
        || kept.contains(all[i]) by {
        let at = sorting::lemma_place_of(found, i);
        assert(listed[i] == shown[at]);
        if at < cut {
            assert(deleted[at] == all[i]);
        } else {
            assert(kept[at - cut] == all[i]);
        }
    }
    assert forall|i: int, j: int|
        #![trigger deleted[i], kept[j]]
        0 <= i < deleted.len() && 0 <= j < kept.len() implies deleted[i].0 <= kept[j].0 by {
        assert(!refs[cut + j].before(&refs[i]));
    }
    assert forall|i: int| 0 <= i < deleted.len() implies all.contains(#[trigger] deleted[i]) by {
        assert(deleted[i] == shown[i]);
    }
    assert forall|i: int| 0 <= i < kept.len() implies all.contains(#[trigger] kept[i]) by {
        assert(kept[i] == shown[cut + i]);
    }
    if found.len() > keep {
        assert(deleted.map_values(|r: (u64, Seq<char>)| r.1) =~= refs.take(cut).map_values(
            |r: StampedRef| r.name@,
        ));
    }
    assert(keeps_the_newest(all, keep, commands, deleted, kept));
}

/// An id stands in a ref as it is if it can, and else as a name made of characters that can: it is
/// never empty, and never begins with a dash.
pub proof fn law_ids_are_safe_in_refs(id: Seq<char>)
    ensures
        component_of(id).len() > 0,
        component_of(id)[0] != '-',
        forall|i: int|
            0 <= i < component_of(id).len() ==> ({
                let c = #[trigger] component_of(id)[i];
                ('a' <= c && c <= 'z') || ('A' <= c && c <= 'Z') || ('0' <= c && c <= '9') || c
                    == '-' || c == '_'
            }),
        0 < id.len() <= 100 && id[0] != '-' && (forall|i: int|
            0 <= i < id.len() ==> simple_char(#[trigger] id[i])) ==> component_of(id) == id,
{
    if !simple_id(id) {
        let n = crate::store::fnv_parts(seq![crate::bytes::text_bytes(id)]) as nat;
        lemma_hex_chars(n, 16);
        let digits = crate::store::hex_digits(n, 16);
        let name = component_of(id);
        assert forall|i: int| 0 <= i < name.len() implies simple_char(#[trigger] name[i]) by {
            if i > 0 {
                assert(name[i] == digits[i - 1]);
            }
        }
    } else {
        assert forall|i: int| 0 <= i < id.len() implies simple_char(#[trigger] id[i]) by {}
    }
}

proof fn lemma_hex_chars(n: nat, count: nat)
    ensures
        crate::store::hex_digits(n, count).len() == count,
        forall|i: int|
            0 <= i < count ==> simple_char(#[trigger] crate::store::hex_digits(n, count)[i]),
    decreases count,
{
    if count > 0 {
        lemma_hex_chars(n / 16, (count - 1) as nat);
        let before = crate::store::hex_digits(n / 16, (count - 1) as nat);
        let all = crate::store::hex_digits(n, count);
        assert(simple_char(crate::store::hex_digit((n % 16) as int)));
        assert forall|i: int| 0 <= i < count implies simple_char(#[trigger] all[i]) by {
            if i < count - 1 {
                assert(all[i] == before[i]);
            }
        }
    }
}

} // verus!
