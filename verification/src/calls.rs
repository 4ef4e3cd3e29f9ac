//! Operations that alternate with outside work. An operation is a function of the replies
//! so far: it names the next call to make, or says how it ended.
use vstd::prelude::*;

use crate::bytes::copy;
use crate::git::{GitError, GitErrorView};
use crate::patch::PatchError;
use crate::text::{copy_text, push_text};

verus! {

broadcast use crate::bytes::lemma_deep;

/// What a file of the worktree is.
#[derive(Debug, Clone, Copy, PartialEq, Eq, Structural)]
pub enum FileKind {
    Regular,
    Executable,
    Symlink,
}

impl DeepView for FileKind {
    type V = FileKind;

    open spec fn deep_view(&self) -> FileKind {
        *self
    }
}

/// Why an operation came to nothing.
#[derive(Debug, PartialEq, Eq)]
pub enum OpError {
    Git(GitError),
    Patch(PatchError),
    /// `git commit` failed, usually a hook; the message is its output.
    CommitFailed(String),
    /// The file or index changed since the user saw it.
    Stale(String),
    Unsupported(&'static str),
    Io(String),
}

/// Why an operation came to nothing, as text.
pub enum OpErrorView {
    Git(GitErrorView),
    Patch(PatchError),
    CommitFailed(Seq<char>),
    Stale(Seq<char>),
    Unsupported(Seq<char>),
    Io(Seq<char>),
}

impl DeepView for OpError {
    type V = OpErrorView;

    open spec fn deep_view(&self) -> OpErrorView {
        match *self {
            OpError::Git(error) => OpErrorView::Git(error.deep_view()),
            OpError::Patch(error) => OpErrorView::Patch(error),
            OpError::CommitFailed(output) => OpErrorView::CommitFailed(output@),
            OpError::Stale(reason) => OpErrorView::Stale(reason@),
            OpError::Unsupported(reason) => OpErrorView::Unsupported(reason@),
            OpError::Io(cause) => OpErrorView::Io(cause@),
        }
    }
}

/// What to tell the user of an error.
pub open spec fn op_error_text(error: OpErrorView) -> Seq<char> {
    match error {
        OpErrorView::Git(error) => crate::git::error_text(error),
        OpErrorView::Patch(error) =>
            "this selection splits an end-of-file newline change; include the last line of the file"@,
        OpErrorView::CommitFailed(output) => "Commit failed:\n"@ + output,
        OpErrorView::Stale(reason) => reason,
        OpErrorView::Unsupported(reason) => reason,
        OpErrorView::Io(cause) => cause,
    }
}

impl OpError {
    /// What to tell the user.
    pub fn message(&self) -> (text: String)
        ensures
            text@ == op_error_text(self.deep_view()),
    {
        match self {
            OpError::Git(error) => error.message(),
            OpError::Patch(error) => copy_text(error.message()),
            OpError::CommitFailed(output) => {
                let mut text = copy_text("Commit failed:\n");
                push_text(&mut text, output.as_str());
                text
            },
            OpError::Stale(reason) => reason.clone(),
            OpError::Unsupported(reason) => copy_text(reason),
            OpError::Io(cause) => cause.clone(),
        }
    }
}

/// Work to do outside. Paths are relative to the repository's root.
#[derive(Debug, PartialEq, Eq)]
pub enum Call {
    /// Run git and give back what it printed.
    Git { args: Vec<Vec<u8>>, stdin: Option<Vec<u8>>, internal: bool },
    /// What the file is, if there is one.
    ReadKind { path: Vec<u8> },
    /// The file's contents, or a symlink's target, and what it is.
    ReadRaw { path: Vec<u8> },
    /// Whether the path is a directory (and no symlink to one).
    IsDirectory { path: Vec<u8> },
    Remove { path: Vec<u8> },
    /// Write a file with its parent directories, as what it was.
    Write { path: Vec<u8>, kind: FileKind, bytes: Vec<u8> },
    /// Run git on an index file of its own, by its absolute path.
    IndexedGit { args: Vec<Vec<u8>>, index: Vec<u8> },
    /// Copy a file if there is one; both paths are absolute.
    CopyIfExists { from: Vec<u8>, to: Vec<u8> },
    /// Remove a temporary file by its absolute path; it does not matter whether that works.
    Forget { path: Vec<u8> },
}

/// Work to do outside, as sequences.
pub enum CallView {
    Git { args: Seq<Seq<u8>>, stdin: Option<Seq<u8>>, internal: bool },
    ReadKind { path: Seq<u8> },
    ReadRaw { path: Seq<u8> },
    IsDirectory { path: Seq<u8> },
    Remove { path: Seq<u8> },
    Write { path: Seq<u8>, kind: FileKind, bytes: Seq<u8> },
    IndexedGit { args: Seq<Seq<u8>>, index: Seq<u8> },
    CopyIfExists { from: Seq<u8>, to: Seq<u8> },
    Forget { path: Seq<u8> },
}

impl DeepView for Call {
    type V = CallView;

    open spec fn deep_view(&self) -> CallView {
        match *self {
            Call::Git { args, stdin, internal } => CallView::Git {
                args: args.deep_view(),
                stdin: stdin.deep_view(),
                internal,
            },
            Call::ReadKind { path } => CallView::ReadKind { path: path@ },
            Call::ReadRaw { path } => CallView::ReadRaw { path: path@ },
            Call::IsDirectory { path } => CallView::IsDirectory { path: path@ },
            Call::Remove { path } => CallView::Remove { path: path@ },
            Call::Write { path, kind, bytes } => CallView::Write {
                path: path@,
                kind,
                bytes: bytes@,
            },
            Call::IndexedGit { args, index } => CallView::IndexedGit {
                args: args.deep_view(),
                index: index@,
            },
            Call::CopyIfExists { from, to } => CallView::CopyIfExists { from: from@, to: to@ },
            Call::Forget { path } => CallView::Forget { path: path@ },
        }
    }
}

/// What came of a call.
#[derive(Debug)]
pub enum Reply {
    Git(Result<Vec<u8>, GitError>),
    Kind(Result<Option<FileKind>, String>),
    Raw(Result<Option<(Vec<u8>, FileKind)>, String>),
    Directory(bool),
    /// A removal, a copy or a write has ended.
    Done(Result<(), String>),
}

/// What came of a call, as sequences.
pub enum ReplyView {
    Git(Result<Seq<u8>, GitErrorView>),
    Kind(Result<Option<FileKind>, Seq<char>>),
    Raw(Result<Option<(Seq<u8>, FileKind)>, Seq<char>>),
    Directory(bool),
    Done(Result<(), Seq<char>>),
}

impl DeepView for Reply {
    type V = ReplyView;

    open spec fn deep_view(&self) -> ReplyView {
        match *self {
            Reply::Git(Ok(out)) => ReplyView::Git(Ok(out@)),
            Reply::Git(Err(error)) => ReplyView::Git(Err(error.deep_view())),
            Reply::Kind(Ok(kind)) => ReplyView::Kind(Ok(kind)),
            Reply::Kind(Err(cause)) => ReplyView::Kind(Err(cause@)),
            Reply::Raw(Ok(None)) => ReplyView::Raw(Ok(None)),
            Reply::Raw(Ok(Some((bytes, kind)))) => ReplyView::Raw(Ok(Some((bytes@, kind)))),
            Reply::Raw(Err(cause)) => ReplyView::Raw(Err(cause@)),
            Reply::Directory(is) => ReplyView::Directory(is),
            Reply::Done(Ok(())) => ReplyView::Done(Ok(())),
            Reply::Done(Err(cause)) => ReplyView::Done(Err(cause@)),
        }
    }
}

/// The replies so far, as sequences.
pub open spec fn told(replies: Seq<Reply>) -> Seq<ReplyView> {
    replies.map_values(|r: Reply| r.deep_view())
}

/// Where an operation stands after some replies: it needs a call, has failed, or is done
/// with a value and the number of replies it has used.
#[derive(Debug)]
pub enum Step<T> {
    Call(Call),
    Failed(OpError),
    Done(T, usize),
}

/// Where an operation stands, as sequences.
pub enum StepView<V> {
    Call(CallView),
    Failed(OpErrorView),
    Done(V, int),
}

impl<T: DeepView> DeepView for Step<T> {
    type V = StepView<T::V>;

    open spec fn deep_view(&self) -> StepView<T::V> {
        match *self {
            Step::Call(call) => StepView::Call(call.deep_view()),
            Step::Failed(error) => StepView::Failed(error.deep_view()),
            Step::Done(value, at) => StepView::Done(value.deep_view(), at as int),
        }
    }
}

/// A reply that does not belong to its call.
pub open spec fn unexpected() -> OpErrorView {
    OpErrorView::Io("unexpected reply"@)
}

fn not_expected() -> (error: OpError)
    ensures
        error.deep_view() == unexpected(),
{
    OpError::Io(copy_text("unexpected reply"))
}

/// What git printed, or that it failed.
pub open spec fn git_out(replies: Seq<ReplyView>, at: int, call: CallView) -> StepView<Seq<u8>> {
    if at >= replies.len() {
        StepView::Call(call)
    } else {
        match replies[at] {
            ReplyView::Git(Ok(out)) => StepView::Done(out, at + 1),
            ReplyView::Git(Err(error)) => StepView::Failed(OpErrorView::Git(error)),
            _ => StepView::Failed(unexpected()),
        }
    }
}

/// What git printed, if it did not fail.
pub open spec fn git_try(replies: Seq<ReplyView>, at: int, call: CallView) -> StepView<
    Option<Seq<u8>>,
> {
    if at >= replies.len() {
        StepView::Call(call)
    } else {
        match replies[at] {
            ReplyView::Git(Ok(out)) => StepView::Done(Some(out), at + 1),
            ReplyView::Git(Err(error)) => StepView::Done(None, at + 1),
            _ => StepView::Failed(unexpected()),
        }
    }
}

/// What a file is.
pub open spec fn kind_read(replies: Seq<ReplyView>, at: int, path: Seq<u8>) -> StepView<
    Option<FileKind>,
> {
    if at >= replies.len() {
        StepView::Call(CallView::ReadKind { path })
    } else {
        match replies[at] {
            ReplyView::Kind(Ok(kind)) => StepView::Done(kind, at + 1),
            ReplyView::Kind(Err(cause)) => StepView::Failed(OpErrorView::Io(cause)),
            _ => StepView::Failed(unexpected()),
        }
    }
}

/// What a file holds.
pub open spec fn raw_read(replies: Seq<ReplyView>, at: int, path: Seq<u8>) -> StepView<
    Option<(Seq<u8>, FileKind)>,
> {
    if at >= replies.len() {
        StepView::Call(CallView::ReadRaw { path })
    } else {
        match replies[at] {
            ReplyView::Raw(Ok(raw)) => StepView::Done(raw, at + 1),
            ReplyView::Raw(Err(cause)) => StepView::Failed(OpErrorView::Io(cause)),
            _ => StepView::Failed(unexpected()),
        }
    }
}

/// Whether a path is a directory.
pub open spec fn directory_read(replies: Seq<ReplyView>, at: int, path: Seq<u8>) -> StepView<
    bool,
> {
    if at >= replies.len() {
        StepView::Call(CallView::IsDirectory { path })
    } else {
        match replies[at] {
            ReplyView::Directory(is) => StepView::Done(is, at + 1),
            _ => StepView::Failed(unexpected()),
        }
    }
}

/// Whether a removal or a write has ended well.
pub open spec fn work_done(replies: Seq<ReplyView>, at: int, call: CallView) -> StepView<()> {
    if at >= replies.len() {
        StepView::Call(call)
    } else {
        match replies[at] {
            ReplyView::Done(Ok(())) => StepView::Done((), at + 1),
            ReplyView::Done(Err(cause)) => StepView::Failed(OpErrorView::Io(cause)),
            _ => StepView::Failed(unexpected()),
        }
    }
}

/// What git printed, or that it failed.
pub fn run_git(replies: &[Reply], at: usize, call: Call) -> (step: Step<Vec<u8>>)
    ensures
        step.deep_view() == git_out(told(replies@), at as int, call.deep_view()),
{
    if at >= replies.len() {
        return Step::Call(call);
    }
    assert(told(replies@)[at as int] == replies@[at as int].deep_view());
    match &replies[at] {
        Reply::Git(Ok(out)) => Step::Done(copy(out.as_slice()), at + 1),
        Reply::Git(Err(error)) => Step::Failed(OpError::Git(error.copy())),
        _ => Step::Failed(not_expected()),
    }
}

/// What git printed, if it did not fail.
pub fn try_git(replies: &[Reply], at: usize, call: Call) -> (step: Step<Option<Vec<u8>>>)
    ensures
        step.deep_view() == git_try(told(replies@), at as int, call.deep_view()),
{
    if at >= replies.len() {
        return Step::Call(call);
    }
    assert(told(replies@)[at as int] == replies@[at as int].deep_view());
    match &replies[at] {
        Reply::Git(Ok(out)) => Step::Done(Some(copy(out.as_slice())), at + 1),
        Reply::Git(Err(_)) => Step::Done(None, at + 1),
        _ => Step::Failed(not_expected()),
    }
}

/// What a file is.
pub fn read_kind(replies: &[Reply], at: usize, path: &[u8]) -> (step: Step<Option<FileKind>>)
    ensures
        step.deep_view() == kind_read(told(replies@), at as int, path@),
{
    if at >= replies.len() {
        return Step::Call(Call::ReadKind { path: copy(path) });
    }
    assert(told(replies@)[at as int] == replies@[at as int].deep_view());
    match &replies[at] {
        Reply::Kind(Ok(kind)) => Step::Done(*kind, at + 1),
        Reply::Kind(Err(cause)) => Step::Failed(OpError::Io(cause.clone())),
        _ => Step::Failed(not_expected()),
    }
}

/// What a file holds.
pub fn read_raw(replies: &[Reply], at: usize, path: &[u8]) -> (step: Step<
    Option<(Vec<u8>, FileKind)>,
>)
    ensures
        step.deep_view() == raw_read(told(replies@), at as int, path@),
{
    if at >= replies.len() {
        return Step::Call(Call::ReadRaw { path: copy(path) });
    }
    assert(told(replies@)[at as int] == replies@[at as int].deep_view());
    match &replies[at] {
        Reply::Raw(Ok(None)) => Step::Done(None, at + 1),
        Reply::Raw(Ok(Some((bytes, kind)))) => Step::Done(
            Some((copy(bytes.as_slice()), *kind)),
            at + 1,
        ),
        Reply::Raw(Err(cause)) => Step::Failed(OpError::Io(cause.clone())),
        _ => Step::Failed(not_expected()),
    }
}

/// Whether a path is a directory.
pub fn read_directory(replies: &[Reply], at: usize, path: &[u8]) -> (step: Step<bool>)
    ensures
        step.deep_view() == directory_read(told(replies@), at as int, path@),
{
    if at >= replies.len() {
        return Step::Call(Call::IsDirectory { path: copy(path) });
    }
    assert(told(replies@)[at as int] == replies@[at as int].deep_view());
    match &replies[at] {
        Reply::Directory(is) => Step::Done(*is, at + 1),
        _ => Step::Failed(not_expected()),
    }
}

/// Whether a removal or a write has ended well.
pub fn do_work(replies: &[Reply], at: usize, call: Call) -> (step: Step<()>)
    ensures
        step.deep_view() == work_done(told(replies@), at as int, call.deep_view()),
{
    if at >= replies.len() {
        return Step::Call(call);
    }
    assert(told(replies@)[at as int] == replies@[at as int].deep_view());
    match &replies[at] {
        Reply::Done(Ok(())) => Step::Done((), at + 1),
        Reply::Done(Err(cause)) => Step::Failed(OpError::Io(cause.clone())),
        _ => Step::Failed(not_expected()),
    }
}

} // verus!
