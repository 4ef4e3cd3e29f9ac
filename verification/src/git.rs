//! Running the `git` CLI for everything that writes, so hooks, signing, filters and the
//! user's config behave exactly as on the command line: what to run, and what came of it.
use vstd::prelude::*;

use crate::bytes::{bytes_of, copy, copy_all};
use crate::text::{copy_text, from_utf8_lossy, push_text, trim};

verus! {

broadcast use crate::bytes::lemma_deep;

/// Why git gave no result.
#[derive(Debug, PartialEq, Eq)]
pub enum GitError {
    Spawn(String),
    Failed {
        args: String,
        /// Exit code, if git exited normally.
        code: Option<i32>,
        /// stderr, or stdout if stderr was empty (hooks print to either).
        message: String,
    },
}

/// Why git gave no result, as text.
pub enum GitErrorView {
    Spawn(Seq<char>),
    Failed { args: Seq<char>, code: Option<i32>, message: Seq<char> },
}

impl DeepView for GitError {
    type V = GitErrorView;

    open spec fn deep_view(&self) -> GitErrorView {
        match *self {
            GitError::Spawn(cause) => GitErrorView::Spawn(cause@),
            GitError::Failed { args, code, message } => GitErrorView::Failed {
                args: args@,
                code,
                message: message@,
            },
        }
    }
}

/// What to tell the user of an error.
pub open spec fn error_text(error: GitErrorView) -> Seq<char> {
    match error {
        GitErrorView::Spawn(cause) => "failed to run git: "@ + cause,
        GitErrorView::Failed { args, message, .. } => "git "@ + args + " failed: "@ + message,
    }
}

impl GitError {
    /// What to tell the user.
    pub fn message(&self) -> (text: String)
        ensures
            text@ == error_text(self.deep_view()),
    {
        match self {
            GitError::Spawn(cause) => {
                let mut text = copy_text("failed to run git: ");
                push_text(&mut text, cause.as_str());
                text
            },
            GitError::Failed { args, message, .. } => {
                let mut text = copy_text("git ");
                push_text(&mut text, args.as_str());
                push_text(&mut text, " failed: ");
                push_text(&mut text, message.as_str());
                text
            },
        }
    }

    /// A copy.
    pub fn copy(&self) -> (copy: GitError)
        ensures
            copy.deep_view() == self.deep_view(),
    {
        match self {
            GitError::Spawn(cause) => GitError::Spawn(cause.clone()),
            GitError::Failed { args, code, message } => GitError::Failed {
                args: args.clone(),
                code: *code,
                message: message.clone(),
            },
        }
    }
}

/// What git printed.
#[derive(Debug)]
pub struct Output {
    pub stdout: Vec<u8>,
    pub stderr: Vec<u8>,
}

/// One variable of an environment.
pub type Var = (Vec<u8>, Vec<u8>);

/// Where to run git, and with which environment.
#[derive(Debug)]
pub struct Git {
    root: Vec<u8>,
    env: Vec<Var>,
}

/// How to run git: its arguments, and the variables to set, later ones over earlier ones.
#[derive(Debug)]
pub struct Invocation {
    pub args: Vec<Vec<u8>>,
    pub env: Vec<Var>,
}

/// The arguments before those of a command: no pager, and paths are never patterns.
pub open spec fn leading_args() -> Seq<Seq<u8>> {
    seq![
        crate::bytes::text_bytes("--no-pager"@),
        crate::bytes::text_bytes("--literal-pathspecs"@),
    ]
}

/// One variable.
pub open spec fn var(key: &str, value: &str) -> (Seq<u8>, Seq<u8>) {
    (crate::bytes::text_bytes(key@), crate::bytes::text_bytes(value@))
}

/// Identity for internal commits (undo history), so they work without a configured
/// `user.name`/`user.email`.
pub open spec fn internal_identity() -> Seq<(Seq<u8>, Seq<u8>)> {
    seq![
        var("GIT_AUTHOR_NAME", "Goro"),
        var("GIT_AUTHOR_EMAIL", "goro@localhost"),
        var("GIT_COMMITTER_NAME", "Goro"),
        var("GIT_COMMITTER_EMAIL", "goro@localhost"),
    ]
}

fn push_var(env: &mut Vec<Var>, key: &str, value: &str)
    ensures
        final(env).deep_view() == old(env).deep_view().push(
            (crate::bytes::text_bytes(key@), crate::bytes::text_bytes(value@)),
        ),
{
    env.push((bytes_of(key), bytes_of(value)));
    assert(env.deep_view() =~= old(env).deep_view().push(
        (crate::bytes::text_bytes(key@), crate::bytes::text_bytes(value@)),
    ));
}

impl Git {
    pub closed spec fn root_bytes(self) -> Seq<u8> {
        self.root@
    }

    pub closed spec fn vars(self) -> Seq<(Seq<u8>, Seq<u8>)> {
        self.env.deep_view()
    }

    pub fn new(root: Vec<u8>) -> (git: Git)
        ensures
            git.root_bytes() == root@,
            git.vars() == Seq::<(Seq<u8>, Seq<u8>)>::empty(),
    {
        let git = Git { root, env: Vec::new() };
        assert(git.vars() =~= Seq::<(Seq<u8>, Seq<u8>)>::empty());
        git
    }

    /// Extra environment for every git invocation.
    pub fn with_env(self, key: Vec<u8>, value: Vec<u8>) -> (git: Git)
        ensures
            git.root_bytes() == self.root_bytes(),
            git.vars() == self.vars().push((key@, value@)),
    {
        let ghost before = self.vars();
        let Git { root, mut env } = self;
        env.push((key, value));
        let git = Git { root, env };
        assert(git.vars() =~= before.push((key@, value@)));
        git
    }

    pub fn root(&self) -> (root: &[u8])
        ensures
            root@ == self.root_bytes(),
    {
        self.root.as_slice()
    }

    /// How to run git with some arguments; bookkeeping commits get an identity of their own.
    pub fn invocation(&self, args: &[Vec<u8>], internal: bool) -> (invocation: Invocation)
        ensures
            invocation.args.deep_view() == leading_args() + args@.map_values(|a: Vec<u8>| a@),
            invocation.env.deep_view() == seq![var("GIT_TERMINAL_PROMPT", "0")] + self.vars() + (
            if internal {
                internal_identity()
            } else {
                Seq::empty()
            }),
    {
        let mut all: Vec<Vec<u8>> = Vec::new();
        all.push(bytes_of("--no-pager"));
        all.push(bytes_of("--literal-pathspecs"));
        let mut more = copy_all(args);
        let ghost rest = more.deep_view();
        all.append(&mut more);
        assert(all.deep_view() =~= leading_args() + rest);
        let mut env: Vec<Var> = Vec::new();
        push_var(&mut env, "GIT_TERMINAL_PROMPT", "0");
        let ghost first = env.deep_view();
        assert(first =~= seq![var("GIT_TERMINAL_PROMPT", "0")]);
        let mut i: usize = 0;
        assert(first + self.vars().take(0) =~= first);
        while i < self.env.len()
            invariant
                i <= self.env@.len(),
                env.deep_view() == first + self.vars().take(i as int),
            decreases self.env.len() - i,
        {
            let (key, value) = &self.env[i];
            let ghost before = env.deep_view();
            env.push((copy(key.as_slice()), copy(value.as_slice())));
            assert(env.deep_view() =~= before.push(self.vars()[i as int]));
            i = i + 1;
            assert(env.deep_view() =~= first + self.vars().take(i as int));
        }
        assert(self.vars().take(i as int) =~= self.vars());
        assert(first + self.vars() + Seq::<(Seq<u8>, Seq<u8>)>::empty() =~= first + self.vars());
        if internal {
            push_var(&mut env, "GIT_AUTHOR_NAME", "Goro");
            push_var(&mut env, "GIT_AUTHOR_EMAIL", "goro@localhost");
            push_var(&mut env, "GIT_COMMITTER_NAME", "Goro");
            push_var(&mut env, "GIT_COMMITTER_EMAIL", "goro@localhost");
            assert(env.deep_view() =~= first + self.vars() + internal_identity());
        }
        Invocation { args: all, env }
    }
}

/// Arguments as text, with a space between each two.
pub open spec fn args_text(args: Seq<Seq<u8>>) -> Seq<char>
    decreases args.len(),
{
    if args.len() == 0 {
        Seq::empty()
    } else if args.len() == 1 {
        crate::text::lossy(args[0])
    } else {
        args_text(args.drop_last()) + " "@ + crate::text::lossy(args.last())
    }
}

fn show_args(args: &[Vec<u8>]) -> (text: String)
    ensures
        text@ == args_text(args@.map_values(|a: Vec<u8>| a@)),
{
    let ghost all = args@.map_values(|a: Vec<u8>| a@);
    let mut text = String::new();
    let mut i: usize = 0;
    assert(all.take(0) =~= Seq::<Seq<u8>>::empty());
    while i < args.len()
        invariant
            i <= args@.len(),
            all == args@.map_values(|a: Vec<u8>| a@),
            text@ == args_text(all.take(i as int)),
        decreases args.len() - i,
    {
        proof {
            assert(all.take(i + 1).drop_last() =~= all.take(i as int));
            assert(all.take(i + 1).last() == args@[i as int]@);
        }
        let shown = from_utf8_lossy(args[i].as_slice());
        if i > 0 {
            push_text(&mut text, " ");
        }
        push_text(&mut text, shown.as_str());
        assert(text@ =~= args_text(all.take(i + 1)));
        i = i + 1;
    }
    assert(all.take(i as int) =~= all);
    text
}

/// What a failed git says: its stderr, or its stdout if that says nothing.
pub open spec fn failure_text(stdout: Seq<u8>, stderr: Seq<u8>) -> Seq<char> {
    let told = crate::text::trimmed(crate::text::lossy(stderr));
    if told.len() == 0 {
        crate::text::trimmed(crate::text::lossy(stdout))
    } else {
        told
    }
}

/// The result of a git that has ended: what it printed, or the error with what it said.
pub fn finished(
    args: &[Vec<u8>],
    success: bool,
    code: Option<i32>,
    stdout: Vec<u8>,
    stderr: Vec<u8>,
) -> (result: Result<Output, GitError>)
    ensures
        match result {
            Ok(out) => success && out.stdout@ == stdout@ && out.stderr@ == stderr@,
            Err(error) => !success && error.deep_view() == (GitErrorView::Failed {
                args: args_text(args@.map_values(|a: Vec<u8>| a@)),
                code,
                message: failure_text(stdout@, stderr@),
            }),
        },
{
    if success {
        return Ok(Output { stdout, stderr });
    }
    let told = trim(from_utf8_lossy(stderr.as_slice()).as_str());
    let silent = told.as_str().as_bytes().len() == 0;
    proof {
        lemma_no_bytes(told@);
    }
    let message = if silent {
        trim(from_utf8_lossy(stdout.as_slice()).as_str())
    } else {
        told
    };
    Err(GitError::Failed { args: show_args(args), code, message })
}

/// A text without bytes has no characters.
pub proof fn lemma_no_bytes(text: Seq<char>)
    ensures
        vstd::utf8::encode_utf8(text).len() == 0 <==> text.len() == 0,
{
    if text.len() > 0 {
        crate::utf8::lemma_byte_of_less(text, 0, text.len() as int);
        assert(text.take(text.len() as int) =~= text);
        assert(text.take(0) =~= Seq::<char>::empty());
    } else {
        assert(text =~= Seq::<char>::empty());
    }
}

} // verus!
