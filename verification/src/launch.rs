//! What `goro` does when it is started: which repository it opens, whether it leaves the
//! terminal, how `--wait` waits, and what the `hooks` command says.
use vstd::prelude::*;

use crate::hooks::{Agent, FileEdit};
use crate::ipc::WaitReply;
use crate::text::{chars_of, copy_text, number_text, push_text, same_text, trim};
use crate::turns::TurnEvent;

verus! {

/// Set in the detached child so it doesn't detach again.
pub const NO_DETACH: &'static str = "GORO_NO_DETACH";

/// How long `--wait` waits for a freshly started instance to accept connections.
pub const START_TIMEOUT_MS: u64 = 10_000;

/// How long `--wait` pauses before it tries to connect again.
pub const RETRY_MS: u64 = 50;

/// The name of a turn event in a hook command.
pub open spec fn event_name(event: TurnEvent) -> Seq<char> {
    match event {
        TurnEvent::Start => "prompt"@,
        TurnEvent::End => "stop"@,
    }
}

/// The turn event that a hook command names.
pub fn parse_event(event: &str) -> (parsed: Option<TurnEvent>)
    ensures
        match parsed {
            Some(e) => event@ == event_name(e),
            None => forall|e: TurnEvent| event@ != #[trigger] event_name(e),
        },
{
    proof {
        reveal_strlit("prompt");
        reveal_strlit("stop");
    }
    if same_text(event, "prompt") {
        Some(TurnEvent::Start)
    } else if same_text(event, "stop") {
        Some(TurnEvent::End)
    } else {
        None
    }
}

/// Where to look for the repository to open.
#[derive(Debug, Clone, Copy, PartialEq, Eq, Structural)]
pub enum Start {
    /// The path that was given.
    Given,
    /// The current directory, if it lies in a repository.
    CurrentDirectory,
    /// Wherever an agent worked last: a desktop launch starts in `/` or `$HOME`, which says
    /// nothing about intent.
    Detect,
}

/// Where to look for the repository to open.
pub fn start(path_given: bool, from_terminal: bool, wait: bool) -> (start: Start)
    ensures
        path_given ==> start == Start::Given,
        !path_given && (from_terminal || wait) ==> start == Start::CurrentDirectory,
        !path_given && !from_terminal && !wait ==> start == Start::Detect,
{
    if path_given {
        Start::Given
    } else if from_terminal || wait {
        Start::CurrentDirectory
    } else {
        Start::Detect
    }
}

/// Whether to start again in the background and give the terminal back.
pub fn detaches(from_terminal: bool, bench: bool, trace: bool, no_detach: bool) -> (result: bool)
    ensures
        result <==> from_terminal && !bench && !trace && !no_detach,
{
    from_terminal && !bench && !trace && !no_detach
}

/// What `--wait` does next.
#[derive(Debug, PartialEq, Eq)]
pub enum WaitStep {
    /// Print the comments and succeed.
    Print(String),
    /// Say why and fail.
    Fail(String),
    /// Start an instance, then connect again.
    Launch,
    /// Pause, then connect again.
    Retry,
}

/// What `--wait` says when the instance that it started takes no connection.
pub open spec fn not_started(error: Seq<char>) -> Seq<char> {
    "Goro didn't start ("@ + error + ")"@
}

/// What an answer other than the expected ones comes to.
pub open spec fn connection_error(reply: Result<WaitReply, String>) -> Option<Seq<char>> {
    match reply {
        Err(error) => Some(error@),
        Ok(WaitReply::Unexpected) => Some("unexpected reply"@),
        Ok(_) => None,
    }
}

/// Whether `step` is what `--wait` does after it connected, or failed to.
pub open spec fn waits(
    reply: Result<WaitReply, String>,
    launched: bool,
    elapsed_ms: u64,
    step: WaitStep,
) -> bool {
    match connection_error(reply) {
        Some(_) if !launched => step is Launch,
        Some(_) if elapsed_ms < START_TIMEOUT_MS => step is Retry,
        Some(error) => step matches WaitStep::Fail(text) && text@ == not_started(error),
        None => match reply {
            Ok(WaitReply::Sent(markdown)) => step matches WaitStep::Print(text) && text@
                == markdown@,
            _ => step matches WaitStep::Fail(text) && text@
                == "the review was closed without being sent"@,
        },
    }
}

/// What `--wait` does after it connected, or failed to: `launched` says whether it started an
/// instance before, and `elapsed_ms` how long it has been trying.
pub fn wait_step(reply: Result<WaitReply, String>, launched: bool, elapsed_ms: u64) -> (step:
    WaitStep)
    ensures
        waits(reply, launched, elapsed_ms, step),
{
    let error = match reply {
        Ok(WaitReply::Sent(markdown)) => {
            return WaitStep::Print(markdown);
        },
        Ok(WaitReply::Cancelled) => {
            return WaitStep::Fail(copy_text("the review was closed without being sent"));
        },
        Ok(WaitReply::Unexpected) => copy_text("unexpected reply"),
        Err(error) => error,
    };
    if !launched {
        WaitStep::Launch
    } else if elapsed_ms < START_TIMEOUT_MS {
        WaitStep::Retry
    } else {
        let mut text = copy_text("Goro didn't start (");
        push_text(&mut text, error.as_str());
        push_text(&mut text, ")");
        WaitStep::Fail(text)
    }
}

/// `--wait` starts at most one instance: after it started one it never starts another.
pub proof fn law_waiting_launches_once(
    reply: Result<WaitReply, String>,
    elapsed_ms: u64,
    step: WaitStep,
)
    requires
        waits(reply, true, elapsed_ms, step),
    ensures
        !(step is Launch),
{
}

/// `--wait` comes to an end: once an instance was started and the time is up, whatever comes
/// back it prints the comments or fails.
pub proof fn law_waiting_ends(reply: Result<WaitReply, String>, elapsed_ms: u64, step: WaitStep)
    requires
        waits(reply, true, elapsed_ms, step),
        elapsed_ms >= START_TIMEOUT_MS,
    ensures
        step is Print || step is Fail,
{
}

/// The arguments with which a hook starts its worker.
pub fn worker_args(agent: &str, event: &str, at_ms: u64) -> (args: Vec<String>)
    ensures
        args.deep_view() == seq![
            "hook-worker"@,
            agent@,
            event@,
            crate::text::digits(at_ms as nat),
        ],
{
    let at = number_text(at_ms);
    let args = vec![copy_text("hook-worker"), copy_text(agent), copy_text(event), at];
    assert(args.deep_view() =~= seq![
        "hook-worker"@,
        agent@,
        event@,
        crate::text::digits(at_ms as nat),
    ]);
    args
}

/// The line that a failed worker leaves in the log.
pub fn worker_error(agent: &str, event: &str, error: &str) -> (line: String)
    ensures
        line@ == "hook-worker "@ + agent@ + " "@ + event@ + ": "@ + error@,
{
    let mut line = copy_text("hook-worker ");
    push_text(&mut line, agent);
    push_text(&mut line, " ");
    push_text(&mut line, event);
    push_text(&mut line, ": ");
    push_text(&mut line, error);
    line
}

// ---------------------------------------------------------------------------
// The `hooks` command.

/// Whether an answer confirms.
pub fn is_yes(answer: &str) -> (yes: bool)
    ensures
        yes <==> ({
            let word = crate::text::trimmed(answer@);
            word == "y"@ || word == "Y"@ || word == "yes"@
        }),
{
    let word = trim(answer);
    same_text(word.as_str(), "y") || same_text(word.as_str(), "Y") || same_text(
        word.as_str(),
        "yes",
    )
}

/// What the `hooks` command does with the edits that change something.
#[derive(Debug, Clone, Copy, PartialEq, Eq, Structural)]
pub enum HooksStep {
    /// Say that there is nothing to change, and succeed.
    Nothing,
    /// Say that `--yes` is needed without a terminal, and fail.
    NeedsYes,
    /// Ask first.
    Ask,
    Apply,
}

/// What the `hooks` command does with `changes` edits that change something.
pub fn hooks_step(changes: usize, yes: bool, from_terminal: bool) -> (step: HooksStep)
    ensures
        step == (if changes == 0 {
            HooksStep::Nothing
        } else if yes {
            HooksStep::Apply
        } else if from_terminal {
            HooksStep::Ask
        } else {
            HooksStep::NeedsYes
        }),
{
    if changes == 0 {
        HooksStep::Nothing
    } else if yes {
        HooksStep::Apply
    } else if from_terminal {
        HooksStep::Ask
    } else {
        HooksStep::NeedsYes
    }
}

/// A text filled up with spaces to a width; a longer text stays as it is.
pub open spec fn padded(text: Seq<char>, width: nat) -> Seq<char> {
    text + Seq::new(
        (if text.len() < width {
            width - text.len()
        } else {
            0
        }) as nat,
        |i: int| ' ',
    )
}

/// A text filled up with spaces to a width.
pub fn pad(text: &str, width: usize) -> (result: String)
    ensures
        result@ == padded(text@, width as nat),
{
    let mut len: usize = chars_of(text).len();
    let mut result = copy_text(text);
    let ghost start = len;
    while len < width
        invariant
            start == text@.len(),
            start <= len,
            start < width ==> len <= width,
            start >= width ==> len == start,
            result@ == text@ + Seq::new((len - start) as nat, |i: int| ' '),
        decreases width - len,
    {
        result.push(' ');
        len = len + 1;
        assert(result@ =~= text@ + Seq::new((len - start) as nat, |i: int| ' '));
    }
    assert(result@ =~= padded(text@, width as nat));
    result
}

/// The line of `goro hooks status` for an agent.
pub fn status_line(agent: &Agent, installed: bool) -> (line: String)
    ensures
        line@ == padded(crate::hooks::agent_name(*agent), 7) + " "@ + if installed {
            "installed"@
        } else {
            "not installed"@
        },
{
    let mut line = pad(agent.name(), 7);
    push_text(&mut line, " ");
    if installed {
        push_text(&mut line, "installed");
    } else {
        push_text(&mut line, "not installed");
    }
    line
}

/// The line that says what installing changes in a file.
pub fn install_line(command: &str) -> (line: String)
    ensures
        line@ == "  run `"@ + command@
            + "` on UserPromptSubmit and `… stop` on Stop (existing hooks are kept)"@,
{
    let mut line = copy_text("  run `");
    push_text(&mut line, command);
    push_text(
        &mut line,
        "` on UserPromptSubmit and `… stop` on Stop (existing hooks are kept)",
    );
    line
}

/// Whether an edit that changes something is Codex's.
pub open spec fn edits_codex(edits: Seq<FileEdit>) -> bool {
    exists|i: int|
        0 <= i < edits.len() && #[trigger] edits[i].agent == Agent::Codex
            && edits[i].before.deep_view() != Some(edits[i].after@)
}

/// Whether to say that Codex asks to trust new hooks: after installing into it.
pub fn needs_codex_trust(install: bool, edits: &[FileEdit]) -> (result: bool)
    ensures
        result <==> install && edits_codex(edits@),
{
    if !install {
        return false;
    }
    let mut i: usize = 0;
    while i < edits.len()
        invariant
            i <= edits@.len(),
            install,
            forall|j: int|
                0 <= j < i ==> #[trigger] edits@[j].agent != Agent::Codex
                    || edits@[j].before.deep_view() == Some(edits@[j].after@),
        decreases edits.len() - i,
    {
        let is_codex = match &edits[i].agent {
            Agent::Codex => true,
            Agent::Claude(_) => false,
        };
        if is_codex && edits[i].changes_something() {
            return true;
        }
        i = i + 1;
    }
    false
}

} // verus!
