//! Agent hooks: installing Goro into coding agents, and what they send.
//!
//! The agents run `goro hook <agent> <prompt|stop>` with a JSON payload on stdin at the
//! start and end of every turn.
use vstd::prelude::*;

use crate::calls;
use crate::calls::{Reply, ReplyView, Step, StepView};
use crate::json;
use crate::json::{parse, position, print, Json, JsonView, Member};
use crate::text::{chars_of, copy_text, push_text, trim};
use crate::turns;
use crate::turns::{MetaView, SnapshotMeta, TurnEvent};

verus! {

/// An agent that Goro's hooks can be installed into. Its name is the one that its hooks go by,
/// and that of its directory under the home directory, behind a dot.
#[derive(Debug, PartialEq, Eq)]
pub enum Agent {
    /// Goes by the name that is given (see [`Names`]).
    Claude(String),
    Codex,
}

/// The names of agents that have none of their own here.
#[derive(Debug, PartialEq, Eq)]
pub struct Names {
    pub claude: String,
}

/// An agent's name.
pub open spec fn agent_name(agent: Agent) -> Seq<char> {
    match agent {
        Agent::Claude(name) => name@,
        Agent::Codex => "codex"@,
    }
}

impl Agent {
    pub fn name(&self) -> (name: &str)
        ensures
            name@ == agent_name(*self),
    {
        match self {
            Agent::Claude(name) => name.as_str(),
            Agent::Codex => "codex",
        }
    }

    /// A copy.
    pub fn copy(&self) -> (copy: Agent)
        ensures
            copy == *self,
    {
        match self {
            Agent::Claude(name) => Agent::Claude(name.clone()),
            Agent::Codex => Agent::Codex,
        }
    }

    /// The agent with a name.
    pub fn parse(names: &Names, name: &str) -> (agent: Option<Agent>)
        ensures
            agent == (if name@ == names.claude@ {
                Some(Agent::Claude(names.claude))
            } else if name@ == "codex"@ {
                Some(Agent::Codex)
            } else {
                None
            }),
    {
        if crate::text::same_text(name, names.claude.as_str()) {
            Some(Agent::Claude(names.claude.clone()))
        } else if crate::text::same_text(name, "codex") {
            Some(Agent::Codex)
        } else {
            None
        }
    }
}

/// The fields Goro uses from either agent's hook payload.
#[derive(Debug, PartialEq, Eq)]
pub struct HookPayload {
    pub session_id: String,
    pub cwd: String,
    pub prompt: Option<String>,
    pub turn_id: Option<String>,
}

/// What to record of a hook event.
pub fn snapshot_meta(agent: &Agent, event: TurnEvent, payload: &HookPayload, at_ms: u64) -> (meta:
    SnapshotMeta)
    ensures
        meta.deep_view() == (MetaView {
            agent: agent_name(*agent),
            event,
            session_id: payload.session_id@,
            turn_id: payload.turn_id.deep_view(),
            prompt: payload.prompt.deep_view(),
            at_ms,
        }),
{
    SnapshotMeta {
        agent: copy_text(agent.name()),
        event,
        session_id: payload.session_id.clone(),
        turn_id: match &payload.turn_id {
            Some(id) => Some(id.clone()),
            None => None,
        },
        prompt: match &payload.prompt {
            Some(prompt) => Some(prompt.clone()),
            None => None,
        },
        at_ms,
    }
}

/// Whether a step is where recording a turn stands: a snapshot of the working tree, then only
/// the newest snapshots are kept, and the repository's root is the result. Outside a
/// repository (`None`) there is nothing to record.
pub open spec fn handles(
    root: Option<Seq<u8>>,
    meta: MetaView,
    json: Seq<char>,
    temp: Seq<char>,
    replies: Seq<ReplyView>,
    step: StepView<Option<Seq<u8>>>,
) -> bool {
    match root {
        None => step == StepView::Done(None::<Seq<u8>>, 0),
        Some(root) => match turns::snapshot_step(meta, json, temp, replies) {
            StepView::Call(call) => step == StepView::<Option<Seq<u8>>>::Call(call),
            StepView::Failed(error) => step == StepView::<Option<Seq<u8>>>::Failed(error),
            StepView::Done(_, at) => ends_with_pruning(replies, at, root, step),
        },
    }
}

/// Whether a step is where deleting all but the newest snapshots stands, from reply `at` on, with
/// a repository's root as the result.
pub open spec fn ends_with_pruning(
    replies: Seq<ReplyView>,
    at: int,
    root: Seq<u8>,
    step: StepView<Option<Seq<u8>>>,
) -> bool {
    exists|rest: StepView<()>|
        {
            &&& #[trigger] turns::prunes_to(
                replies.skip(at),
                turns::KEEP_SNAPSHOTS as nat,
                rest,
            )
            &&& step == match rest {
                StepView::Call(call) => StepView::Call(call),
                StepView::Failed(error) => StepView::Failed(error),
                StepView::Done(_, used) => StepView::Done(Some(root), at + used),
            }
        }
}

/// Records a turn for `meta`, whose JSON is `json`, in the repository that the agent works in.
pub fn handle(
    root: Option<Vec<u8>>,
    meta: &SnapshotMeta,
    json: &str,
    temp: &str,
    replies: &[Reply],
) -> (step: Step<Option<Vec<u8>>>)
    ensures
        handles(
            root.deep_view(),
            meta.deep_view(),
            json@,
            temp@,
            calls::told(replies@),
            step.deep_view(),
        ),
{
    let root = match root {
        None => {
            return Step::Done(None, 0);
        },
        Some(root) => root,
    };
    let ghost all = calls::told(replies@);
    let at: usize = match turns::snapshot(meta, json, temp, replies) {
        Step::Call(call) => {
            return Step::Call(call);
        },
        Step::Failed(error) => {
            return Step::Failed(error);
        },
        Step::Done(_, at) => at,
    };
    proof {
        turns::lemma_snapshot_used(meta.deep_view(), json@, temp@, all);
    }
    let later = vstd::slice::slice_subrange(replies, at, replies.len());
    assert(calls::told(later@) =~= all.skip(at as int));
    let rest = turns::prune(turns::KEEP_SNAPSHOTS, later);
    let ghost seen = rest.deep_view();
    proof {
        turns::lemma_prune_used(all.skip(at as int), turns::KEEP_SNAPSHOTS as nat, seen);
    }
    match rest {
        Step::Call(call) => Step::Call(call),
        Step::Failed(error) => Step::Failed(error),
        Step::Done(_, used) => Step::Done(Some(root), at + used),
    }
}

// ---------------------------------------------------------------------------
// Commands.

/// A character that a shell takes as it is.
pub open spec fn plain_char(c: char) -> bool {
    ('a' <= c && c <= 'z') || ('A' <= c && c <= 'Z') || ('0' <= c && c <= '9') || c == '/' || c
        == '.' || c == '_' || c == '-' || c == '+'
}

/// A text with each single quote written so that it can stand between single quotes.
pub open spec fn quotes_escaped(text: Seq<char>) -> Seq<char>
    decreases text.len(),
{
    if text.len() == 0 {
        Seq::empty()
    } else if text.last() == '\'' {
        quotes_escaped(text.drop_last()) + seq!['\'', '\\', '\'', '\'']
    } else {
        quotes_escaped(text.drop_last()).push(text.last())
    }
}

/// A text as one word of a command line.
pub open spec fn quoted(text: Seq<char>, windows: bool) -> Seq<char> {
    if forall|i: int| 0 <= i < text.len() ==> plain_char(#[trigger] text[i]) {
        text
    } else if windows {
        seq!['"'] + text + seq!['"']
    } else {
        seq!['\''] + quotes_escaped(text) + seq!['\'']
    }
}

/// A text as one word of a command line.
pub fn shell_quote(text: &str, windows: bool) -> (word: String)
    ensures
        word@ == quoted(text@, windows),
{
    let chars = chars_of(text);
    let mut plain = true;
    let mut i: usize = 0;
    while i < chars.len()
        invariant
            i <= chars@.len(),
            chars@ == text@,
            plain <==> forall|k: int| 0 <= k < i ==> plain_char(#[trigger] chars@[k]),
        decreases chars.len() - i,
    {
        let c = chars[i];
        let fits = ('a' <= c && c <= 'z') || ('A' <= c && c <= 'Z') || ('0' <= c && c <= '9') || c
            == '/' || c == '.' || c == '_' || c == '-' || c == '+';
        if !fits {
            assert(!plain_char(chars@[i as int]));
            plain = false;
        }
        i = i + 1;
    }
    if plain {
        return copy_text(text);
    }
    let mut word = String::new();
    if windows {
        word.push('"');
        push_text(&mut word, text);
        word.push('"');
        assert(word@ =~= seq!['"'] + text@ + seq!['"']);
        return word;
    }
    word.push('\'');
    let mut k: usize = 0;
    assert(chars@.take(0) =~= Seq::<char>::empty());
    assert(word@ =~= seq!['\''] + quotes_escaped(chars@.take(0)));
    while k < chars.len()
        invariant
            k <= chars@.len(),
            word@ == seq!['\''] + quotes_escaped(chars@.take(k as int)),
        decreases chars.len() - k,
    {
        assert(chars@.take(k + 1).drop_last() =~= chars@.take(k as int));
        if chars[k] == '\'' {
            word.push('\'');
            word.push('\\');
            word.push('\'');
            word.push('\'');
        } else {
            word.push(chars[k]);
        }
        k = k + 1;
        assert(word@ =~= seq!['\''] + quotes_escaped(chars@.take(k as int)));
    }
    assert(chars@.take(k as int) =~= chars@);
    word.push('\'');
    assert(word@ =~= seq!['\''] + quotes_escaped(text@) + seq!['\'']);
    word
}

/// How a POSIX shell reads a word: what it stands for, and whether a quote is still open.
/// Outside of quotes a backslash takes the next character as it is.
pub struct ShellRead {
    pub text: Seq<char>,
    pub quoted: bool,
    pub escaped: bool,
}

/// How a POSIX shell reads a word.
pub open spec fn shell_read(word: Seq<char>) -> ShellRead
    decreases word.len(),
{
    if word.len() == 0 {
        ShellRead { text: Seq::empty(), quoted: false, escaped: false }
    } else {
        let before = shell_read(word.drop_last());
        let c = word.last();
        if before.escaped {
            ShellRead { text: before.text.push(c), quoted: false, escaped: false }
        } else if c == '\'' {
            ShellRead { text: before.text, quoted: !before.quoted, escaped: false }
        } else if c == '\\' && !before.quoted {
            ShellRead { text: before.text, quoted: false, escaped: true }
        } else {
            ShellRead { text: before.text.push(c), quoted: before.quoted, escaped: false }
        }
    }
}

proof fn lemma_reads_plain(text: Seq<char>)
    requires
        forall|i: int| 0 <= i < text.len() ==> plain_char(#[trigger] text[i]),
    ensures
        shell_read(text) == (ShellRead { text, quoted: false, escaped: false }),
    decreases text.len(),
{
    if text.len() > 0 {
        lemma_reads_plain(text.drop_last());
        assert(plain_char(text[text.len() - 1]));
        assert(text.drop_last().push(text.last()) =~= text);
    } else {
        assert(text =~= Seq::<char>::empty());
    }
}

proof fn lemma_reads_push(word: Seq<char>, c: char)
    ensures
        word.push(c).drop_last() == word,
        word.push(c).last() == c,
{
    assert(word.push(c).drop_last() =~= word);
}

proof fn lemma_reads_escaped(text: Seq<char>)
    ensures
        shell_read(seq!['\''] + quotes_escaped(text)) == (ShellRead {
            text,
            quoted: true,
            escaped: false,
        }),
    decreases text.len(),
{
    let open = seq!['\''];
    if text.len() == 0 {
        assert(open + quotes_escaped(text) =~= open);
        assert(open.drop_last() =~= Seq::<char>::empty());
        assert(shell_read(open.drop_last()) == (ShellRead {
            text: Seq::empty(),
            quoted: false,
            escaped: false,
        }));
        assert(text =~= Seq::<char>::empty());
    } else {
        lemma_reads_escaped(text.drop_last());
        let before = open + quotes_escaped(text.drop_last());
        assert(text.drop_last().push(text.last()) =~= text);
        if text.last() == '\'' {
            let a = before.push('\'');
            let b = a.push('\\');
            let c = b.push('\'');
            let d = c.push('\'');
            assert(open + quotes_escaped(text) =~= d);
            lemma_reads_push(before, '\'');
            lemma_reads_push(a, '\\');
            lemma_reads_push(b, '\'');
            lemma_reads_push(c, '\'');
            assert(shell_read(a) == (ShellRead {
                text: text.drop_last(),
                quoted: false,
                escaped: false,
            }));
            assert(shell_read(b) == (ShellRead {
                text: text.drop_last(),
                quoted: false,
                escaped: true,
            }));
            assert(shell_read(c) == (ShellRead { text, quoted: false, escaped: false }));
        } else {
            lemma_reads_push(before, text.last());
            assert(open + quotes_escaped(text) =~= before.push(text.last()));
        }
    }
}

/// A POSIX shell reads a quoted text back as one word, the text itself.
pub proof fn law_quoted_words_read_back(text: Seq<char>)
    ensures
        shell_read(quoted(text, false)) == (ShellRead { text, quoted: false, escaped: false }),
{
    if forall|i: int| 0 <= i < text.len() ==> plain_char(#[trigger] text[i]) {
        lemma_reads_plain(text);
    } else {
        lemma_reads_escaped(text);
        let before = seq!['\''] + quotes_escaped(text);
        lemma_reads_push(before, '\'');
        assert(quoted(text, false) =~= before.push('\''));
    }
}

/// The command an agent runs for an event.
pub open spec fn command_for(
    goro: Seq<char>,
    agent: Agent,
    event: Seq<char>,
    windows: bool,
) -> Seq<char> {
    quoted(goro, windows) + " hook "@ + agent_name(agent) + " "@ + event
}

/// The command an agent runs for `event`.
pub fn hook_command(goro: &str, agent: &Agent, event: &str, windows: bool) -> (command: String)
    ensures
        command@ == command_for(goro@, *agent, event@, windows),
{
    let mut command = shell_quote(goro, windows);
    push_text(&mut command, " hook ");
    push_text(&mut command, agent.name());
    push_text(&mut command, " ");
    push_text(&mut command, event);
    command
}

/// Whether a text ends with another.
pub open spec fn ends_with(text: Seq<char>, suffix: Seq<char>) -> bool {
    suffix.len() <= text.len() && text.skip(text.len() - suffix.len()) == suffix
}

/// Whether a text holds another from a position on.
pub open spec fn holds_at(text: Seq<char>, part: Seq<char>, at: int) -> bool {
    0 <= at && at + part.len() <= text.len() && text.subrange(at, at + part.len()) == part
}

/// Whether a text holds another.
pub open spec fn holds(text: Seq<char>, part: Seq<char>) -> bool {
    exists|at: int| #[trigger] holds_at(text, part, at)
}

/// The end of a command for an event.
pub open spec fn command_end(agent: Agent, event: Seq<char>) -> Seq<char> {
    " hook "@ + agent_name(agent) + " "@ + event
}

/// Whether a command is one of Goro's for an agent.
pub open spec fn goro_command(command: Seq<char>, agent: Agent) -> bool {
    (ends_with(command, command_end(agent, "prompt"@)) || ends_with(
        command,
        command_end(agent, "stop"@),
    )) && holds(command, "goro"@)
}

fn does_end_with(text: &[char], suffix: &[char]) -> (result: bool)
    ensures
        result == ends_with(text@, suffix@),
{
    let total: usize = text.len();
    let count: usize = suffix.len();
    if count > total {
        return false;
    }
    let from: usize = total - count;
    let mut i: usize = 0;
    while i < count
        invariant
            i <= count == suffix@.len(),
            from == total - count,
            total == text@.len(),
            count <= total,
            forall|k: int| 0 <= k < i ==> text@[from + k] == #[trigger] suffix@[k],
        decreases count - i,
    {
        if text[from + i] != suffix[i] {
            assert(text@.skip(from as int)[i as int] != suffix@[i as int]);
            return false;
        }
        i = i + 1;
    }
    assert(text@.skip(from as int) =~= suffix@);
    true
}

fn does_hold(text: &[char], part: &[char]) -> (result: bool)
    ensures
        result == holds(text@, part@),
{
    let total: usize = text.len();
    let count: usize = part.len();
    if count > total {
        assert(!holds(text@, part@));
        return false;
    }
    let last: usize = total - count;
    let mut at: usize = 0;
    loop
        invariant
            at <= last == total - count,
            total == text@.len(),
            count == part@.len(),
            count <= total,
            forall|k: int| 0 <= k < at ==> !holds_at(text@, part@, k),
        decreases last + 1 - at,
    {
        let mut i: usize = 0;
        let mut matches = true;
        while i < count
            invariant
                i <= count == part@.len(),
                at <= last == total - count,
                total == text@.len(),
                matches <==> forall|k: int|
                    0 <= k < i ==> text@[at + k] == #[trigger] part@[k],
            decreases count - i,
        {
            if text[at + i] != part[i] {
                matches = false;
            }
            i = i + 1;
        }
        if matches {
            assert(text@.subrange(at as int, at + count) =~= part@);
            assert(holds_at(text@, part@, at as int));
            return true;
        }
        assert(!holds_at(text@, part@, at as int)) by {
            let k = choose|k: int| 0 <= k < count && text@[at + k] != #[trigger] part@[k];
            assert(text@.subrange(at as int, at + count)[k] != part@[k]);
        }
        if at == last {
            return false;
        }
        at = at + 1;
    }
}

fn end_of_command(agent: &Agent, event: &str) -> (end: Vec<char>)
    ensures
        end@ == command_end(*agent, event@),
{
    let mut end = copy_text(" hook ");
    push_text(&mut end, agent.name());
    push_text(&mut end, " ");
    push_text(&mut end, event);
    chars_of(end.as_str())
}

/// Whether a command is one of Goro's for an agent.
pub fn is_goro_command(command: &str, agent: &Agent) -> (result: bool)
    ensures
        result == goro_command(command@, *agent),
{
    let chars = chars_of(command);
    let ends = does_end_with(chars.as_slice(), end_of_command(agent, "prompt").as_slice())
        || does_end_with(chars.as_slice(), end_of_command(agent, "stop").as_slice());
    ends && does_hold(chars.as_slice(), chars_of("goro").as_slice())
}

// ---------------------------------------------------------------------------
// Hooks in a configuration.

/// The members of an object.
pub type Members = Seq<(Seq<char>, JsonView)>;

/// Whether a hook runs one of Goro's commands.
pub open spec fn goro_hook(hook: JsonView, agent: Agent) -> bool {
    json::value_at(hook, "command"@) matches Some(JsonView::Text(command)) && goro_command(
        command,
        agent,
    )
}

/// The hooks that run no command of Goro's.
pub open spec fn others(hooks: Seq<JsonView>, agent: Agent) -> Seq<JsonView>
    decreases hooks.len(),
{
    if hooks.len() == 0 {
        Seq::empty()
    } else if goro_hook(hooks.last(), agent) {
        others(hooks.drop_last(), agent)
    } else {
        others(hooks.drop_last(), agent).push(hooks.last())
    }
}

/// A group without Goro's commands.
pub open spec fn cleaned(group: JsonView, agent: Agent) -> JsonView {
    match group {
        JsonView::Object(members) => match json::member(members, "hooks"@) {
            Some(JsonView::List(hooks)) => {
                let at = json::member_at(members, "hooks"@);
                JsonView::Object(
                    members.update(at, (members[at].0, JsonView::List(others(hooks, agent)))),
                )
            },
            _ => group,
        },
        _ => group,
    }
}

/// Whether a group has hooks, all of which run commands of Goro's.
pub open spec fn emptied(group: JsonView, agent: Agent) -> bool {
    json::value_at(group, "hooks"@) matches Some(JsonView::List(hooks)) && hooks.len() > 0
        && others(hooks, agent).len() == 0
}

/// Groups without Goro's commands, and without those that this leaves empty.
pub open spec fn clean_groups(groups: Seq<JsonView>, agent: Agent) -> Seq<JsonView>
    decreases groups.len(),
{
    if groups.len() == 0 {
        Seq::empty()
    } else {
        let before = clean_groups(groups.drop_last(), agent);
        if emptied(groups.last(), agent) {
            before
        } else {
            before.push(cleaned(groups.last(), agent))
        }
    }
}

/// The group that runs a command of Goro's.
pub open spec fn goro_group(command: Seq<char>) -> JsonView {
    JsonView::Object(
        seq![
            (
                "hooks"@,
                JsonView::List(
                    seq![
                        JsonView::Object(
                            seq![
                                ("type"@, JsonView::Text("command"@)),
                                ("command"@, JsonView::Text(command)),
                                ("timeout"@, JsonView::Number(json::number_from(5))),
                            ],
                        ),
                    ],
                ),
            ),
        ],
    )
}

/// Hooks with Goro's command for an event, in place of any earlier one and behind the others
/// that are there; or without, and without the event if this leaves it empty. Everything else
/// stays where it is.
pub open spec fn event_planned(
    hooks: Members,
    event: Seq<char>,
    agent: Agent,
    command: Option<Seq<char>>,
) -> Members {
    let at = json::member_at(hooks, event);
    match (json::member(hooks, event), command) {
        (Some(JsonView::List(groups)), Some(c)) => hooks.update(
            at,
            (hooks[at].0, JsonView::List(clean_groups(groups, agent).push(goro_group(c)))),
        ),
        (Some(JsonView::List(groups)), None) => {
            let kept = clean_groups(groups, agent);
            if groups.len() > 0 && kept.len() == 0 {
                hooks.remove(at)
            } else {
                hooks.update(at, (hooks[at].0, JsonView::List(kept)))
            }
        },
        (None, Some(c)) => hooks.push((event, JsonView::List(seq![goro_group(c)]))),
        _ => hooks,
    }
}

/// The commands to install for the start and the end of a turn.
pub struct Commands {
    pub prompt: Option<Seq<char>>,
    pub stop: Option<Seq<char>>,
}

/// Hooks with Goro's commands for both events, or without.
pub open spec fn hooks_planned(hooks: Members, agent: Agent, commands: Commands) -> Members {
    event_planned(
        event_planned(hooks, "UserPromptSubmit"@, agent, commands.prompt),
        "Stop"@,
        agent,
        commands.stop,
    )
}

/// Why a configuration is left alone.
#[derive(Debug, Clone, Copy, PartialEq, Eq, Structural)]
pub enum Problem {
    NotAnObject,
    HooksNotAnObject,
}

/// A configuration with Goro's commands, or without.
pub open spec fn config_planned(config: JsonView, agent: Agent, commands: Commands) -> Result<
    JsonView,
    Problem,
> {
    match config {
        JsonView::Object(members) => {
            let root = if json::member(members, "hooks"@) is None {
                members.push(("hooks"@, JsonView::Object(Seq::empty())))
            } else {
                members
            };
            let at = json::member_at(root, "hooks"@);
            match root[at].1 {
                JsonView::Object(hooks) => {
                    let planned = hooks_planned(hooks, agent, commands);
                    Ok(
                        JsonView::Object(
                            if planned.len() == 0 {
                                root.remove(at)
                            } else {
                                root.update(at, (root[at].0, JsonView::Object(planned)))
                            },
                        ),
                    )
                },
                _ => Err(Problem::HooksNotAnObject),
            }
        },
        _ => Err(Problem::NotAnObject),
    }
}

fn is_goro_hook(hook: &Json, agent: &Agent) -> (result: bool)
    ensures
        result == goro_hook(hook.deep_view(), *agent),
{
    proof {
        json::lemma_view(*hook);
    }
    if let Json::Object(members) = hook {
        let at = position(members.as_slice(), "command");
        if at < members.len() {
            let ghost all = json::members_view(members@);
            assert(all[at as int] == (
                members@[at as int].name@,
                json::json_view(members@[at as int].value),
            ));
            if let Json::Text(command) = &members[at].value {
                return is_goro_command(command.as_str(), agent);
            }
        }
    }
    false
}

fn keep_others(hooks: Vec<Json>, agent: &Agent) -> (kept: Vec<Json>)
    ensures
        json::items_view(kept@) == others(json::items_view(hooks@), *agent),
{
    let ghost all = hooks@;
    let ghost shown = json::items_view(hooks@);
    let mut kept: Vec<Json> = Vec::new();
    proof {
        assert(shown.take(0) =~= Seq::<JsonView>::empty());
        assert(json::items_view(kept@) =~= Seq::<JsonView>::empty());
    }
    for hook in iter: hooks
        invariant
            iter.seq() == all,
            shown == json::items_view(all),
            json::items_view(kept@) == others(shown.take(iter.index() as int), *agent),
    {
        proof {
            assert(shown.take(iter.index() + 1).drop_last() =~= shown.take(iter.index() as int));
            assert(shown.take(iter.index() + 1).last() == hook.deep_view());
        }
        if !is_goro_hook(&hook, agent) {
            let ghost before = json::items_view(kept@);
            let ghost view = hook.deep_view();
            kept.push(hook);
            assert(json::items_view(kept@) =~= before.push(view));
        }
    }
    assert(shown.take(shown.len() as int) =~= shown);
    kept
}

/// Puts a value in the place of a member's.
proof fn lemma_member_replaced(before: Seq<Member>, after: Seq<Member>, at: int)
    requires
        0 <= at < before.len(),
        after.len() == before.len(),
        after[at].name@ == before[at].name@,
        forall|i: int| 0 <= i < before.len() && i != at ==> #[trigger] after[i] == before[i],
    ensures
        json::members_view(after) == json::members_view(before).update(
            at,
            (before[at].name@, json::json_view(after[at].value)),
        ),
{
    assert(json::members_view(after) =~= json::members_view(before).update(
        at,
        (before[at].name@, json::json_view(after[at].value)),
    ));
}

fn clean_group(group: Json, agent: &Agent) -> (result: Json)
    ensures
        result.deep_view() == cleaned(group.deep_view(), *agent),
{
    proof {
        json::lemma_view(group);
    }
    let mut members = match group {
        Json::Object(members) => members,
        other => {
            return other;
        },
    };
    let ghost before = members@;
    let ghost shown = json::members_view(before);
    let at = position(members.as_slice(), "hooks");
    if at >= members.len() {
        let same = Json::Object(members);
        proof {
            json::lemma_view(same);
        }
        return same;
    }
    assert(shown[at as int] == (
        before[at as int].name@,
        json::json_view(before[at as int].value),
    ));
    let mut value = Json::Null;
    std::mem::swap(&mut value, &mut members[at].value);
    let ghost old_value = value;
    match value {
        Json::List(hooks) => {
            let kept = keep_others(hooks, agent);
            let list = Json::List(kept);
            proof {
                json::lemma_view(old_value);
                json::lemma_view(list);
            }
            members[at].value = list;
        },
        other => {
            members[at].value = other;
        },
    }
    let result = Json::Object(members);
    proof {
        lemma_member_replaced(before, members@, at as int);
        json::lemma_view(result);
        if !(old_value is List) {
            assert(json::members_view(members@) =~= shown);
        }
    }
    result
}

fn is_emptied(group: &Json, agent: &Agent) -> (result: bool)
    ensures
        result == emptied(group.deep_view(), *agent),
{
    proof {
        json::lemma_view(*group);
    }
    if let Json::Object(members) = group {
        let at = position(members.as_slice(), "hooks");
        if at < members.len() {
            let ghost all = json::members_view(members@);
            assert(all[at as int] == (
                members@[at as int].name@,
                json::json_view(members@[at as int].value),
            ));
            proof {
                json::lemma_view(members@[at as int].value);
            }
            if let Json::List(hooks) = &members[at].value {
                return hooks.len() > 0 && are_all_goro(hooks.as_slice(), agent);
            }
        }
    }
    false
}

/// Whether all hooks run commands of Goro's.
fn are_all_goro(hooks: &[Json], agent: &Agent) -> (result: bool)
    ensures
        result == (others(json::items_view(hooks@), *agent).len() == 0),
{
    let ghost shown = json::items_view(hooks@);
    let mut all = true;
    let mut i: usize = 0;
    assert(shown.take(0) =~= Seq::<JsonView>::empty());
    while i < hooks.len()
        invariant
            i <= hooks@.len(),
            shown == json::items_view(hooks@),
            all == (others(shown.take(i as int), *agent).len() == 0),
        decreases hooks.len() - i,
    {
        assert(shown.take(i + 1).drop_last() =~= shown.take(i as int));
        assert(shown.take(i + 1).last() == hooks@[i as int].deep_view());
        if !is_goro_hook(&hooks[i], agent) {
            all = false;
        }
        i = i + 1;
    }
    assert(shown.take(i as int) =~= shown);
    all
}

fn clean_all(groups: Vec<Json>, agent: &Agent) -> (kept: Vec<Json>)
    ensures
        json::items_view(kept@) == clean_groups(json::items_view(groups@), *agent),
{
    let ghost all = groups@;
    let ghost shown = json::items_view(groups@);
    let mut kept: Vec<Json> = Vec::new();
    proof {
        assert(shown.take(0) =~= Seq::<JsonView>::empty());
        assert(json::items_view(kept@) =~= Seq::<JsonView>::empty());
    }
    for group in iter: groups
        invariant
            iter.seq() == all,
            shown == json::items_view(all),
            json::items_view(kept@) == clean_groups(shown.take(iter.index() as int), *agent),
    {
        proof {
            assert(shown.take(iter.index() + 1).drop_last() =~= shown.take(iter.index() as int));
            assert(shown.take(iter.index() + 1).last() == group.deep_view());
        }
        if !is_emptied(&group, agent) {
            let group = clean_group(group, agent);
            let ghost before = json::items_view(kept@);
            let ghost view = group.deep_view();
            kept.push(group);
            assert(json::items_view(kept@) =~= before.push(view));
        }
    }
    assert(shown.take(shown.len() as int) =~= shown);
    kept
}

fn drop_member(members: &mut Vec<Member>, at: usize)
    requires
        at < old(members)@.len(),
    ensures
        json::members_view(final(members)@) == json::members_view(old(members)@).remove(
            at as int,
        ),
{
    let ghost before = members@;
    let _ = members.remove(at);
    assert(json::members_view(members@) =~= json::members_view(before).remove(at as int));
}

fn named(name: &str, value: Json) -> (member: Member)
    ensures
        member.name@ == name@,
        member.value == value,
{
    Member { name: copy_text(name), value }
}

fn group_for(command: &str) -> (group: Json)
    ensures
        group.deep_view() == goro_group(command@),
{
    let parts = vec![
        named("type", Json::Text(copy_text("command"))),
        named("command", Json::Text(copy_text(command))),
        named("timeout", Json::Number(json::number(5))),
    ];
    let hook = Json::Object(parts);
    let list = vec![hook];
    let hooks = Json::List(list);
    let members = vec![named("hooks", hooks)];
    let group = Json::Object(members);
    proof {
        json::lemma_view(hook);
        json::lemma_view(hooks);
        json::lemma_view(group);
        let shown = seq![
            ("type"@, JsonView::Text("command"@)),
            ("command"@, JsonView::Text(command@)),
            ("timeout"@, JsonView::Number(json::number_from(5))),
        ];
        assert(json::members_view(parts@) =~= shown);
        assert(json::items_view(list@) =~= seq![JsonView::Object(shown)]);
        assert(json::members_view(members@) =~= seq![
            ("hooks"@, JsonView::List(seq![JsonView::Object(shown)])),
        ]);
    }
    group
}

fn plan_event(hooks: &mut Vec<Member>, event: &str, agent: &Agent, command: &Option<String>)
    ensures
        json::members_view(final(hooks)@) == event_planned(
            json::members_view(old(hooks)@),
            event@,
            *agent,
            command.deep_view(),
        ),
{
    let ghost before = hooks@;
    let ghost shown = json::members_view(before);
    let at = position(hooks.as_slice(), event);
    if at >= hooks.len() {
        if let Some(c) = command {
            let list = vec![group_for(c.as_str())];
            let value = Json::List(list);
            proof {
                json::lemma_view(value);
                assert(json::items_view(list@) =~= seq![goro_group(c@)]);
            }
            hooks.push(named(event, value));
            assert(json::members_view(hooks@) =~= shown.push(
                (event@, JsonView::List(seq![goro_group(c@)])),
            ));
        }
        return;
    }
    assert(shown[at as int] == (
        before[at as int].name@,
        json::json_view(before[at as int].value),
    ));
    let mut value = Json::Null;
    std::mem::swap(&mut value, &mut hooks[at].value);
    proof {
        json::lemma_view(value);
    }
    match value {
        Json::List(groups) => {
            let held = groups.len() > 0;
            let mut kept = clean_all(groups, agent);
            let empty = kept.len() == 0;
            if let Some(c) = command {
                let ghost items = json::items_view(kept@);
                kept.push(group_for(c.as_str()));
                assert(json::items_view(kept@) =~= items.push(goro_group(c@)));
            }
            let list = Json::List(kept);
            proof {
                json::lemma_view(list);
            }
            hooks[at].value = list;
            let ghost mid = hooks@;
            proof {
                lemma_member_replaced(before, mid, at as int);
            }
            if command.is_none() && held && empty {
                drop_member(hooks, at);
                assert(json::members_view(mid).remove(at as int) =~= shown.remove(at as int));
            }
        },
        other => {
            hooks[at].value = other;
            proof {
                lemma_member_replaced(before, hooks@, at as int);
                assert(json::members_view(hooks@) =~= shown);
            }
        },
    }
}

/// A configuration with Goro's commands in place of any earlier ones (other hooks are kept),
/// or without them.
pub fn plan_config(
    config: Json,
    agent: &Agent,
    prompt: &Option<String>,
    stop: &Option<String>,
) -> (result: Result<Json, Problem>)
    ensures
        match result {
            Ok(json) => config_planned(
                config.deep_view(),
                *agent,
                Commands { prompt: prompt.deep_view(), stop: stop.deep_view() },
            ) == Ok::<JsonView, Problem>(json.deep_view()),
            Err(problem) => config_planned(
                config.deep_view(),
                *agent,
                Commands { prompt: prompt.deep_view(), stop: stop.deep_view() },
            ) == Err::<JsonView, Problem>(problem),
        },
{
    proof {
        json::lemma_view(config);
    }
    let mut root = match config {
        Json::Object(members) => members,
        _ => {
            return Err(Problem::NotAnObject);
        },
    };
    let ghost first = json::members_view(root@);
    let mut at = position(root.as_slice(), "hooks");
    if at >= root.len() {
        let none: Vec<Member> = Vec::new();
        let value = Json::Object(none);
        proof {
            json::lemma_view(value);
            assert(json::members_view(none@) =~= Seq::<(Seq<char>, JsonView)>::empty());
        }
        root.push(named("hooks", value));
        assert(json::members_view(root@) =~= first.push(
            ("hooks"@, JsonView::Object(Seq::empty())),
        ));
        at = position(root.as_slice(), "hooks");
        proof {
            let all = json::members_view(root@);
            json::lemma_member(all, "hooks"@, 0);
            assert(all[all.len() - 1].0 == "hooks"@);
            assert(at < root@.len());
        }
    }
    let ghost before = root@;
    let ghost shown = json::members_view(before);
    assert(shown[at as int] == (
        before[at as int].name@,
        json::json_view(before[at as int].value),
    ));
    let mut value = Json::Null;
    std::mem::swap(&mut value, &mut root[at].value);
    let ghost old_value = value;
    proof {
        json::lemma_view(old_value);
    }
    let mut hooks = match value {
        Json::Object(hooks) => hooks,
        _ => {
            return Err(Problem::HooksNotAnObject);
        },
    };
    plan_event(&mut hooks, "UserPromptSubmit", agent, prompt);
    plan_event(&mut hooks, "Stop", agent, stop);
    let empty = hooks.len() == 0;
    let planned = Json::Object(hooks);
    proof {
        json::lemma_view(planned);
    }
    root[at].value = planned;
    let ghost mid = root@;
    proof {
        lemma_member_replaced(before, mid, at as int);
    }
    if empty {
        drop_member(&mut root, at);
        assert(json::members_view(mid).remove(at as int) =~= shown.remove(at as int));
    }
    let result = Json::Object(root);
    proof {
        json::lemma_view(result);
    }
    Ok(result)
}

/// Whether a configuration runs one of Goro's commands for an event.
pub open spec fn has_goro(config: JsonView, event: Seq<char>, agent: Agent) -> bool {
    json::value_at(config, "hooks"@) matches Some(hooks) && json::value_at(
        hooks,
        event,
    ) matches Some(JsonView::List(groups)) && any_group_has_goro(groups, agent)
}

/// Whether one of the groups runs one of Goro's commands.
pub open spec fn any_group_has_goro(groups: Seq<JsonView>, agent: Agent) -> bool {
    exists|i: int| 0 <= i < groups.len() && group_has_goro(#[trigger] groups[i], agent)
}

/// Whether a group runs one of Goro's commands.
pub open spec fn group_has_goro(group: JsonView, agent: Agent) -> bool {
    json::value_at(group, "hooks"@) matches Some(JsonView::List(hooks)) && any_goro_hook(
        hooks,
        agent,
    )
}

/// Whether one of the hooks runs one of Goro's commands.
pub open spec fn any_goro_hook(hooks: Seq<JsonView>, agent: Agent) -> bool {
    exists|i: int| 0 <= i < hooks.len() && goro_hook(#[trigger] hooks[i], agent)
}

/// A member of a value, if it is an object and has one by that name.
pub fn find_value<'a>(config: &'a Json, name: &str) -> (value: Option<&'a Json>)
    ensures
        match value {
            Some(v) => json::value_at(config.deep_view(), name@) == Some(v.deep_view()),
            None => json::value_at(config.deep_view(), name@) is None,
        },
{
    proof {
        json::lemma_view(*config);
    }
    if let Json::Object(members) = config {
        let at = position(members.as_slice(), name);
        if at < members.len() {
            let ghost all = json::members_view(members@);
            assert(all[at as int] == (
                members@[at as int].name@,
                json::json_view(members@[at as int].value),
            ));
            return Some(&members[at].value);
        }
    }
    None
}

fn does_group_have_goro(group: &Json, agent: &Agent) -> (result: bool)
    ensures
        result == group_has_goro(group.deep_view(), *agent),
{
    let list = match find_value(group, "hooks") {
        Some(value) => value,
        None => {
            return false;
        },
    };
    proof {
        json::lemma_view(*list);
    }
    if let Json::List(hooks) = list {
        let ghost shown = json::items_view(hooks@);
        let mut i: usize = 0;
        while i < hooks.len()
            invariant
                i <= hooks@.len(),
                shown == json::items_view(hooks@),
                json::value_at(group.deep_view(), "hooks"@) == Some(JsonView::List(shown)),
                forall|k: int| 0 <= k < i ==> !goro_hook(#[trigger] shown[k], *agent),
            decreases hooks.len() - i,
        {
            assert(shown[i as int] == hooks@[i as int].deep_view());
            if is_goro_hook(&hooks[i], agent) {
                assert(any_goro_hook(shown, *agent));
                return true;
            }
            i = i + 1;
        }
    }
    false
}

/// Whether a configuration runs one of Goro's commands for an event.
pub fn has_goro_hook(config: &Json, event: &str, agent: &Agent) -> (result: bool)
    ensures
        result == has_goro(config.deep_view(), event@, *agent),
{
    let hooks = match find_value(config, "hooks") {
        Some(hooks) => hooks,
        None => {
            return false;
        },
    };
    let list = match find_value(hooks, event) {
        Some(list) => list,
        None => {
            return false;
        },
    };
    proof {
        json::lemma_view(*list);
    }
    if let Json::List(groups) = list {
        let ghost shown = json::items_view(groups@);
        let mut i: usize = 0;
        while i < groups.len()
            invariant
                i <= groups@.len(),
                shown == json::items_view(groups@),
                json::value_at(config.deep_view(), "hooks"@) == Some(hooks.deep_view()),
                json::value_at(hooks.deep_view(), event@) == Some(JsonView::List(shown)),
                forall|k: int| 0 <= k < i ==> !group_has_goro(#[trigger] shown[k], *agent),
            decreases groups.len() - i,
        {
            assert(shown[i as int] == groups@[i as int].deep_view());
            if does_group_have_goro(&groups[i], agent) {
                assert(any_group_has_goro(shown, *agent));
                return true;
            }
            i = i + 1;
        }
    }
    false
}

// ---------------------------------------------------------------------------
// What planning keeps.

proof fn lemma_others_named(hooks: Seq<JsonView>, agent: Agent)
    requires
        forall|i: int| 0 <= i < hooks.len() ==> json::well_named(#[trigger] hooks[i]),
    ensures
        forall|i: int|
            0 <= i < others(hooks, agent).len() ==> json::well_named(
                #[trigger] others(hooks, agent)[i],
            ),
    decreases hooks.len(),
{
    if hooks.len() > 0 {
        assert forall|i: int| 0 <= i < hooks.drop_last().len() implies json::well_named(
            #[trigger] hooks.drop_last()[i],
        ) by {
            assert(json::well_named(hooks[i]));
        }
        lemma_others_named(hooks.drop_last(), agent);
        assert(json::well_named(hooks[hooks.len() - 1]));
        let before = others(hooks.drop_last(), agent);
        let after = others(hooks, agent);
        assert forall|i: int| 0 <= i < after.len() implies json::well_named(#[trigger] after[i]) by {
            if i < before.len() {
                assert(after[i] == before[i]);
            }
        }
    }
}

proof fn lemma_updated_named(members: Members, at: int, value: JsonView)
    requires
        0 <= at < members.len(),
        json::well_named(JsonView::Object(members)),
        json::well_named(value),
    ensures
        json::well_named(JsonView::Object(members.update(at, (members[at].0, value)))),
{
    let after = members.update(at, (members[at].0, value));
    assert forall|i: int| 0 <= i < after.len() implies json::well_named((#[trigger] after[i]).1) by {
        if i != at {
            assert(after[i] == members[i]);
        }
    }
    assert forall|i: int, j: int|
        #![trigger after[i], after[j]]
        0 <= i < j < after.len() implies after[i].0 != after[j].0 by {
        assert(members[i].0 != members[j].0);
    }
}

proof fn lemma_removed_named(members: Members, at: int)
    requires
        0 <= at < members.len(),
        json::well_named(JsonView::Object(members)),
    ensures
        json::well_named(JsonView::Object(members.remove(at))),
{
    let after = members.remove(at);
    lemma_removed_distinct(members, at);
    assert forall|i: int| 0 <= i < after.len() implies json::well_named((#[trigger] after[i]).1) by {
        if i < at {
            assert(after[i] == members[i]);
        } else {
            assert(after[i] == members[i + 1]);
        }
    }
}

/// Names that are distinct still are when a member is taken out.
proof fn lemma_removed_distinct(members: Members, at: int)
    requires
        0 <= at < members.len(),
        json::names_distinct(members),
    ensures
        json::names_distinct(members.remove(at)),
{
    let after = members.remove(at);
    assert forall|i: int, j: int|
        #![trigger after[i], after[j]]
        0 <= i < j < after.len() implies after[i].0 != after[j].0 by {
        let a = if i < at {
            i
        } else {
            i + 1
        };
        let b = if j < at {
            j
        } else {
            j + 1
        };
        assert(after[i] == members[a] && after[j] == members[b]);
        assert(members[a].0 != members[b].0);
    }
}

proof fn lemma_pushed_named(members: Members, name: Seq<char>, value: JsonView)
    requires
        json::member(members, name) is None,
        json::well_named(JsonView::Object(members)),
        json::well_named(value),
    ensures
        json::well_named(JsonView::Object(members.push((name, value)))),
{
    let after = members.push((name, value));
    json::lemma_member(members, name, 0);
    assert forall|i: int| 0 <= i < after.len() implies json::well_named((#[trigger] after[i]).1) by {
        if i < members.len() {
            assert(after[i] == members[i]);
        }
    }
    assert forall|i: int, j: int|
        #![trigger after[i], after[j]]
        0 <= i < j < after.len() implies after[i].0 != after[j].0 by {
        assert(after[i] == members[i]);
        if j < members.len() {
            assert(members[i].0 != members[j].0);
        }
    }
}

proof fn lemma_cleaned_named(group: JsonView, agent: Agent)
    requires
        json::well_named(group),
    ensures
        json::well_named(cleaned(group, agent)),
{
    if let JsonView::Object(members) = group {
        json::lemma_member(members, "hooks"@, 0);
        if let Some(JsonView::List(hooks)) = json::member(members, "hooks"@) {
            let at = json::member_at(members, "hooks"@);
            assert(json::well_named(members[at].1));
            lemma_others_named(hooks, agent);
            lemma_updated_named(members, at, JsonView::List(others(hooks, agent)));
        }
    }
}

proof fn lemma_groups_named(groups: Seq<JsonView>, agent: Agent)
    requires
        forall|i: int| 0 <= i < groups.len() ==> json::well_named(#[trigger] groups[i]),
    ensures
        forall|i: int|
            0 <= i < clean_groups(groups, agent).len() ==> json::well_named(
                #[trigger] clean_groups(groups, agent)[i],
            ),
    decreases groups.len(),
{
    if groups.len() > 0 {
        assert forall|i: int| 0 <= i < groups.drop_last().len() implies json::well_named(
            #[trigger] groups.drop_last()[i],
        ) by {
            assert(json::well_named(groups[i]));
        }
        lemma_groups_named(groups.drop_last(), agent);
        assert(json::well_named(groups[groups.len() - 1]));
        lemma_cleaned_named(groups.last(), agent);
        let before = clean_groups(groups.drop_last(), agent);
        let after = clean_groups(groups, agent);
        assert forall|i: int| 0 <= i < after.len() implies json::well_named(#[trigger] after[i]) by {
            if i < before.len() {
                assert(after[i] == before[i]);
            }
        }
    }
}

proof fn lemma_names()
    ensures
        "type"@ != "command"@,
        "type"@ != "timeout"@,
        "command"@ != "timeout"@,
        "UserPromptSubmit"@ != "Stop"@,
{
    reveal_strlit("type");
    reveal_strlit("command");
    reveal_strlit("timeout");
    reveal_strlit("UserPromptSubmit");
    reveal_strlit("Stop");
    assert("type"@.len() != "command"@.len());
    assert("type"@.len() != "timeout"@.len());
    assert("command"@[0] != "timeout"@[0]);
    assert("UserPromptSubmit"@.len() != "Stop"@.len());
}

proof fn lemma_group_named(command: Seq<char>)
    ensures
        json::well_named(goro_group(command)),
{
    lemma_names();
    let parts = seq![
        ("type"@, JsonView::Text("command"@)),
        ("command"@, JsonView::Text(command)),
        ("timeout"@, JsonView::Number(json::number_from(5))),
    ];
    let hook = JsonView::Object(parts);
    assert(json::names_distinct(parts));
    assert(json::well_named(hook)) by {
        assert forall|i: int| 0 <= i < parts.len() implies json::well_named(
            (#[trigger] parts[i]).1,
        ) by {}
    }
    let list = seq![hook];
    assert(json::well_named(JsonView::List(list))) by {
        assert forall|i: int| 0 <= i < list.len() implies json::well_named(#[trigger] list[i]) by {}
    }
    let members = seq![("hooks"@, JsonView::List(list))];
    assert(json::well_named(JsonView::Object(members))) by {
        assert forall|i: int| 0 <= i < members.len() implies json::well_named(
            (#[trigger] members[i]).1,
        ) by {}
    }
}

proof fn lemma_event_named(
    hooks: Members,
    event: Seq<char>,
    agent: Agent,
    command: Option<Seq<char>>,
)
    requires
        json::well_named(JsonView::Object(hooks)),
    ensures
        json::well_named(JsonView::Object(event_planned(hooks, event, agent, command))),
{
    json::lemma_member(hooks, event, 0);
    let at = json::member_at(hooks, event);
    if let Some(c) = command {
        lemma_group_named(c);
        if json::member(hooks, event) is None {
            let list = seq![goro_group(c)];
            assert(json::well_named(JsonView::List(list))) by {
                assert forall|i: int| 0 <= i < list.len() implies json::well_named(
                    #[trigger] list[i],
                ) by {}
            }
            lemma_pushed_named(hooks, event, JsonView::List(list));
        }
    }
    if let Some(JsonView::List(groups)) = json::member(hooks, event) {
        assert(json::well_named(hooks[at].1));
        lemma_groups_named(groups, agent);
        let kept = clean_groups(groups, agent);
        lemma_removed_named(hooks, at);
        lemma_updated_named(hooks, at, JsonView::List(kept));
        if let Some(c) = command {
            let more = kept.push(goro_group(c));
            assert(json::well_named(JsonView::List(more))) by {
                assert forall|i: int| 0 <= i < more.len() implies json::well_named(
                    #[trigger] more[i],
                ) by {
                    if i < kept.len() {
                        assert(more[i] == kept[i]);
                    }
                }
            }
            lemma_updated_named(hooks, at, JsonView::List(more));
        }
    }
}

/// Planning keeps the names of every object apart.
pub proof fn lemma_planned_named(config: JsonView, agent: Agent, commands: Commands)
    requires
        json::well_named(config),
    ensures
        config_planned(config, agent, commands) matches Ok(json) ==> json::well_named(json),
{
    if let JsonView::Object(members) = config {
        json::lemma_member(members, "hooks"@, 0);
        let none = JsonView::Object(Seq::empty());
        let root = if json::member(members, "hooks"@) is None {
            members.push(("hooks"@, none))
        } else {
            members
        };
        if json::member(members, "hooks"@) is None {
            assert(json::well_named(none));
            lemma_pushed_named(members, "hooks"@, none);
            assert(root[root.len() - 1].0 == "hooks"@);
        }
        json::lemma_member(root, "hooks"@, 0);
        let at = json::member_at(root, "hooks"@);
        assert(at < root.len());
        assert(json::well_named(root[at].1));
        if let JsonView::Object(hooks) = root[at].1 {
            lemma_event_named(hooks, "UserPromptSubmit"@, agent, commands.prompt);
            lemma_event_named(
                event_planned(hooks, "UserPromptSubmit"@, agent, commands.prompt),
                "Stop"@,
                agent,
                commands.stop,
            );
            lemma_removed_named(root, at);
            lemma_updated_named(
                root,
                at,
                JsonView::Object(hooks_planned(hooks, agent, commands)),
            );
        }
    }
}

// ---------------------------------------------------------------------------
// What planning leaves readable.

/// Whether all of some values read back.
spec fn all_read_back(items: Seq<JsonView>, room: int) -> bool {
    forall|i: int| 0 <= i < items.len() ==> json::reads_back(#[trigger] items[i], room)
}

proof fn lemma_others_read_back(hooks: Seq<JsonView>, agent: Agent, room: int)
    requires
        all_read_back(hooks, room),
    ensures
        all_read_back(others(hooks, agent), room),
    decreases hooks.len(),
{
    if hooks.len() > 0 {
        assert(all_read_back(hooks.drop_last(), room)) by {
            assert forall|i: int| 0 <= i < hooks.drop_last().len() implies json::reads_back(
                #[trigger] hooks.drop_last()[i],
                room,
            ) by {
                assert(json::reads_back(hooks[i], room));
            }
        }
        lemma_others_read_back(hooks.drop_last(), agent, room);
        assert(json::reads_back(hooks[hooks.len() - 1], room));
    }
}

proof fn lemma_members_read_back(members: Members, room: int)
    requires
        json::reads_back(JsonView::Object(members), room),
    ensures
        room > 0,
        forall|i: int|
            0 <= i < members.len() ==> json::reads_back((#[trigger] members[i]).1, room - 1),
{
    let object = JsonView::Object(members);
    assert(json::reads_back(object, room) && object->Object_0 == members);
}

proof fn lemma_updated_reads_back(members: Members, at: int, value: JsonView, room: int)
    requires
        0 <= at < members.len(),
        json::reads_back(JsonView::Object(members), room),
        json::reads_back(value, room - 1),
    ensures
        json::reads_back(JsonView::Object(members.update(at, (members[at].0, value))), room),
        json::reads_back(JsonView::Object(members.remove(at)), room),
{
    lemma_members_read_back(members, room);
    let after = members.update(at, (members[at].0, value));
    assert forall|i: int| 0 <= i < after.len() implies json::reads_back(
        (#[trigger] after[i]).1,
        room - 1,
    ) by {
        if i != at {
            assert(after[i] == members[i]);
        }
    }
    let less = members.remove(at);
    assert forall|i: int| 0 <= i < less.len() implies json::reads_back(
        (#[trigger] less[i]).1,
        room - 1,
    ) by {
        if i < at {
            assert(less[i] == members[i]);
        } else {
            assert(less[i] == members[i + 1]);
        }
    }
}

proof fn lemma_pushed_reads_back(members: Members, name: Seq<char>, value: JsonView, room: int)
    requires
        json::reads_back(JsonView::Object(members), room),
        json::reads_back(value, room - 1),
    ensures
        json::reads_back(JsonView::Object(members.push((name, value))), room),
{
    lemma_members_read_back(members, room);
    let after = members.push((name, value));
    assert forall|i: int| 0 <= i < after.len() implies json::reads_back(
        (#[trigger] after[i]).1,
        room - 1,
    ) by {
        if i < members.len() {
            assert(after[i] == members[i]);
        }
    }
}

proof fn lemma_groups_read_back(groups: Seq<JsonView>, agent: Agent, room: int)
    requires
        all_read_back(groups, room),
    ensures
        all_read_back(clean_groups(groups, agent), room),
    decreases groups.len(),
{
    if groups.len() > 0 {
        assert(all_read_back(groups.drop_last(), room)) by {
            assert forall|i: int| 0 <= i < groups.drop_last().len() implies json::reads_back(
                #[trigger] groups.drop_last()[i],
                room,
            ) by {
                assert(json::reads_back(groups[i], room));
            }
        }
        lemma_groups_read_back(groups.drop_last(), agent, room);
        let group = groups.last();
        assert(json::reads_back(groups[groups.len() - 1], room));
        if let JsonView::Object(members) = group {
            json::lemma_member(members, "hooks"@, 0);
            if let Some(JsonView::List(hooks)) = json::member(members, "hooks"@) {
                let at = json::member_at(members, "hooks"@);
                assert(json::reads_back(members[at].1, room - 1));
                assert(all_read_back(hooks, room - 2));
                lemma_others_read_back(hooks, agent, room - 2);
                let list = JsonView::List(others(hooks, agent));
                assert(json::reads_back(list, room - 1));
                lemma_updated_reads_back(members, at, list, room);
            }
        }
        assert(json::reads_back(cleaned(group, agent), room));
    }
}

proof fn lemma_group_reads_back(command: Seq<char>, room: int)
    requires
        room >= 3,
    ensures
        json::reads_back(goro_group(command), room),
{
    let parts = seq![
        ("type"@, JsonView::Text("command"@)),
        ("command"@, JsonView::Text(command)),
        ("timeout"@, JsonView::Number(json::number_from(5))),
    ];
    assert(json::is_kept(5));
    let hook = JsonView::Object(parts);
    assert(json::reads_back(hook, room - 2)) by {
        assert forall|i: int| 0 <= i < parts.len() implies json::reads_back(
            (#[trigger] parts[i]).1,
            room - 3,
        ) by {}
    }
    let list = seq![hook];
    assert(json::reads_back(JsonView::List(list), room - 1)) by {
        assert forall|i: int| 0 <= i < list.len() implies json::reads_back(
            #[trigger] list[i],
            room - 2,
        ) by {}
    }
    let members = seq![("hooks"@, JsonView::List(list))];
    assert(json::reads_back(JsonView::Object(members), room)) by {
        assert forall|i: int| 0 <= i < members.len() implies json::reads_back(
            (#[trigger] members[i]).1,
            room - 1,
        ) by {}
    }
}

proof fn lemma_event_reads_back(
    hooks: Members,
    event: Seq<char>,
    agent: Agent,
    command: Option<Seq<char>>,
    room: int,
)
    requires
        room >= 5,
        json::reads_back(JsonView::Object(hooks), room),
    ensures
        json::reads_back(JsonView::Object(event_planned(hooks, event, agent, command)), room),
{
    lemma_members_read_back(hooks, room);
    json::lemma_member(hooks, event, 0);
    let at = json::member_at(hooks, event);
    if let Some(c) = command {
        lemma_group_reads_back(c, room - 2);
        let list = seq![goro_group(c)];
        assert(json::reads_back(JsonView::List(list), room - 1)) by {
            assert forall|i: int| 0 <= i < list.len() implies json::reads_back(
                #[trigger] list[i],
                room - 2,
            ) by {}
        }
        lemma_pushed_reads_back(hooks, event, JsonView::List(list), room);
    }
    if let Some(JsonView::List(groups)) = json::member(hooks, event) {
        assert(json::reads_back(hooks[at].1, room - 1));
        assert(all_read_back(groups, room - 2));
        lemma_groups_read_back(groups, agent, room - 2);
        let kept = clean_groups(groups, agent);
        assert(json::reads_back(JsonView::List(kept), room - 1));
        lemma_updated_reads_back(hooks, at, JsonView::List(kept), room);
        if let Some(c) = command {
            let more = kept.push(goro_group(c));
            assert(json::reads_back(JsonView::List(more), room - 1)) by {
                assert forall|i: int| 0 <= i < more.len() implies json::reads_back(
                    #[trigger] more[i],
                    room - 2,
                ) by {
                    if i < kept.len() {
                        assert(more[i] == kept[i]);
                    }
                }
            }
            lemma_updated_reads_back(hooks, at, JsonView::List(more), room);
        }
    }
}

/// A configuration that reads back still does when it is planned.
proof fn lemma_planned_reads_back(config: JsonView, agent: Agent, commands: Commands, room: int)
    requires
        room >= 6,
        json::reads_back(config, room),
    ensures
        config_planned(config, agent, commands) matches Ok(json) ==> json::reads_back(json, room),
{
    if let JsonView::Object(members) = config {
        json::lemma_member(members, "hooks"@, 0);
        let none = JsonView::Object(Seq::empty());
        let root = if json::member(members, "hooks"@) is None {
            members.push(("hooks"@, none))
        } else {
            members
        };
        if json::member(members, "hooks"@) is None {
            assert(json::reads_back(none, room - 1));
            lemma_pushed_reads_back(members, "hooks"@, none, room);
            assert(root[root.len() - 1].0 == "hooks"@);
        }
        json::lemma_member(root, "hooks"@, 0);
        let at = json::member_at(root, "hooks"@);
        assert(at < root.len());
        assert(json::reads_back(root[at].1, room - 1));
        if let JsonView::Object(hooks) = root[at].1 {
            let first = event_planned(hooks, "UserPromptSubmit"@, agent, commands.prompt);
            lemma_event_reads_back(hooks, "UserPromptSubmit"@, agent, commands.prompt, room - 1);
            lemma_event_reads_back(first, "Stop"@, agent, commands.stop, room - 1);
            lemma_updated_reads_back(
                root,
                at,
                JsonView::Object(hooks_planned(hooks, agent, commands)),
                room,
            );
        }
    }
}

// ---------------------------------------------------------------------------
// Plans for files.

/// Where each agent keeps its user-level hook configuration.
#[derive(Debug, PartialEq, Eq)]
pub struct HookFiles {
    /// `settings.json` in the directory of the agent that `CLAUDE_CONFIG_DIR` belongs to.
    pub claude_settings: Option<Vec<u8>>,
    /// `hooks.json` in the directory of the agent that `CODEX_HOME` belongs to.
    pub codex_hooks: Option<Vec<u8>>,
}

/// An agent's directory: the one that is set, or the usual one under the home directory.
pub open spec fn agent_dir(
    home: Option<Seq<u8>>,
    set: Option<Seq<u8>>,
    usual: Seq<char>,
) -> Option<Seq<u8>> {
    match (set, home) {
        (Some(dir), _) => Some(dir),
        (None, Some(home)) => Some(crate::turns::joined(home, crate::bytes::text_bytes(usual))),
        (None, None) => None,
    }
}

/// A file or directory in an agent's directory.
pub open spec fn within_agent_dir(dir: Option<Seq<u8>>, name: Seq<char>) -> Option<Seq<u8>> {
    match dir {
        Some(dir) => Some(crate::turns::joined(dir, crate::bytes::text_bytes(name))),
        None => None,
    }
}

/// A path as a sequence, if there is one.
pub open spec fn path_view(path: Option<Vec<u8>>) -> Option<Seq<u8>> {
    match path {
        Some(p) => Some(p@),
        None => None,
    }
}

/// A path as a sequence, if there is one.
pub open spec fn slice_view(path: Option<&[u8]>) -> Option<Seq<u8>> {
    match path {
        Some(p) => Some(p@),
        None => None,
    }
}

/// The usual name of an agent's directory.
pub open spec fn usual_dir(agent: Agent) -> Seq<char> {
    "."@ + agent_name(agent)
}

/// A file or directory in an agent's directory: the one that is set, or the usual one under
/// the home directory.
pub fn agent_path(home: Option<&[u8]>, set: Option<&[u8]>, agent: &Agent, name: &str) -> (path:
    Option<Vec<u8>>)
    ensures
        path_view(path) == within_agent_dir(
            agent_dir(slice_view(home), slice_view(set), usual_dir(*agent)),
            name@,
        ),
{
    match (set, home) {
        (Some(dir), _) => Some(crate::turns::join(dir, name.as_bytes())),
        (None, Some(home)) => {
            let mut usual = copy_text(".");
            push_text(&mut usual, agent.name());
            let dir = crate::turns::join(home, usual.as_str().as_bytes());
            Some(crate::turns::join(dir.as_slice(), name.as_bytes()))
        },
        (None, None) => None,
    }
}

impl HookFiles {
    /// The standard locations, from the home directory, `CLAUDE_CONFIG_DIR` and `CODEX_HOME`.
    pub fn locations(
        names: &Names,
        home: Option<&[u8]>,
        claude: Option<&[u8]>,
        codex: Option<&[u8]>,
    ) -> (files: HookFiles)
        ensures
            path_view(files.claude_settings) == within_agent_dir(
                agent_dir(slice_view(home), slice_view(claude), usual_dir(Agent::Claude(names.claude))),
                "settings.json"@,
            ),
            path_view(files.codex_hooks) == within_agent_dir(
                agent_dir(slice_view(home), slice_view(codex), usual_dir(Agent::Codex)),
                "hooks.json"@,
            ),
    {
        HookFiles {
            claude_settings: agent_path(
                home,
                claude,
                &Agent::Claude(names.claude.clone()),
                "settings.json",
            ),
            codex_hooks: agent_path(home, codex, &Agent::Codex, "hooks.json"),
        }
    }

    /// Each agent that has a file, and the file.
    pub fn files(self, names: &Names) -> (files: Vec<(Agent, Vec<u8>)>)
        ensures
            files@ == (match self.claude_settings {
                Some(path) => seq![(Agent::Claude(names.claude), path)],
                None => Seq::empty(),
            }) + (match self.codex_hooks {
                Some(path) => seq![(Agent::Codex, path)],
                None => Seq::empty(),
            }),
    {
        let mut files: Vec<(Agent, Vec<u8>)> = Vec::new();
        if let Some(path) = self.claude_settings {
            files.push((Agent::Claude(names.claude.clone()), path));
        }
        if let Some(path) = self.codex_hooks {
            files.push((Agent::Codex, path));
        }
        assert(files@ =~= (match self.claude_settings {
            Some(path) => seq![(Agent::Claude(names.claude), path)],
            None => Seq::empty(),
        }) + (match self.codex_hooks {
            Some(path) => seq![(Agent::Codex, path)],
            None => Seq::empty(),
        }));
        files
    }
}

/// A configuration file as it was found: its text, none if it doesn't exist, or why it
/// couldn't be read.
#[derive(Debug)]
pub struct FoundFile {
    pub agent: Agent,
    pub path: Vec<u8>,
    pub text: Result<Option<String>, String>,
}

/// A planned change to one configuration file.
#[derive(Debug, PartialEq, Eq)]
pub struct FileEdit {
    pub agent: Agent,
    pub path: Vec<u8>,
    /// Current contents (`None` if the file doesn't exist).
    pub before: Option<String>,
    pub after: String,
}

/// A planned change, as sequences.
pub struct FileEditView {
    pub agent: Agent,
    pub path: Seq<u8>,
    pub before: Option<Seq<char>>,
    pub after: Seq<char>,
}

impl DeepView for FileEdit {
    type V = FileEditView;

    open spec fn deep_view(&self) -> FileEditView {
        FileEditView {
            agent: self.agent,
            path: self.path@,
            before: self.before.deep_view(),
            after: self.after@,
        }
    }
}

impl FileEdit {
    /// Whether the file would be different.
    pub fn changes_something(&self) -> (result: bool)
        ensures
            result == (self.before.deep_view() != Some(self.after@)),
    {
        match &self.before {
            Some(before) => !crate::text::same_text(before.as_str(), self.after.as_str()),
            None => true,
        }
    }
}

/// The commands to install for an agent, if any.
pub open spec fn commands_for(goro: Option<Seq<char>>, agent: Agent, windows: bool) -> Commands {
    match goro {
        Some(path) => Commands {
            prompt: Some(command_for(path, agent, "prompt"@, windows)),
            stop: Some(command_for(path, agent, "stop"@, windows)),
        },
        None => Commands { prompt: None, stop: None },
    }
}

/// What a configuration text says: nothing is an empty object.
pub open spec fn config_read(text: Option<Seq<char>>) -> Option<JsonView> {
    match text {
        Some(t) => if crate::text::trimmed(t).len() > 0 {
            json::parsed(t)
        } else {
            Some(JsonView::Object(Seq::empty()))
        },
        None => Some(JsonView::Object(Seq::empty())),
    }
}

/// The change to one file: none where there is nothing to remove, and an error where the
/// file can't be read or isn't what it should be.
pub open spec fn edit_planned(
    agent: Agent,
    path: Seq<u8>,
    text: Result<Option<Seq<char>>, Seq<char>>,
    goro: Option<Seq<char>>,
    windows: bool,
) -> Result<Option<FileEditView>, Seq<char>> {
    let shown = crate::text::lossy(path);
    match text {
        Err(cause) => Err(shown + ": "@ + cause),
        Ok(before) => if before is None && goro is None {
            Ok(None)
        } else {
            match config_read(before) {
                None => Err(
                    shown + " is not valid JSON ("@ + json::parse_error(before->Some_0)
                        + "); not touching it"@,
                ),
                Some(config) => match config_planned(
                    config,
                    agent,
                    commands_for(goro, agent, windows),
                ) {
                    Err(Problem::NotAnObject) => Err(
                        shown + " is not a JSON object; not touching it"@,
                    ),
                    Err(Problem::HooksNotAnObject) => Err(
                        shown + ": \"hooks\" is not an object; not touching it"@,
                    ),
                    Ok(planned) => Ok(
                        Some(
                            FileEditView {
                                agent,
                                path,
                                before,
                                after: json::pretty(planned) + "\n"@,
                            },
                        ),
                    ),
                },
            }
        },
    }
}

/// What was found of a file, as text.
pub open spec fn found_text(text: Result<Option<String>, String>) -> Result<
    Option<Seq<char>>,
    Seq<char>,
> {
    match text {
        Ok(None) => Ok(None),
        Ok(Some(t)) => Ok(Some(t@)),
        Err(cause) => Err(cause@),
    }
}

/// The change to one file, as text.
pub open spec fn edit_result(result: Result<Option<FileEdit>, String>) -> Result<
    Option<FileEditView>,
    Seq<char>,
> {
    match result {
        Ok(None) => Ok(None),
        Ok(Some(edit)) => Ok(Some(edit.deep_view())),
        Err(message) => Err(message@),
    }
}

fn message_for(path: &[u8], rest: &str) -> (message: String)
    ensures
        message@ == crate::text::lossy(path@) + rest@,
{
    let mut message = crate::text::from_utf8_lossy(path);
    push_text(&mut message, rest);
    message
}

fn read_config(path: &[u8], text: &Option<String>) -> (result: Result<Json, String>)
    ensures
        match result {
            Ok(json) => config_read(text.deep_view()) == Some(json.deep_view())
                && json::well_named(json.deep_view()),
            Err(message) => config_read(text.deep_view()) is None && text is Some && message@
                == crate::text::lossy(path@) + " is not valid JSON ("@ + json::parse_error(
                text->Some_0@,
            ) + "); not touching it"@,
        },
{
    if let Some(t) = text {
        let visible = trim(t.as_str());
        proof {
            crate::git::lemma_no_bytes(visible@);
        }
        if visible.as_str().as_bytes().len() > 0 {
            return match parse(t.as_str()) {
                Ok(json) => Ok(json),
                Err(cause) => {
                    let mut message = message_for(path, " is not valid JSON (");
                    push_text(&mut message, cause.as_str());
                    push_text(&mut message, "); not touching it");
                    Err(message)
                },
            };
        }
    }
    let none: Vec<Member> = Vec::new();
    let empty = Json::Object(none);
    proof {
        json::lemma_view(empty);
        assert(json::members_view(none@) =~= Seq::<(Seq<char>, JsonView)>::empty());
    }
    Ok(empty)
}

fn command_option(goro: Option<&str>, agent: &Agent, event: &str, windows: bool) -> (command: Option<
    String,
>)
    ensures
        command.deep_view() == match goro {
            Some(path) => Some(command_for(path@, *agent, event@, windows)),
            None => None,
        },
{
    match goro {
        Some(path) => Some(hook_command(path, agent, event, windows)),
        None => None,
    }
}

/// A text as a sequence, if there is one.
pub open spec fn str_view(text: Option<&str>) -> Option<Seq<char>> {
    match text {
        Some(t) => Some(t@),
        None => None,
    }
}

/// Whether a change writes the planned configuration, printed, and whether that reads back from
/// there if the configuration before could (see [`json::reads_back`]): then what is planned
/// next starts from it. Names occur once, as everywhere in what is read.
pub open spec fn is_printed(edit: FileEditView, goro: Option<Seq<char>>, windows: bool) -> bool {
    &&& config_read(edit.before) matches Some(config)
    &&& json::well_named(config)
    &&& config_planned(
        config,
        edit.agent,
        commands_for(goro, edit.agent, windows),
    ) matches Ok(planned)
    &&& edit.after == json::pretty(planned) + "\n"@
    &&& json::reads_back(config, json::MAX_DEPTH as int) ==> config_read(Some(edit.after)) == Some(
        planned,
    )
}

/// Whether every change that was planned is printed like this.
pub open spec fn all_printed(
    edits: Seq<FileEditView>,
    goro: Option<Seq<char>>,
    windows: bool,
) -> bool {
    forall|i: int| 0 <= i < edits.len() ==> is_printed(#[trigger] edits[i], goro, windows)
}

/// The change to one file that installs Goro's hooks, or removes them.
pub fn plan_file(file: FoundFile, goro: Option<&str>, windows: bool) -> (result: Result<
    Option<FileEdit>,
    String,
>)
    ensures
        edit_result(result) == edit_planned(
            file.agent,
            file.path@,
            found_text(file.text),
            str_view(goro),
            windows,
        ),
        result matches Ok(Some(edit)) ==> is_printed(edit.deep_view(), str_view(goro), windows),
{
    let FoundFile { agent, path, text } = file;
    let before = match text {
        Ok(before) => before,
        Err(cause) => {
            let mut message = message_for(path.as_slice(), ": ");
            push_text(&mut message, cause.as_str());
            return Err(message);
        },
    };
    if before.is_none() && goro.is_none() {
        return Ok(None);
    }
    let config = match read_config(path.as_slice(), &before) {
        Ok(config) => config,
        Err(message) => {
            return Err(message);
        },
    };
    let prompt = command_option(goro, &agent, "prompt", windows);
    let stop = command_option(goro, &agent, "stop", windows);
    let ghost commands = Commands { prompt: prompt.deep_view(), stop: stop.deep_view() };
    assert(commands == commands_for(str_view(goro), agent, windows));
    proof {
        lemma_planned_named(config.deep_view(), agent, commands);
        if json::reads_back(config.deep_view(), json::MAX_DEPTH as int) {
            lemma_planned_reads_back(config.deep_view(), agent, commands, json::MAX_DEPTH as int);
        }
    }
    match plan_config(config, &agent, &prompt, &stop) {
        Err(Problem::NotAnObject) => Err(
            message_for(path.as_slice(), " is not a JSON object; not touching it"),
        ),
        Err(Problem::HooksNotAnObject) => Err(
            message_for(path.as_slice(), ": \"hooks\" is not an object; not touching it"),
        ),
        Ok(planned) => {
            let mut after = print(planned);
            let ghost text = after@;
            push_text(&mut after, "\n");
            proof {
                assert(after@[0] == text[0]);
                crate::text::lemma_starts_visibly(after@);
            }
            Ok(Some(FileEdit { agent, path, before, after }))
        },
    }
}

/// The changes to the first `count` files, up to the first error.
pub open spec fn plan_of(
    files: Seq<FoundFile>,
    goro: Option<Seq<char>>,
    windows: bool,
    count: int,
) -> Result<Seq<FileEditView>, Seq<char>>
    decreases count,
{
    if count <= 0 {
        Ok(Seq::empty())
    } else {
        match plan_of(files, goro, windows, count - 1) {
            Err(message) => Err(message),
            Ok(edits) => {
                let file = files[count - 1];
                match edit_planned(file.agent, file.path@, found_text(file.text), goro, windows) {
                    Err(message) => Err(message),
                    Ok(None) => Ok(edits),
                    Ok(Some(edit)) => Ok(edits.push(edit)),
                }
            },
        }
    }
}

/// An error stays the error of a longer list.
proof fn lemma_plan_fails(
    files: Seq<FoundFile>,
    goro: Option<Seq<char>>,
    windows: bool,
    count: int,
    total: int,
)
    requires
        count <= total,
        plan_of(files, goro, windows, count) is Err,
    ensures
        plan_of(files, goro, windows, total) == plan_of(files, goro, windows, count),
    decreases total - count,
{
    if count < total {
        lemma_plan_fails(files, goro, windows, count, total - 1);
    }
}

/// Plans, as text.
pub open spec fn plan_result(result: Result<Vec<FileEdit>, String>) -> Result<
    Seq<FileEditView>,
    Seq<char>,
> {
    match result {
        Ok(edits) => Ok(edits.deep_view()),
        Err(message) => Err(message@),
    }
}

fn plan(files: Vec<FoundFile>, goro: Option<&str>, windows: bool) -> (result: Result<
    Vec<FileEdit>,
    String,
>)
    ensures
        plan_result(result) == plan_of(
            files@,
            str_view(goro),
            windows,
            files@.len() as int,
        ),
        result matches Ok(edits) ==> all_printed(edits.deep_view(), str_view(goro), windows),
{
    let ghost all = files@;
    let mut edits: Vec<FileEdit> = Vec::new();
    assert(edits.deep_view() =~= Seq::<FileEditView>::empty());
    for file in iter: files
        invariant
            iter.seq() == all,
            plan_of(all, str_view(goro), windows, iter.index() as int) == Ok::<
                Seq<FileEditView>,
                Seq<char>,
            >(edits.deep_view()),
            all_printed(edits.deep_view(), str_view(goro), windows),
    {
        let ghost n = iter.index() as int;
        match plan_file(file, goro, windows) {
            Err(message) => {
                proof {
                    lemma_plan_fails(all, str_view(goro), windows, n + 1, all.len() as int);
                }
                return Err(message);
            },
            Ok(None) => {},
            Ok(Some(edit)) => {
                let ghost before = edits.deep_view();
                let ghost shown = edit.deep_view();
                edits.push(edit);
                assert(edits.deep_view() =~= before.push(shown));
            },
        }
    }
    Ok(edits)
}

/// Plan installing Goro's hooks (replacing any earlier Goro hooks; other hooks are kept).
pub fn plan_install(files: Vec<FoundFile>, goro: &str, windows: bool) -> (result: Result<
    Vec<FileEdit>,
    String,
>)
    ensures
        plan_result(result) == plan_of(files@, Some(goro@), windows, files@.len() as int),
        result matches Ok(edits) ==> all_printed(edits.deep_view(), Some(goro@), windows),
{
    plan(files, Some(goro), windows)
}

/// Plan removing Goro's hooks.
pub fn plan_uninstall(files: Vec<FoundFile>) -> (result: Result<Vec<FileEdit>, String>)
    ensures
        plan_result(result) == plan_of(files@, None, false, files@.len() as int),
        result matches Ok(edits) ==> all_printed(edits.deep_view(), None, false),
{
    plan(files, None, false)
}

/// Whether a file's configuration runs Goro's hooks for both events.
pub open spec fn file_installed(file: FoundFile) -> bool {
    file.text matches Ok(Some(text)) && json::parsed(text@) matches Some(config) && has_goro(
        config,
        "UserPromptSubmit"@,
        file.agent,
    ) && has_goro(config, "Stop"@, file.agent)
}

/// Whether each agent's configuration currently runs Goro's hooks.
pub fn installed(files: &[FoundFile]) -> (result: Vec<(Agent, bool)>)
    ensures
        result@ == files@.map_values(|f: FoundFile| (f.agent, file_installed(f))),
{
    let mut result: Vec<(Agent, bool)> = Vec::new();
    let mut k: usize = 0;
    while k < files.len()
        invariant
            k <= files@.len(),
            result@ == files@.take(k as int).map_values(
                |f: FoundFile| (f.agent, file_installed(f)),
            ),
        decreases files.len() - k,
    {
        let file = &files[k];
        let is_installed = match &file.text {
            Ok(Some(text)) => match parse(text.as_str()) {
                Ok(config) => has_goro_hook(&config, "UserPromptSubmit", &file.agent)
                    && has_goro_hook(&config, "Stop", &file.agent),
                Err(_) => false,
            },
            _ => false,
        };
        result.push((file.agent.copy(), is_installed));
        k = k + 1;
        assert(result@ =~= files@.take(k as int).map_values(
            |f: FoundFile| (f.agent, file_installed(f)),
        ));
    }
    assert(files@.take(k as int) =~= files@);
    result
}

// ---------------------------------------------------------------------------
// Laws.

proof fn lemma_found(members: Members, name: Seq<char>, at: int)
    requires
        json::names_distinct(members),
        0 <= at < members.len(),
        members[at].0 == name,
    ensures
        json::member_at(members, name) == at,
        json::member(members, name) == Some(members[at].1),
{
    json::lemma_member(members, name, 0);
    let found = json::member_at(members, name);
    if found < at {
        assert(members[found].0 != members[at].0);
    } else if found > at {
        assert(members[at].0 != name);
    }
}

proof fn lemma_absent(members: Members, name: Seq<char>)
    requires
        forall|i: int| 0 <= i < members.len() ==> (#[trigger] members[i]).0 != name,
    ensures
        json::member_at(members, name) == members.len(),
        json::member(members, name) is None,
{
    json::lemma_member(members, name, 0);
}

/// Putting another value in its place leaves a member where it is.
proof fn lemma_first_stays(before: Members, after: Members, name: Seq<char>, at: int)
    requires
        at == json::member_at(before, name),
        at < before.len(),
        after.len() == before.len(),
        forall|i: int| 0 <= i < before.len() ==> (#[trigger] after[i]).0 == before[i].0,
    ensures
        json::member_at(after, name) == at,
        json::member(after, name) == Some(after[at].1),
{
    json::lemma_member(before, name, 0);
    json::lemma_member(after, name, 0);
    let found = json::member_at(after, name);
    if found < at {
        assert(before[found].0 != name);
        assert(after[found].0 == before[found].0);
    } else if found > at {
        assert(after[at].0 != name);
    }
}

/// Groups without commands of Goro's stay as they are, those without any hook too.
proof fn lemma_clean_stays(groups: Seq<JsonView>, agent: Agent)
    requires
        !any_group_has_goro(groups, agent),
    ensures
        clean_groups(groups, agent) == groups,
    decreases groups.len(),
{
    if groups.len() > 0 {
        let before = groups.drop_last();
        assert forall|i: int| 0 <= i < before.len() implies !group_has_goro(
            #[trigger] before[i],
            agent,
        ) by {
            assert(!group_has_goro(groups[i], agent));
        }
        lemma_clean_stays(before, agent);
        let last = groups[groups.len() - 1];
        assert(!group_has_goro(last, agent));
        lemma_cleaned_stays(last, agent);
        assert(groups =~= before.push(last));
    } else {
        assert(groups =~= Seq::empty());
    }
}

proof fn lemma_cleaned_stays(group: JsonView, agent: Agent)
    requires
        !group_has_goro(group, agent),
    ensures
        cleaned(group, agent) == group,
        !emptied(group, agent),
{
    if let JsonView::Object(members) = group {
        json::lemma_member(members, "hooks"@, 0);
        if let Some(JsonView::List(hooks)) = json::member(members, "hooks"@) {
            let at = json::member_at(members, "hooks"@);
            lemma_others_stay(hooks, agent);
            assert(members.update(at, (members[at].0, JsonView::List(hooks))) =~= members);
        }
    }
}

proof fn lemma_others_stay(hooks: Seq<JsonView>, agent: Agent)
    requires
        !any_goro_hook(hooks, agent),
    ensures
        others(hooks, agent) == hooks,
    decreases hooks.len(),
{
    if hooks.len() > 0 {
        let before = hooks.drop_last();
        assert forall|i: int| 0 <= i < before.len() implies !goro_hook(
            #[trigger] before[i],
            agent,
        ) by {
            assert(!goro_hook(hooks[i], agent));
        }
        lemma_others_stay(before, agent);
        assert(!goro_hook(hooks[hooks.len() - 1], agent));
        assert(hooks =~= before.push(hooks.last()));
    } else {
        assert(hooks =~= Seq::empty());
    }
}

/// A group of Goro's runs its command, and is empty without it.
proof fn lemma_goro_group(command: Seq<char>, agent: Agent)
    requires
        goro_command(command, agent),
    ensures
        group_has_goro(goro_group(command), agent),
        emptied(goro_group(command), agent),
        goro_texts(goro_group(command), agent) == seq![command],
{
    lemma_names();
    let parts = seq![
        ("type"@, JsonView::Text("command"@)),
        ("command"@, JsonView::Text(command)),
        ("timeout"@, JsonView::Number(json::number_from(5))),
    ];
    assert(json::names_distinct(parts));
    lemma_found(parts, "command"@, 1);
    let hook = JsonView::Object(parts);
    assert(goro_hook(hook, agent));
    let hooks = seq![hook];
    assert(any_goro_hook(hooks, agent)) by {
        assert(goro_hook(hooks[0], agent));
    }
    let members = seq![("hooks"@, JsonView::List(hooks))];
    lemma_found(members, "hooks"@, 0);
    assert(hooks.drop_last() =~= Seq::<JsonView>::empty());
    assert(others(hooks.drop_last(), agent) =~= Seq::<JsonView>::empty());
    assert(others(hooks, agent) =~= Seq::<JsonView>::empty());
    assert(hook_texts(hooks.drop_last(), agent) =~= Seq::<Seq<char>>::empty());
    assert(hook_texts(hooks, agent) =~= seq![command]);
}

proof fn lemma_clean_pushed(groups: Seq<JsonView>, command: Seq<char>, agent: Agent)
    requires
        goro_command(command, agent),
    ensures
        clean_groups(groups.push(goro_group(command)), agent) == clean_groups(groups, agent),
{
    lemma_goro_group(command, agent);
    assert(groups.push(goro_group(command)).drop_last() =~= groups);
}

/// The commands of an installation are recognised as Goro's, as long as the path of the
/// program holds its name.
pub proof fn law_installed_commands_are_recognised(path: Seq<char>, agent: Agent, windows: bool)
    requires
        holds(path, "goro"@),
    ensures
        goro_command(command_for(path, agent, "prompt"@, windows), agent),
        goro_command(command_for(path, agent, "stop"@, windows), agent),
{
    lemma_quoted_holds(path, windows);
    lemma_command_recognised(path, agent, "prompt"@, windows);
    lemma_command_recognised(path, agent, "stop"@, windows);
}

proof fn lemma_command_recognised(
    path: Seq<char>,
    agent: Agent,
    event: Seq<char>,
    windows: bool,
)
    requires
        holds(quoted(path, windows), "goro"@),
    ensures
        ends_with(command_for(path, agent, event, windows), command_end(agent, event)),
        holds(command_for(path, agent, event, windows), "goro"@),
{
    let head = quoted(path, windows);
    let end = command_end(agent, event);
    let all = command_for(path, agent, event, windows);
    assert(all =~= head + end);
    assert(all.skip(all.len() - end.len()) =~= end);
    let at = choose|at: int| #[trigger] holds_at(head, "goro"@, at);
    assert(all.subrange(at, at + "goro"@.len()) =~= head.subrange(at, at + "goro"@.len()));
    assert(holds_at(all, "goro"@, at));
}

proof fn lemma_quoted_holds(path: Seq<char>, windows: bool)
    requires
        holds(path, "goro"@),
    ensures
        holds(quoted(path, windows), "goro"@),
{
    let part = "goro"@;
    let at = choose|at: int| #[trigger] holds_at(path, part, at);
    reveal_strlit("goro");
    if forall|i: int| 0 <= i < path.len() ==> plain_char(#[trigger] path[i]) {
    } else if windows {
        let all = quoted(path, windows);
        assert(all.subrange(at + 1, at + 1 + part.len()) =~= path.subrange(at, at + part.len()));
        assert(holds_at(all, part, at + 1));
    } else {
        assert(forall|i: int| 0 <= i < part.len() ==> part[i] != '\'');
        lemma_escaped_holds(path, part, at);
        let escaped = quotes_escaped(path);
        let k = choose|k: int| #[trigger] holds_at(escaped, part, k);
        let all = quoted(path, windows);
        assert(all.subrange(k + 1, k + 1 + part.len()) =~= escaped.subrange(k, k + part.len()));
        assert(holds_at(all, part, k + 1));
    }
}

/// Escaping quotes keeps what holds none.
proof fn lemma_escaped_holds(text: Seq<char>, part: Seq<char>, at: int)
    requires
        holds_at(text, part, at),
        forall|i: int| 0 <= i < part.len() ==> part[i] != '\'',
    ensures
        holds(quotes_escaped(text), part),
    decreases text.len(),
{
    if part.len() == 0 {
        assert(quotes_escaped(text).subrange(0, 0) =~= part);
        assert(holds_at(quotes_escaped(text), part, 0));
    } else if at + part.len() < text.len() {
        let before = text.drop_last();
        assert(before.subrange(at, at + part.len()) =~= text.subrange(at, at + part.len()));
        lemma_escaped_holds(before, part, at);
        let shorter = quotes_escaped(before);
        let k = choose|k: int| #[trigger] holds_at(shorter, part, k);
        let longer = quotes_escaped(text);
        assert(longer.subrange(k, k + part.len()) =~= shorter.subrange(k, k + part.len()));
        assert(holds_at(longer, part, k));
    } else {
        lemma_escaped_tail(text, part, at);
    }
}

/// What stands at the end of a text and holds no quote stands at the end of the escaped
/// text.
#[verifier::spinoff_prover]
#[verifier::rlimit(60)]
proof fn lemma_escaped_tail(text: Seq<char>, part: Seq<char>, at: int)
    requires
        0 <= at,
        at + part.len() == text.len(),
        text.skip(at) == part,
        forall|i: int| 0 <= i < part.len() ==> part[i] != '\'',
    ensures
        holds(quotes_escaped(text), part),
        quotes_escaped(text) == quotes_escaped(text.take(at)) + part,
    decreases part.len(),
{
    let escaped = quotes_escaped(text);
    let head = quotes_escaped(text.take(at));
    if part.len() == 0 {
        assert(text.take(at) =~= text);
        assert(head + part =~= head);
    } else {
        let shorter = part.drop_last();
        assert(text.drop_last().skip(at) =~= shorter);
        assert(text.drop_last().take(at) =~= text.take(at));
        lemma_escaped_tail(text.drop_last(), shorter, at);
        assert(text.skip(at)[part.len() - 1] == text.last());
        assert(part.last() == text.last());
        assert(escaped =~= head + part);
    }
    assert(escaped.subrange(head.len() as int, (head.len() + part.len()) as int) =~= part);
    assert(holds_at(escaped, part, head.len() as int));
}

/// The commands of Goro's that hooks run.
pub open spec fn hook_texts(hooks: Seq<JsonView>, agent: Agent) -> Seq<Seq<char>>
    decreases hooks.len(),
{
    if hooks.len() == 0 {
        Seq::empty()
    } else {
        let before = hook_texts(hooks.drop_last(), agent);
        if goro_hook(hooks.last(), agent) {
            before.push(json::value_at(hooks.last(), "command"@)->Some_0->Text_0)
        } else {
            before
        }
    }
}

/// The commands of Goro's that a group runs.
pub open spec fn goro_texts(group: JsonView, agent: Agent) -> Seq<Seq<char>> {
    match json::value_at(group, "hooks"@) {
        Some(JsonView::List(hooks)) => hook_texts(hooks, agent),
        _ => Seq::empty(),
    }
}

/// The commands of Goro's that the groups of an event run.
pub open spec fn event_texts(groups: Seq<JsonView>, agent: Agent) -> Seq<Seq<char>>
    decreases groups.len(),
{
    if groups.len() == 0 {
        Seq::empty()
    } else {
        event_texts(groups.drop_last(), agent) + goro_texts(groups.last(), agent)
    }
}

proof fn lemma_no_hook_texts(hooks: Seq<JsonView>, agent: Agent)
    requires
        !any_goro_hook(hooks, agent),
    ensures
        hook_texts(hooks, agent) == Seq::<Seq<char>>::empty(),
    decreases hooks.len(),
{
    if hooks.len() > 0 {
        assert(!goro_hook(hooks[hooks.len() - 1], agent));
        assert forall|i: int| 0 <= i < hooks.drop_last().len() implies !goro_hook(
            #[trigger] hooks.drop_last()[i],
            agent,
        ) by {
            assert(!goro_hook(hooks[i], agent));
        }
        lemma_no_hook_texts(hooks.drop_last(), agent);
    }
}

proof fn lemma_no_event_texts(groups: Seq<JsonView>, agent: Agent)
    requires
        !any_group_has_goro(groups, agent),
    ensures
        event_texts(groups, agent) == Seq::<Seq<char>>::empty(),
    decreases groups.len(),
{
    if groups.len() > 0 {
        let last = groups[groups.len() - 1];
        assert(!group_has_goro(last, agent));
        if let Some(JsonView::List(hooks)) = json::value_at(last, "hooks"@) {
            lemma_no_hook_texts(hooks, agent);
        }
        assert forall|i: int| 0 <= i < groups.drop_last().len() implies !group_has_goro(
            #[trigger] groups.drop_last()[i],
            agent,
        ) by {
            assert(!group_has_goro(groups[i], agent));
        }
        lemma_no_event_texts(groups.drop_last(), agent);
        assert(event_texts(groups, agent) =~= Seq::<Seq<char>>::empty());
    }
}

/// What planning an event makes of the other members: they stay.
proof fn lemma_other_member(
    hooks: Members,
    event: Seq<char>,
    agent: Agent,
    command: Option<Seq<char>>,
    other: Seq<char>,
)
    requires
        json::names_distinct(hooks),
        other != event,
    ensures
        json::names_distinct(event_planned(hooks, event, agent, command)),
        json::member(event_planned(hooks, event, agent, command), other) == json::member(
            hooks,
            other,
        ),
{
    let after = event_planned(hooks, event, agent, command);
    let at = json::member_at(hooks, event);
    json::lemma_member(hooks, event, 0);
    json::lemma_member(hooks, other, 0);
    let o = json::member_at(hooks, other);
    if after.len() < hooks.len() {
        lemma_removed_distinct(hooks, at);
        if o < hooks.len() {
            let to = if o < at {
                o
            } else {
                o - 1
            };
            assert(after[to] == hooks[o]);
            lemma_found(after, other, to);
        } else {
            assert forall|i: int| 0 <= i < after.len() implies (#[trigger] after[i]).0 != other by {
                if i < at {
                    assert(after[i] == hooks[i]);
                } else {
                    assert(after[i] == hooks[i + 1]);
                }
            }
            lemma_absent(after, other);
        }
    } else {
        assert forall|i: int| 0 <= i < hooks.len() implies (#[trigger] after[i]).0 == hooks[i].0 by {}
        assert forall|i: int, j: int|
            #![trigger after[i], after[j]]
            0 <= i < j < after.len() implies after[i].0 != after[j].0 by {
            assert(hooks[i].0 == after[i].0);
            if j < hooks.len() {
                assert(hooks[i].0 != hooks[j].0);
            }
        }
        if o < hooks.len() {
            lemma_found(after, other, o);
        } else {
            lemma_absent(after, other);
        }
    }
}

/// Whether installing has left an event with its command at the end and no other one, or with
/// something else than a list.
spec fn settled(hooks: Members, event: Seq<char>, agent: Agent, command: Seq<char>) -> bool {
    match json::member(hooks, event) {
        Some(JsonView::List(groups)) => groups.len() > 0 && groups.last() == goro_group(command)
            && !any_group_has_goro(groups.drop_last(), agent),
        Some(_) => true,
        None => false,
    }
}

proof fn lemma_event_settles(hooks: Members, event: Seq<char>, agent: Agent, command: Seq<char>)
    requires
        json::names_distinct(hooks),
    ensures
        settled(event_planned(hooks, event, agent, Some(command)), event, agent, command),
{
    let after = event_planned(hooks, event, agent, Some(command));
    let at = json::member_at(hooks, event);
    json::lemma_member(hooks, event, 0);
    match json::member(hooks, event) {
        Some(JsonView::List(groups)) => {
            let kept = clean_groups(groups, agent);
            lemma_first_stays(hooks, after, event, at);
            lemma_clean_has_none(groups, agent);
            assert(kept.push(goro_group(command)).drop_last() =~= kept);
        },
        None => {
            assert(after.take(hooks.len() as int) =~= hooks);
            json::lemma_member(after, event, 0);
            let found = json::member_at(after, event);
            assert(after[hooks.len() as int].0 == event);
            if found < hooks.len() {
                assert(after[found] == hooks[found]);
            }
            assert(seq![goro_group(command)].drop_last() =~= Seq::empty());
        },
        _ => {},
    }
}

proof fn lemma_settled_stays(hooks: Members, event: Seq<char>, agent: Agent, command: Seq<char>)
    requires
        settled(hooks, event, agent, command),
        goro_command(command, agent),
    ensures
        event_planned(hooks, event, agent, Some(command)) == hooks,
{
    let at = json::member_at(hooks, event);
    json::lemma_member(hooks, event, 0);
    if let Some(JsonView::List(groups)) = json::member(hooks, event) {
        let rest = groups.drop_last();
        assert(groups =~= rest.push(goro_group(command)));
        lemma_clean_pushed(rest, command, agent);
        lemma_clean_stays(rest, agent);
        assert(event_planned(hooks, event, agent, Some(command)) =~= hooks);
    }
}

/// Installing is idempotent: installing again, with commands that are recognised as Goro's,
/// changes nothing in the hooks.
pub proof fn law_installing_hooks_is_idempotent(
    hooks: Members,
    agent: Agent,
    prompt: Seq<char>,
    stop: Seq<char>,
)
    requires
        json::names_distinct(hooks),
        goro_command(prompt, agent),
        goro_command(stop, agent),
    ensures
        ({
            let commands = Commands { prompt: Some(prompt), stop: Some(stop) };
            let once = hooks_planned(hooks, agent, commands);
            hooks_planned(once, agent, commands) == once
        }),
{
    lemma_names();
    let (e1, e2) = ("UserPromptSubmit"@, "Stop"@);
    let one = event_planned(hooks, e1, agent, Some(prompt));
    let two = event_planned(one, e2, agent, Some(stop));
    lemma_event_settles(hooks, e1, agent, prompt);
    lemma_other_member(hooks, e1, agent, Some(prompt), e2);
    lemma_event_settles(one, e2, agent, stop);
    lemma_other_member(one, e2, agent, Some(stop), e1);
    lemma_settled_stays(two, e1, agent, prompt);
    lemma_settled_stays(two, e2, agent, stop);
}

/// A member that is there holds what planning its place makes of it.
proof fn lemma_hooks_placed(root: Members, at: int, value: JsonView)
    requires
        json::names_distinct(root),
        0 <= at < root.len(),
        root[at].0 == "hooks"@,
    ensures
        json::member_at(root.update(at, (root[at].0, value)), "hooks"@) == at,
        json::member(root.update(at, (root[at].0, value)), "hooks"@) == Some(value),
{
    lemma_found(root, "hooks"@, at);
    lemma_first_stays(root, root.update(at, (root[at].0, value)), "hooks"@, at);
}

/// A configuration with a place for hooks.
spec fn with_place(members: Members) -> Members {
    if json::member(members, "hooks"@) is None {
        members.push(("hooks"@, JsonView::Object(Seq::empty())))
    } else {
        members
    }
}

proof fn lemma_with_place(members: Members)
    requires
        json::well_named(JsonView::Object(members)),
    ensures
        ({
            let root = with_place(members);
            let at = json::member_at(root, "hooks"@);
            &&& json::well_named(JsonView::Object(root))
            &&& 0 <= at < root.len()
            &&& root[at].0 == "hooks"@
            &&& json::well_named(root[at].1)
            &&& json::member(members, "hooks"@) is None ==> at == members.len()
        }),
{
    let root = with_place(members);
    let none = JsonView::Object(Seq::empty());
    json::lemma_member(members, "hooks"@, 0);
    if json::member(members, "hooks"@) is None {
        assert(json::well_named(none));
        lemma_pushed_named(members, "hooks"@, none);
        assert(root[members.len() as int].0 == "hooks"@);
        lemma_found(root, "hooks"@, members.len() as int);
    }
    json::lemma_member(root, "hooks"@, 0);
    let at = json::member_at(root, "hooks"@);
    assert(json::well_named(root[at].1));
}

/// Planning commands leaves some hook.
proof fn lemma_some_planned(hooks: Members, agent: Agent, prompt: Seq<char>, stop: Seq<char>)
    ensures
        hooks_planned(
            hooks,
            agent,
            Commands { prompt: Some(prompt), stop: Some(stop) },
        ).len() > 0,
{
    let one = event_planned(hooks, "UserPromptSubmit"@, agent, Some(prompt));
    json::lemma_member(hooks, "UserPromptSubmit"@, 0);
    json::lemma_member(one, "Stop"@, 0);
}

/// Installing is idempotent: a configuration that Goro's hooks were installed in stays as it is
/// when they are installed again, by a program whose path holds Goro's name.
pub proof fn law_installing_is_idempotent(
    config: JsonView,
    agent: Agent,
    path: Seq<char>,
    windows: bool,
    once: JsonView,
)
    requires
        json::well_named(config),
        holds(path, "goro"@),
        config_planned(config, agent, commands_for(Some(path), agent, windows)) == Ok::<
            JsonView,
            Problem,
        >(once),
    ensures
        config_planned(once, agent, commands_for(Some(path), agent, windows)) == Ok::<
            JsonView,
            Problem,
        >(once),
{
    let commands = commands_for(Some(path), agent, windows);
    let (prompt, stop) = (commands.prompt->Some_0, commands.stop->Some_0);
    law_installed_commands_are_recognised(path, agent, windows);
    let members = config->Object_0;
    let root = with_place(members);
    let at = json::member_at(root, "hooks"@);
    lemma_with_place(members);
    let hooks = root[at].1->Object_0;
    let planned = hooks_planned(hooks, agent, commands);
    lemma_some_planned(hooks, agent, prompt, stop);
    law_installing_hooks_is_idempotent(hooks, agent, prompt, stop);
    lemma_hooks_placed(root, at, JsonView::Object(planned));
    let after = once->Object_0;
    assert(after.update(at, (after[at].0, JsonView::Object(planned))) =~= after);
}

/// Installing twice gives the same file, as long as what was printed reads back (see
/// [`is_printed`]): the second edit changes nothing.
pub proof fn law_installing_twice_gives_the_same_file(
    agent: Agent,
    path: Seq<u8>,
    text: Option<Seq<char>>,
    config: JsonView,
    goro: Seq<char>,
    windows: bool,
    once: JsonView,
    edit: FileEditView,
)
    requires
        holds(goro, "goro"@),
        config_read(text) == Some(config),
        json::well_named(config),
        config_planned(config, agent, commands_for(Some(goro), agent, windows)) == Ok::<
            JsonView,
            Problem,
        >(once),
        edit_planned(agent, path, Ok(text), Some(goro), windows) == Ok::<
            Option<FileEditView>,
            Seq<char>,
        >(Some(edit)),
        config_read(Some(edit.after)) == Some(once),
    ensures
        edit_planned(agent, path, Ok(Some(edit.after)), Some(goro), windows) == Ok::<
            Option<FileEditView>,
            Seq<char>,
        >(Some(FileEditView { before: Some(edit.after), ..edit })),
{
    law_installing_is_idempotent(config, agent, goro, windows, once);
}

/// Whether an event holds no command of Goro's and is no list without groups, which can't be
/// told from an event that isn't there once a group was added and taken out again.
pub open spec fn untouched(hooks: Members, event: Seq<char>, agent: Agent) -> bool {
    json::member(hooks, event) matches Some(JsonView::List(groups)) ==> groups.len() > 0
        && !any_group_has_goro(groups, agent)
}

/// Whether a file holds a configuration without hooks, or with some of which none is Goro's (see
/// [`untouched`]).
pub open spec fn is_untouched(text: Option<Seq<char>>, agent: Agent) -> bool {
    config_read(text) matches Some(config) && (json::value_at(config, "hooks"@) matches Some(
        JsonView::Object(hooks),
    ) ==> hooks.len() > 0 && untouched(hooks, "UserPromptSubmit"@, agent) && untouched(
        hooks,
        "Stop"@,
        agent,
    ))
}

proof fn lemma_event_restored(hooks: Members, event: Seq<char>, agent: Agent, command: Seq<char>)
    requires
        json::names_distinct(hooks),
        untouched(hooks, event, agent),
        goro_command(command, agent),
    ensures
        event_planned(
            event_planned(hooks, event, agent, Some(command)),
            event,
            agent,
            None,
        ) == hooks,
{
    let after = event_planned(hooks, event, agent, Some(command));
    let at = json::member_at(hooks, event);
    json::lemma_member(hooks, event, 0);
    match json::member(hooks, event) {
        Some(JsonView::List(groups)) => {
            lemma_clean_stays(groups, agent);
            lemma_first_stays(hooks, after, event, at);
            lemma_clean_pushed(groups, command, agent);
            assert(event_planned(after, event, agent, None) =~= hooks);
        },
        None => {
            let list = seq![goro_group(command)];
            json::lemma_member(after, event, 0);
            let found = json::member_at(after, event);
            assert(after[hooks.len() as int].0 == event);
            if found < hooks.len() {
                assert(after[found] == hooks[found]);
            }
            lemma_clean_pushed(Seq::empty(), command, agent);
            assert(Seq::empty().push(goro_group(command)) =~= list);
            assert(event_planned(after, event, agent, None) =~= hooks);
        },
        _ => {},
    }
}

/// Planning one event and planning another don't get in each other's way.
proof fn lemma_events_commute(
    hooks: Members,
    added: Seq<char>,
    command: Seq<char>,
    removed: Seq<char>,
    agent: Agent,
)
    requires
        json::names_distinct(hooks),
        added != removed,
    ensures
        event_planned(event_planned(hooks, added, agent, Some(command)), removed, agent, None)
            == event_planned(
            event_planned(hooks, removed, agent, None),
            added,
            agent,
            Some(command),
        ),
{
    let more = event_planned(hooks, added, agent, Some(command));
    let less = event_planned(hooks, removed, agent, None);
    let (a, r) = (json::member_at(hooks, added), json::member_at(hooks, removed));
    json::lemma_member(hooks, added, 0);
    json::lemma_member(hooks, removed, 0);
    lemma_other_member(hooks, added, agent, Some(command), removed);
    lemma_other_member(hooks, removed, agent, None, added);
    json::lemma_member(more, removed, 0);
    json::lemma_member(less, added, 0);
    if r < hooks.len() {
        assert(more[r] == hooks[r]);
        lemma_found(more, removed, r);
    }
    if a < hooks.len() {
        let to = if less.len() < hooks.len() && r < a {
            a - 1
        } else {
            a
        };
        assert(less[to] == hooks[a]);
        lemma_found(less, added, to);
    }
    assert(event_planned(more, removed, agent, None) =~= event_planned(
        less,
        added,
        agent,
        Some(command),
    ));
}

/// Removing undoes installing: hooks without commands of Goro's are again what they were, in
/// the same order, groups without hooks among them. An event with an empty list is left out: it
/// can't be told from one that isn't there.
pub proof fn law_removing_undoes_installing(
    hooks: Members,
    agent: Agent,
    prompt: Seq<char>,
    stop: Seq<char>,
)
    requires
        json::names_distinct(hooks),
        untouched(hooks, "UserPromptSubmit"@, agent),
        untouched(hooks, "Stop"@, agent),
        goro_command(prompt, agent),
        goro_command(stop, agent),
    ensures
        hooks_planned(
            hooks_planned(hooks, agent, Commands { prompt: Some(prompt), stop: Some(stop) }),
            agent,
            Commands { prompt: None, stop: None },
        ) == hooks,
{
    lemma_names();
    let (e1, e2) = ("UserPromptSubmit"@, "Stop"@);
    let one = event_planned(hooks, e1, agent, Some(prompt));
    lemma_other_member(hooks, e1, agent, Some(prompt), e2);
    lemma_events_commute(one, e2, stop, e1, agent);
    lemma_event_restored(hooks, e1, agent, prompt);
    lemma_event_restored(hooks, e2, agent, stop);
}

/// Uninstalling restores the configuration: what installing changed is again as it was, every
/// other setting and hook in its place. Left out are commands of Goro's that were there before,
/// and what can't be told apart once Goro's hooks were there: hooks without any event from no
/// hooks, and an event with an empty list from none.
pub proof fn law_uninstalling_restores_the_configuration(
    config: JsonView,
    agent: Agent,
    path: Seq<char>,
    windows: bool,
    installed: JsonView,
)
    requires
        json::well_named(config),
        holds(path, "goro"@),
        json::value_at(config, "hooks"@) matches Some(JsonView::Object(hooks)) ==> hooks.len() > 0
            && untouched(hooks, "UserPromptSubmit"@, agent) && untouched(hooks, "Stop"@, agent),
        config_planned(config, agent, commands_for(Some(path), agent, windows)) == Ok::<
            JsonView,
            Problem,
        >(installed),
    ensures
        config_planned(installed, agent, commands_for(None, agent, windows)) == Ok::<
            JsonView,
            Problem,
        >(config),
{
    let commands = commands_for(Some(path), agent, windows);
    let (prompt, stop) = (commands.prompt->Some_0, commands.stop->Some_0);
    law_installed_commands_are_recognised(path, agent, windows);
    let members = config->Object_0;
    let root = with_place(members);
    let at = json::member_at(root, "hooks"@);
    lemma_with_place(members);
    let hooks = root[at].1->Object_0;
    let planned = hooks_planned(hooks, agent, commands);
    lemma_some_planned(hooks, agent, prompt, stop);
    lemma_hooks_placed(root, at, JsonView::Object(planned));
    if json::member(members, "hooks"@) is None {
        lemma_absent(hooks, "UserPromptSubmit"@);
        lemma_absent(hooks, "Stop"@);
    }
    law_removing_undoes_installing(hooks, agent, prompt, stop);
    let after = installed->Object_0;
    if hooks.len() == 0 {
        assert(after.remove(at) =~= members);
    } else {
        assert(after.update(at, (after[at].0, JsonView::Object(hooks))) =~= members);
    }
}

/// Uninstalling restores the file, as long as what was printed reads back (see
/// [`is_printed`]): it holds the configuration as it was, printed.
pub proof fn law_uninstalling_restores_the_file(
    agent: Agent,
    path: Seq<u8>,
    text: Option<Seq<char>>,
    config: JsonView,
    goro: Seq<char>,
    windows: bool,
    installed: JsonView,
    edit: FileEditView,
)
    requires
        holds(goro, "goro"@),
        config_read(text) == Some(config),
        json::well_named(config),
        json::value_at(config, "hooks"@) matches Some(JsonView::Object(hooks)) ==> hooks.len() > 0
            && untouched(hooks, "UserPromptSubmit"@, agent) && untouched(hooks, "Stop"@, agent),
        config_planned(config, agent, commands_for(Some(goro), agent, windows)) == Ok::<
            JsonView,
            Problem,
        >(installed),
        edit_planned(agent, path, Ok(text), Some(goro), windows) == Ok::<
            Option<FileEditView>,
            Seq<char>,
        >(Some(edit)),
        config_read(Some(edit.after)) == Some(installed),
    ensures
        edit_planned(agent, path, Ok(Some(edit.after)), None, windows) == Ok::<
            Option<FileEditView>,
            Seq<char>,
        >(
            Some(
                FileEditView {
                    agent,
                    path,
                    before: Some(edit.after),
                    after: json::pretty(config) + "\n"@,
                },
            ),
        ),
{
    law_uninstalling_restores_the_configuration(config, agent, goro, windows, installed);
}

proof fn lemma_cleaned_has_none(group: JsonView, agent: Agent)
    ensures
        !group_has_goro(cleaned(group, agent), agent),
{
    if let JsonView::Object(members) = group {
        json::lemma_member(members, "hooks"@, 0);
        if let Some(JsonView::List(hooks)) = json::member(members, "hooks"@) {
            let at = json::member_at(members, "hooks"@);
            let after = members.update(
                at,
                (members[at].0, JsonView::List(others(hooks, agent))),
            );
            lemma_first_stays(members, after, "hooks"@, at);
            lemma_others_have_none(hooks, agent);
        }
    }
}

proof fn lemma_others_have_none(hooks: Seq<JsonView>, agent: Agent)
    ensures
        !any_goro_hook(others(hooks, agent), agent),
    decreases hooks.len(),
{
    if hooks.len() > 0 {
        lemma_others_have_none(hooks.drop_last(), agent);
        let before = others(hooks.drop_last(), agent);
        let after = others(hooks, agent);
        assert forall|i: int| 0 <= i < after.len() implies !goro_hook(
            #[trigger] after[i],
            agent,
        ) by {
            if i < before.len() {
                assert(after[i] == before[i]);
                assert(!goro_hook(before[i], agent));
            }
        }
    }
}

proof fn lemma_clean_has_none(groups: Seq<JsonView>, agent: Agent)
    ensures
        !any_group_has_goro(clean_groups(groups, agent), agent),
    decreases groups.len(),
{
    if groups.len() > 0 {
        lemma_clean_has_none(groups.drop_last(), agent);
        lemma_cleaned_has_none(groups.last(), agent);
        let before = clean_groups(groups.drop_last(), agent);
        let after = clean_groups(groups, agent);
        assert forall|i: int| 0 <= i < after.len() implies !group_has_goro(
            #[trigger] after[i],
            agent,
        ) by {
            if i < before.len() {
                assert(after[i] == before[i]);
                assert(!group_has_goro(before[i], agent));
            }
        }
    }
}

/// Removing Goro's hooks for an event leaves none of its commands there.
pub proof fn law_removing_leaves_no_command(hooks: Members, event: Seq<char>, agent: Agent)
    requires
        json::names_distinct(hooks),
    ensures
        json::member(event_planned(hooks, event, agent, None), event) matches Some(
            JsonView::List(groups),
        ) ==> !any_group_has_goro(groups, agent),
{
    let at = json::member_at(hooks, event);
    json::lemma_member(hooks, event, 0);
    if let Some(JsonView::List(groups)) = json::member(hooks, event) {
        lemma_clean_has_none(groups, agent);
        let rest = event_planned(hooks, event, agent, None);
        if rest.len() < hooks.len() {
            assert forall|i: int| 0 <= i < rest.len() implies (#[trigger] rest[i]).0 != event by {
                let from = if i < at {
                    i
                } else {
                    i + 1
                };
                assert(rest[i] == hooks[from]);
                if from < at {
                    assert(hooks[from].0 != hooks[at].0);
                } else {
                    assert(hooks[at].0 != hooks[from].0);
                }
            }
            lemma_absent(rest, event);
        } else {
            lemma_first_stays(hooks, rest, event, at);
        }
    }
}

/// Installing a command for an event leaves exactly one command of Goro's there, the one that
/// was installed, in a group behind all others; unless the event has something else than a list.
pub proof fn law_installing_leaves_one_command(
    hooks: Members,
    event: Seq<char>,
    agent: Agent,
    command: Seq<char>,
)
    requires
        json::names_distinct(hooks),
        goro_command(command, agent),
        json::member(hooks, event) matches Some(value) ==> value is List,
    ensures
        json::member(event_planned(hooks, event, agent, Some(command)), event) matches Some(
            JsonView::List(groups),
        ) && event_texts(groups, agent) == seq![command] && groups.last() == goro_group(command),
{
    lemma_event_settles(hooks, event, agent, command);
    lemma_goro_group(command, agent);
    let after = event_planned(hooks, event, agent, Some(command));
    let at = json::member_at(hooks, event);
    json::lemma_member(hooks, event, 0);
    json::lemma_member(after, event, 0);
    if at < hooks.len() {
        lemma_first_stays(hooks, after, event, at);
    }
    if at >= hooks.len() {
        let found = json::member_at(after, event);
        assert(after[hooks.len() as int].0 == event);
        if found < hooks.len() {
            assert(after[found] == hooks[found]);
        }
    }
    let groups = json::member(after, event)->Some_0->List_0;
    lemma_no_event_texts(groups.drop_last(), agent);
    assert(event_texts(groups, agent) =~= seq![command]);
}

/// Whether files hold what planned changes wrote to them.
pub open spec fn is_applied(
    files: Seq<FoundFile>,
    edits: Seq<FileEditView>,
    again: Seq<FoundFile>,
) -> bool {
    &&& again.len() == files.len() == edits.len()
    &&& forall|i: int|
        0 <= i < again.len() ==> {
            let file = #[trigger] again[i];
            &&& file.agent == files[i].agent
            &&& file.path@ == files[i].path@
            &&& found_text(file.text) == Ok::<Option<Seq<char>>, Seq<char>>(Some(edits[i].after))
        }
}

/// Whether every configuration that is changed reads back once it is printed.
pub open spec fn all_read_back_from(edits: Seq<FileEditView>) -> bool {
    forall|i: int|
        0 <= i < edits.len() ==> (config_read((#[trigger] edits[i]).before) matches Some(config)
            ==> json::reads_back(config, json::MAX_DEPTH as int))
}

/// Installing plans a change for every file.
proof fn lemma_install_edits(files: Seq<FoundFile>, goro: Seq<char>, windows: bool, count: int)
    requires
        0 <= count <= files.len(),
        plan_of(files, Some(goro), windows, count) is Ok,
    ensures
        plan_of(files, Some(goro), windows, count)->Ok_0.len() == count,
        forall|i: int|
            0 <= i < count ==> edit_planned(
                (#[trigger] files[i]).agent,
                files[i].path@,
                found_text(files[i].text),
                Some(goro),
                windows,
            ) == Ok::<Option<FileEditView>, Seq<char>>(
                Some(plan_of(files, Some(goro), windows, count)->Ok_0[i]),
            ),
    decreases count,
{
    if count > 0 {
        lemma_install_edits(files, goro, windows, count - 1);
        let before = plan_of(files, Some(goro), windows, count - 1)->Ok_0;
        let all = plan_of(files, Some(goro), windows, count)->Ok_0;
        assert forall|i: int| 0 <= i < count implies edit_planned(
            (#[trigger] files[i]).agent,
            files[i].path@,
            found_text(files[i].text),
            Some(goro),
            windows,
        ) == Ok::<Option<FileEditView>, Seq<char>>(Some(all[i])) by {
            if i < count - 1 {
                assert(all[i] == before[i]);
            }
        }
    }
}

/// A plan is what is planned for each file, where that is a change for every one.
proof fn lemma_plan_of_all(
    files: Seq<FoundFile>,
    goro: Option<Seq<char>>,
    windows: bool,
    edits: Seq<FileEditView>,
    count: int,
)
    requires
        0 <= count <= files.len() == edits.len(),
        forall|i: int|
            0 <= i < files.len() ==> edit_planned(
                (#[trigger] files[i]).agent,
                files[i].path@,
                found_text(files[i].text),
                goro,
                windows,
            ) == Ok::<Option<FileEditView>, Seq<char>>(Some(edits[i])),
    ensures
        plan_of(files, goro, windows, count) == Ok::<Seq<FileEditView>, Seq<char>>(
            edits.take(count),
        ),
    decreases count,
{
    if count > 0 {
        lemma_plan_of_all(files, goro, windows, edits, count - 1);
        let file = files[count - 1];
        assert(edits.take(count - 1).push(edits[count - 1]) =~= edits.take(count));
    } else {
        assert(edits.take(0) =~= Seq::<FileEditView>::empty());
    }
}

/// Once an installation was applied, planning it again works and changes no file: as long as no
/// configuration holds numbers that may not read back.
pub proof fn law_installing_again_changes_no_file(
    files: Seq<FoundFile>,
    goro: Seq<char>,
    windows: bool,
    edits: Seq<FileEditView>,
    again: Seq<FoundFile>,
)
    requires
        holds(goro, "goro"@),
        plan_of(files, Some(goro), windows, files.len() as int) == Ok::<
            Seq<FileEditView>,
            Seq<char>,
        >(edits),
        all_printed(edits, Some(goro), windows),
        all_read_back_from(edits),
        is_applied(files, edits, again),
    ensures
        plan_of(again, Some(goro), windows, again.len() as int) matches Ok(next) && next.len()
            == edits.len() && forall|i: int|
            0 <= i < next.len() ==> (#[trigger] next[i]).before == Some(next[i].after),
{
    lemma_install_edits(files, goro, windows, files.len() as int);
    let next = Seq::new(
        edits.len(),
        |i: int| FileEditView { before: Some(edits[i].after), ..edits[i] },
    );
    assert forall|i: int| 0 <= i < again.len() implies edit_planned(
        (#[trigger] again[i]).agent,
        again[i].path@,
        found_text(again[i].text),
        Some(goro),
        windows,
    ) == Ok::<Option<FileEditView>, Seq<char>>(Some(next[i])) by {
        let (file, edit) = (files[i], edits[i]);
        let config = config_read(edit.before)->Some_0;
        assert(is_printed(edit, Some(goro), windows));
        let once = config_planned(config, file.agent, commands_for(Some(goro), file.agent, windows));
        law_installing_twice_gives_the_same_file(
            file.agent,
            file.path@,
            edit.before,
            config,
            goro,
            windows,
            once->Ok_0,
            edit,
        );
    }
    lemma_plan_of_all(again, Some(goro), windows, next, again.len() as int);
    assert(next.take(again.len() as int) =~= next);
}

/// Once an installation was applied, planning its removal works, and gives every file the
/// configuration that it had, whose text reads back as that: as long as no configuration holds
/// numbers that may not read back, commands of Goro's, or hooks without anything in them.
pub proof fn law_uninstalling_gives_back_every_file(
    files: Seq<FoundFile>,
    goro: Seq<char>,
    windows: bool,
    edits: Seq<FileEditView>,
    again: Seq<FoundFile>,
)
    requires
        holds(goro, "goro"@),
        plan_of(files, Some(goro), windows, files.len() as int) == Ok::<
            Seq<FileEditView>,
            Seq<char>,
        >(edits),
        all_printed(edits, Some(goro), windows),
        all_read_back_from(edits),
        is_applied(files, edits, again),
        forall|i: int|
            0 <= i < edits.len() ==> is_untouched((#[trigger] edits[i]).before, edits[i].agent),
    ensures
        plan_of(again, None, false, again.len() as int) matches Ok(next) && next.len()
            == edits.len() && forall|i: int|
            0 <= i < next.len() ==> {
                let edit = #[trigger] next[i];
                &&& edit.path == files[i].path@
                &&& config_read(edits[i].before) matches Some(config)
                &&& edit.after == json::pretty(config) + "\n"@
                &&& is_printed(edit, None, false) ==> config_read(Some(edit.after)) == Some(config)
            },
{
    lemma_install_edits(files, goro, windows, files.len() as int);
    let next = Seq::new(
        edits.len(),
        |i: int|
            FileEditView {
                agent: files[i].agent,
                path: files[i].path@,
                before: Some(edits[i].after),
                after: json::pretty(config_read(edits[i].before)->Some_0) + "\n"@,
            },
    );
    assert forall|i: int| 0 <= i < again.len() implies edit_planned(
        (#[trigger] again[i]).agent,
        again[i].path@,
        found_text(again[i].text),
        None,
        false,
    ) == Ok::<Option<FileEditView>, Seq<char>>(Some(next[i])) by {
        let (file, edit) = (files[i], edits[i]);
        let config = config_read(edit.before)->Some_0;
        assert(is_printed(edit, Some(goro), windows));
        assert(is_untouched(edit.before, edit.agent));
        let commands = commands_for(Some(goro), file.agent, windows);
        law_uninstalling_restores_the_file(
            file.agent,
            file.path@,
            edit.before,
            config,
            goro,
            windows,
            config_planned(config, file.agent, commands)->Ok_0,
            edit,
        );
        assert(edit_planned(file.agent, file.path@, Ok(Some(edit.after)), None, false)
            == edit_planned(file.agent, file.path@, Ok(Some(edit.after)), None, windows));
    }
    lemma_plan_of_all(again, None, false, next, again.len() as int);
    assert(next.take(again.len() as int) =~= next);
    assert forall|i: int| 0 <= i < next.len() && is_printed(
        #[trigger] next[i],
        None,
        false,
    ) implies config_read(Some(next[i].after)) == config_read(edits[i].before) by {
        let (file, edit) = (files[i], edits[i]);
        let config = config_read(edit.before)->Some_0;
        assert(is_printed(edit, Some(goro), windows));
        assert(is_untouched(edit.before, edit.agent));
        let commands = commands_for(Some(goro), file.agent, windows);
        let installed = config_planned(config, file.agent, commands)->Ok_0;
        lemma_planned_reads_back(config, file.agent, commands, json::MAX_DEPTH as int);
        law_uninstalling_restores_the_configuration(config, file.agent, goro, windows, installed);
    }
}

/// Whether git listed the snapshots, at reply `at`, and all but the newest four hundred of them
/// were deleted.
pub open spec fn keeps_four_hundred(replies: Seq<ReplyView>, at: int) -> bool {
    &&& calls::git_out(replies, at, turns::refs_call()) matches StepView::Done(listing, _)
    &&& exists|commands: Option<Seq<char>>| #[trigger] deletes_older(
        replies,
        at + 1,
        crate::text::lossy(listing),
        commands,
    )
}

/// Whether commands delete all but the newest four hundred of the refs listed, and were carried
/// out by reply `at` if there are any.
pub open spec fn deletes_older(
    replies: Seq<ReplyView>,
    at: int,
    listing: Seq<char>,
    commands: Option<Seq<char>>,
) -> bool {
    &&& turns::prunes(listing, 400, commands)
    &&& commands is Some ==> at < replies.len() && (replies[at] matches ReplyView::Git(Ok(_)))
}

proof fn lemma_keeps_four_hundred(
    replies: Seq<ReplyView>,
    at: int,
    root: Seq<u8>,
    step: StepView<Option<Seq<u8>>>,
)
    requires
        0 <= at <= replies.len(),
        ends_with_pruning(replies, at, root, step),
        step is Done,
    ensures
        step->Done_0 == Some(root),
        keeps_four_hundred(replies, at),
{
    let later = replies.skip(at);
    let keep = turns::KEEP_SNAPSHOTS as nat;
    let rest = choose|rest: StepView<()>|
        {
            &&& #[trigger] turns::prunes_to(replies.skip(at), turns::KEEP_SNAPSHOTS as nat, rest)
            &&& step == match rest {
                StepView::Call(call) => StepView::Call(call),
                StepView::Failed(error) => StepView::Failed(error),
                StepView::Done(_, used) => StepView::Done(Some(root), at + used),
            }
        };
    assert(rest is Done);
    assert(later.len() > 0);
    assert(later[0] == replies[at]);
    let out = calls::git_out(later, 0, turns::refs_call())->Done_0;
    let listing = crate::text::lossy(out);
    assert(calls::git_out(replies, at, turns::refs_call()) == StepView::Done(out, at + 1));
    assert(turns::pruned(later, 1, listing, keep, rest));
    let commands = choose|commands: Option<Seq<char>>|
        #[trigger] turns::prunes(listing, keep, commands) && rest == turns::delete_step(
            later,
            1,
            commands,
        );
    assert(turns::prunes(listing, 400, commands));
    if commands is Some {
        assert(later.len() > 1 && later[1] == replies[at + 1]);
    }
    assert(deletes_older(replies, at + 1, crate::text::lossy(out), commands));
    assert(exists|c: Option<Seq<char>>| #[trigger] deletes_older(
        replies,
        at + 1,
        crate::text::lossy(out),
        c,
    ));
    assert(calls::git_out(replies, at, turns::refs_call()) matches StepView::Done(l, _) && l == out);
    assert(keeps_four_hundred(replies, at));
}

/// Recording a turn takes a snapshot for it, and then leaves no more than the newest four hundred
/// snapshots. Outside of a repository nothing is asked of git.
pub proof fn law_recording_a_turn_keeps_the_newest_snapshots(
    root: Option<Seq<u8>>,
    meta: MetaView,
    json: Seq<char>,
    temp: Seq<char>,
    replies: Seq<ReplyView>,
    step: StepView<Option<Seq<u8>>>,
)
    requires
        handles(root, meta, json, temp, replies, step),
    ensures
        root is None ==> step == StepView::Done(None::<Seq<u8>>, 0),
        root is Some && step is Done ==> {
            &&& step->Done_0 == root
            &&& turns::snapshot_step(meta, json, temp, replies) matches StepView::Done(taken, at)
            &&& taken.meta == meta
            &&& keeps_four_hundred(replies, at)
        },
{
    if let Some(dir) = root {
        if step is Done {
            turns::lemma_snapshot_used(meta, json, temp, replies);
            let at = turns::snapshot_step(meta, json, temp, replies)->Done_1;
            lemma_keeps_four_hundred(replies, at, dir, step);
        }
    }
}

} // verus!
