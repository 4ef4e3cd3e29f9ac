//! Which repository to open when none is given: the one an agent touched most recently,
//! read from the agents' session logs, then the most recently opened one.
//!
//! Log formats aren't a stable API, so everything here is best effort: unreadable or
//! unrecognized files are skipped.
use vstd::prelude::*;

use crate::bytes::{bytes_of, copy, same, split};
use crate::hooks;
use crate::hooks::{agent_path, Agent, Names};
use crate::json;
use crate::json::{parse, Json, JsonView};
use crate::sorting;
use crate::sorting::{sort, Ranked};
use crate::store::RecentRepo;
use crate::text::from_utf8;

verus! {

broadcast use crate::bytes::lemma_deep;

/// How much of a log's tail to scan for the session's working directory.
pub const TAIL_BYTES: u64 = 0x1_0000;

/// Session logs to inspect per agent, newest first.
pub const LOGS_PER_AGENT: usize = 5;

/// Days of Codex rollouts to look at, the most recent first.
pub const ROLLOUT_DAYS: usize = 2;

/// Lines of a Codex rollout to look at.
pub const HEAD_LINES: usize = 5;

/// Where the agents keep their logs.
#[derive(Debug)]
pub struct AgentLogs {
    /// `projects` in the directory of the agent that `CLAUDE_CONFIG_DIR` belongs to.
    pub claude_projects: Option<Vec<u8>>,
    /// Codex's `sessions` directory (`~/.codex/sessions`).
    pub codex_sessions: Option<Vec<u8>>,
}

impl AgentLogs {
    /// The standard locations, from the home directory, `CLAUDE_CONFIG_DIR` and `CODEX_HOME`.
    pub fn locations(
        names: &Names,
        home: Option<&[u8]>,
        claude: Option<&[u8]>,
        codex: Option<&[u8]>,
    ) -> (logs: AgentLogs)
        ensures
            hooks::path_view(logs.claude_projects) == hooks::within_agent_dir(
                hooks::agent_dir(
                    hooks::slice_view(home),
                    hooks::slice_view(claude),
                    hooks::usual_dir(Agent::Claude(names.claude)),
                ),
                "projects"@,
            ),
            hooks::path_view(logs.codex_sessions) == hooks::within_agent_dir(
                hooks::agent_dir(
                    hooks::slice_view(home),
                    hooks::slice_view(codex),
                    hooks::usual_dir(Agent::Codex),
                ),
                "sessions"@,
            ),
    {
        AgentLogs {
            claude_projects: agent_path(
                home,
                claude,
                &Agent::Claude(names.claude.clone()),
                "projects",
            ),
            codex_sessions: agent_path(home, codex, &Agent::Codex, "sessions"),
        }
    }
}

/// A path and when it last changed, in nanoseconds since the Unix epoch: a log file, or a
/// directory that an agent worked in.
#[derive(Debug, PartialEq, Eq)]
pub struct AgentActivity {
    pub cwd: Vec<u8>,
    pub at: i128,
}

impl Ranked for AgentActivity {
    /// The latest first.
    open spec fn before(&self, other: &Self) -> bool {
        other.at < self.at
    }

    fn is_before(&self, other: &Self) -> (result: bool) {
        other.at < self.at
    }

    proof fn lemma_weak(a: &Self, b: &Self, c: &Self) {
    }
}

/// The newest of some log files, newest first, and no more than are looked at.
pub open spec fn newest(files: Seq<AgentActivity>) -> Seq<AgentActivity> {
    let all = sorting::sorted(files);
    if all.len() > LOGS_PER_AGENT {
        all.take(LOGS_PER_AGENT as int)
    } else {
        all
    }
}

/// The newest of some log files, newest first, and no more than are looked at.
pub fn newest_files(files: Vec<AgentActivity>) -> (result: Vec<AgentActivity>)
    ensures
        result@ == newest(files@),
{
    let mut all = sort(files);
    if all.len() > LOGS_PER_AGENT {
        all.truncate(LOGS_PER_AGENT);
    }
    all
}

/// Recent agent working directories, newest first.
pub fn agent_activity(claude: Vec<AgentActivity>, codex: Vec<AgentActivity>) -> (activity: Vec<
    AgentActivity,
>)
    ensures
        activity@ == sorting::sorted(claude@ + codex@),
{
    let mut all = claude;
    let mut more = codex;
    all.append(&mut more);
    sort(all)
}

/// Whether a line mentions a working directory: it holds `"cwd":`.
pub open spec fn mentions_cwd(line: Seq<u8>) -> bool {
    exists|at: int| #[trigger] mark_at(line, at)
}

/// Whether `"cwd":` stands at a position.
pub open spec fn mark_at(line: Seq<u8>, at: int) -> bool {
    0 <= at && at + 6 <= line.len() && line.subrange(at, at + 6) == crate::bytes::text_bytes(
        "\"cwd\":"@,
    )
}

/// The working directory that a line of a log in `projects` records.
pub open spec fn claude_line(line: Seq<u8>) -> Option<Seq<char>> {
    if mentions_cwd(line) && vstd::utf8::valid_utf8(line) {
        match json::parsed(vstd::utf8::decode_utf8(line)) {
            Some(value) => match json::value_at(value, "cwd"@) {
                Some(JsonView::Text(cwd)) => Some(cwd),
                _ => None,
            },
            None => None,
        }
    } else {
        None
    }
}

/// The last of the first `count` lines, from `from` on, that records a working directory.
pub open spec fn last_cwd(lines: Seq<Seq<u8>>, from: int, count: int) -> Option<Seq<char>>
    decreases count,
{
    if count <= from || count <= 0 {
        None
    } else if claude_line(lines[count - 1]) is Some {
        claude_line(lines[count - 1])
    } else {
        last_cwd(lines, from, count - 1)
    }
}

fn find_mark(line: &[u8]) -> (found: bool)
    ensures
        found == mentions_cwd(line@),
{
    let mark = bytes_of("\"cwd\":");
    let total: usize = line.len();
    let mut at: usize = 0;
    while at < total && 6 <= total - at
        invariant
            at <= total == line@.len(),
            mark@ == crate::bytes::text_bytes("\"cwd\":"@),
            forall|k: int| 0 <= k < at ==> !mark_at(line@, k),
        decreases total - at,
    {
        let part = vstd::slice::slice_subrange(line, at, at + 6);
        if same(part, mark.as_slice()) {
            assert(mark_at(line@, at as int));
            return true;
        }
        at = at + 1;
    }
    false
}

fn text_member(json: &Json, name: &str) -> (text: Option<String>)
    ensures
        match text {
            Some(t) => json::value_at(json.deep_view(), name@) == Some(JsonView::Text(t@)),
            None => !(json::value_at(json.deep_view(), name@) matches Some(JsonView::Text(_))),
        },
{
    match hooks::find_value(json, name) {
        Some(Json::Text(t)) => Some(t.clone()),
        _ => None,
    }
}

fn cwd_of_line(line: &[u8]) -> (cwd: Option<String>)
    ensures
        cwd.deep_view() == claude_line(line@),
{
    if !find_mark(line) {
        return None;
    }
    match from_utf8(line) {
        Some(text) => match parse(text) {
            Ok(json) => text_member(&json, "cwd"),
            Err(_) => None,
        },
        None => None,
    }
}

/// The last `cwd` recorded in the tail of a session log in `projects`. The first line is
/// skipped where the tail is not the whole log: it is probably cut off.
pub fn claude_cwd(tail: &[u8], cut: bool) -> (cwd: Option<String>)
    ensures
        cwd.deep_view() == ({
            let lines = crate::bytes::pieces(tail@, 10);
            last_cwd(
                lines,
                if cut {
                    1
                } else {
                    0
                },
                lines.len() as int,
            )
        }),
{
    let lines = split(tail, 10);
    let ghost all = crate::bytes::pieces(tail@, 10);
    let from: usize = if cut {
        1
    } else {
        0
    };
    let mut count: usize = lines.len();
    assert(all.len() == count);
    while count > from
        invariant
            count <= lines@.len(),
            all == lines.deep_view(),
            all == crate::bytes::pieces(tail@, 10),
            from == (if cut {
                1int
            } else {
                0
            }),
            last_cwd(all, from as int, all.len() as int) == last_cwd(
                all,
                from as int,
                count as int,
            ),
        decreases count,
    {
        assert(all[count - 1] == lines@[count - 1].deep_view());
        let cwd = cwd_of_line(lines[count - 1].as_slice());
        if cwd.is_some() {
            return cwd;
        }
        count = count - 1;
    }
    None
}

/// The working directory that a line of a Codex rollout records, if it is the session's.
pub open spec fn codex_line(line: Seq<char>) -> Option<Seq<char>> {
    match json::parsed(line) {
        Some(value) => if json::value_at(value, "type"@) == Some(
            JsonView::Text("session_meta"@),
        ) {
            match json::value_at(value, "payload"@) {
                Some(payload) => match json::value_at(payload, "cwd"@) {
                    Some(JsonView::Text(cwd)) => Some(cwd),
                    _ => None,
                },
                None => None,
            }
        } else {
            None
        },
        None => None,
    }
}

/// The first of the lines from `k` on that records the session's working directory; only the
/// first few lines count.
pub open spec fn first_cwd(lines: Seq<Seq<char>>, k: int) -> Option<Seq<char>>
    decreases lines.len() - k,
{
    if k >= lines.len() || k >= HEAD_LINES {
        None
    } else if codex_line(lines[k]) is Some {
        codex_line(lines[k])
    } else {
        first_cwd(lines, k + 1)
    }
}

fn session_cwd(line: &str) -> (cwd: Option<String>)
    ensures
        cwd.deep_view() == codex_line(line@),
{
    let json = match parse(line) {
        Ok(json) => json,
        Err(_) => {
            return None;
        },
    };
    match text_member(&json, "type") {
        Some(kind) => if !crate::text::same_text(kind.as_str(), "session_meta") {
            return None;
        },
        None => {
            return None;
        },
    }
    match hooks::find_value(&json, "payload") {
        Some(payload) => text_member(payload, "cwd"),
        None => None,
    }
}

/// The `cwd` from a Codex rollout's `session_meta` line, among the first lines of the log.
pub fn codex_cwd(lines: &[String]) -> (cwd: Option<String>)
    ensures
        cwd.deep_view() == first_cwd(lines@.map_values(|l: String| l@), 0),
{
    let ghost all = lines@.map_values(|l: String| l@);
    let mut k: usize = 0;
    while k < lines.len() && k < HEAD_LINES
        invariant
            k <= lines@.len(),
            k <= HEAD_LINES,
            all == lines@.map_values(|l: String| l@),
            first_cwd(all, 0) == first_cwd(all, k as int),
        decreases lines.len() - k,
    {
        let cwd = session_cwd(lines[k].as_str());
        if cwd.is_some() {
            return cwd;
        }
        k = k + 1;
    }
    None
}

/// The directories of activity that is newer than a time, if there is one.
pub open spec fn newer(logged: Seq<AgentActivity>, than: Option<i128>) -> Seq<Seq<u8>>
    decreases logged.len(),
{
    if logged.len() == 0 {
        Seq::empty()
    } else {
        let before = newer(logged.drop_last(), than);
        if than matches Some(at) && logged.last().at <= at {
            before
        } else {
            before.push(logged.last().cwd@)
        }
    }
}

/// The roots of repositories.
pub open spec fn roots(repos: Seq<RecentRepo>) -> Seq<Seq<u8>> {
    repos.map_values(|r: RecentRepo| r.root@)
}

/// When the latest hook recorded a turn, in nanoseconds.
pub open spec fn hooked_at(hooked: Seq<RecentRepo>) -> Option<i128> {
    if hooked.len() == 0 {
        None
    } else {
        Some((hooked[0].opened_at * 1_000_000_000) as i128)
    }
}

fn push_roots(out: &mut Vec<Vec<u8>>, repos: &[RecentRepo])
    ensures
        final(out).deep_view() == old(out).deep_view() + roots(repos@),
{
    let ghost before = out.deep_view();
    let mut i: usize = 0;
    assert(before + roots(repos@).take(0) =~= before);
    while i < repos.len()
        invariant
            i <= repos@.len(),
            out.deep_view() == before + roots(repos@).take(i as int),
        decreases repos.len() - i,
    {
        let ghost prior = out.deep_view();
        out.push(copy(repos[i].root.as_slice()));
        assert(out.deep_view() =~= prior.push(repos@[i as int].root@));
        i = i + 1;
        assert(out.deep_view() =~= before + roots(repos@).take(i as int));
    }
    assert(roots(repos@).take(i as int) =~= roots(repos@));
}

/// The directories to look for a repository in, in order: newer agent activity in the
/// session logs than the latest hook (hooks may not be installed everywhere), where a hook
/// last recorded a turn, and the repositories that were opened.
pub fn candidates(logged: &[AgentActivity], hooked: &[RecentRepo], recent: &[RecentRepo]) -> (dirs:
    Vec<Vec<u8>>)
    ensures
        dirs.deep_view() == newer(logged@, hooked_at(hooked@)) + roots(hooked@) + roots(recent@),
{
    let than: Option<i128> = if hooked.len() == 0 {
        None
    } else {
        Some(hooked[0].opened_at as i128 * 1_000_000_000)
    };
    assert(than == hooked_at(hooked@));
    let mut dirs: Vec<Vec<u8>> = Vec::new();
    let mut i: usize = 0;
    proof {
        assert(logged@.take(0) =~= Seq::<AgentActivity>::empty());
        assert(dirs.deep_view() =~= Seq::<Seq<u8>>::empty());
    }
    while i < logged.len()
        invariant
            i <= logged@.len(),
            dirs.deep_view() == newer(logged@.take(i as int), than),
        decreases logged.len() - i,
    {
        assert(logged@.take(i + 1).drop_last() =~= logged@.take(i as int));
        let stale = match than {
            Some(at) => logged[i].at <= at,
            None => false,
        };
        if !stale {
            let ghost prior = dirs.deep_view();
            dirs.push(copy(logged[i].cwd.as_slice()));
            assert(dirs.deep_view() =~= prior.push(logged@[i as int].cwd@));
        }
        i = i + 1;
    }
    assert(logged@.take(i as int) =~= logged@);
    push_roots(&mut dirs, hooked);
    push_roots(&mut dirs, recent);
    dirs
}

/// What to do next to detect the repository to open.
#[derive(Debug, Clone, Copy, PartialEq, Eq, Structural)]
pub enum DetectStep {
    /// Look whether this directory, or the nearest parent of it that still exists, lies in a
    /// repository.
    Try(usize),
    /// This directory does: open its repository.
    Found(usize),
    /// No directory does.
    Nothing,
}

/// The first directory from `from` on that lies in a repository.
pub open spec fn first_opened(opened: Seq<bool>, from: int) -> Option<int>
    decreases opened.len() - from,
{
    if from >= opened.len() {
        None
    } else if opened[from] {
        Some(from)
    } else {
        first_opened(opened, from + 1)
    }
}

/// What to do next to detect the repository among the candidates, of which the first were
/// looked at: `opened` says which of these lie in a repository. The first that does is opened.
pub fn detect_repo(candidates: &[Vec<u8>], opened: &[bool]) -> (step: DetectStep)
    ensures
        match first_opened(opened@, 0) {
            Some(i) => step == DetectStep::Found(i as usize),
            None => if opened@.len() < candidates@.len() {
                step == DetectStep::Try(opened@.len() as usize)
            } else {
                step == DetectStep::Nothing
            },
        },
{
    let mut i: usize = 0;
    let count: usize = opened.len();
    while i < count
        invariant
            i <= count,
            count == opened@.len(),
            first_opened(opened@, 0) == first_opened(opened@, i as int),
        decreases count - i,
    {
        if opened[i] {
            return DetectStep::Found(i);
        }
        i = i + 1;
    }
    if count < candidates.len() {
        DetectStep::Try(count)
    } else {
        DetectStep::Nothing
    }
}

/// Whether a file name ends in `.jsonl`, with something before it.
pub open spec fn jsonl_name(name: Seq<u8>) -> bool {
    let end = crate::bytes::text_bytes(".jsonl"@);
    name.len() > end.len() && name.skip(name.len() - end.len()) == end
}

/// Whether a file of this name is a session log.
pub fn is_jsonl(name: &[u8]) -> (result: bool)
    ensures
        result == jsonl_name(name@),
{
    let end = bytes_of(".jsonl");
    let (total, len): (usize, usize) = (name.len(), end.len());
    if total <= len {
        return false;
    }
    let tail = vstd::slice::slice_subrange(name, total - len, total);
    assert(tail@ =~= name@.skip(total - len));
    same(tail, end.as_slice())
}

/// The days found so far and those of a month before them, the most recent first, as far as
/// they are looked at.
pub open spec fn days_with(found: Seq<Seq<u8>>, month: Seq<Seq<u8>>) -> Seq<Seq<u8>> {
    let all = found + month.reverse();
    if all.len() > ROLLOUT_DAYS {
        all.take(ROLLOUT_DAYS as int)
    } else {
        all
    }
}

/// Adds the days of a month, which are given in order, to later ones; says whether that is
/// enough.
pub fn add_days(found: &mut Vec<Vec<u8>>, month: Vec<Vec<u8>>) -> (enough: bool)
    requires
        old(found)@.len() <= ROLLOUT_DAYS,
    ensures
        final(found).deep_view() == days_with(old(found).deep_view(), month.deep_view()),
        enough == (final(found)@.len() == ROLLOUT_DAYS),
{
    let ghost before = found.deep_view();
    let ghost all = month.deep_view();
    let ghost count = month@.len();
    let mut month = month;
    assert(found.deep_view() =~= before + all.reverse().take(0));
    while found.len() < ROLLOUT_DAYS && month.len() > 0
        invariant
            found@.len() <= ROLLOUT_DAYS,
            month@.len() <= count == all.len(),
            month.deep_view() == all.take(month@.len() as int),
            found.deep_view() == before + all.reverse().take(count - month@.len()),
        decreases month.len(),
    {
        let ghost left = month.deep_view();
        let ghost shown = found.deep_view();
        if let Some(day) = month.pop() {
            let ghost last = day@;
            assert(last == left.last());
            found.push(day);
            assert(found.deep_view() =~= shown.push(last));
            assert(month.deep_view() =~= all.take(month@.len() as int));
            assert(found.deep_view() =~= before + all.reverse().take(count - month@.len()));
        }
    }
    assert(found.deep_view() =~= days_with(before, all));
    found.len() == ROLLOUT_DAYS
}

// ---------------------------------------------------------------------------
// Laws.

/// Activity is listed with the latest first, and all of it.
pub proof fn law_activity_is_listed_latest_first(
    claude: Seq<AgentActivity>,
    codex: Seq<AgentActivity>,
    activity: Seq<AgentActivity>,
)
    requires
        activity == sorting::sorted(claude + codex),
    ensures
        activity.len() == claude.len() + codex.len(),
        forall|i: int, j: int|
            #![trigger activity[i], activity[j]]
            0 <= i < j < activity.len() ==> activity[i].at >= activity[j].at,
        forall|i: int| 0 <= i < claude.len() ==> activity.contains(#[trigger] claude[i]),
        forall|i: int| 0 <= i < codex.len() ==> activity.contains(#[trigger] codex[i]),
{
    let all = claude + codex;
    sorting::law_sorting_sorts(all);
    sorting::lemma_sorted_len(all);
    assert forall|i: int, j: int|
        #![trigger activity[i], activity[j]]
        0 <= i < j < activity.len() implies activity[i].at >= activity[j].at by {
        assert(!activity[j].before(&activity[i]));
    }
    assert forall|i: int| 0 <= i < claude.len() implies activity.contains(#[trigger] claude[i]) by {
        let at = sorting::lemma_place_of(all, i);
        assert(activity[at] == all[i]);
    }
    assert forall|i: int| 0 <= i < codex.len() implies activity.contains(#[trigger] codex[i]) by {
        let at = sorting::lemma_place_of(all, claude.len() + i);
        assert(activity[at] == all[claude.len() + i]);
    }
}

/// Of log files the newest five are looked at, the newest first: none that is left out is newer
/// than one that isn't.
pub proof fn law_the_newest_logs_are_looked_at(files: Seq<AgentActivity>)
    ensures
        newest(files).len() == (if files.len() < 5 {
            files.len()
        } else {
            5
        }),
        forall|i: int, j: int|
            #![trigger newest(files)[i], newest(files)[j]]
            0 <= i < j < newest(files).len() ==> newest(files)[i].at >= newest(files)[j].at,
        forall|i: int, j: int|
            #![trigger newest(files)[i], files[j]]
            0 <= i < newest(files).len() && 0 <= j < files.len() && !newest(files).contains(
                files[j],
            ) ==> newest(files)[i].at >= files[j].at,
{
    let all = sorting::sorted(files);
    sorting::law_sorting_sorts(files);
    sorting::lemma_sorted_len(files);
    let some = newest(files);
    assert forall|i: int, j: int|
        #![trigger some[i], some[j]]
        0 <= i < j < some.len() implies some[i].at >= some[j].at by {
        assert(!all[j].before(&all[i]));
    }
    assert forall|i: int, j: int|
        #![trigger some[i], files[j]]
        0 <= i < some.len() && 0 <= j < files.len() && !some.contains(files[j]) implies some[i].at
        >= files[j].at by {
        let at = sorting::lemma_place_of(files, j);
        assert(all[at] == files[j]);
        if at < some.len() {
            assert(some[at] == files[j]);
        }
        assert(!all[at].before(&all[i]));
    }
}

/// The working directory of a log is the one that its last line with one records.
pub proof fn law_the_last_recorded_directory_counts(lines: Seq<Seq<u8>>, from: int, count: int)
    requires
        0 <= from,
        count <= lines.len(),
    ensures
        match last_cwd(lines, from, count) {
            Some(cwd) => exists|k: int| #[trigger] is_last(lines, from, count, k) && claude_line(
                lines[k],
            ) == Some(cwd),
            None => forall|k: int| from <= k < count ==> claude_line(#[trigger] lines[k]) is None,
        },
    decreases count,
{
    if count > from && count > 0 {
        if claude_line(lines[count - 1]) is Some {
            assert(is_last(lines, from, count, count - 1));
        } else {
            law_the_last_recorded_directory_counts(lines, from, count - 1);
            if let Some(cwd) = last_cwd(lines, from, count - 1) {
                let k = choose|k: int| #[trigger]
                    is_last(lines, from, count - 1, k) && claude_line(lines[k]) == Some(cwd);
                assert(is_last(lines, from, count, k));
            }
        }
    }
}

/// Whether a line is one from which on no other records a directory.
pub open spec fn is_last(lines: Seq<Seq<u8>>, from: int, count: int, k: int) -> bool {
    from <= k < count && forall|j: int| k < j < count ==> claude_line(#[trigger] lines[j]) is None
}

/// The working directory of a rollout is the one that the first of its first five lines with one
/// records.
pub proof fn law_the_first_recorded_directory_counts(lines: Seq<Seq<char>>, k: int)
    requires
        0 <= k,
    ensures
        match first_cwd(lines, k) {
            Some(cwd) => exists|i: int| #[trigger] is_first(lines, k, i) && codex_line(lines[i])
                == Some(cwd),
            None => forall|i: int|
                k <= i < lines.len() && i < 5 ==> codex_line(#[trigger] lines[i]) is None,
        },
    decreases lines.len() - k,
{
    if k < lines.len() && k < HEAD_LINES {
        if codex_line(lines[k]) is Some {
            assert(is_first(lines, k, k));
        } else {
            law_the_first_recorded_directory_counts(lines, k + 1);
            if let Some(cwd) = first_cwd(lines, k + 1) {
                let i = choose|i: int| #[trigger]
                    is_first(lines, k + 1, i) && codex_line(lines[i]) == Some(cwd);
                assert(is_first(lines, k, i));
            }
        }
    }
}

/// Whether a line is one of the first five, and none before it records a directory.
pub open spec fn is_first(lines: Seq<Seq<char>>, from: int, i: int) -> bool {
    from <= i < lines.len() && i < 5 && forall|j: int|
        from <= j < i ==> codex_line(#[trigger] lines[j]) is None
}

/// Whether activity is newer than a time, if there is one.
pub open spec fn is_newer(activity: AgentActivity, than: Option<i128>) -> bool {
    than matches Some(at) ==> activity.at > at
}

/// Activity that is newer than the latest hook, and no other, comes in its order.
proof fn lemma_newer(logged: Seq<AgentActivity>, than: Option<i128>) -> (places: Seq<int>)
    ensures
        places.len() == newer(logged, than).len(),
        forall|k: int|
            0 <= k < places.len() ==> 0 <= #[trigger] places[k] < logged.len() && newer(
                logged,
                than,
            )[k] == logged[places[k]].cwd@,
        forall|a: int, b: int|
            #![trigger places[a], places[b]]
            0 <= a < b < places.len() ==> places[a] < places[b],
        forall|i: int|
            0 <= i < logged.len() ==> (places.contains(i) <==> is_newer(
                #[trigger] logged[i],
                than,
            )),
    decreases logged.len(),
{
    if logged.len() == 0 {
        Seq::empty()
    } else {
        let rest = logged.drop_last();
        let before = lemma_newer(rest, than);
        let n = logged.len() - 1;
        let left_out = than matches Some(at) && logged.last().at <= at;
        let places = if left_out {
            before
        } else {
            before.push(n)
        };
        assert forall|i: int| 0 <= i < logged.len() implies (places.contains(i) <==> is_newer(
            #[trigger] logged[i],
            than,
        )) by {
            if i < n {
                assert(rest[i] == logged[i]);
                if before.contains(i) {
                    let k = before.index_of(i);
                    assert(places[k] == i);
                }
                if places.contains(i) {
                    let k = places.index_of(i);
                    assert(before[k] == i);
                }
            } else {
                if !left_out {
                    assert(places[before.len() as int] == n);
                } else if places.contains(i) {
                    let k = places.index_of(i);
                    assert(0 <= before[k] < rest.len());
                }
            }
        }
        places
    }
}

/// Whether activity is newer than the latest hook, whose time is in seconds, or there was none.
pub open spec fn is_after_hooks(activity: AgentActivity, hooked: Seq<RecentRepo>) -> bool {
    hooked.len() > 0 ==> activity.at > hooked[0].opened_at * 1_000_000_000
}

/// Directories are looked at in this order: those of activity that is newer than the latest hook,
/// as listed; where hooks recorded turns; and what was opened. Activity counts if and only if it
/// is newer than the latest hook, or there was none.
pub proof fn law_newer_activity_is_looked_at_first(
    logged: Seq<AgentActivity>,
    hooked: Seq<RecentRepo>,
    recent: Seq<RecentRepo>,
    dirs: Seq<Seq<u8>>,
) -> (places: Seq<int>)
    requires
        dirs == newer(logged, hooked_at(hooked)) + roots(hooked) + roots(recent),
    ensures
        dirs.len() == places.len() + hooked.len() + recent.len(),
        forall|k: int|
            0 <= k < places.len() ==> 0 <= #[trigger] places[k] < logged.len() && dirs[k]
                == logged[places[k]].cwd@,
        forall|a: int, b: int|
            #![trigger places[a], places[b]]
            0 <= a < b < places.len() ==> places[a] < places[b],
        forall|i: int|
            0 <= i < logged.len() ==> (places.contains(i) <==> is_after_hooks(
                #[trigger] logged[i],
                hooked,
            )),
        forall|k: int|
            0 <= k < hooked.len() ==> dirs[places.len() + k] == (#[trigger] hooked[k]).root@,
        forall|k: int|
            0 <= k < recent.len() ==> dirs[places.len() + hooked.len() + k] == (
            #[trigger] recent[k]).root@,
{
    let places = lemma_newer(logged, hooked_at(hooked));
    assert forall|i: int| 0 <= i < logged.len() implies (places.contains(i) <==> is_after_hooks(
        #[trigger] logged[i],
        hooked,
    )) by {
        assert(places.contains(i) <==> is_newer(logged[i], hooked_at(hooked)));
    }
    let first = newer(logged, hooked_at(hooked));
    assert(roots(hooked).len() == hooked.len() && roots(recent).len() == recent.len());
    assert forall|k: int| 0 <= k < places.len() implies 0 <= #[trigger] places[k] < logged.len()
        && dirs[k] == logged[places[k]].cwd@ by {
        assert(dirs[k] == first[k]);
    }
    assert forall|k: int| 0 <= k < hooked.len() implies dirs[places.len() + k] == (
    #[trigger] hooked[k]).root@ by {
        assert(dirs[places.len() + k] == roots(hooked)[k]);
    }
    assert forall|k: int| 0 <= k < recent.len() implies dirs[places.len() + hooked.len() + k] == (
    #[trigger] recent[k]).root@ by {
        assert(dirs[places.len() + hooked.len() + k] == roots(recent)[k]);
    }
    places
}

/// The first directory that lies in a repository is opened.
pub proof fn law_the_first_repository_is_opened(opened: Seq<bool>, from: int)
    requires
        0 <= from,
    ensures
        match first_opened(opened, from) {
            Some(i) => from <= i < opened.len() && opened[i] && forall|j: int|
                from <= j < i ==> !#[trigger] opened[j],
            None => forall|j: int| from <= j < opened.len() ==> !#[trigger] opened[j],
        },
    decreases opened.len() - from,
{
    if from < opened.len() && !opened[from] {
        law_the_first_repository_is_opened(opened, from + 1);
    }
}

} // verus!
