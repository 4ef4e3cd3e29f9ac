//! Which repository an agent worked in last.
use goro::detect::{
    add_days, agent_activity, candidates, claude_cwd, codex_cwd, detect_repo, is_jsonl, newest_files,
    AgentActivity, AgentLogs, DetectStep,
};
use goro::hooks::Names;
use goro::store::RecentRepo;

const SECOND: i128 = 1_000_000_000;

fn at(cwd: Option<String>, secs: i128) -> Vec<AgentActivity> {
    cwd.into_iter()
        .map(|cwd| AgentActivity {
            cwd: cwd.into_bytes(),
            at: secs * SECOND,
        })
        .collect()
}

fn repo(root: &str, opened_at: u64) -> RecentRepo {
    RecentRepo {
        root: root.as_bytes().to_vec(),
        opened_at,
    }
}

/// Looks into directories until one lies in a repository.
fn detect(dirs: &[Vec<u8>], repos: &[&str]) -> Option<String> {
    let mut opened = Vec::new();
    loop {
        match detect_repo(dirs, &opened) {
            DetectStep::Try(i) => {
                let dir = String::from_utf8(dirs[i].clone()).unwrap();
                opened.push(repos.iter().any(|repo| dir.starts_with(repo)));
            }
            DetectStep::Found(i) => return Some(String::from_utf8(dirs[i].clone()).unwrap()),
            DetectStep::Nothing => return None,
        }
    }
}

fn lines(text: &str) -> Vec<String> {
    text.lines().map(str::to_string).collect()
}

#[test]
fn newest_agent_session_wins_across_agents() {
    let first = claude_cwd(
        b"{\"type\":\"queue\"}\n{\"type\":\"user\",\"cwd\":\"/work/first/src\",\"message\":\"hi\"}\n",
        false,
    );
    let codex = codex_cwd(&lines(
        "{\"type\":\"session_meta\",\"payload\":{\"cwd\":\"/work/codex\"}}\n{\"type\":\"other\"}\n",
    ));
    let activity = agent_activity(at(first.clone(), 2_000), at(codex.clone(), 1_000));
    assert_eq!(activity.len(), 2);
    assert_eq!(activity[0].cwd, b"/work/first/src");
    let repos = ["/work/first", "/work/codex"];
    // A subdirectory lies in its repository.
    assert_eq!(
        detect(&candidates(&activity, &[], &[]), &repos).as_deref(),
        Some("/work/first/src")
    );

    // Codex becomes the most recent.
    let mut more = at(codex.clone(), 1_000);
    more.extend(at(codex, 3_000));
    let activity = agent_activity(at(first, 2_000), more);
    assert_eq!(
        detect(&candidates(&activity, &[], &[]), &repos).as_deref(),
        Some("/work/codex")
    );
}

#[test]
fn falls_back_to_recent_repositories_and_skips_non_repos() {
    // An agent worked outside any repository.
    let cwd = claude_cwd(b"{\"cwd\":\"/root/not-a-repo\"}\n", false);
    let logged = agent_activity(at(cwd, 5_000), Vec::new());
    let recent = [repo("/root/deleted", 2), repo("/root/repo", 1)];
    assert_eq!(
        detect(&candidates(&logged, &[], &recent), &["/root/repo"]).as_deref(),
        Some("/root/repo")
    );
    assert_eq!(detect(&candidates(&[], &[], &[]), &["/root/repo"]), None);
}

#[test]
fn a_newer_hook_record_beats_older_session_logs() {
    let cwd = claude_cwd(b"{\"cwd\":\"/root/logged\"}\n", false);
    let logged = agent_activity(at(cwd, 1_000), Vec::new());
    let repos = ["/root/logged", "/root/hooked"];
    let hook = |at| repo("/root/hooked", at);
    assert_eq!(
        detect(&candidates(&logged, &[hook(2_000)], &[]), &repos).as_deref(),
        Some("/root/hooked")
    );
    assert_eq!(
        detect(&candidates(&logged, &[hook(500)], &[]), &repos).as_deref(),
        Some("/root/logged")
    );
}

#[test]
fn unrecognized_logs_are_skipped() {
    assert_eq!(claude_cwd(b"not json\n{\"cwd\": 5}\n", false), None);
    assert_eq!(codex_cwd(&lines("{\"type\":\"session_meta\"}\n")), None);
    assert!(agent_activity(Vec::new(), Vec::new()).is_empty());
}

#[test]
fn a_tail_that_is_cut_skips_its_first_line() {
    let tail = b"{\"cwd\":\"/cut\"}\n{\"type\":\"x\"}\n";
    assert_eq!(claude_cwd(tail, false).as_deref(), Some("/cut"));
    assert_eq!(claude_cwd(tail, true), None);
    // The last one counts.
    let tail = b"{\"cwd\":\"/one\"}\n{\"cwd\":\"/two\"}\n{\"message\":\"no\"}\n";
    assert_eq!(claude_cwd(tail, false).as_deref(), Some("/two"));
}

#[test]
fn only_the_first_lines_of_a_rollout_count() {
    let late = "{}\n{}\n{}\n{}\n{}\n{\"type\":\"session_meta\",\"payload\":{\"cwd\":\"/w\"}}\n";
    assert_eq!(codex_cwd(&lines(late)), None);
    assert_eq!(codex_cwd(&lines(&late[3..])).as_deref(), Some("/w"));
}

#[test]
fn only_the_newest_logs_are_looked_at() {
    let files = (0..7)
        .map(|i| AgentActivity {
            cwd: vec![b'0' + i],
            at: i128::from(i),
        })
        .collect();
    let newest: Vec<Vec<u8>> = newest_files(files).into_iter().map(|f| f.cwd).collect();
    assert_eq!(newest, vec![b"6", b"5", b"4", b"3", b"2"]);
    assert!(is_jsonl(b"s.jsonl"));
    assert!(!is_jsonl(b"/logs/s.json"));
}

#[test]
fn logs_stand_in_the_agents_directories() {
    let names = Names {
        claude: "first".to_string(),
    };
    let logs = AgentLogs::locations(&names, Some(b"/home/me"), None, Some(b"/set"));
    assert_eq!(
        logs.claude_projects.as_deref(),
        Some(b"/home/me/.first/projects".as_slice())
    );
    assert_eq!(
        logs.codex_sessions.as_deref(),
        Some(b"/set/sessions".as_slice())
    );
}

#[test]
fn only_the_newest_days_are_looked_at() {
    let days = |names: &[&str]| -> Vec<Vec<u8>> {
        names.iter().map(|name| name.as_bytes().to_vec()).collect()
    };
    let mut found = Vec::new();
    assert!(!add_days(&mut found, days(&[])));
    assert!(!add_days(&mut found, days(&["2026/02/01"])));
    assert!(add_days(&mut found, days(&["2026/01/30", "2026/01/31"])));
    assert_eq!(found, days(&["2026/02/01", "2026/01/31"]));
    let mut found = Vec::new();
    assert!(add_days(&mut found, days(&["1", "2", "3"])));
    assert_eq!(found, days(&["3", "2"]));
    assert!(add_days(&mut found, days(&["0"])));
    assert_eq!(found, days(&["3", "2"]));
}

#[test]
fn a_bare_ending_is_no_log() {
    assert!(is_jsonl(b"a.jsonl"));
    assert!(!is_jsonl(b".jsonl"));
}
