use goro::hooks::{
    hook_command, installed, is_goro_command, plan_config, plan_install, plan_uninstall,
    shell_quote, snapshot_meta, Agent, FileEdit, FoundFile, HookFiles, HookPayload, Names,
    Problem,
};
use goro::json::{parse, print, Json};
use goro::launch::{needs_codex_trust, status_line};
use goro::turns::TurnEvent;
use serde_json::Value;

#[derive(Debug, Clone, Copy)]
enum Known {
    Claude,
}

fn names() -> Names {
    Names {
        claude: format!("{:?}", Known::Claude).to_lowercase(),
    }
}

fn claude() -> Agent {
    Agent::Claude(names().claude)
}

/// The text of each agent's configuration file, where it has one.
struct Configs {
    claude: Option<String>,
    codex: Option<String>,
}

impl Configs {
    fn found(&self) -> Vec<FoundFile> {
        vec![
            FoundFile {
                agent: claude(),
                path: b"/c/settings.json".to_vec(),
                text: Ok(self.claude.clone()),
            },
            FoundFile {
                agent: Agent::Codex,
                path: b"/x/hooks.json".to_vec(),
                text: Ok(self.codex.clone()),
            },
        ]
    }

    fn apply(&mut self, edits: &[FileEdit]) {
        for edit in edits {
            if edit.path == b"/c/settings.json" {
                self.claude = Some(edit.after.clone());
            } else {
                self.codex = Some(edit.after.clone());
            }
        }
    }

    fn claude(&self) -> Value {
        serde_json::from_str(self.claude.as_ref().unwrap()).unwrap()
    }

    fn codex(&self) -> Value {
        serde_json::from_str(self.codex.as_ref().unwrap()).unwrap()
    }
}

fn existing() -> Configs {
    Configs {
        claude: Some(EXISTING.to_string()),
        codex: None,
    }
}

const EXISTING: &str = r#"{
  "theme": "dark",
  "hooks": {
    "SessionStart": [
      { "matcher": "*", "hooks": [{ "type": "command", "command": "bash other.sh", "timeout": 10 }] }
    ],
    "Stop": [
      { "hooks": [{ "type": "command", "command": "notify-me" }] }
    ]
  },
  "zebra": 1
}
"#;

#[test]
fn install_keeps_other_settings_and_hooks_and_is_idempotent() {
    let name = names().claude;
    let mut files = existing();
    let goro = "/Applications/Goro.app/Contents/MacOS/goro";

    let edits = plan_install(files.found(), goro, false).unwrap();
    assert_eq!(edits.len(), 2, "both agents");
    files.apply(&edits);
    let claude = files.claude();
    assert_eq!(claude["theme"], "dark");
    assert_eq!(
        claude["hooks"]["SessionStart"][0]["hooks"][0]["command"],
        "bash other.sh"
    );
    assert_eq!(
        claude["hooks"]["Stop"][0]["hooks"][0]["command"],
        "notify-me"
    );
    assert_eq!(
        claude["hooks"]["Stop"][1]["hooks"][0]["command"],
        format!("/Applications/Goro.app/Contents/MacOS/goro hook {name} stop")
    );
    assert_eq!(
        claude["hooks"]["UserPromptSubmit"][0]["hooks"][0]["command"],
        format!("/Applications/Goro.app/Contents/MacOS/goro hook {name} prompt")
    );
    // Key order of the user's file is preserved.
    let text = files.claude.clone().unwrap();
    assert!(text.find("\"theme\"").unwrap() < text.find("\"zebra\"").unwrap());
    assert!(installed(&files.found()).iter().all(|(_, ok)| *ok));

    // Reinstalling (even from a moved binary) replaces rather than duplicates.
    let again = plan_install(files.found(), "/usr/local/bin/goro", false).unwrap();
    files.apply(&again);
    let claude = files.claude();
    assert_eq!(claude["hooks"]["Stop"].as_array().unwrap().len(), 2);
    assert_eq!(
        claude["hooks"]["Stop"][1]["hooks"][0]["command"],
        format!("/usr/local/bin/goro hook {name} stop")
    );
    assert!(!plan_install(files.found(), "/usr/local/bin/goro", false)
        .unwrap()
        .iter()
        .any(FileEdit::changes_something));
}

#[test]
fn uninstall_restores_other_hooks_only() {
    let mut files = existing();
    let edits = plan_install(files.found(), "/bin/goro", false).unwrap();
    files.apply(&edits);
    let edits = plan_uninstall(files.found()).unwrap();
    files.apply(&edits);
    let original: Value = serde_json::from_str(EXISTING).unwrap();
    assert_eq!(files.claude(), original);
    assert_eq!(
        files.codex(),
        Value::Object(serde_json::Map::new()),
        "a file Goro created ends up empty, not deleted"
    );
    assert!(installed(&files.found()).iter().all(|(_, ok)| !*ok));
}

#[test]
fn invalid_config_is_left_alone() {
    let files = Configs {
        claude: Some("{ oops".to_string()),
        codex: None,
    };
    let err = plan_install(files.found(), "/bin/goro", false).unwrap_err();
    assert!(err.contains("not valid JSON"), "{err}");
}

#[test]
fn commands_quote_unusual_paths() {
    let goro = "/Users/me/My Apps/goro";
    assert_eq!(
        hook_command(goro, &Agent::Codex, "prompt", true),
        "\"/Users/me/My Apps/goro\" hook codex prompt"
    );
    assert_eq!(
        hook_command(goro, &Agent::Codex, "prompt", false),
        "'/Users/me/My Apps/goro' hook codex prompt"
    );
}

#[test]
fn quoting_leaves_plain_words_alone() {
    assert_eq!(shell_quote("/usr/bin/goro", false), "/usr/bin/goro");
    assert_eq!(shell_quote("it's", false), "'it'\\''s'");
    assert_eq!(shell_quote("C:\\Program Files\\goro.exe", true), "\"C:\\Program Files\\goro.exe\"");
}

#[test]
fn only_goro_commands_are_recognised() {
    let codex = Agent::Codex;
    assert!(is_goro_command("/bin/goro hook codex stop", &codex));
    assert!(is_goro_command("'/My Apps/goro' hook codex prompt", &codex));
    assert!(!is_goro_command("/bin/goro hook codex stop", &claude()));
    assert!(!is_goro_command("/bin/other hook codex stop", &codex));
    assert!(!is_goro_command("notify-me", &codex));
}

#[test]
fn uninstalling_leaves_a_missing_file_missing() {
    let files = Configs {
        claude: None,
        codex: None,
    };
    assert_eq!(plan_uninstall(files.found()).unwrap().len(), 0);
    assert!(installed(&files.found()).iter().all(|(_, ok)| !*ok));
}

#[test]
fn unexpected_shapes_are_refused() {
    let codex = Agent::Codex;
    let list = parse("[1]").unwrap();
    assert_eq!(
        plan_config(list, &codex, &None, &None).unwrap_err(),
        Problem::NotAnObject
    );
    let odd = parse("{\"hooks\": 3}").unwrap();
    assert_eq!(
        plan_config(odd, &codex, &Some("goro hook codex prompt".into()), &None).unwrap_err(),
        Problem::HooksNotAnObject
    );
    let files = Configs {
        claude: None,
        codex: Some("[]".to_string()),
    };
    assert!(plan_install(files.found(), "/bin/goro", false).is_err());
    let unreadable = vec![FoundFile {
        agent: Agent::Codex,
        path: b"/x/hooks.json".to_vec(),
        text: Err("denied".to_string()),
    }];
    assert!(plan_install(unreadable, "/bin/goro", false).is_err());
}

#[test]
fn json_is_read_and_printed_in_order() {
    let json = parse("{\"b\": [1, true, null], \"a\": \"\\u00e9\"}").unwrap();
    match &json {
        Json::Object(members) => {
            assert_eq!(members.len(), 2);
            assert_eq!(members[0].name, "b");
            assert!(matches!(&members[1].value, Json::Text(text) if text == "é"));
        }
        other => panic!("expected an object, got {other:?}"),
    }
    assert_eq!(
        print(json),
        "{\n  \"b\": [\n    1,\n    true,\n    null\n  ],\n  \"a\": \"é\"\n}"
    );
    assert!(parse("{").is_err());
}

#[test]
fn agents_are_found_by_name() {
    assert_eq!(Agent::parse(&names(), "codex"), Some(Agent::Codex));
    assert_eq!(Agent::parse(&names(), &names().claude), Some(claude()));
    assert_eq!(Agent::parse(&names(), "nobody"), None);
    assert_eq!(status_line(&Agent::Codex, true), "codex   installed");
    assert_eq!(status_line(&Agent::Codex, false), "codex   not installed");
}

#[test]
fn configurations_stand_in_the_agents_directories() {
    let names = names();
    let files = HookFiles::locations(&names, Some(b"/home/me"), None, None);
    assert_eq!(
        files.claude_settings,
        Some(format!("/home/me/.{}/settings.json", names.claude).into_bytes())
    );
    assert_eq!(files.codex_hooks, Some(b"/home/me/.codex/hooks.json".to_vec()));
    assert_eq!(files.files(&names).len(), 2);
    let files = HookFiles::locations(&names, None, None, Some(b"/set"));
    assert_eq!(files.claude_settings, None);
    assert_eq!(files.codex_hooks, Some(b"/set/hooks.json".to_vec()));
    assert_eq!(
        files.files(&names),
        vec![(Agent::Codex, b"/set/hooks.json".to_vec())]
    );
}

#[test]
fn trust_is_asked_for_after_installing_into_codex() {
    let mut files = existing();
    let edits = plan_install(files.found(), "/bin/goro", false).unwrap();
    assert!(needs_codex_trust(true, &edits));
    assert!(!needs_codex_trust(false, &edits));
    files.apply(&edits);
    let edits = plan_install(files.found(), "/bin/goro", false).unwrap();
    assert!(!needs_codex_trust(true, &edits));
}

#[test]
fn metadata_comes_from_the_payload() {
    let payload = HookPayload {
        session_id: "s".into(),
        cwd: "/w".into(),
        prompt: Some("fix it".into()),
        turn_id: Some("t9".into()),
    };
    let meta = snapshot_meta(&Agent::Codex, TurnEvent::Start, &payload, 12);
    assert_eq!(meta.agent, "codex");
    assert_eq!(meta.session_id, "s");
    assert_eq!(meta.turn_id.as_deref(), Some("t9"));
    assert_eq!(meta.prompt.as_deref(), Some("fix it"));
    assert_eq!(meta.at_ms, 12);
}

/// What installing Goro's hooks, and then removing them, makes of a configuration.
fn installed_and_removed(config: &str) -> (String, String) {
    let mut files = Configs {
        claude: None,
        codex: Some(config.to_string()),
    };
    let edits = plan_install(files.found(), "/bin/goro", false).unwrap();
    files.apply(&edits);
    let installed = files.codex.clone().unwrap();
    let edits = plan_uninstall(files.found()).unwrap();
    files.apply(&edits);
    (installed, files.codex.unwrap())
}

fn same_json(a: &str, b: &str) -> bool {
    let read = |text: &str| serde_json::from_str::<Value>(text).unwrap();
    // Printed, so that the order of the keys counts.
    read(a).to_string() == read(b).to_string()
}

#[test]
fn groups_that_were_empty_before_are_kept() {
    let config = r#"{"hooks":{"Stop":[{"matcher":"x","hooks":[]}]}}"#;
    let (installed, removed) = installed_and_removed(config);
    let value: Value = serde_json::from_str(&installed).unwrap();
    assert_eq!(value["hooks"]["Stop"][0]["matcher"], "x");
    assert_eq!(value["hooks"]["Stop"].as_array().unwrap().len(), 2);
    assert!(same_json(&removed, config), "{removed}");
}

#[test]
fn uninstalling_restores_every_key_in_its_place() {
    for config in [
        "{}",
        r#"{"a":1,"hooks":{"X":[],"Stop":[{"hooks":[{"command":"c"}]}],"Y":[]},"b":2,"c":3}"#,
        r#"{"hooks":{"UserPromptSubmit":"odd","Z":1}}"#,
        r#"{"z":1,"y":2}"#,
    ] {
        let (_, removed) = installed_and_removed(config);
        assert!(same_json(&removed, config), "{config} {removed}");
    }
}

#[test]
fn installing_over_other_hooks_keeps_their_order() {
    let config = r#"{"hooks":{"Stop":[],"X":[1],"Y":[2]},"last":1}"#;
    let (installed, _) = installed_and_removed(config);
    let at = |key: &str| installed.find(key).unwrap();
    assert!(at("\"Stop\"") < at("\"X\"") && at("\"X\"") < at("\"Y\""));
    // Goro's own entries in front of others stay there, too.
    let (again, _) = installed_and_removed(&installed);
    assert_eq!(again, installed);
    let moved = installed.replace("/bin/goro", "/opt/goro");
    let (again, _) = installed_and_removed(&moved);
    assert_eq!(again, installed);
}

#[test]
fn printed_json_reads_back() {
    let deep = format!("{}{}", "[".repeat(127), "]".repeat(127));
    let plain = r#"{"b":[0,-1,-9223372036854775808,18446744073709551615,{}],"a":"\"é\n\u0001","":[[],null,true]}"#;
    for text in [plain, "[]", "7", deep.as_str()] {
        let printed = print(parse(text).unwrap());
        assert!(!printed.starts_with(char::is_whitespace));
        let again = print(parse(&format!("{printed}\n")).unwrap());
        assert_eq!(again, printed);
        assert!(same_json(&printed, text));
    }
    assert!(parse(&format!("[{deep}]")).is_err());
}

#[test]
fn negative_numbers_survive_installing_and_removing() {
    let config = r#"{"a":-1,"hooks":{"Stop":[{"hooks":[{"command":"c","timeout":-20}]}]}}"#;
    let (installed, removed) = installed_and_removed(config);
    let (again, _) = installed_and_removed(&installed);
    assert_eq!(again, installed);
    assert!(same_json(&removed, config), "{removed}");
}
