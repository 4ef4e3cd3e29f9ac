use goro::timeline::{
    comparison_trees, mode_bar, prompt_line, step_turn, time_label, timeline, Mode,
};
use goro::turns::{Session, Snapshot, SnapshotMeta, Turn, TurnEvent};

const NOW: u64 = 1_000_000_000;

fn snapshot(tree: &str, event: TurnEvent, at_ms: u64) -> Snapshot {
    Snapshot {
        commit: format!("c{tree}"),
        tree: tree.to_string(),
        meta: SnapshotMeta {
            agent: "codex".to_string(),
            event,
            session_id: "s".to_string(),
            turn_id: None,
            prompt: None,
            at_ms,
        },
    }
}

fn turn(prompt: &str, start: Option<&str>, end: Option<&str>) -> Turn {
    Turn {
        prompt: Some(prompt.to_string()),
        start: start.map(|tree| snapshot(tree, TurnEvent::Start, NOW - 180_000)),
        end: end.map(|tree| snapshot(tree, TurnEvent::End, NOW - 120_000)),
    }
}

fn sessions() -> Vec<Session> {
    vec![Session {
        id: "s".to_string(),
        agent: "codex".to_string(),
        turns: vec![
            turn("first", Some("t1"), Some("t2")),
            turn("second", Some("t3"), None),
        ],
        last_at_ms: NOW - 120_000,
    }]
}

fn at(turn: usize) -> Mode {
    Mode::Turn {
        session: "s".to_string(),
        turn,
    }
}

#[test]
fn times_are_told_in_words() {
    assert_eq!(time_label(NOW, NOW), "just now");
    assert_eq!(time_label(NOW + 5_000, NOW), "just now");
    assert_eq!(time_label(NOW - 59_999, NOW), "just now");
    assert_eq!(time_label(NOW - 60_000, NOW), "1m ago");
    assert_eq!(time_label(NOW - 7_200_000, NOW), "2h ago");
    assert_eq!(time_label(NOW - 3 * 86_400_000, NOW), "3d ago");
}

#[test]
fn prompts_are_cut_to_a_line() {
    assert_eq!(prompt_line("fix it\nplease"), "fix it");
    assert_eq!(prompt_line("  fix it  "), "fix it");
    let long = "x".repeat(81);
    assert_eq!(prompt_line(&long), format!("{}…", "x".repeat(80)));
    assert_eq!(prompt_line(&long[1..]), "x".repeat(80));
}

#[test]
fn turns_are_compared_start_to_end() {
    let sessions = sessions();
    assert_eq!(
        comparison_trees(&at(0), &sessions),
        Ok(Some(("t1".to_string(), Some("t2".to_string()))))
    );
    // A running turn is compared with the worktree.
    assert_eq!(
        comparison_trees(&at(1), &sessions),
        Ok(Some(("t3".to_string(), None)))
    );
    assert_eq!(comparison_trees(&Mode::WorkingTree, &sessions), Ok(None));
    let whole = Mode::Session {
        session: "s".to_string(),
    };
    assert_eq!(
        comparison_trees(&whole, &sessions),
        Ok(Some(("t1".to_string(), None)))
    );
    assert!(comparison_trees(&at(7), &sessions).is_err());
    let gone = Mode::Session {
        session: "gone".to_string(),
    };
    assert!(comparison_trees(&gone, &sessions).is_err());
}

#[test]
fn stepping_back_undoes_stepping() {
    let sessions = sessions();
    let next = step_turn(&at(0), &sessions, true).unwrap();
    assert!(next.same(&at(1)));
    assert!(step_turn(&next, &sessions, false).unwrap().same(&at(0)));
    // There is nothing before the first turn or after the last.
    assert!(step_turn(&at(0), &sessions, false).unwrap().same(&at(0)));
    assert!(step_turn(&at(1), &sessions, true).unwrap().same(&at(1)));
    // From the working tree it goes to the latest turn.
    assert!(step_turn(&Mode::WorkingTree, &sessions, false).unwrap().same(&at(1)));
    assert!(step_turn(&Mode::WorkingTree, &[], false).is_none());
}

#[test]
fn the_timeline_lists_turns_newest_first() {
    let rows = timeline(&sessions(), NOW);
    assert_eq!(rows.len(), 4);
    assert!(rows[0].mode.is_working_tree());
    assert!(matches!(&rows[1].mode, Mode::Session { session } if session == "s"));
    assert!(rows[2].mode.same(&at(1)));
    assert!(rows[3].mode.same(&at(0)));
    assert_eq!(rows[3].item.title, "  Turn 1");
    assert_eq!(rows[3].item.detail, "first");
    assert_eq!(rows[3].item.tag, None);
    assert_eq!(rows[2].item.tag.as_deref(), Some("running"));
}

#[test]
fn the_bar_says_what_is_shown() {
    let sessions = sessions();
    assert_eq!(mode_bar(&Mode::WorkingTree, &sessions, NOW), None);
    let (title, detail) = mode_bar(&at(0), &sessions, NOW).unwrap();
    assert_eq!(title, "Turn 1 of 2 · codex");
    assert!(detail.starts_with("“first” · "), "{detail}");
    let (_, detail) = mode_bar(&at(1), &sessions, NOW).unwrap();
    assert!(detail.ends_with(" · running"), "{detail}");
    let whole = Mode::Session {
        session: "s".to_string(),
    };
    assert_eq!(
        mode_bar(&whole, &sessions, NOW),
        Some((
            "Whole session · 2 turns · codex".to_string(),
            "start of session → now · 2m ago".to_string()
        ))
    );
}
