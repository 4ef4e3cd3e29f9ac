//! The state of a window: moving, reloading, acting and commenting.
use std::sync::Arc;

use goro::diff::FileDiff;
use goro::labels::{
    can_commit, center_message, commit_label, row_flags, status_bar, tree_look, wait_banner,
    TreeLook,
};
use goro::ops::Undo;
use goro::repo::{ChangeStatus, FileChange, Loaded, Section, Source};
use goro::review::{Content, Dirty, FileLoad, Target};
use goro::settings::DiffLayout;
use goro::store::RepoState;
use goro::timeline::Mode;
use goro::turns::{Session, Snapshot, SnapshotMeta, Turn, TurnEvent};
use goro::view::{is_look, Event, GoroView, Motion, Op, Scroll};

fn change(section: Section, path: &str) -> FileChange {
    FileChange {
        section,
        status: ChangeStatus::Modified,
        path: path.as_bytes().to_vec(),
        old_path: None,
        old: Source::Absent,
        new: Source::Worktree,
    }
}

fn text_load(old: &str, new: &str) -> FileLoad {
    FileLoad {
        content: Content::Loaded(Loaded::Text(Arc::new(FileDiff::compute(
            old.as_bytes().to_vec(),
            new.as_bytes().to_vec(),
            3,
        )))),
        highlights: None,
    }
}

/// Two files with one changed line each: rows 0 to 5 and 6 to 11.
fn opened() -> GoroView {
    let mut view = GoroView::new();
    view.apply(
        vec![
            Event::Opened {
                root: b"/r".to_vec(),
                changes: vec![
                    change(Section::Staged, "a.rs"),
                    change(Section::Unstaged, "b.rs"),
                ],
                first: Some(text_load("x\ny\nz\n", "x\nY\nz\n")),
                state: RepoState::default(),
            },
            Event::Loaded(1, text_load("x\ny\nz\n", "x\nQ\nz\n")),
        ],
        0,
    );
    view
}

fn rows(view: &GoroView) -> usize {
    view.review().unwrap().rows().len()
}

#[test]
fn a_window_starts_loading() {
    let view = GoroView::new();
    assert!(view.review().is_none());
    assert_eq!(center_message(&view).as_deref(), Some(""));
    assert_eq!(view.staged_count(), 0);
    assert!(!view.is_busy());
}

#[test]
fn what_could_not_be_opened_says_so() {
    let mut view = GoroView::new();
    view.apply(vec![Event::Failed("broken".to_string())], 0);
    assert_eq!(center_message(&view).as_deref(), Some("broken"));
    let mut view = GoroView::new();
    view.apply(vec![Event::NoRepository], 0);
    assert!(center_message(&view).is_some());
    assert!(view.state_to_save().is_none());
}

#[test]
fn moving_stays_within_the_rows() {
    let mut view = opened();
    assert_eq!(rows(&view), 12);
    assert_eq!(view.cursor(), 0);
    view.go(Motion::Up);
    assert_eq!(view.cursor(), 0);
    assert_eq!(view.go(Motion::Down), Some((1, Scroll::Nearest)));
    assert_eq!(view.go(Motion::Up), Some((0, Scroll::Nearest)));
    view.go(Motion::NextHunk);
    assert_eq!(view.cursor(), 1);
    view.go(Motion::NextFile);
    assert_eq!(view.cursor(), 6);
    view.go(Motion::PrevHunk);
    assert_eq!(view.cursor(), 1);
    for _ in 0..40 {
        view.go(Motion::Down);
    }
    assert_eq!(view.cursor(), 11);
    view.set_cursor(3);
    assert_eq!(view.cursor(), 3);
}

#[test]
fn selecting_marks_the_rows_between() {
    let mut view = opened();
    view.set_cursor(2);
    view.go(Motion::SelectDown);
    view.go(Motion::SelectDown);
    let flags: Vec<bool> = (0..6).map(|ix| row_flags(&view, ix).is_selected).collect();
    assert_eq!(flags, vec![false, false, true, true, true, false]);
    assert!(row_flags(&view, 4).is_cursor);
    view.clear_selection();
    assert!(!row_flags(&view, 3).is_selected);
    view.click_row(5, true);
    assert!(row_flags(&view, 4).is_selected);
}

#[test]
fn reloads_wait_for_each_other() {
    let mut view = opened();
    let plan = view
        .request_reload(Dirty::Paths(vec![b"a.rs".to_vec()]))
        .unwrap();
    assert_eq!(plan.dirty, Dirty::Paths(vec![b"a.rs".to_vec()]));
    assert!(plan.trees.is_none());
    // While one is in flight the next ones are collected.
    assert!(view
        .request_reload(Dirty::Paths(vec![b"b.rs".to_vec()]))
        .is_none());
    assert!(view
        .request_reload(Dirty::Paths(vec![b"c.rs".to_vec()]))
        .is_none());
    let (_, next) = view.reload_done(
        Ok((
            b"/r".to_vec(),
            vec![change(Section::Unstaged, "b.rs")],
            vec![text_load("x\ny\nz\n", "x\nQ\nz\n")],
        )),
        0,
    );
    match next.unwrap().dirty {
        Dirty::Paths(mut paths) => {
            paths.sort();
            assert_eq!(paths, vec![b"b.rs".to_vec(), b"c.rs".to_vec()]);
        }
        Dirty::All => panic!("expected the collected paths"),
    }
    assert_eq!(rows(&view), 6);
    let (_, next) = view.reload_done(Err("no".to_string()), 0);
    assert!(next.is_none());
    assert_eq!(view.status_text(), Some(("no", true)));
    // The review stays.
    assert_eq!(rows(&view), 6);
}

#[test]
fn a_reload_keeps_the_cursor_on_its_row() {
    let mut view = opened();
    view.set_cursor(8);
    view.replace_review(
        b"/r".to_vec(),
        vec![
            change(Section::Staged, "a.rs"),
            change(Section::Unstaged, "a2.rs"),
            change(Section::Unstaged, "b.rs"),
        ],
        vec![
            text_load("x\ny\nz\n", "x\nY\nz\n"),
            text_load("x\ny\nz\n", "x\nY\nz\n"),
            text_load("x\ny\nz\n", "x\nQ\nz\n"),
        ],
        0,
    );
    assert_eq!(view.cursor(), 14);
}

#[test]
fn staging_takes_one_action_at_a_time() {
    let mut view = opened();
    view.set_cursor(9);
    let plan = view.begin_op(Op::Stage, false).unwrap();
    assert_eq!(plan.file, 1);
    assert!(!plan.staged);
    assert!(matches!(plan.target, Target::Lines(_)));
    assert!(view.is_busy());
    assert!(view.begin_op(Op::Stage, false).is_none());
    assert!(view.begin_undo().is_none());
    let undo = Undo {
        description: "stage".to_string(),
        index: Vec::new(),
        worktree: Vec::new(),
    };
    let reload = view.op_done(plan, Ok(undo));
    assert!(reload.is_some());
    assert!(!view.is_busy());
    let (text, is_error) = view.status_text().unwrap();
    assert!(text.starts_with("Staged "), "{text}");
    assert!(text.ends_with("  (u to undo)"), "{text}");
    assert!(!is_error);

    let undo = view.begin_undo().unwrap();
    assert_eq!(undo.description, "stage");
    let reload = view.undo_done(&undo, Err("changed since".to_string()));
    assert_eq!(view.status_text(), Some(("changed since", true)));
    assert!(reload.is_none(), "the reload of the stage still runs");
    assert!(view.begin_undo().is_none());
}

#[test]
fn unstaging_and_discarding_say_so() {
    let mut view = opened();
    view.set_cursor(0);
    let plan = view.begin_op(Op::Stage, true).unwrap();
    assert!(plan.staged);
    assert_eq!(plan.target, Target::WholeFile);
    let reload = view.op_done(plan, Err("failed".to_string()));
    assert!(reload.is_some(), "what is shown may be out of date");
    assert_eq!(view.status_text(), Some(("failed", true)));
    assert!(!view.is_busy());
}

#[test]
fn commits_need_something_staged() {
    let mut view = opened();
    assert_eq!(view.staged_count(), 1);
    assert_eq!(commit_label(false, 1), "Commit 1 file");
    assert!(can_commit(false, 1, false));
    assert!(!can_commit(false, 0, false));
    assert!(can_commit(false, 0, true));
    assert!(!can_commit(true, 1, false));
    view.toggle_signoff();
    assert!(view.toggle_amend(true));
    let options = view.begin_commit().unwrap();
    assert!(options.amend && options.signoff);
    let reload = view.commit_done(Ok("abc".to_string()));
    assert!(reload.is_some());
    assert!(!view.is_busy());
}

#[test]
fn comments_are_written_edited_and_sent() {
    let mut view = opened();
    view.set_cursor(3);
    assert!(view.add_comment());
    view.save_comment("  not good  ", 0);
    let comments = view.review().unwrap().comments();
    assert_eq!(comments.len(), 1);
    assert_eq!(comments[0].text, "not good");
    assert_eq!(comments[0].path, "a.rs");
    assert_eq!(rows(&view), 13);
    let copied = view.copy_comments().unwrap();
    assert!(copied.contains("not good"), "{copied}");
    // The comment stands below its line.
    view.set_cursor(4);
    assert_eq!(view.edit_comment().as_deref(), Some("not good"));
    view.save_comment("better", 0);
    assert_eq!(view.review().unwrap().comments()[0].text, "better");
    let banner = wait_banner(&view, true).unwrap();
    assert!(banner.contains("1 comment"), "{banner}");
    assert!(wait_banner(&view, false).is_none());
    let (markdown, _) = view.send_review(1, 0).unwrap();
    assert!(markdown.contains("better"));
    assert_eq!(view.review().unwrap().comments().len(), 0);
}

#[test]
fn comments_can_be_dropped() {
    let mut view = opened();
    view.set_cursor(3);
    assert!(view.add_comment());
    view.cancel_comment();
    assert_eq!(view.review().unwrap().comments().len(), 0);
    assert!(view.add_comment());
    view.save_comment("gone soon", 0);
    view.set_cursor(4);
    assert!(view.delete_comment_at_cursor(0).is_some());
    assert_eq!(view.review().unwrap().comments().len(), 0);
    assert!(view.delete_comment_at_cursor(0).is_none());
    assert!(GoroView::new().copy_comments().is_none());
}

#[test]
fn nothing_is_new_after_marking_seen() {
    let mut view = opened();
    view.mark_seen_action(0);
    assert_eq!(view.review().unwrap().new_count(), 0);
    view.replace_review(
        b"/r".to_vec(),
        vec![change(Section::Unstaged, "b.rs")],
        vec![text_load("x\ny\nz\n", "x\nQ\nfresh\nz\n")],
        0,
    );
    assert_eq!(view.review().unwrap().new_count(), 1);
    assert_eq!(
        status_bar(&view).new_lines.as_deref(),
        Some("● 1 new since last look (tab)")
    );
    assert!(view.go(Motion::NextNew).is_some());
    assert!(row_flags(&view, view.cursor()).is_new);
    let state = view.state_to_save().unwrap();
    assert!(state.seen.is_some());
}

#[test]
fn a_glance_is_no_look() {
    assert!(!is_look(None));
    assert!(!is_look(Some(999)));
    assert!(is_look(Some(1000)));
}

#[test]
fn reviewed_hunks_fold() {
    let mut view = opened();
    view.set_cursor(0);
    let aftermath = view.toggle_reviewed(0);
    assert!(aftermath.save);
    assert!(view.review().unwrap().file_is_reviewed(0));
    assert!(rows(&view) < 12);
    view.set_cursor(0);
    view.toggle_reviewed(0);
    assert!(!view.review().unwrap().file_is_reviewed(0));
    assert_eq!(rows(&view), 12);
}

#[test]
fn the_tree_names_files_and_sections() {
    let view = opened();
    let review = view.review().unwrap();
    let looks: Vec<TreeLook> = review
        .tree()
        .iter()
        .map(|row| tree_look(review, row, true))
        .collect();
    assert_eq!(looks.len(), 4);
    assert_eq!(looks[0], TreeLook::Section("STAGED (1)".to_string()));
    match &looks[1] {
        TreeLook::File { name, file, .. } => {
            assert_eq!(name, "a.rs");
            assert_eq!(*file, 0);
        }
        other => panic!("expected a file, got {other:?}"),
    }
}

#[test]
fn an_old_status_leaves_a_newer_one() {
    let mut view = GoroView::new();
    let first = view.set_status("one".to_string(), false);
    let second = view.set_status("two".to_string(), true);
    view.expire_status(first);
    assert_eq!(view.status_text(), Some(("two", true)));
    view.expire_status(second);
    assert_eq!(view.status_text(), None);
}

fn snapshot(tree: &str, event: TurnEvent, at_ms: u64) -> Snapshot {
    Snapshot {
        commit: format!("c{tree}"),
        tree: tree.to_string(),
        meta: SnapshotMeta {
            agent: "codex".to_string(),
            event,
            session_id: "s".to_string(),
            turn_id: None,
            prompt: None,
            at_ms,
        },
    }
}

fn session() -> Session {
    Session {
        id: "s".to_string(),
        agent: "codex".to_string(),
        turns: vec![Turn {
            prompt: Some("do it".to_string()),
            start: Some(snapshot("t1", TurnEvent::Start, 1)),
            end: Some(snapshot("t2", TurnEvent::End, 2)),
        }],
        last_at_ms: 2,
    }
}

#[test]
fn turns_compare_their_snapshots() {
    let mut view = opened();
    assert_eq!(view.session_count(), 0);
    view.sessions_loaded(vec![session()]);
    assert_eq!(view.session_count(), 1);
    let (changed, plan) = view.set_mode(Mode::Turn {
        session: "s".to_string(),
        turn: 0,
    });
    assert!(changed);
    assert_eq!(
        plan.unwrap().trees,
        Some(("t1".to_string(), Some("t2".to_string())))
    );
    assert!(!view.mode().is_working_tree());
    // Nothing can be staged in a turn's snapshots, and nothing is new there.
    assert!(status_bar(&view).new_lines.is_none());
}

#[test]
fn the_layout_can_be_changed() {
    let mut view = opened();
    view.set_cursor(6);
    assert_eq!(rows(&view), 12);
    view.set_layout(DiffLayout::Split, 0);
    // A removed and an added line share a row.
    assert_eq!(rows(&view), 10);
    assert_eq!(view.cursor(), 5, "the cursor stays on its file");
    view.set_layout(DiffLayout::Unified, 0);
    assert_eq!(rows(&view), 12);
    assert_eq!(GoroView::new().set_layout(DiffLayout::Split, 0), None);
}

#[test]
fn pairs_are_commented_on_and_marked_like_lines() {
    let mut view = opened();
    view.set_layout(DiffLayout::Split, 0);
    // Header, hunk, x, then y beside Y.
    view.set_cursor(3);
    assert!(view.add_comment());
    view.save_comment("why?", 0);
    let comments = view.review().unwrap().comments();
    assert_eq!(comments.len(), 1);
    assert_eq!(comments[0].excerpt, ["-y", "+Y"]);
    view.set_cursor(3);
    view.toggle_reviewed(0);
    assert!(view.review().unwrap().hunk_is_reviewed(0, 0));
    assert_eq!(view.cursor(), 1, "on the header of the collapsed hunk");
}
