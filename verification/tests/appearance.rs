//! How rows, files and lines look.
use std::collections::HashSet;
use std::sync::Arc;

use goro::commit_editor::{to_unix_lines, CommitEditor, LineSelection, TextRun};
use goro::diff::FileDiff;
use goro::diff_rows::{
    action_buttons, badge, header_path, number_cell, row_look, section_label, sticky_header,
    RowLook,
};
use goro::display::display_line;
use goro::git::{finished, Git, GitError};
use goro::labels::{check_mark, draft_title, window_title};
use goro::repo::{ChangeStatus, FileChange, ImageKind, Loaded, Section, Source};
use goro::review::{Content, FileLoad, Review};
use goro::settings::{choose_settings, DiffLayout, Found, ThemeSetting, Using};
use goro::store::{temp_name, RepoState, Seen, Store};
use goro::syntax::{Span, Style};
use goro::theme::{is_dark, Theme};
use goro::view::Op;

fn change(section: Section, path: &str, old_path: Option<&str>) -> FileChange {
    FileChange {
        section,
        status: ChangeStatus::Modified,
        path: path.as_bytes().to_vec(),
        old_path: old_path.map(|p| p.as_bytes().to_vec()),
        old: Source::Absent,
        new: Source::Worktree,
    }
}

fn review(old: &str, new: &str) -> Review {
    let mut review = Review::new(
        b"/r".to_vec(),
        vec![change(Section::Unstaged, "a.rs", None)],
    );
    review.set_loaded(
        0,
        FileLoad {
            content: Content::Loaded(Loaded::Text(Arc::new(FileDiff::compute(
                old.as_bytes().to_vec(),
                new.as_bytes().to_vec(),
                3,
            )))),
            highlights: None,
        },
    );
    review.rebuild_rows();
    review
}

#[test]
fn rows_look_like_a_diff() {
    let review = review("x\ny\n", "x\n\tY\n");
    match row_look(&review, 0) {
        RowLook::File(header) => {
            assert_eq!(header.path, "a.rs");
            assert_eq!(header.section, "unstaged");
            assert!(!header.reviewed);
            assert_eq!(header.buttons.len(), 2);
        }
        other => panic!("expected a file header, got {other:?}"),
    }
    match row_look(&review, 1) {
        RowLook::Hunk { header, .. } => assert_eq!(header, "@@ -1,2 +1,2 @@"),
        other => panic!("expected a hunk header, got {other:?}"),
    }
    match row_look(&review, 3) {
        RowLook::Line { cell, .. } => {
            assert_eq!(cell.old_no, Some(2));
            assert_eq!(cell.new_no, None);
            assert_eq!(cell.text, "y");
        }
        other => panic!("expected a line, got {other:?}"),
    }
    match row_look(&review, 4) {
        RowLook::Line { gutter, cell } => {
            assert_eq!(cell.text, "    Y");
            assert!(gutter.contains('2') && gutter.contains('+'), "{gutter}");
        }
        other => panic!("expected a line, got {other:?}"),
    }
    assert_eq!(sticky_header(&review, 3), Some(0));
}

#[test]
fn pairs_stand_side_by_side() {
    let mut review = review("x\ny\n", "x\nY\n");
    review.set_layout(DiffLayout::Split);
    review.rebuild_rows();
    let last = review.rows().len() - 1;
    match row_look(&review, last) {
        RowLook::Pair { old, new } => {
            assert_eq!(old.unwrap().cell.text, "y");
            assert_eq!(new.unwrap().cell.text, "Y");
        }
        other => panic!("expected a pair, got {other:?}"),
    }
}

#[test]
fn only_worktree_changes_can_be_discarded() {
    let ops = |section| -> Vec<Op> {
        action_buttons(section, "file")
            .iter()
            .map(|b| b.op)
            .collect()
    };
    assert_eq!(ops(Section::Staged), vec![Op::Stage]);
    assert_eq!(ops(Section::Unstaged), vec![Op::Stage, Op::Discard]);
    assert_eq!(ops(Section::Untracked), vec![Op::Stage, Op::Discard]);
    assert_eq!(ops(Section::Snapshot), Vec::<Op>::new());
}

#[test]
fn labels_are_fixed() {
    assert_eq!(section_label(Section::Untracked), "UNTRACKED");
    assert_eq!(badge(ChangeStatus::Renamed), "R");
    assert_eq!(
        header_path(&change(Section::Staged, "new.rs", Some("old.rs"))),
        "old.rs → new.rs"
    );
    assert_eq!(number_cell(Some(12)), "   12");
    assert_eq!(number_cell(None), "     ");
    assert_eq!(window_title("goro"), "goro — Goro");
    assert_eq!(draft_title(false, "a.rs:3"), "New comment on a.rs:3");
    assert_eq!(draft_title(true, "a.rs:3"), "Edit comment on a.rs:3");
    assert_ne!(check_mark(true), check_mark(false));
}

#[test]
fn lines_are_shown_with_tabs_expanded_and_spans_moved() {
    let spans = vec![Span {
        range: 1..3,
        style: Style::Keyword,
    }];
    let (text, styled) = display_line(b"\tfn x", spans);
    assert_eq!(text, "    fn x");
    assert_eq!(styled, vec![(4..6, Style::Keyword)]);
    let spans = vec![Span {
        range: 0..2,
        style: Style::Keyword,
    }];
    // What is not text is shown plain.
    let (text, styled) = display_line(b"fn\xff", spans);
    assert_eq!(text, "fn\u{fffd}");
    assert_eq!(styled, vec![]);
}

#[test]
fn themes_follow_the_setting() {
    assert!(is_dark(ThemeSetting::Dark, false));
    assert!(!is_dark(ThemeSetting::Light, true));
    assert!(is_dark(ThemeSetting::System, true));
    let dark = Theme::for_appearance(true);
    let light = Theme::for_appearance(false);
    assert!(dark.dark && !light.dark);
    assert_ne!(dark.bg, light.bg);
    assert_eq!(dark.status(ChangeStatus::Copied), ("C", dark.renamed));
    assert_eq!(dark.status(ChangeStatus::Added), ("A", dark.added));
    assert_ne!(dark.syntax(Style::Comment), dark.syntax(Style::Keyword));
    assert_eq!(ThemeSetting::default(), ThemeSetting::System);
    assert_eq!(DiffLayout::default(), DiffLayout::Unified);
}

#[test]
fn pasted_text_has_unix_lines() {
    assert_eq!(to_unix_lines("a\r\nb\rc\n"), "a\nb\rc\n");
    let mut editor = CommitEditor::new();
    editor.paste("one\r\ntwo");
    assert_eq!(editor.text(), "one\ntwo");
}

#[test]
fn cutting_removes_the_selection() {
    let mut editor = CommitEditor::new();
    editor.set_text("hello world");
    editor.mouse_down(0, false);
    editor.mouse_move(6);
    editor.mouse_up();
    assert_eq!(editor.copy().as_deref(), Some("hello "));
    assert_eq!(editor.cut().as_deref(), Some("hello "));
    assert_eq!(editor.text(), "world");
    assert_eq!(editor.cut(), None);
}

#[test]
fn composed_text_is_marked() {
    let mut editor = CommitEditor::new();
    editor.set_text("ab");
    editor.mouse_down(2, false);
    editor.mouse_up();
    editor.replace_and_mark_text_in_range(None, "\u{e9}\u{1f600}", Some(3..3));
    assert_eq!(editor.text(), "ab\u{e9}\u{1f600}");
    assert_eq!(editor.marked_text_range(), Some(2..5));
    assert_eq!(editor.selected_text_range(), (5..5, false));
    assert_eq!(
        editor.text_for_range(&(2..3)),
        ("\u{e9}".to_string(), 2..3)
    );
    let plan = editor.plan();
    assert_eq!(plan.lines.len(), 1);
    assert_eq!(
        plan.lines[0].runs,
        vec![
            TextRun {
                len: 2,
                underlined: false
            },
            TextRun {
                len: 6,
                underlined: true
            },
        ]
    );
    editor.unmark_text();
    assert_eq!(editor.marked_text_range(), None);
    editor.replace_text_in_range(Some(0..1), "X");
    assert_eq!(editor.text(), "Xb\u{e9}\u{1f600}");
}

#[test]
fn the_editor_plans_lines_and_selections() {
    let editor = CommitEditor::new();
    let plan = editor.plan();
    assert!(plan.placeholder);
    assert_eq!(plan.height, 3);
    let mut editor = CommitEditor::new();
    editor.set_text("ab\ncd");
    editor.mouse_down(1, false);
    editor.mouse_move(4);
    let plan = editor.plan();
    assert!(!plan.placeholder);
    assert_eq!(plan.lines.len(), 2);
    assert_eq!(
        plan.lines[0].selection,
        Some(LineSelection {
            from: 1,
            to: 2,
            past_end: true
        })
    );
    assert_eq!(
        plan.lines[1].selection,
        Some(LineSelection {
            from: 0,
            to: 1,
            past_end: false
        })
    );
}

#[test]
fn images_are_told_by_extension() {
    assert_eq!(ImageKind::for_path(b"a/b.JPEG"), Some(ImageKind::Jpeg));
    assert_eq!(ImageKind::for_path(b"icon.svg"), None);
    assert_eq!(ImageKind::for_path(b"notes"), None);
}

#[test]
fn git_is_run_in_the_worktree() {
    let git = Git::new(b"/w".to_vec()).with_env(b"K".to_vec(), b"V".to_vec());
    assert_eq!(git.root(), b"/w");
    let run = git.invocation(&[b"status".to_vec()], true);
    assert!(run.args.contains(&b"status".to_vec()));
    let failed = finished(
        &[b"apply".to_vec()],
        false,
        Some(1),
        Vec::new(),
        b"error: no\n".to_vec(),
    );
    match failed {
        Err(GitError::Failed { args, code, message }) => {
            assert_eq!(args, "apply");
            assert_eq!(code, Some(1));
            assert_eq!(message, "error: no");
        }
        other => panic!("expected a failure, got {other:?}"),
    }
    let done = finished(&[], true, Some(0), b"out".to_vec(), Vec::new()).unwrap();
    assert_eq!(done.stdout, b"out");
    assert_eq!(
        GitError::Spawn("not found".to_string()).message(),
        "failed to run git: not found"
    );
}

#[test]
fn states_default_to_nothing_seen() {
    let state = Store::repo_state(None);
    assert!(state.seen.is_none());
    assert_eq!(state.reviewed, HashSet::new());
    let mut seen = Seen::new();
    seen.insert("a.rs", 7);
    seen.insert_path("b.rs");
    let state = Store::repo_state(Some(RepoState {
        seen: Some(seen),
        reviewed: HashSet::from([42]),
        comments: Vec::new(),
    }));
    let seen = state.seen.unwrap();
    assert!(seen.contains("a.rs", 7));
    assert!(!seen.contains("b.rs", 7));
    assert!(seen.has_path("b.rs"));
    assert!(!seen.has_path("c.rs"));
    assert!(state.reviewed.contains(&42));
    assert_ne!(temp_name("recent.json", 7), temp_name("recent.json", 8));
}

#[test]
fn problems_with_the_settings_file_are_told() {
    let path = "/c/settings.json";
    assert_eq!(choose_settings(path, Found::Missing), (Using::Defaults, None));
    assert_eq!(
        choose_settings(path, Found::Parsed { font_size_fits: true }),
        (Using::File, None)
    );
    assert_eq!(
        choose_settings(path, Found::Parsed { font_size_fits: false }),
        (
            Using::DefaultFontSize,
            Some("/c/settings.json: font_size must be between 6 and 48".to_string())
        )
    );
    assert_eq!(
        choose_settings(path, Found::Invalid("eof".to_string())),
        (
            Using::Defaults,
            Some("/c/settings.json is invalid (eof); using defaults".to_string())
        )
    );
    assert_eq!(
        choose_settings(path, Found::Unreadable("denied".to_string())),
        (Using::Defaults, Some("/c/settings.json: denied".to_string()))
    );
}
