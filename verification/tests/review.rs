use std::collections::HashSet;
use std::sync::Arc;

use goro::comments::{Comment, Side};
use goro::diff::{FileDiff, LineKind};
use goro::repo::{ChangeStatus, EntryKind, FileChange, Loaded, Section, Source};
use goro::review::{
    display_line, file_load, highlight_diff, reuse_loads, Content, Dirty, FileLoad, Note, Review,
    Row, Target, TreeRow,
};
use goro::rows::{hunk_hash, line_hash};
use goro::settings::DiffLayout;
use goro::syntax::{Language, Span, Style};

fn change(section: Section, path: &str) -> FileChange {
    FileChange {
        section,
        status: ChangeStatus::Modified,
        path: path.as_bytes().to_vec(),
        old_path: None,
        old: Source::Absent,
        new: Source::Worktree,
    }
}

fn text_load(old: &str, new: &str) -> FileLoad {
    FileLoad {
        content: Content::Loaded(Loaded::Text(Arc::new(FileDiff::compute(
            old.as_bytes().to_vec(),
            new.as_bytes().to_vec(),
            3,
        )))),
        highlights: None,
    }
}

fn root() -> Vec<u8> {
    b"/r".to_vec()
}

#[test]
fn rows_stream_files_hunks_and_lines() {
    let mut review = Review::new(
        root(),
        vec![
            change(Section::Staged, "a.rs"),
            change(Section::Unstaged, "b.rs"),
        ],
    );
    assert_eq!(
        review.rows(),
        &[
            Row::File { file: 0 },
            Row::Note { file: 0, note: Note::Loading },
            Row::File { file: 1 },
            Row::Note { file: 1, note: Note::Loading },
        ]
    );
    review.set_loaded(0, text_load("a\nb\n", "a\nB\n"));
    review.rebuild_rows();
    assert_eq!(
        &review.rows()[..5],
        &[
            Row::File { file: 0 },
            Row::Hunk { file: 0, hunk: 0 },
            Row::Line { file: 0, line: 0 },
            Row::Line { file: 0, line: 1 },
            Row::Line { file: 0, line: 2 },
        ]
    );
    assert_eq!(review.file_row(1), 5);
    assert_eq!(review.next_hunk_row(0), Some(1));
    assert_eq!(review.next_hunk_row(1), None);
    assert_eq!(review.prev_hunk_row(4), Some(1));
    assert_eq!(review.next_file_row(0), Some(5));
    assert_eq!(review.prev_file_row(5), Some(0));
}

#[test]
fn anchors_survive_a_reload() {
    let mut before = Review::new(
        root(),
        vec![
            change(Section::Unstaged, "a.rs"),
            change(Section::Unstaged, "b.rs"),
            change(Section::Unstaged, "c.rs"),
        ],
    );
    for file in 0..3 {
        before.set_loaded(file, text_load("x\ny\nz\n", "x\nY\nz\n"));
    }
    before.rebuild_rows();
    // Row 2 of b.rs (hunk header is 1, first line 2).
    let row = before.file_row(1) + 2;
    let anchor = before.anchor(row).unwrap();

    // b.rs got staged: it now lives in the Staged section; a.rs and c.rs stay.
    let mut after = Review::new(
        root(),
        vec![
            change(Section::Staged, "b.rs"),
            change(Section::Unstaged, "a.rs"),
            change(Section::Unstaged, "c.rs"),
        ],
    );
    for file in 0..3 {
        after.set_loaded(file, text_load("x\ny\nz\n", "x\nY\nz\n"));
    }
    after.rebuild_rows();
    // Gone from Unstaged: land on the next Unstaged file, c.rs.
    assert_eq!(after.resolve(&anchor), after.file_row(2));
    // Still present: same offset within the file.
    let a_anchor = before.anchor(before.file_row(0) + 3).unwrap();
    assert_eq!(after.resolve(&a_anchor), after.file_row(1) + 3);
    // Offsets past the end of a shorter file clamp to its last row.
    let mut far = before.anchor(before.file_row(0) + 3).unwrap();
    far.offset = 999;
    assert_eq!(after.resolve(&far), after.file_row(2) - 1);
}

#[test]
fn action_targets_follow_cursor_and_selection() {
    let mut review = Review::new(root(), vec![change(Section::Unstaged, "a.rs")]);
    let old: String = (1..=20).map(|i| format!("{i}\n")).collect();
    let new = old.replace("2\n", "two\n").replace("15\n", "fifteen\n");
    review.set_loaded(0, text_load(&old, &new));
    review.rebuild_rows();
    let rows = review.rows().to_vec();
    let hunk_rows: Vec<usize> = (0..rows.len())
        .filter(|&r| matches!(rows[r], Row::Hunk { .. }))
        .collect();
    let lines_of = |hunk: usize| -> Vec<usize> {
        let diff = review.files[0].diff().unwrap();
        diff.hunks[hunk].lines.clone().collect()
    };
    // File header: the whole file.
    assert_eq!(review.action_target(0, None), Some((0, Target::WholeFile)));
    // Hunk header, or any line inside a hunk: that hunk.
    assert_eq!(
        review.action_target(hunk_rows[1], None),
        Some((0, Target::Lines(lines_of(1))))
    );
    assert_eq!(
        review.action_target(hunk_rows[0] + 2, None),
        Some((0, Target::Lines(lines_of(0))))
    );
    // A selection: exactly the selected lines, in either direction.
    let (a, b) = (hunk_rows[0] + 2, hunk_rows[0] + 3);
    let expected = |r: usize| match rows[r] {
        Row::Line { line, .. } => line,
        _ => unreachable!(),
    };
    assert_eq!(
        review.action_target(b, Some(a)),
        Some((0, Target::Lines(vec![expected(a), expected(b)])))
    );
    assert_eq!(
        review.action_target(a, Some(b)),
        Some((0, Target::Lines(vec![expected(a), expected(b)])))
    );
    // A selection including the file header is the whole file.
    assert_eq!(review.action_target(a, Some(0)), Some((0, Target::WholeFile)));
    // Past the end there is nothing to act on.
    assert_eq!(review.action_target(rows.len(), None), None);
}

fn blob(n: u8) -> Source {
    Source::Blob { id: vec![n; 20], kind: EntryKind::Blob }
}

fn staged(new: u8) -> FileChange {
    FileChange {
        section: Section::Staged,
        status: ChangeStatus::Modified,
        path: b"s.rs".to_vec(),
        old_path: None,
        old: blob(1),
        new: blob(new),
    }
}

#[test]
fn unchanged_files_are_reused_on_reload() {
    let mut review = Review::new(
        root(),
        vec![
            staged(2),
            change(Section::Unstaged, "a.rs"),
            change(Section::Unstaged, "b.rs"),
        ],
    );
    for file in 0..3 {
        review.set_loaded(file, text_load("x\n", "y\n"));
    }
    let next = vec![
        staged(2),
        staged(3),
        change(Section::Unstaged, "a.rs"),
        change(Section::Unstaged, "b.rs"),
        change(Section::Untracked, "new.rs"),
    ];
    let dirty = Dirty::Paths(vec![b"b.rs".to_vec()]);
    let reused: Vec<bool> = reuse_loads(&review.files, &next, &dirty)
        .iter()
        .map(Option::is_some)
        .collect();
    // Same blobs: reused. New blob id: reload. Clean worktree path: reused.
    // Dirty worktree path: reload. New file: load.
    assert_eq!(reused, [true, false, true, false, false]);
    assert!(
        reuse_loads(&review.files, &next, &Dirty::All)
            .iter()
            .enumerate()
            .all(|(ix, l)| l.is_some() == (ix == 0)),
        "everything touching the worktree reloads when all paths are dirty"
    );
}

fn loaded_review(files: &[(Section, &str, &str, &str)]) -> Review {
    let mut review = Review::new(
        root(),
        files.iter().map(|(s, p, _, _)| change(*s, p)).collect(),
    );
    for (ix, (_, _, old, new)) in files.iter().enumerate() {
        review.set_loaded(ix, text_load(old, new));
    }
    review.rebuild_rows();
    review
}

fn new_line_texts(review: &Review) -> Vec<String> {
    (0..review.rows().len())
        .filter(|&r| review.is_new(r))
        .map(|r| match review.rows()[r] {
            Row::Line { file, line } => {
                let diff = review.files[file].diff().unwrap();
                String::from_utf8_lossy(diff.line_bytes(&diff.lines[line])).into_owned()
            }
            other => panic!("only lines are new: {other:?}"),
        })
        .collect()
}

#[test]
fn lines_changed_after_the_last_look_are_new() {
    let old = "a\nb\nc\nd\ne\nf\ng\nh\n";
    let first = loaded_review(&[(Section::Unstaged, "f.rs", old, &old.replace("b\n", "B\n"))]);
    assert!(
        new_line_texts(&first).is_empty(),
        "no seen state yet: nothing is new"
    );
    let seen = first.snapshot_seen();

    // The agent changes g; b's change was already seen, and it has since been staged.
    let mut next = loaded_review(&[
        (Section::Staged, "f.rs", old, &old.replace("b\n", "B\n")),
        (
            Section::Unstaged,
            "f.rs",
            &old.replace("b\n", "B\n"),
            &old.replace("b\n", "B\n").replace("g\n", "G\n"),
        ),
    ]);
    next.set_seen(Some(seen));
    next.rebuild_rows();
    assert_eq!(new_line_texts(&next), ["g", "G"]);
    let first_new = next.next_new_row(0).unwrap();
    assert_eq!(next.next_new_row(first_new), Some(first_new + 1));
    assert_eq!(next.prev_new_row(first_new + 1), Some(first_new));
    assert_eq!(next.file_new_count(0), 0);
    assert_eq!(next.file_new_count(1), 2);
    assert_eq!(next.new_count(), 2);
    // After another look nothing is new.
    let seen = next.snapshot_seen();
    next.set_seen(Some(seen));
    next.rebuild_rows();
    assert_eq!(next.new_count(), 0);
    assert!(next.seen().unwrap().has_path("f.rs"));
}

#[test]
fn reviewed_hunks_collapse_and_reset_when_their_content_changes() {
    let old: String = (1..=30).map(|i| format!("line {i}\n")).collect();
    let new = old
        .replace("line 3\n", "line three\n")
        .replace("line 25\n", "line twenty-five\n");
    let mut review = loaded_review(&[(Section::Unstaged, "f.rs", &old, &new)]);
    let rows_before = review.rows().len();
    let second_hunk = review
        .next_hunk_row(review.next_hunk_row(0).unwrap())
        .unwrap();
    review.toggle_reviewed(second_hunk);
    assert!(review.hunk_is_reviewed(0, 1));
    assert!(!review.file_is_reviewed(0));
    assert_eq!(review.rows().len(), rows_before - 8, "hunk lines hidden");
    // Reviewing from the file header reviews the rest of the file.
    review.toggle_reviewed(0);
    assert!(review.file_is_reviewed(0));
    let saved = review.reviewed_for_save();
    assert_eq!(saved.len(), 2);

    // The agent edits the second hunk again: it is no longer reviewed.
    let mut edited = loaded_review(&[(
        Section::Unstaged,
        "f.rs",
        &old,
        &new.replace("twenty-five", "25!"),
    )]);
    edited.set_reviewed(saved);
    edited.rebuild_rows();
    assert!(edited.hunk_is_reviewed(0, 0));
    assert!(!edited.hunk_is_reviewed(0, 1));
    assert_eq!(
        edited.reviewed_for_save().len(),
        1,
        "stale marks are pruned"
    );
}

#[test]
fn toggling_reviewed_twice_gives_back_the_rows() {
    let mut review = loaded_review(&[(Section::Unstaged, "f.rs", "a\nb\n", "a\nB\n")]);
    let before = review.rows().to_vec();
    review.toggle_reviewed(2);
    assert_eq!(
        review.rows(),
        &[Row::File { file: 0 }, Row::Hunk { file: 0, hunk: 0 }]
    );
    review.toggle_reviewed(0);
    assert_eq!(review.rows(), &before[..]);
    review.toggle_reviewed(99);
    assert_eq!(review.rows(), &before[..]);
    assert_eq!(review.reviewed_for_save(), HashSet::new());
}

#[test]
fn dirty_sets_merge() {
    let paths = |ps: &[&str]| Dirty::Paths(ps.iter().map(|p| p.as_bytes().to_vec()).collect());
    let mut d = paths(&["a"]);
    d.merge(paths(&["b"]));
    assert_eq!(d, paths(&["a", "b"]));
    d.merge(paths(&["a"]));
    assert_eq!(d, paths(&["a", "b"]));
    d.merge(Dirty::All);
    assert_eq!(d, Dirty::All);
    d.merge(paths(&["c"]));
    assert_eq!(d, Dirty::All);
}

fn comment(id: u64, side: Side, start: u32, end: u32, text: &str) -> Comment {
    Comment {
        id,
        path: "f.rs".into(),
        side,
        start,
        end,
        excerpt: Vec::new(),
        text: text.into(),
    }
}

#[test]
fn comment_rows_follow_their_line() {
    let old: String = (1..=10).map(|i| format!("line {i}\n")).collect();
    let new = old.replace("line 5\n", "line five\n");
    let mut review = loaded_review(&[(Section::Unstaged, "f.rs", &old, &new)]);
    review.set_comments(vec![
        comment(1, Side::New, 5, 5, "first line\nsecond line"),
        comment(2, Side::Old, 5, 5, "on the removal"),
        comment(3, Side::New, 99, 99, "outdated"),
    ]);
    review.rebuild_rows();
    let rows = review.rows();
    let find = |pred: &dyn Fn(&Row) -> bool| rows.iter().position(pred).unwrap();
    let added = find(
        &|r| matches!(r, Row::Line { line, .. } if review.files[0].diff().unwrap().lines[*line].kind == LineKind::Added),
    );
    let removed = find(
        &|r| matches!(r, Row::Line { line, .. } if review.files[0].diff().unwrap().lines[*line].kind == LineKind::Removed),
    );
    assert_eq!(
        rows[removed + 1],
        Row::Comment { file: 0, comment: 1, line: 0 }
    );
    assert_eq!(
        rows[added + 1],
        Row::Comment { file: 0, comment: 0, line: 0 }
    );
    assert_eq!(
        rows[added + 2],
        Row::Comment { file: 0, comment: 0, line: 1 },
        "one row per text line"
    );
    assert_eq!(
        rows[rows.len() - 1],
        Row::Comment { file: 0, comment: 2, line: 0 },
        "unanchored at file end"
    );
    assert_eq!(
        review.action_target(added + 1, None),
        None,
        "actions skip comment rows"
    );
}

#[test]
fn tree_groups_sections_and_compacts_directories() {
    let review = Review::new(
        root(),
        vec![
            change(Section::Staged, "README.md"),
            change(Section::Unstaged, "src/core/a.rs"),
            change(Section::Unstaged, "src/core/b.rs"),
            change(Section::Unstaged, "src/ui/deep/c.rs"),
            change(Section::Unstaged, "z.txt"),
        ],
    );
    let rendered: Vec<String> = review
        .tree()
        .iter()
        .map(|row| match row {
            TreeRow::Section { section, count } => format!("{section:?} ({count})"),
            TreeRow::Dir { depth, name, .. } => format!("{}{name}/", "  ".repeat(*depth)),
            TreeRow::File { depth, name, .. } => format!("{}{name}", "  ".repeat(*depth)),
        })
        .collect();
    assert_eq!(
        rendered,
        vec![
            "Staged (1)",
            "README.md",
            "Unstaged (4)",
            "src/",
            "  core/",
            "    a.rs",
            "    b.rs",
            "  ui/deep/",
            "    c.rs",
            "z.txt",
        ]
    );
}

#[test]
fn collapsing_a_directory_hides_its_children() {
    let mut review = Review::new(
        root(),
        vec![
            change(Section::Unstaged, "src/a.rs"),
            change(Section::Unstaged, "src/b.rs"),
            change(Section::Unstaged, "top.rs"),
        ],
    );
    review.toggle_dir(Section::Unstaged, "src");
    assert_eq!(review.tree().len(), 3, "{:?}", review.tree());
    let mut reloaded = Review::new(
        root(),
        review.files.iter().map(|f| f.change.copy()).collect(),
    );
    reloaded.carry_view_state(&review);
    assert_eq!(
        reloaded.tree(),
        review.tree(),
        "collapsed state survives a reload"
    );
    review.toggle_dir(Section::Unstaged, "src");
    assert_eq!(review.tree().len(), 5);
}

#[test]
fn highlights_keep_only_spans_on_diff_lines() {
    let old: String = (0..1000)
        .map(|i| format!("let x{i} = \"s\"; // c\n"))
        .collect();
    let new = old.replace("let x500 = ", "let changed = ");
    let diff = FileDiff::compute(old.into_bytes(), new.into_bytes(), 3);
    let highlights = highlight_diff(Language::Rust, &diff);
    let shown = |side: LineKind| -> Vec<std::ops::Range<usize>> {
        diff.lines
            .iter()
            .filter(|l| match side {
                LineKind::Removed => l.kind == LineKind::Removed,
                _ => l.kind != LineKind::Removed,
            })
            .map(|l| l.content.clone())
            .collect()
    };
    for (spans, lines) in [
        (&highlights.old, shown(LineKind::Removed)),
        (&highlights.new, shown(LineKind::Added)),
    ] {
        assert!(!spans.is_empty());
        for span in spans {
            assert!(
                lines
                    .iter()
                    .any(|l| span.range.start < l.end && l.start < span.range.end),
                "span {span:?} is not on a diff line"
            );
        }
    }
    // 1 removed line and 7 context/added lines, a handful of spans each.
    assert!(highlights.old.len() < 10, "{}", highlights.old.len());
    assert!(highlights.new.len() < 60, "{}", highlights.new.len());
}

#[test]
fn display_line_expands_tabs_and_remaps_spans() {
    let spans = vec![Span { range: 1..3, style: Style::Keyword }];
    let (text, mapped) = display_line(b"\tfn x", spans);
    assert_eq!(text, "    fn x");
    assert_eq!(mapped, vec![(4..6, Style::Keyword)]);

    let (text, mapped) = display_line(b"ab\tc", Vec::new());
    assert_eq!(text, "ab  c");
    assert!(mapped.is_empty());

    let (text, mapped) = display_line(
        b"\xff\tx",
        vec![Span { range: 0..1, style: Style::String }],
    );
    assert_eq!(text, "\u{fffd}    x");
    assert!(mapped.is_empty());
}

#[test]
fn display_line_maps_offsets_past_wide_characters() {
    let (text, mapped) = display_line(
        "\u{e9}\tz".as_bytes(),
        vec![
            Span { range: 0..2, style: Style::String },
            Span { range: 3..4, style: Style::Number },
        ],
    );
    assert_eq!(text, "\u{e9}   z");
    assert_eq!(mapped, vec![(0..2, Style::String), (5..6, Style::Number)]);
    let (text, mapped) = display_line(b"a b", vec![Span { range: 2..3, style: Style::Tag }]);
    assert_eq!(text, "a b");
    assert_eq!(mapped, vec![(2..3, Style::Tag)]);
}

#[test]
fn split_layout_pairs_removed_and_added_lines() {
    let mut review = loaded_review(&[(Section::Unstaged, "f.rs", "a\nb\nc\n", "a\nB\nx\nc\n")]);
    review.set_layout(DiffLayout::Split);
    review.rebuild_rows();
    assert_eq!(
        review.rows(),
        &[
            Row::File { file: 0 },
            Row::Hunk { file: 0, hunk: 0 },
            Row::Pair { file: 0, old: Some(0), new: Some(0) },
            Row::Pair { file: 0, old: Some(1), new: Some(2) },
            Row::Pair { file: 0, old: None, new: Some(3) },
            Row::Pair { file: 0, old: Some(4), new: Some(4) },
        ]
    );
    assert_eq!(review.action_target(3, Some(4)), Some((0, Target::Lines(vec![1, 2, 3]))));
    assert_eq!(review.action_target(4, None), Some((0, Target::Lines(vec![0, 1, 2, 3, 4]))));
}

#[test]
fn the_widest_row_is_the_last_of_the_longest() {
    let review = loaded_review(&[(Section::Unstaged, "f.rs", "", "abc\nabcd\nwxyz\nq\n")]);
    assert_eq!(review.widest_row(), Some(4));
    assert_eq!(Review::new(root(), Vec::new()).widest_row(), None);
}

#[test]
fn loads_are_highlighted_by_their_path() {
    let rust = change(Section::Unstaged, "a.rs");
    let diff = || Loaded::Text(Arc::new(FileDiff::compute(Vec::new(), b"fn f() {}\n".to_vec(), 3)));
    let load = file_load(&rust, Ok(diff()));
    let highlights = load.highlights.unwrap();
    assert!(highlights.old.is_empty());
    assert_eq!(highlights.new[0].range, 0..2);
    assert_eq!(highlights.new[0].style, Style::Keyword);
    assert!(file_load(&change(Section::Unstaged, "a.unknown"), Ok(diff())).highlights.is_none());
    assert!(file_load(&rust, Ok(Loaded::Submodule)).highlights.is_none());
    let failed = file_load(&rust, Err("gone".to_string()));
    assert!(matches!(failed.content, Content::Failed(m) if m == "gone"));
}

#[test]
fn anchors_of_rows_resolve_to_them() {
    let review = loaded_review(&[
        (Section::Staged, "a.rs", "x\n", "y\n"),
        (Section::Unstaged, "a.rs", "x\n", "z\n"),
    ]);
    for row in 0..review.rows().len() {
        assert_eq!(review.resolve(&review.anchor(row).unwrap()), row);
    }
    assert!(review.anchor(review.rows().len()).is_none());
}

#[test]
fn a_moved_line_is_not_new() {
    let first = loaded_review(&[(Section::Unstaged, "f.rs", "a\nb\nc\n", "a\nX\nb\nc\n")]);
    let mut moved = loaded_review(&[(Section::Unstaged, "f.rs", "a\nb\nc\n", "a\nb\nc\nX\n")]);
    moved.set_seen(Some(first.snapshot_seen()));
    moved.rebuild_rows();
    assert_eq!(new_line_texts(&moved), Vec::<String>::new());
    // The same line of another file was never looked at.
    let mut other = loaded_review(&[(Section::Unstaged, "g.rs", "a\n", "a\nX\n")]);
    other.set_seen(Some(first.snapshot_seen()));
    other.rebuild_rows();
    assert_eq!(new_line_texts(&other), ["X"]);
}

#[test]
fn reviewed_hunks_show_no_pairs_either() {
    let mut review = loaded_review(&[(Section::Unstaged, "f.rs", "a\nb\n", "a\nB\n")]);
    review.set_layout(DiffLayout::Split);
    review.rebuild_rows();
    review.toggle_reviewed(1);
    assert_eq!(
        review.rows(),
        &[Row::File { file: 0 }, Row::Hunk { file: 0, hunk: 0 }]
    );
}

#[test]
fn hunks_are_known_by_their_path_and_changes() {
    let diff = |old: &str, new: &str| {
        FileDiff::compute(old.as_bytes().to_vec(), new.as_bytes().to_vec(), 3)
    };
    let here = hunk_hash(b"f.rs", &diff("a\nb\nc\n", "a\nB\nc\n"), 0);
    // The lines around a change do not matter, nor where it stands.
    let there = hunk_hash(b"f.rs", &diff("x\ny\nz\nb\n", "x\ny\nz\nB\n"), 0);
    assert_eq!(here, there);
    assert_ne!(here, hunk_hash(b"g.rs", &diff("a\nb\nc\n", "a\nB\nc\n"), 0));
    assert_ne!(here, hunk_hash(b"f.rs", &diff("a\nb\nc\n", "a\nBB\nc\n"), 0));
    // A terminator that is gone or another one is an edit, too.
    let ended = hunk_hash(b"f", &diff("a\n", "b\n"), 0);
    assert_ne!(ended, hunk_hash(b"f", &diff("a\n", "b"), 0));
    assert_ne!(ended, hunk_hash(b"f", &diff("a\n", "b\r\n"), 0));
}

#[test]
fn no_line_is_left_out() {
    let old = "a\nb\nc\nd\n";
    let new = "a\nB\nBB\nc\nD\n";
    let mut review = loaded_review(&[(Section::Unstaged, "f.rs", old, new)]);
    for layout in [DiffLayout::Unified, DiffLayout::Split] {
        review.set_layout(layout);
        review.rebuild_rows();
        let diff = review.files[0].diff().unwrap();
        for ix in 0..diff.lines.len() {
            let shown = review.rows().iter().any(|row| match *row {
                Row::Line { line, .. } => line == ix,
                Row::Pair { old, new, .. } => old == Some(ix) || new == Some(ix),
                _ => false,
            });
            assert!(shown, "{layout:?} {ix}");
        }
    }
}

#[test]
fn comments_whose_line_is_gone_stand_at_the_end_of_their_last_file() {
    let mut review = loaded_review(&[
        (Section::Staged, "f.rs", "a\n", "b\n"),
        (Section::Unstaged, "f.rs", "b\n", "c\n"),
        (Section::Unstaged, "g.rs", "b\n", "c\n"),
    ]);
    review.set_comments(vec![comment(7, Side::New, 90, 90, "one\ntwo")]);
    review.rebuild_rows();
    let rows = review.rows();
    let at = review.file_row(2) - 2;
    assert_eq!(rows[at], Row::Comment { file: 1, comment: 0, line: 0 });
    assert_eq!(rows[at + 1], Row::Comment { file: 1, comment: 0, line: 1 });
    let shown = rows.iter().filter(|r| matches!(r, Row::Comment { .. })).count();
    assert_eq!(shown, 2);
}

#[test]
fn the_tree_lists_every_file() {
    let review = loaded_review(&[
        (Section::Staged, "b/x.rs", "a\n", "b\n"),
        (Section::Unstaged, "a/b/c.rs", "a\n", "b\n"),
        (Section::Unstaged, "a/d.rs", "a\n", "b\n"),
        (Section::Unstaged, "z.rs", "a\n", "b\n"),
    ]);
    let listed: Vec<usize> = review
        .tree()
        .iter()
        .filter_map(|row| match row {
            TreeRow::File { file, .. } => Some(*file),
            _ => None,
        })
        .collect();
    assert_eq!(listed, [0, 1, 2, 3]);
}

#[test]
fn line_hashes_tell_kinds_apart() {
    let hashes = [LineKind::Added, LineKind::Removed, LineKind::Context]
        .map(|kind| line_hash(kind, b"same"));
    assert_ne!(hashes[0], hashes[1]);
    assert_ne!(hashes[0], hashes[2]);
    assert_ne!(hashes[1], hashes[2]);
}

#[test]
fn toggling_a_hunk_twice_gives_back_marks_and_rows() {
    let old: String = (1..=30).map(|i| format!("line {i}\n")).collect();
    let new = old.replace("line 3\n", "three\n").replace("line 25\n", "twenty-five\n");
    let mut review = loaded_review(&[(Section::Unstaged, "f.rs", &old, &new)]);
    let before = review.rows().to_vec();
    let second = review.next_hunk_row(review.next_hunk_row(0).unwrap()).unwrap();
    review.toggle_reviewed(second);
    assert!(review.hunk_is_reviewed(0, 1));
    assert_eq!(&review.rows()[..=second], &before[..=second]);
    review.toggle_reviewed(second);
    assert!(!review.hunk_is_reviewed(0, 1));
    assert_eq!(review.rows(), &before[..]);
    review.toggle_reviewed(0);
    assert!(review.file_is_reviewed(0));
    review.toggle_reviewed(0);
    assert!(!review.hunk_is_reviewed(0, 0) && !review.hunk_is_reviewed(0, 1));
}
