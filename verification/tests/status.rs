//! What status reports become, and what is loaded of them.
use goro::repo::{
    convert_index_worktree, convert_tree_index, loaded, plan_blob, plan_worktree, sort_changes,
    BlobPlan, ChangeStatus, EntryKind, EntryStatus, FileChange, ImageKind, IndexChange, Loaded,
    Section, Side, Source, WorktreeEntry, WorktreeItem, WorktreePlan, MAX_DIFF_BYTES,
};

fn id(n: u8) -> Vec<u8> {
    vec![n; 20]
}

fn modified(path: &str, status: EntryStatus) -> WorktreeItem {
    WorktreeItem::Modification {
        path: path.as_bytes().to_vec(),
        id: id(1),
        kind: EntryKind::Blob,
        status,
    }
}

fn contents(path: &str, untracked: bool) -> WorktreeItem {
    WorktreeItem::DirectoryContents {
        path: path.as_bytes().to_vec(),
        untracked,
    }
}

/// What git reports of a worktree with changes of every section, in no order.
fn mixed_changes() -> Vec<FileChange> {
    let mut changes = Vec::new();
    let items = vec![
        contents("u.txt", true),
        modified("c.txt", EntryStatus::Removed),
        modified("a.txt", EntryStatus::Modified),
        contents("debug.log", false),
        contents("sub/dir/x.txt", true),
        modified("b.txt", EntryStatus::Modified),
        modified("e.txt", EntryStatus::NeedsUpdate),
        WorktreeItem::Rewrite,
    ];
    for item in items {
        changes.extend(convert_index_worktree(item));
    }
    changes.push(convert_tree_index(IndexChange::Rewrite {
        old_path: b"old_name.txt".to_vec(),
        old_id: id(2),
        old_kind: EntryKind::Blob,
        path: b"new_name.txt".to_vec(),
        id: id(2),
        kind: EntryKind::Blob,
        is_copy: false,
    }));
    changes.push(convert_tree_index(IndexChange::Deletion {
        path: b"d.txt".to_vec(),
        id: id(3),
        kind: EntryKind::Blob,
    }));
    changes.push(convert_tree_index(IndexChange::Modification {
        path: b"b.txt".to_vec(),
        old_id: id(4),
        old_kind: EntryKind::Blob,
        id: id(5),
        kind: EntryKind::Blob,
    }));
    sort_changes(changes)
}

fn summary(changes: &[FileChange]) -> Vec<(Section, ChangeStatus, String, Option<String>)> {
    changes
        .iter()
        .map(|c| {
            (
                c.section,
                c.status,
                c.path_lossy(),
                c.old_path
                    .as_ref()
                    .map(|p| String::from_utf8(p.clone()).unwrap()),
            )
        })
        .collect()
}

#[test]
fn status_groups_changes_by_section() {
    let changes = mixed_changes();
    let s = |section, status, path: &str, old: Option<&str>| {
        (section, status, path.to_string(), old.map(str::to_string))
    };
    assert_eq!(
        summary(&changes),
        vec![
            s(Section::Staged, ChangeStatus::Modified, "b.txt", None),
            s(Section::Staged, ChangeStatus::Deleted, "d.txt", None),
            s(
                Section::Staged,
                ChangeStatus::Renamed,
                "new_name.txt",
                Some("old_name.txt")
            ),
            s(Section::Unstaged, ChangeStatus::Modified, "a.txt", None),
            s(Section::Unstaged, ChangeStatus::Modified, "b.txt", None),
            s(Section::Unstaged, ChangeStatus::Deleted, "c.txt", None),
            s(Section::Untracked, ChangeStatus::Added, "sub/dir/x.txt", None),
            s(Section::Untracked, ChangeStatus::Added, "u.txt", None),
        ]
    );
}

fn lines(n: usize, tag: &str) -> String {
    (1..=n).map(|i| format!("{tag} line {i}\n")).collect()
}

fn bytes(text: &str) -> Side {
    Side::Bytes(text.as_bytes().to_vec())
}

/// What git holds on each side of a change, and the hunks that `git diff` prints for it.
fn sides_and_hunks(section: Section, path: &str) -> (Side, Side, &'static str) {
    let b = lines(30, "b").replace("b line 2\n", "b line two\n");
    match (section, path) {
        (Section::Staged, "b.txt") => (
            bytes(&lines(30, "b")),
            bytes(&b),
            "@@ -1,5 +1,5 @@\n b line 1\n-b line 2\n+b line two\n b line 3\n b line 4\n b line 5\n",
        ),
        (Section::Staged, "d.txt") => (
            bytes(&lines(5, "d")),
            Side::Absent,
            "@@ -1,5 +0,0 @@\n-d line 1\n-d line 2\n-d line 3\n-d line 4\n-d line 5\n",
        ),
        (Section::Staged, "new_name.txt") => (
            bytes(&lines(40, "rename me")),
            bytes(&lines(40, "rename me")),
            "",
        ),
        (Section::Unstaged, "a.txt") => (
            bytes(&lines(30, "a")),
            bytes(&lines(30, "a").replace("a line 7\n", "a line seven\n")),
            "@@ -4,7 +4,7 @@ a line 3\n a line 4\n a line 5\n a line 6\n-a line 7\n+a line seven\n a line 8\n a line 9\n a line 10\n",
        ),
        (Section::Unstaged, "b.txt") => (
            bytes(&b),
            bytes(&b.replace("b line 29\n", "b line twenty-nine\n")),
            "@@ -26,5 +26,5 @@ b line 25\n b line 26\n b line 27\n b line 28\n-b line 29\n+b line twenty-nine\n b line 30\n",
        ),
        (Section::Unstaged, "c.txt") => (
            bytes(&lines(5, "c")),
            Side::Absent,
            "@@ -1,5 +0,0 @@\n-c line 1\n-c line 2\n-c line 3\n-c line 4\n-c line 5\n",
        ),
        (Section::Untracked, "sub/dir/x.txt") => (
            Side::Absent,
            bytes("nested untracked\n"),
            "@@ -0,0 +1 @@\n+nested untracked\n",
        ),
        (Section::Untracked, "u.txt") => (
            Side::Absent,
            bytes("untracked\n"),
            "@@ -0,0 +1 @@\n+untracked\n",
        ),
        other => panic!("unexpected change {other:?}"),
    }
}

#[test]
fn every_diff_matches_git() {
    for change in &mixed_changes() {
        let path = change.path_lossy();
        let (old, new, hunks) = sides_and_hunks(change.section, &path);
        let Loaded::Text(diff) = loaded(change, old, new) else {
            panic!("expected text diff for {change:?}");
        };
        assert_eq!(
            String::from_utf8(diff.to_unified_hunks()).unwrap(),
            hunks,
            "{:?} {}",
            change.section,
            path
        );
    }
}

fn change_of(path: &str) -> FileChange {
    convert_index_worktree(modified(path, EntryStatus::Modified)).unwrap()
}

#[test]
fn binary_files_are_not_diffed() {
    let loaded = loaded(
        &change_of("img.bin"),
        Side::Bytes(b"\x89PNG\0\0\x01".to_vec()),
        Side::Bytes(b"\x89PNG\0\0\x02\x03".to_vec()),
    );
    assert!(
        matches!(
            loaded,
            Loaded::Binary {
                old_len: 7,
                new_len: 8
            }
        ),
        "{loaded:?}"
    );
}

#[test]
fn symlink_diffs_as_its_target() {
    assert_eq!(plan_worktree(WorktreeEntry::Symlink), WorktreePlan::ReadTarget);
    let Loaded::Text(diff) = loaded(&change_of("link"), bytes("target-a"), bytes("target-b")) else {
        panic!("expected text");
    };
    assert_eq!(
        String::from_utf8(diff.to_unified_hunks()).unwrap(),
        "@@ -1 +1 @@\n-target-a\n\\ No newline at end of file\n+target-b\n\\ No newline at end of file\n"
    );
}

#[test]
fn what_cannot_be_diffed_says_so() {
    let change = change_of("a.txt");
    assert!(matches!(
        loaded(&change, Side::Submodule, Side::Submodule),
        Loaded::Submodule
    ));
    assert!(matches!(
        loaded(&change, Side::Absent, Side::NotAFile),
        Loaded::NotAFile
    ));
    assert!(matches!(
        loaded(&change, bytes("x"), Side::TooLarge(99)),
        Loaded::TooLarge { len: 99 }
    ));
    let conflict = convert_index_worktree(modified("a.txt", EntryStatus::Conflict)).unwrap();
    assert_eq!(conflict.status, ChangeStatus::Conflicted);
    assert!(matches!(
        loaded(&conflict, Side::Absent, Side::Absent),
        Loaded::Conflict
    ));
    match loaded(&change_of("pic.PNG"), bytes("old"), Side::Absent) {
        Loaded::Image { kind, old, new } => {
            assert_eq!(kind, ImageKind::Png);
            assert_eq!(old.unwrap().as_slice(), b"old");
            assert!(new.is_none());
        }
        other => panic!("expected an image, got {other:?}"),
    }
}

#[test]
fn large_objects_are_not_read() {
    assert_eq!(plan_blob(EntryKind::Blob, MAX_DIFF_BYTES), BlobPlan::Read);
    assert_eq!(
        plan_blob(EntryKind::Blob, MAX_DIFF_BYTES + 1),
        BlobPlan::TooLarge {
            len: MAX_DIFF_BYTES + 1
        }
    );
    assert_eq!(plan_blob(EntryKind::Commit, 0), BlobPlan::Submodule);
    assert_eq!(
        plan_worktree(WorktreeEntry::Directory { has_git: true }),
        WorktreePlan::Submodule
    );
    assert_eq!(
        plan_worktree(WorktreeEntry::Directory { has_git: false }),
        WorktreePlan::NotAFile
    );
    assert_eq!(
        plan_worktree(WorktreeEntry::File { len: 10 }),
        WorktreePlan::ReadFile
    );
    assert_eq!(plan_worktree(WorktreeEntry::Other), WorktreePlan::NotAFile);
}

#[test]
fn sources_name_where_a_side_comes_from() {
    let change = change_of("a.txt");
    assert!(matches!(&change.old, Source::Blob { id: blob, kind: EntryKind::Blob } if *blob == id(1)));
    assert!(matches!(change.new, Source::Worktree));
    let added = convert_index_worktree(contents("u.txt", true)).unwrap();
    assert!(matches!(added.old, Source::Absent));
    let lossy = convert_index_worktree(WorktreeItem::DirectoryContents {
        path: b"bad\xffname".to_vec(),
        untracked: true,
    })
    .unwrap();
    assert_eq!(lossy.path_lossy(), "bad\u{fffd}name");
}
