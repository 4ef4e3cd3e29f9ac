use goro::diff::{FileDiff, LineKind};
use goro::patch::{build, quote_path, Direction, Header, PatchError};

#[test]
fn quotes_special_paths_like_git() {
    assert_eq!(quote_path(b"a/", b"src/x.rs"), b"a/src/x.rs");
    assert_eq!(quote_path(b"a/", b"my file"), b"a/my file");
    assert_eq!(
        quote_path(b"b/", "caf\u{e9}\".txt".as_bytes()),
        b"\"b/caf\\303\\251\\\".txt\""
    );
    assert_eq!(quote_path(b"a/", b"t\tn\nb\\"), b"\"a/t\\tn\\nb\\\\\"");
}

#[test]
fn nothing_selected_is_no_patch() {
    let diff = FileDiff::compute(b"a\n".to_vec(), b"b\n".to_vec(), 3);
    let patch = build(b"f", &diff, |_| false, Direction::Forward, Header::Modify);
    assert_eq!(patch, Ok(None));
}

fn text(patch: Result<Option<Vec<u8>>, PatchError>) -> String {
    String::from_utf8(patch.unwrap().unwrap()).unwrap()
}

#[test]
fn forward_patches_keep_unselected_removals() {
    let diff = FileDiff::compute(b"a\nb\nc\n".to_vec(), b"a\nB\nc\n".to_vec(), 3);
    let added = diff.lines.iter().position(|l| l.kind == LineKind::Added).unwrap();
    assert_eq!(
        text(build(b"f", &diff, |ix| ix == added, Direction::Forward, Header::Modify)),
        "diff --git a/f b/f\n--- a/f\n+++ b/f\n@@ -1,3 +1,4 @@\n a\n b\n+B\n c\n"
    );
    assert_eq!(
        text(build(b"f", &diff, |ix| ix == added, Direction::Reverse, Header::Modify)),
        "diff --git a/f b/f\n--- a/f\n+++ b/f\n@@ -1,2 +1,3 @@\n a\n+B\n c\n"
    );
}

#[test]
fn later_hunks_are_moved_by_earlier_ones() {
    let old: String = (1..=30).map(|i| format!("{i}\n")).collect();
    let new = old.replace("\n3\n", "\n3\nx\n").replace("\n25\n", "\n25\ny\n");
    let diff = FileDiff::compute(old.into_bytes(), new.into_bytes(), 3);
    assert_eq!(diff.hunks.len(), 2);
    let all = text(build(b"f", &diff, |_| true, Direction::Forward, Header::Modify));
    assert!(all.contains("@@ -1,6 +1,7 @@\n"), "{all}");
    assert!(all.contains("@@ -23,6 +24,7 @@\n"), "{all}");
    let second = diff.hunks[1].lines.clone();
    let only = text(build(b"f", &diff, |ix| second.contains(&ix), Direction::Forward, Header::Modify));
    assert!(only.contains("@@ -23,6 +23,7 @@\n"), "{only}");
}

#[test]
fn new_files_name_their_mode() {
    let diff = FileDiff::compute(Vec::new(), b"a\nb\n".to_vec(), 3);
    assert_eq!(
        text(build(b"f", &diff, |ix| ix == 0, Direction::Forward, Header::NewFile { mode: "100644" })),
        "diff --git a/f b/f\nnew file mode 100644\n--- /dev/null\n+++ b/f\n@@ -0,0 +1 @@\n+a\n"
    );
}

#[test]
fn splitting_a_final_newline_is_refused() {
    let diff = FileDiff::compute(b"a".to_vec(), b"a\nb\n".to_vec(), 3);
    let b = diff.lines.len() - 1;
    let result = build(b"f", &diff, |ix| ix == b, Direction::Forward, Header::Modify);
    assert_eq!(result, Err(PatchError::SplitsFinalNewline));
    assert!(PatchError::SplitsFinalNewline.message().contains("end-of-file newline"));
    assert!(build(b"f", &diff, |_| true, Direction::Forward, Header::Modify).is_ok());
}
