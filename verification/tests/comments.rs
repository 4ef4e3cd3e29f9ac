use goro::comments::{to_markdown, Comment, Side};
use goro::diff::{FileDiff, LineKind};

fn diff() -> FileDiff {
    FileDiff::compute(
        b"fn a() {\n    old();\n}\n".to_vec(),
        b"fn a() {\n    new();\n    more();\n}\n".to_vec(),
        3,
    )
}

#[test]
fn comments_anchor_on_the_new_side_unless_only_removals() {
    let diff = diff();
    let kinds: Vec<LineKind> = diff.lines.iter().map(|l| l.kind).collect();
    let removed = kinds.iter().position(|k| *k == LineKind::Removed).unwrap();
    let added: Vec<usize> = (0..kinds.len()).filter(|&i| kinds[i] == LineKind::Added).collect();

    let on_added = Comment::on_lines(1, "src/a.rs", &diff, &added, "why two calls?".into()).unwrap();
    assert_eq!((on_added.side, on_added.start, on_added.end), (Side::New, 2, 3));
    assert_eq!(on_added.excerpt, ["+    new();", "+    more();"]);

    let on_removed = Comment::on_lines(2, "src/a.rs", &diff, &[removed], "keep this".into()).unwrap();
    assert_eq!((on_removed.side, on_removed.start), (Side::Old, 2));
    assert_eq!(on_removed.location(), "src/a.rs:2 (removed lines)");
}

#[test]
fn comments_need_a_line() {
    let diff = diff();
    assert!(Comment::on_lines(1, "a", &diff, &[], "x".into()).is_none());
    assert!(Comment::on_lines(1, "a", &diff, &[99], "x".into()).is_none());
    let mixed = Comment::on_lines(1, "a", &diff, &[0, 1, 99], "x".into()).unwrap();
    assert_eq!((mixed.side, mixed.start, mixed.end), (Side::New, 1, 1));
    assert_eq!(mixed.excerpt, [" fn a() {", "-    old();"]);
}

#[test]
fn markdown_lists_comments_by_location() {
    let diff = diff();
    let added: Vec<usize> =
        (0..diff.lines.len()).filter(|&i| diff.lines[i].kind == LineKind::Added).collect();
    let b = Comment::on_lines(1, "src/b.rs", &diff, &added[..1], "Rename this.".into()).unwrap();
    let a = Comment::on_lines(2, "src/a.rs", &diff, &added, "  Handle errors.  ".into()).unwrap();
    assert_eq!(
        to_markdown(&[b, a]),
        "# Review comments (2)\n\n\
         Address each comment below; line numbers refer to the current files.\n\
         \n## src/a.rs:2-3\n\n```diff\n+    new();\n+    more();\n```\n\nHandle errors.\n\
         \n## src/b.rs:2\n\n```diff\n+    new();\n```\n\nRename this.\n"
    );
    assert_eq!(to_markdown(&[]), "No review comments.\n");
}

#[test]
fn markdown_keeps_the_order_of_comments_on_one_line() {
    let diff = diff();
    let first = Comment::on_lines(1, "a", &diff, &[0], "one".into()).unwrap();
    let second = Comment::on_lines(2, "a", &diff, &[0], "two".into()).unwrap();
    let text = to_markdown(&[first, second]);
    assert!(text.find("one").unwrap() < text.find("two").unwrap());
}

#[test]
fn excerpts_replace_invalid_text() {
    let diff = FileDiff::compute(Vec::new(), b"\xff!\n".to_vec(), 3);
    let comment = Comment::on_lines(1, "a", &diff, &[0], "?".into()).unwrap();
    assert_eq!(comment.excerpt, ["+\u{fffd}!"]);
}

#[test]
fn markdown_does_not_depend_on_the_order_of_comments() {
    let diff = diff();
    let make = |id: u64, path: &str, line: usize| {
        Comment::on_lines(id, path, &diff, &[line], format!("note {id}")).unwrap()
    };
    let one = to_markdown(&[make(1, "b", 0), make(2, "a", 3), make(3, "a", 0), make(4, "a", 0)]);
    let two = to_markdown(&[make(3, "a", 0), make(4, "a", 0), make(1, "b", 0), make(2, "a", 3)]);
    assert_eq!(one, two);
}
