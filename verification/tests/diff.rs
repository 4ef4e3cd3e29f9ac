use goro::diff::{is_binary, FileDiff, LineKind, Text, DEFAULT_CONTEXT};

fn unified(old: &str, new: &str) -> String {
    let diff = FileDiff::compute(old.as_bytes().to_vec(), new.as_bytes().to_vec(), DEFAULT_CONTEXT);
    String::from_utf8_lossy(&diff.to_unified_hunks()).into_owned()
}

fn lines(n: usize) -> String {
    (1..=n).map(|i| format!("line {i}\n")).collect()
}

#[test]
fn text_lines_include_terminators() {
    let text = Text::new(b"a\r\nb\nc".to_vec());
    assert_eq!(text.line_count(), 3);
    assert_eq!(text.line(0), b"a\r\n");
    assert_eq!(text.line(2), b"c");
    assert_eq!(Text::new(b"".to_vec()).line_count(), 0);
    assert_eq!(Text::new(b"x\n".to_vec()).line_count(), 1);
}

#[test]
fn line_numbers_and_kinds() {
    let diff = FileDiff::compute(b"a\nb\nc\n".to_vec(), b"a\nB\nc\n".to_vec(), 3);
    let kinds: Vec<_> = diff
        .lines
        .iter()
        .map(|l| (l.kind, l.old_no, l.new_no, diff.line_bytes(l).to_vec()))
        .collect();
    assert_eq!(
        kinds,
        vec![
            (LineKind::Context, Some(1), Some(1), b"a".to_vec()),
            (LineKind::Removed, Some(2), None, b"b".to_vec()),
            (LineKind::Added, None, Some(2), b"B".to_vec()),
            (LineKind::Context, Some(3), Some(3), b"c".to_vec()),
        ]
    );
}

#[test]
fn binary_sniffing() {
    assert!(is_binary(b"abc\0def"));
    assert!(!is_binary(b"plain text"));
    let mut late = vec![b'x'; 8000];
    late.push(0);
    assert!(!is_binary(&late));
    late[7999] = 0;
    assert!(is_binary(&late));
}

#[test]
fn identical() {
    assert_eq!(unified("a\nb\n", "a\nb\n"), "");
}

#[test]
fn single_modification() {
    let old = lines(20);
    let new = old.replace("line 10\n", "line ten\n");
    assert_eq!(
        unified(&old, &new),
        "@@ -7,7 +7,7 @@ line 6\n line 7\n line 8\n line 9\n-line 10\n+line ten\n line 11\n \
         line 12\n line 13\n"
    );
}

#[test]
fn distant_changes_make_two_hunks() {
    let old = lines(30);
    let new = old.replace("line 3\n", "line three\n").replace("line 25\n", "line twenty-five\n");
    assert_eq!(
        unified(&old, &new),
        "@@ -1,6 +1,6 @@\n line 1\n line 2\n-line 3\n+line three\n line 4\n line 5\n line 6\n\
         @@ -22,7 +22,7 @@ line 21\n line 22\n line 23\n line 24\n-line 25\n+line twenty-five\n \
         line 26\n line 27\n line 28\n"
    );
}

#[test]
fn touching_contexts_make_one_hunk() {
    let old = lines(12);
    let new = old.replace("line 3\n", "three\n").replace("line 10\n", "ten\n");
    let diff = FileDiff::compute(old.into_bytes(), new.into_bytes(), 3);
    assert_eq!(diff.hunks.len(), 1);
}

#[test]
fn missing_final_newline_is_marked() {
    assert_eq!(
        unified("a\nb", "a\nb\n"),
        "@@ -1,2 +1,2 @@\n a\n-b\n\\ No newline at end of file\n+b\n"
    );
}

#[test]
fn new_and_emptied_files() {
    assert_eq!(unified("", "a\nb\n"), "@@ -0,0 +1,2 @@\n+a\n+b\n");
    assert_eq!(unified("a\n", ""), "@@ -1 +0,0 @@\n-a\n");
}

#[test]
fn carriage_returns_are_part_of_the_terminator() {
    let diff = FileDiff::compute(b"a\r\nb\r\n".to_vec(), b"a\r\nc\r\n".to_vec(), 3);
    assert_eq!(diff.line_bytes(&diff.lines[1]), b"b");
    assert_eq!(
        diff.to_unified_hunks(),
        b"@@ -1,2 +1,2 @@\n a\r\n-b\r\n+c\r\n".to_vec()
    );
}

#[test]
fn function_context_is_the_nearest_line_before() {
    let body: String = (0..10).map(|i| format!("    step {i};\n")).collect();
    let old = format!("fn first() {{\n{body}}}\n");
    let new = old.replace("step 8", "leap 8");
    let diff = FileDiff::compute(old.into_bytes(), new.into_bytes(), 3);
    assert_eq!(diff.hunks.len(), 1);
    assert_eq!(diff.func_context_bytes(&diff.hunks[0]), Some(b"fn first() {".as_slice()));
    let top = FileDiff::compute(b"fn a() {}\nx\n".to_vec(), b"fn a() {}\ny\n".to_vec(), 3);
    assert_eq!(top.func_context_bytes(&top.hunks[0]), None);
}

#[test]
fn zero_context() {
    let diff = FileDiff::compute(lines(5).into_bytes(), lines(5).replace("line 3", "3").into_bytes(), 0);
    assert_eq!(diff.to_unified_hunks(), b"@@ -3 +3 @@ line 2\n-line 3\n+3\n".to_vec());
}

#[test]
fn hunks_divide_the_lines_among_them() {
    let old = lines(40);
    let new = old.replace("line 3\n", "three\n").replace("line 30\n", "");
    let diff = FileDiff::compute(old.clone().into_bytes(), new.into_bytes(), 3);
    assert_eq!(diff.hunks.len(), 2);
    let mut at = 0;
    for hunk in &diff.hunks {
        assert_eq!(hunk.lines.start, at);
        at = hunk.lines.end;
        let body = &diff.lines[hunk.lines.clone()];
        assert!(body.iter().any(|l| l.kind != goro::diff::LineKind::Context));
        let numbers: Vec<u32> = body.iter().filter_map(|l| l.old_no).collect();
        let expected: Vec<u32> = (hunk.old_start..hunk.old_start + hunk.old_len).collect();
        assert_eq!(numbers, expected);
    }
    assert_eq!(at, diff.lines.len());
    let same = FileDiff::compute(old.clone().into_bytes(), old.into_bytes(), 3);
    assert!(same.hunks.is_empty() && same.to_unified_hunks().is_empty());
}
