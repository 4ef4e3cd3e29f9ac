//! Partial patches apply exactly where they say, and make exactly the selected change, for
//! random selections over generated diffs.
use goro::diff::{FileDiff, LineKind, Text};
use goro::patch::{build, Direction, Header, PatchError};

/// The lines of a text with their terminators.
fn split_keep(text: &[u8]) -> Vec<Vec<u8>> {
    let mut lines: Vec<Vec<u8>> = Vec::new();
    let mut line = Vec::new();
    for &b in text {
        line.push(b);
        if b == b'\n' {
            lines.push(std::mem::take(&mut line));
        }
    }
    if !line.is_empty() {
        lines.push(line);
    }
    lines
}

/// One side of a `@@` line: its first line and how many there are.
fn side(range: &str) -> (usize, usize) {
    let range = &range[1..];
    match range.split_once(',') {
        Some((start, len)) => (start.parse().unwrap(), len.parse().unwrap()),
        None => (range.parse().unwrap(), 1),
    }
}

/// Applies a patch without tolerance: every line has to be where the patch says.
fn apply(base: &[u8], patch: &[u8], reverse: bool) -> Vec<u8> {
    let base = split_keep(base);
    let lines = split_keep(patch);
    let mut out = Vec::new();
    let mut pos = 0;
    let mut ix = lines.iter().position(|l| l.starts_with(b"@@ ")).unwrap();
    while ix < lines.len() {
        let header = String::from_utf8(lines[ix].clone()).unwrap();
        let mut parts = header.split(' ');
        parts.next();
        let (old, new) = (side(parts.next().unwrap()), side(parts.next().unwrap()));
        let (from, count) = if reverse { new } else { old };
        let start = if count == 0 { from } else { from - 1 };
        assert!(pos <= start, "hunks are in order");
        while pos < start {
            out.extend_from_slice(&base[pos]);
            pos += 1;
        }
        ix += 1;
        let mut used = 0;
        while ix < lines.len() && !lines[ix].starts_with(b"@@ ") {
            let (sign, mut text) = (lines[ix][0], lines[ix][1..].to_vec());
            ix += 1;
            if ix < lines.len() && lines[ix].starts_with(b"\\") {
                text.pop();
                ix += 1;
            }
            let (taken, added) = match sign {
                b' ' => (true, true),
                b'-' => (!reverse, reverse),
                b'+' => (reverse, !reverse),
                other => panic!("unexpected line {other}"),
            };
            if taken {
                assert_eq!(base[pos], text, "line {pos}");
                pos += 1;
                used += 1;
            }
            if added {
                out.extend_from_slice(&text);
            }
        }
        assert_eq!(used, count, "the header counts the lines");
    }
    while pos < base.len() {
        out.extend_from_slice(&base[pos]);
        pos += 1;
    }
    out
}

fn line(text: &Text, ix: usize) -> &[u8] {
    &text.bytes()[text.line_range(ix)]
}

/// Old side with selected changes applied (what staging should produce).
fn expected_forward(diff: &FileDiff, selected: &dyn Fn(usize) -> bool) -> Vec<u8> {
    let mut out = Vec::new();
    let mut old_pos = 0;
    for hunk in &diff.hunks {
        let first_old = hunk.lines.clone().find_map(|ix| {
            let l = &diff.lines[ix];
            if l.kind != LineKind::Added {
                Some(l.old_no.unwrap() as usize - 1)
            } else {
                None
            }
        });
        let start = first_old.unwrap_or(hunk.old_start as usize);
        for ix in old_pos..start {
            out.extend_from_slice(line(&diff.old, ix));
        }
        for ix in hunk.lines.clone() {
            let l = &diff.lines[ix];
            match l.kind {
                LineKind::Context => {
                    out.extend_from_slice(line(&diff.old, l.old_no.unwrap() as usize - 1))
                }
                LineKind::Removed if !selected(ix) => {
                    out.extend_from_slice(line(&diff.old, l.old_no.unwrap() as usize - 1))
                }
                LineKind::Removed => {}
                LineKind::Added if selected(ix) => {
                    out.extend_from_slice(line(&diff.new, l.new_no.unwrap() as usize - 1))
                }
                LineKind::Added => {}
            }
        }
        old_pos = start + hunk.old_len as usize;
    }
    for ix in old_pos..diff.old.line_count() {
        out.extend_from_slice(line(&diff.old, ix));
    }
    out
}

/// New side with selected changes undone (what unstaging and discarding should produce).
fn expected_reverse(diff: &FileDiff, selected: &dyn Fn(usize) -> bool) -> Vec<u8> {
    let mut out = Vec::new();
    let mut new_pos = 0;
    for hunk in &diff.hunks {
        let first_new = hunk.lines.clone().find_map(|ix| {
            let l = &diff.lines[ix];
            if l.kind != LineKind::Removed {
                Some(l.new_no.unwrap() as usize - 1)
            } else {
                None
            }
        });
        let start = first_new.unwrap_or(hunk.new_start as usize);
        for ix in new_pos..start {
            out.extend_from_slice(line(&diff.new, ix));
        }
        for ix in hunk.lines.clone() {
            let l = &diff.lines[ix];
            match l.kind {
                LineKind::Context => {
                    out.extend_from_slice(line(&diff.new, l.new_no.unwrap() as usize - 1))
                }
                LineKind::Added if !selected(ix) => {
                    out.extend_from_slice(line(&diff.new, l.new_no.unwrap() as usize - 1))
                }
                LineKind::Added => {}
                LineKind::Removed if selected(ix) => {
                    out.extend_from_slice(line(&diff.old, l.old_no.unwrap() as usize - 1))
                }
                LineKind::Removed => {}
            }
        }
        new_pos = start + hunk.new_len as usize;
    }
    for ix in new_pos..diff.new.line_count() {
        out.extend_from_slice(line(&diff.new, ix));
    }
    out
}

struct Rng(u64);

impl Rng {
    fn next(&mut self) -> u64 {
        self.0 ^= self.0 << 13;
        self.0 ^= self.0 >> 7;
        self.0 ^= self.0 << 17;
        self.0
    }
}

fn generate(rng: &mut Rng) -> (Vec<u8>, Vec<u8>) {
    let old: Vec<String> =
        (0..60).map(|i| format!("line {i} {}\n", rng.next() % 7)).collect();
    let mut new = old.clone();
    for _ in 0..(rng.next() % 8 + 1) {
        let at = (rng.next() as usize) % new.len();
        match rng.next() % 3 {
            0 => {
                new.remove(at);
            }
            1 => new.insert(at, format!("added {}\n", rng.next() % 100)),
            _ => new[at] = format!("changed {}\n", rng.next() % 100),
        }
    }
    let mut old = old.concat().into_bytes();
    let mut new = new.concat().into_bytes();
    // Sometimes drop the final newline on either side.
    if rng.next() % 5 == 0 {
        old.pop();
    }
    if rng.next() % 5 == 0 {
        new.pop();
    }
    (old, new)
}

fn run_rounds(direction: Direction) {
    let mut rng = Rng(0x2545f4914f6cdd1d);
    let (mut applied, mut refused) = (0, 0);
    for _ in 0..40 {
        let (old, new) = generate(&mut rng);
        let diff = FileDiff::compute(old.clone(), new.clone(), 3);
        if diff.hunks.is_empty() {
            continue;
        }
        let selection: Vec<bool> = diff.lines.iter().map(|_| rng.next() % 2 == 0).collect();
        let sel = |ix: usize| selection[ix];
        match build(b"f.txt", &diff, sel, direction, Header::Modify) {
            Ok(Some(p)) => {
                let (result, expected) = match direction {
                    Direction::Forward => (apply(&old, &p, false), expected_forward(&diff, &sel)),
                    Direction::Reverse => (apply(&new, &p, true), expected_reverse(&diff, &sel)),
                };
                assert_eq!(
                    String::from_utf8(result).unwrap(),
                    String::from_utf8(expected).unwrap()
                );
                applied += 1;
            }
            Ok(None) => {}
            Err(PatchError::SplitsFinalNewline) => refused += 1,
        }
    }
    assert!(applied >= 25, "too few rounds applied ({applied})");
    assert!(refused < 10, "too many refused ({refused})");
}

#[test]
fn stage_selected_lines() {
    run_rounds(Direction::Forward);
}

#[test]
fn discard_selected_lines_from_worktree() {
    run_rounds(Direction::Reverse);
}

#[test]
fn patch_apply_unstage_selected_lines() {
    run_rounds(Direction::Reverse);
}

#[test]
fn stage_part_of_a_new_file() {
    let new = b"one\ntwo\nthree\nfour\n";
    let diff = FileDiff::compute(Vec::new(), new.to_vec(), 3);
    let p = build(
        b"new file.txt",
        &diff,
        |ix| ix == 1 || ix == 3,
        Direction::Forward,
        Header::NewFile { mode: "100644" },
    )
    .unwrap()
    .unwrap();
    assert_eq!(apply(b"", &p, false), b"two\nfour\n");
}

#[test]
fn crlf_lines_round_trip() {
    let old = b"a\r\nb\r\nc\r\nd\r\n";
    let new = b"a\r\nB\r\nc\r\nD\r\n";
    let diff = FileDiff::compute(old.to_vec(), new.to_vec(), 3);
    // Stage only the b → B change.
    let selected = |ix: usize| {
        let l = &diff.lines[ix];
        l.old_no == Some(2) || l.new_no == Some(2) && l.kind == LineKind::Added
    };
    let p = build(b"win.txt", &diff, selected, Direction::Forward, Header::Modify)
        .unwrap()
        .unwrap();
    assert_eq!(apply(old, &p, false), b"a\r\nB\r\nc\r\nd\r\n");
}
