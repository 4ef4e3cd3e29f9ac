//! Hunks are the ones that `git diff --histogram -U3` prints, byte for byte.
use goro::diff::{FileDiff, DEFAULT_CONTEXT};
use goro::store::stable_hash;

fn hunks(old: &[u8], new: &[u8]) -> Vec<u8> {
    FileDiff::compute(old.to_vec(), new.to_vec(), DEFAULT_CONTEXT).to_unified_hunks()
}

fn same_hunks(old: &str, new: &str, expected: String) {
    let actual = hunks(old.as_bytes(), new.as_bytes());
    assert_eq!(String::from_utf8(actual).unwrap(), expected);
}

fn concat_lines(lines: &[&str]) -> String {
    lines.concat()
}

fn lines(n: usize) -> String {
    (1..=n).map(|i| format!("line {i}\n")).collect()
}

#[test]
fn edits_at_edges() {
    let old = lines(10);
    let new = format!("first\n{}", old.replace("line 10\n", ""));
    same_hunks(
        &old,
        &new,
        concat_lines(&[
            "@@ -1,3 +1,4 @@\n",
            "+first\n",
            " line 1\n",
            " line 2\n",
            " line 3\n",
            "@@ -7,4 +8,3 @@ line 6\n",
            " line 7\n",
            " line 8\n",
            " line 9\n",
            "-line 10\n",
        ]),
    );
}

#[test]
fn close_changes_merge_and_far_changes_split() {
    let old = lines(40);
    // Six lines apart (merges), then twenty lines apart (splits).
    let new = old
        .replace("line 5\n", "five\n")
        .replace("line 11\n", "eleven\n")
        .replace("line 32\n", "thirty-two\n");
    same_hunks(
        &old,
        &new,
        concat_lines(&[
            "@@ -2,13 +2,13 @@ line 1\n",
            " line 2\n",
            " line 3\n",
            " line 4\n",
            "-line 5\n",
            "+five\n",
            " line 6\n",
            " line 7\n",
            " line 8\n",
            " line 9\n",
            " line 10\n",
            "-line 11\n",
            "+eleven\n",
            " line 12\n",
            " line 13\n",
            " line 14\n",
            "@@ -29,7 +29,7 @@ line 28\n",
            " line 29\n",
            " line 30\n",
            " line 31\n",
            "-line 32\n",
            "+thirty-two\n",
            " line 33\n",
            " line 34\n",
            " line 35\n",
        ]),
    );
    // Exactly seven unchanged lines between changes: does not merge.
    let new = old
        .replace("line 5\n", "five\n")
        .replace("line 13\n", "13\n");
    same_hunks(
        &old,
        &new,
        concat_lines(&[
            "@@ -2,7 +2,7 @@ line 1\n",
            " line 2\n",
            " line 3\n",
            " line 4\n",
            "-line 5\n",
            "+five\n",
            " line 6\n",
            " line 7\n",
            " line 8\n",
            "@@ -10,7 +10,7 @@ line 9\n",
            " line 10\n",
            " line 11\n",
            " line 12\n",
            "-line 13\n",
            "+13\n",
            " line 14\n",
            " line 15\n",
            " line 16\n",
        ]),
    );
}

#[test]
fn empty_to_content_and_back() {
    same_hunks(
        "",
        "a\nb\n",
        concat_lines(&[
            "@@ -0,0 +1,2 @@\n",
            "+a\n",
            "+b\n",
        ]),
    );
    same_hunks(
        "a\nb\n",
        "",
        concat_lines(&[
            "@@ -1,2 +0,0 @@\n",
            "-a\n",
            "-b\n",
        ]),
    );
}

#[test]
fn missing_final_newline() {
    same_hunks(
        "a\nb",
        "a\nb\n",
        concat_lines(&[
            "@@ -1,2 +1,2 @@\n",
            " a\n",
            "-b\n",
            "\\ No newline at end of file\n",
            "+b\n",
        ]),
    );
    same_hunks(
        "a\nb\n",
        "a\nb",
        concat_lines(&[
            "@@ -1,2 +1,2 @@\n",
            " a\n",
            "-b\n",
            "+b\n",
            "\\ No newline at end of file\n",
        ]),
    );
    same_hunks(
        "a\nb",
        "a\nc",
        concat_lines(&[
            "@@ -1,2 +1,2 @@\n",
            " a\n",
            "-b\n",
            "\\ No newline at end of file\n",
            "+c\n",
            "\\ No newline at end of file\n",
        ]),
    );
    same_hunks(
        "a\nb\nc",
        "A\nb\nc",
        concat_lines(&[
            "@@ -1,3 +1,3 @@\n",
            "-a\n",
            "+A\n",
            " b\n",
            " c\n",
            "\\ No newline at end of file\n",
        ]),
    );
}

#[test]
fn crlf_lines() {
    same_hunks(
        "a\r\nb\r\nc\r\n",
        "a\r\nB\r\nc\r\n",
        concat_lines(&[
            "@@ -1,3 +1,3 @@\n",
            " a\r\n",
            "-b\r\n",
            "+B\r\n",
            " c\r\n",
        ]),
    );
    same_hunks(
        "a\r\nb\r\n",
        "a\nb\n",
        concat_lines(&[
            "@@ -1,2 +1,2 @@\n",
            "-a\r\n",
            "-b\r\n",
            "+a\n",
            "+b\n",
        ]),
    );
}

#[test]
fn function_context() {
    let old = "fn alpha() {\n    one();\n    two();\n    three();\n    four();\n    five();\n}\n\nfn beta() {\n    six();\n    seven();\n    eight();\n    nine();\n    ten();\n    eleven();\n}\n";
    let new = old.replace("five();", "FIVE();").replace("ten();", "TEN();");
    same_hunks(
        old,
        &new,
        concat_lines(&[
            "@@ -3,7 +3,7 @@ fn alpha() {\n",
            "     two();\n",
            "     three();\n",
            "     four();\n",
            "-    five();\n",
            "+    FIVE();\n",
            " }\n",
            " \n",
            " fn beta() {\n",
            "@@ -11,6 +11,6 @@ fn beta() {\n",
            "     seven();\n",
            "     eight();\n",
            "     nine();\n",
            "-    ten();\n",
            "+    TEN();\n",
            "     eleven();\n",
            " }\n",
        ]),
    );
    let long = format!("{}\n{}", "x".repeat(120), lines(10));
    let new = long.replace("line 8\n", "eight\n");
    same_hunks(
        &long,
        &new,
        concat_lines(&[
            "@@ -6,6 +6,6 @@ line 4\n",
            " line 5\n",
            " line 6\n",
            " line 7\n",
            "-line 8\n",
            "+eight\n",
            " line 9\n",
            " line 10\n",
        ]),
    );
}

/// The hash of what git prints, for each round of [`generated_edits`].
const GENERATED: [u64; 40] = [
    0xb9b8d5f886000c83,
    0x0ab9ec54bb6669db,
    0x4937d84f847c903e,
    0xeb1c35fda21ea8b5,
    0x060bcbccc0cb7aed,
    0x52700a4d63173e33,
    0xba62408b55a64360,
    0x518d0e1818718ddc,
    0xbbb9cc3889f5db7f,
    0x0955be16736032a7,
    0x32b037fe1b7fcc86,
    0x4b7a689f256f1f5b,
    0x88f8d17f0144bd69,
    0xe6c0690795825037,
    0xf5292249657dfe2d,
    0xdea6eb62618ec811,
    0x0a8215b0d0ea05fb,
    0x5aa52d996f41a830,
    0xbf4293a410faccc8,
    0x2177f029b2dbd61b,
    0xf1cd0cc1843b44fc,
    0x8a8833185c45a2cd,
    0xb97380c41336b99a,
    0x278dea193c9b890b,
    0xdafee6a3b27dc90d,
    0xc39e863911469476,
    0xfdb4e7c915b9222e,
    0x73544213b9cb33d8,
    0xd35e25f529ef5a6d,
    0x4b0c10b50d083bc2,
    0xecce628634a47c36,
    0xfe5c6d5879c2044f,
    0xa4a76467f518507c,
    0xeb497b009d56af94,
    0x8bc3dc20cef254cb,
    0xafa3e606478464f5,
    0xe9ca546c36058b24,
    0x3f93fea6210af1e6,
    0x4484cb1882b190d7,
    0x5faf3e18904540cb,
];

/// Deterministic pseudo-random edits over a larger file.
#[test]
fn generated_edits() {
    let mut seed: u64 = 0x9e3779b97f4a7c15;
    let mut next = move || {
        seed ^= seed << 13;
        seed ^= seed >> 7;
        seed ^= seed << 17;
        seed
    };
    for (round, expected) in GENERATED.iter().enumerate() {
        let old: Vec<String> = (0..300)
            .map(|i| match next() % 5 {
                0 => "}\n".to_string(),
                1 => format!("fn f{i}() {{\n"),
                _ => format!("    stmt({});\n", next() % 50),
            })
            .collect();
        let mut new = old.clone();
        for _ in 0..(next() % 12 + 1) {
            let at = (next() as usize) % new.len();
            match next() % 3 {
                0 => {
                    new.remove(at);
                }
                1 => new.insert(at, format!("    added({});\n", next() % 50)),
                _ => new[at] = format!("    changed({});\n", next() % 50),
            }
        }
        let actual = hunks(old.concat().as_bytes(), new.concat().as_bytes());
        assert_eq!(stable_hash(&[&actual]), *expected, "round {round}");
    }
}
