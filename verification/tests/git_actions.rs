//! Stage, unstage, discard, undo, commit and turn snapshots, with git played by a model of a
//! repository that lives in memory.
use std::collections::{BTreeMap, HashMap};

use goro::calls::{Call, FileKind, OpError, Reply, Step};
use goro::diff::{FileDiff, LineKind};
use goro::git::GitError;
use goro::hooks::handle;
use goro::ops;
use goro::ops::{CommitOptions, Selection, UNDO_PREVIOUS_REF, UNDO_REF};
use goro::repo::{ChangeStatus, EntryKind, FileChange, Section, Source};
use goro::store::stable_hash;
use goro::turns;
use goro::turns::{SnapshotMeta, TurnEvent};

type Entries = BTreeMap<String, (String, String)>;

#[derive(Default)]
struct Fixture {
    objects: HashMap<String, Vec<u8>>,
    trees: HashMap<String, Entries>,
    /// Tree, parent and message of each commit.
    commits: HashMap<String, (String, Option<String>, String)>,
    refs: BTreeMap<String, String>,
    head: Option<String>,
    index: Entries,
    worktree: BTreeMap<String, (FileKind, Vec<u8>)>,
    /// Index files of their own, by path.
    indexes: HashMap<String, Entries>,
    hook_output: Option<String>,
    calls: Vec<String>,
}

fn text(bytes: &[u8]) -> String {
    String::from_utf8(bytes.to_vec()).unwrap()
}

fn id_of(kind: &str, bytes: &[u8]) -> String {
    format!("{:040x}", stable_hash(&[kind.as_bytes(), bytes]))
}

fn mode_of(kind: FileKind) -> String {
    match kind {
        FileKind::Regular => "100644",
        FileKind::Executable => "100755",
        FileKind::Symlink => "120000",
    }
    .to_string()
}

fn raw_id(hex: &str) -> Vec<u8> {
    (0..20).map(|i| u8::from_str_radix(&hex[2 * i..2 * i + 2], 16).unwrap()).collect()
}

fn split_keep(text: &[u8]) -> Vec<Vec<u8>> {
    text.split_inclusive(|b| *b == b'\n').map(|l| l.to_vec()).collect()
}

fn first_of(range: &str) -> (usize, usize) {
    match range[1..].split_once(',') {
        Some((start, len)) => (start.parse().unwrap(), len.parse().unwrap()),
        None => (range[1..].parse().unwrap(), 1),
    }
}

/// The path that a patch names, the mode of a new file, and the patched text.
fn patched(base: &[u8], patch: &[u8], reverse: bool) -> Result<Vec<u8>, String> {
    let base = split_keep(base);
    let lines = split_keep(patch);
    let (mut out, mut pos) = (Vec::new(), 0);
    let mut ix = lines.iter().position(|l| l.starts_with(b"@@ ")).unwrap();
    while ix < lines.len() {
        let header = text(&lines[ix]);
        let mut parts = header.split(' ').skip(1);
        let (old, new) = (first_of(parts.next().unwrap()), first_of(parts.next().unwrap()));
        let (from, count) = if reverse { new } else { old };
        let start = if count == 0 { from } else { from - 1 };
        while pos < start {
            out.extend_from_slice(base.get(pos).ok_or("patch does not apply")?);
            pos += 1;
        }
        ix += 1;
        while ix < lines.len() && !lines[ix].starts_with(b"@@ ") {
            let (sign, mut line) = (lines[ix][0], lines[ix][1..].to_vec());
            ix += 1;
            if ix < lines.len() && lines[ix].starts_with(b"\\") {
                line.pop();
                ix += 1;
            }
            let taken = sign == b' ' || (sign == b'-') != reverse;
            let added = sign == b' ' || (sign == b'+') != reverse;
            if taken {
                if base.get(pos) != Some(&line) {
                    return Err("patch does not apply".to_string());
                }
                pos += 1;
            }
            if added {
                out.extend_from_slice(&line);
            }
        }
    }
    for line in &base[pos..] {
        out.extend_from_slice(line);
    }
    Ok(out)
}

fn patch_path(patch: &str) -> String {
    let line = patch.lines().find(|l| l.starts_with("+++ b/")).unwrap();
    line["+++ b/".len()..].trim_end_matches('\t').to_string()
}

impl Fixture {
    fn write(&mut self, path: &str, contents: &str) {
        self.worktree
            .insert(path.to_string(), (FileKind::Regular, contents.as_bytes().to_vec()));
    }

    fn read(&self, path: &str) -> String {
        text(&self.worktree[path].1)
    }

    fn blob(&mut self, bytes: &[u8]) -> String {
        let id = id_of("blob", bytes);
        self.objects.insert(id.clone(), bytes.to_vec());
        id
    }

    fn add(&mut self, path: &str) {
        match self.worktree.get(path).cloned() {
            Some((kind, bytes)) => {
                let id = self.blob(&bytes);
                self.index.insert(path.to_string(), (mode_of(kind), id));
            }
            None => {
                self.index.remove(path);
            }
        }
    }

    fn store_tree(&mut self, entries: Entries) -> String {
        let id = id_of("tree", format!("{entries:?}").as_bytes());
        self.trees.insert(id.clone(), entries);
        id
    }

    fn store_commit(&mut self, tree: String, parent: Option<String>, message: &str) -> String {
        let id = id_of("commit", format!("{tree} {parent:?} {message}").as_bytes());
        self.commits.insert(id.clone(), (tree, parent, message.to_string()));
        id
    }

    fn commit_all(&mut self) {
        let paths: Vec<String> = self.worktree.keys().cloned().collect();
        for path in paths {
            self.add(&path);
        }
        let tree = self.store_tree(self.index.clone());
        let commit = self.store_commit(tree, self.head.clone(), "base\n");
        self.head = Some(commit);
    }

    fn head_entries(&self) -> Entries {
        match &self.head {
            Some(commit) => self.trees[&self.commits[commit].0].clone(),
            None => Entries::new(),
        }
    }

    fn content(&self, entries: &Entries, path: &str) -> Option<String> {
        entries.get(path).map(|(_, id)| text(&self.objects[id]))
    }

    /// The unified hunks between two texts.
    fn hunks(old: Option<String>, new: Option<String>) -> String {
        let (old, new) = (old.unwrap_or_default(), new.unwrap_or_default());
        text(&FileDiff::compute(old.into_bytes(), new.into_bytes(), 3).to_unified_hunks())
    }

    fn cached(&self, path: &str) -> String {
        Self::hunks(
            self.content(&self.head_entries(), path),
            self.content(&self.index, path),
        )
    }

    fn unstaged(&self, path: &str) -> String {
        Self::hunks(self.content(&self.index, path), Some(self.read(path)))
    }

    fn count(&self, reference: &str) -> usize {
        let mut at = self.refs.get(reference).cloned();
        let mut count = 0;
        while let Some(commit) = at {
            count += 1;
            at = self.commits[&commit].1.clone();
        }
        count
    }

    fn git(&mut self, args: &[Vec<u8>], stdin: Option<&[u8]>) -> Result<Vec<u8>, GitError> {
        let words: Vec<String> = args.iter().map(|a| text(a)).collect();
        let words: Vec<&str> = words.iter().map(|w| w.as_str()).collect();
        self.calls.push(words.join(" "));
        let failed = |message: &str| {
            Err(GitError::Failed {
                args: words.join(" "),
                code: Some(1),
                message: message.to_string(),
            })
        };
        let input = stdin.unwrap_or_default().to_vec();
        match words.as_slice() {
            ["ls-files", "-s", "-z", "--", path] => Ok(match self.index.get(*path) {
                Some((mode, id)) => format!("{mode} {id} 0\t{path}\0").into_bytes(),
                None => Vec::new(),
            }),
            ["add", "-A", "--", path] => {
                self.add(path);
                Ok(Vec::new())
            }
            ["apply", flags @ ..] => {
                let patch = text(&input);
                let path = patch_path(&patch);
                let reverse = flags.contains(&"-R");
                let cached = flags.contains(&"--cached");
                let base = if cached {
                    self.content(&self.index, &path).unwrap_or_default()
                } else {
                    self.read(&path)
                };
                let result = match patched(base.as_bytes(), &input, reverse) {
                    Ok(result) => result,
                    Err(message) => return failed(&message),
                };
                if cached {
                    let id = self.blob(&result);
                    let mode = self.index.get(&path).map_or("100644".to_string(), |e| e.0.clone());
                    self.index.insert(path, (mode, id));
                } else {
                    self.worktree.get_mut(&path).unwrap().1 = result;
                }
                Ok(Vec::new())
            }
            ["rev-parse", "-q", "--verify", name] => {
                let found = if *name == "HEAD" {
                    self.head.clone()
                } else {
                    self.refs.get(*name).cloned()
                };
                match found {
                    Some(id) => Ok(format!("{id}\n").into_bytes()),
                    None => failed(""),
                }
            }
            ["rev-parse", "--absolute-git-dir"] => Ok(b"/r/.git\n".to_vec()),
            ["hash-object", flags @ ..] => {
                let id = id_of("blob", &input);
                if flags.contains(&"-w") {
                    self.blob(&input);
                }
                Ok(format!("{id}\n").into_bytes())
            }
            ["mktree"] => {
                let line = text(&input);
                let (mode, rest) = line.trim_end().split_once(" blob ").unwrap();
                let (id, name) = rest.split_once('\t').unwrap();
                let mut entries = Entries::new();
                entries.insert(name.to_string(), (mode.to_string(), id.to_string()));
                let tree = self.store_tree(entries);
                Ok(format!("{tree}\n").into_bytes())
            }
            ["commit-tree", tree, "-m", message, rest @ ..] => {
                let parent = rest.get(1).map(|p| p.to_string());
                let commit = self.store_commit(tree.to_string(), parent, message);
                Ok(format!("{commit}\n").into_bytes())
            }
            ["update-ref", "--stdin"] => {
                for line in text(&input).lines() {
                    let name = line.strip_prefix("delete ").unwrap();
                    self.refs.remove(name);
                }
                Ok(Vec::new())
            }
            ["update-ref", "-d", name] => {
                self.refs.remove(*name);
                Ok(Vec::new())
            }
            ["update-ref", name, commit] => {
                self.refs.insert(name.to_string(), commit.to_string());
                Ok(Vec::new())
            }
            ["rev-list", "--count", commit] => {
                self.refs.insert("counted".to_string(), commit.to_string());
                let count = self.count("counted");
                self.refs.remove("counted");
                Ok(format!("{count}\n").into_bytes())
            }
            ["restore", "--worktree", "--", path] => {
                let (mode, id) = self.index[*path].clone();
                let kind = if mode == "100755" { FileKind::Executable } else { FileKind::Regular };
                self.worktree.insert(path.to_string(), (kind, self.objects[&id].clone()));
                Ok(Vec::new())
            }
            ["restore", "--staged", "--", paths @ ..] => {
                for path in paths {
                    match self.head_entries().get(*path).cloned() {
                        Some(entry) => self.index.insert(path.to_string(), entry),
                        None => self.index.remove(*path),
                    };
                }
                Ok(Vec::new())
            }
            ["rm", "-q", "--cached", "--", paths @ ..] => {
                for path in paths {
                    self.index.remove(*path);
                }
                Ok(Vec::new())
            }
            ["update-index", "--add", "--cacheinfo", info] => {
                let mut parts = info.splitn(3, ',');
                let (mode, id) = (parts.next().unwrap(), parts.next().unwrap());
                self.index.insert(
                    parts.next().unwrap().to_string(),
                    (mode.to_string(), id.to_string()),
                );
                Ok(Vec::new())
            }
            ["update-index", "--force-remove", "--", path] => {
                self.index.remove(*path);
                Ok(Vec::new())
            }
            ["cat-file", "blob", id] => Ok(self.objects[*id].clone()),
            ["commit", "-F", "-", flags @ ..] => {
                if let Some(message) = self.hook_output.clone() {
                    return failed(&message);
                }
                let mut message = format!("{}\n", text(&input).trim_end());
                if flags.contains(&"--signoff") {
                    message.push_str("\nSigned-off-by: Goro Test <goro@example.invalid>\n");
                }
                let tree = self.store_tree(self.index.clone());
                let parent = if flags.contains(&"--amend") {
                    self.commits[self.head.as_ref().unwrap()].1.clone()
                } else {
                    self.head.clone()
                };
                let subject = message.lines().next().unwrap().to_string();
                let commit = self.store_commit(tree, parent, &message);
                self.head = Some(commit.clone());
                Ok(format!("[main {}] {subject}\n 1 file changed\n", &commit[33..]).into_bytes())
            }
            ["log", "-1", "--format=%B"] => {
                let message = self.commits[self.head.as_ref().unwrap()].2.clone();
                Ok(format!("{message}\n").into_bytes())
            }
            ["for-each-ref", "--format=%(refname)", prefix] => Ok(self
                .refs
                .keys()
                .filter(|name| name.starts_with(prefix))
                .map(|name| format!("{name}\n"))
                .collect::<String>()
                .into_bytes()),
            ["for-each-ref", _, prefix] => Ok(self
                .refs
                .iter()
                .filter(|(name, _)| name.starts_with(prefix))
                .map(|(_, id)| {
                    let (tree, _, message) = &self.commits[id];
                    format!("{id}\u{1f}{tree}\u{1f}{message}\n\u{1e}\n")
                })
                .collect::<String>()
                .into_bytes()),
            other => panic!("unexpected git {other:?}"),
        }
    }

    fn perform(&mut self, call: Call) -> Reply {
        match call {
            Call::Git { args, stdin, .. } => Reply::Git(self.git(&args, stdin.as_deref())),
            Call::ReadKind { path } => {
                Reply::Kind(Ok(self.worktree.get(&text(&path)).map(|f| f.0)))
            }
            Call::ReadRaw { path } => Reply::Raw(Ok(self
                .worktree
                .get(&text(&path))
                .map(|(kind, bytes)| (bytes.clone(), *kind)))),
            Call::IsDirectory { path } => {
                let prefix = format!("{}/", text(&path));
                Reply::Directory(self.worktree.keys().any(|p| p.starts_with(&prefix)))
            }
            Call::Remove { path } => {
                self.worktree.remove(&text(&path));
                Reply::Done(Ok(()))
            }
            Call::Write { path, kind, bytes } => {
                self.worktree.insert(text(&path), (kind, bytes));
                Reply::Done(Ok(()))
            }
            Call::CopyIfExists { from, to } => {
                assert_eq!(text(&from), "/r/.git/index");
                self.indexes.insert(text(&to), self.index.clone());
                Reply::Done(Ok(()))
            }
            Call::IndexedGit { args, index } => {
                let words: Vec<String> = args.iter().map(|a| text(a)).collect();
                let name = text(&index);
                let mut entries = self.indexes.remove(&name).unwrap_or_default();
                std::mem::swap(&mut self.index, &mut entries);
                let out = match words.join(" ").as_str() {
                    "add -A" => {
                        let known: Vec<String> = self.index.keys().cloned().collect();
                        let found: Vec<String> = self.worktree.keys().cloned().collect();
                        for path in known.iter().chain(found.iter()) {
                            if !path.ends_with(".log") {
                                self.add(path);
                            }
                        }
                        Vec::new()
                    }
                    "write-tree" => {
                        let tree = self.store_tree(self.index.clone());
                        format!("{tree}\n").into_bytes()
                    }
                    other => panic!("unexpected git {other}"),
                };
                std::mem::swap(&mut self.index, &mut entries);
                self.indexes.insert(name, entries);
                Reply::Git(Ok(out))
            }
            Call::Forget { path } => {
                self.indexes.remove(&text(&path));
                Reply::Done(Ok(()))
            }
        }
    }

    /// Runs an operation to its end.
    fn run<T>(&mut self, op: impl Fn(&[Reply]) -> Step<T>) -> Result<T, OpError> {
        let mut replies: Vec<Reply> = Vec::new();
        loop {
            match op(&replies) {
                Step::Call(call) => {
                    let reply = self.perform(call);
                    replies.push(reply);
                }
                Step::Failed(error) => return Err(error),
                Step::Done(value, used) => {
                    assert_eq!(used, replies.len(), "every reply is used");
                    return Ok(value);
                }
            }
        }
    }

    fn source(&self, entries: &Entries, path: &str) -> Source {
        match entries.get(path) {
            Some((mode, id)) => Source::Blob {
                id: raw_id(id),
                kind: if mode == "100755" { EntryKind::BlobExecutable } else { EntryKind::Blob },
            },
            None => Source::Absent,
        }
    }

    /// The change and its diff for `path` in `section`.
    fn change(&self, section: Section, path: &str) -> (FileChange, FileDiff) {
        let head = self.head_entries();
        let (old_entries, old, new) = match section {
            Section::Staged => {
                (&head, self.content(&head, path), self.content(&self.index, path))
            }
            _ => (
                &self.index,
                self.content(&self.index, path),
                self.worktree.get(path).map(|f| text(&f.1)),
            ),
        };
        let change = FileChange {
            section,
            status: match (&old, &new) {
                (None, _) => ChangeStatus::Added,
                (_, None) => ChangeStatus::Deleted,
                _ => ChangeStatus::Modified,
            },
            path: path.as_bytes().to_vec(),
            old_path: None,
            old: self.source(old_entries, path),
            new: match (section, &new) {
                (Section::Staged, _) => self.source(&self.index, path),
                (_, None) => Source::Absent,
                _ => Source::Worktree,
            },
        };
        let diff = FileDiff::compute(
            old.unwrap_or_default().into_bytes(),
            new.unwrap_or_default().into_bytes(),
            3,
        );
        (change, diff)
    }
}

fn lines(n: usize) -> String {
    (1..=n).map(|i| format!("line {i}\n")).collect()
}

/// Changed lines of hunk `hunk`.
fn hunk_lines(diff: &FileDiff, hunk: usize) -> Vec<usize> {
    diff.hunks[hunk]
        .lines
        .clone()
        .filter(|&ix| diff.lines[ix].kind != LineKind::Context)
        .collect()
}

fn two_hunk_fixture() -> Fixture {
    let mut fx = Fixture::default();
    fx.write("f.txt", &lines(40));
    fx.commit_all();
    fx.write(
        "f.txt",
        &lines(40)
            .replace("line 3\n", "line three\n")
            .replace("line 30\n", "line thirty\n"),
    );
    fx
}

#[test]
fn stage_a_hunk_then_undo() {
    let mut fx = two_hunk_fixture();
    let (change, diff) = fx.change(Section::Unstaged, "f.txt");
    let chosen = hunk_lines(&diff, 0);
    let undo = fx
        .run(|r| ops::stage(&change, Some(&diff), Selection::Lines(&chosen), r))
        .unwrap();
    let staged = fx.cached("f.txt");
    assert!(staged.contains("+line three"), "{staged}");
    assert!(!staged.contains("thirty"), "{staged}");
    assert!(fx.unstaged("f.txt").contains("+line thirty"));

    fx.run(|r| ops::undo(&undo, r)).unwrap();
    assert_eq!(fx.cached("f.txt"), "");
    assert!(fx.read("f.txt").contains("line three"), "worktree untouched");
}

#[test]
fn ops_unstage_selected_lines() {
    let mut fx = two_hunk_fixture();
    fx.add("f.txt");
    let (change, diff) = fx.change(Section::Staged, "f.txt");
    let chosen = hunk_lines(&diff, 1);
    fx.run(|r| ops::unstage(&change, Some(&diff), Selection::Lines(&chosen), r))
        .unwrap();
    let staged = fx.cached("f.txt");
    assert!(staged.contains("+line three"), "{staged}");
    assert!(!staged.contains("thirty"), "{staged}");
}

#[test]
fn discard_a_hunk_keeps_it_recoverable() {
    let mut fx = two_hunk_fixture();
    let before = fx.read("f.txt");
    let (change, diff) = fx.change(Section::Unstaged, "f.txt");
    let chosen = hunk_lines(&diff, 1);
    let undo = fx
        .run(|r| ops::discard(&change, Some(&diff), None, Selection::Lines(&chosen), r))
        .unwrap();
    let after = fx.read("f.txt");
    assert!(after.contains("line three") && !after.contains("thirty"), "{after}");
    // The discarded content is kept reachable under Goro's private ref.
    let saved = fx.commits[&fx.refs["refs/goro/undo"]].2.clone();
    assert!(saved.contains("goro: discard"), "{saved}");

    fx.run(|r| ops::undo(&undo, r)).unwrap();
    assert_eq!(fx.read("f.txt"), before);
}

#[test]
fn discard_refuses_when_the_file_changed_since_review() {
    let mut fx = two_hunk_fixture();
    let (change, diff) = fx.change(Section::Unstaged, "f.txt");
    // An agent edits the file after Goro loaded it.
    let edited = fx.read("f.txt").replace("line 20\n", "line twenty\n");
    fx.write("f.txt", &edited);
    let chosen = hunk_lines(&diff, 0);
    let err = fx
        .run(|r| ops::discard(&change, Some(&diff), None, Selection::Lines(&chosen), r))
        .unwrap_err();
    assert!(matches!(err, OpError::Stale(_)), "{err:?}");
    assert_eq!(fx.read("f.txt"), edited, "file untouched");
}

#[test]
fn undo_refuses_when_the_file_changed_after_the_discard() {
    let mut fx = two_hunk_fixture();
    let (change, diff) = fx.change(Section::Unstaged, "f.txt");
    let undo = fx
        .run(|r| ops::discard(&change, Some(&diff), None, Selection::File, r))
        .unwrap();
    assert_eq!(fx.read("f.txt"), lines(40));
    fx.write("f.txt", "agent wrote this\n");
    let err = fx.run(|r| ops::undo(&undo, r)).unwrap_err();
    assert!(matches!(err, OpError::Stale(_)), "{err:?}");
    assert_eq!(fx.read("f.txt"), "agent wrote this\n");
}

#[test]
fn untracked_files_stage_partially_and_discard_with_undo() {
    let mut fx = Fixture::default();
    fx.write("base.txt", "base\n");
    fx.commit_all();
    fx.write("new.txt", "one\ntwo\nthree\n");
    let (change, diff) = fx.change(Section::Untracked, "new.txt");
    let second = diff.lines.iter().position(|l| diff.line_bytes(l) == b"two").unwrap();
    fx.run(|r| ops::stage(&change, Some(&diff), Selection::Lines(&[second]), r))
        .unwrap();
    assert_eq!(fx.content(&fx.index, "new.txt").unwrap(), "two\n");

    fx.index.remove("new.txt");
    fx.worktree.get_mut("new.txt").unwrap().0 = FileKind::Executable;
    let (change, diff) = fx.change(Section::Untracked, "new.txt");
    let undo = fx
        .run(|r| ops::discard(&change, Some(&diff), None, Selection::File, r))
        .unwrap();
    assert!(!fx.worktree.contains_key("new.txt"));
    fx.run(|r| ops::undo(&undo, r)).unwrap();
    assert_eq!(fx.read("new.txt"), "one\ntwo\nthree\n");
    assert_eq!(fx.worktree["new.txt"].0, FileKind::Executable, "executable bit restored");
}

#[test]
fn selecting_every_line_of_a_deleted_file_stages_the_deletion() {
    let mut fx = Fixture::default();
    fx.write("gone.txt", "a\nb\n");
    fx.commit_all();
    fx.worktree.remove("gone.txt");
    let (change, diff) = fx.change(Section::Unstaged, "gone.txt");
    let all: Vec<usize> = (0..diff.lines.len()).collect();
    fx.run(|r| ops::stage(&change, Some(&diff), Selection::Lines(&all), r))
        .unwrap();
    assert!(!fx.index.contains_key("gone.txt"));
    assert!(fx.head_entries().contains_key("gone.txt"));
}

#[test]
fn unstage_a_file_before_the_first_commit() {
    let mut fx = Fixture::default();
    fx.write("first.txt", "hello\n");
    fx.add("first.txt");
    let (change, diff) = fx.change(Section::Staged, "first.txt");
    let undo = fx
        .run(|r| ops::unstage(&change, Some(&diff), Selection::File, r))
        .unwrap();
    assert!(!fx.index.contains_key("first.txt"));
    assert!(fx.worktree.contains_key("first.txt"));
    fx.run(|r| ops::undo(&undo, r)).unwrap();
    assert_eq!(fx.content(&fx.index, "first.txt").unwrap(), "hello\n");
}

#[test]
fn staged_changes_cannot_be_discarded() {
    let mut fx = two_hunk_fixture();
    fx.add("f.txt");
    let (change, diff) = fx.change(Section::Staged, "f.txt");
    let err = fx
        .run(|r| ops::discard(&change, Some(&diff), None, Selection::File, r))
        .unwrap_err();
    assert!(matches!(err, OpError::Unsupported(_)), "{err:?}");
}

#[test]
fn commit_amend_and_signoff() {
    let mut fx = two_hunk_fixture();
    fx.add("f.txt");
    let summary = fx
        .run(|r| ops::commit("Change two lines\n\nBody text.", CommitOptions::default(), r))
        .unwrap();
    assert!(summary.contains("Change two lines"), "{summary}");
    assert_eq!(
        fx.commits[fx.head.as_ref().unwrap()].2.trim(),
        "Change two lines\n\nBody text."
    );
    assert_eq!(
        fx.run(|r| ops::last_commit_message(r)).unwrap().trim(),
        "Change two lines\n\nBody text."
    );

    let options = CommitOptions { amend: true, signoff: true };
    fx.run(|r| ops::commit("Reworded", options, r)).unwrap();
    let message = fx.commits[fx.head.as_ref().unwrap()].2.clone();
    assert!(message.starts_with("Reworded"), "{message}");
    assert!(message.contains("Signed-off-by: Goro Test"), "{message}");
    let head = fx.head.clone().unwrap();
    fx.refs.insert("HEAD".to_string(), head);
    assert_eq!(fx.count("HEAD"), 2);
}

#[test]
fn commit_hook_failure_is_reported() {
    let mut fx = two_hunk_fixture();
    fx.add("f.txt");
    fx.hook_output = Some("lint failed: trailing whitespace".to_string());
    let err = fx
        .run(|r| ops::commit("msg", CommitOptions::default(), r))
        .unwrap_err();
    assert!(err.message().contains("lint failed: trailing whitespace"), "{err:?}");
}

#[test]
fn empty_commit_message_is_rejected_before_running_git() {
    let mut fx = two_hunk_fixture();
    fx.add("f.txt");
    let err = fx
        .run(|r| ops::commit("  \n ", CommitOptions::default(), r))
        .unwrap_err();
    assert!(matches!(err, OpError::Unsupported(_)), "{err:?}");
    assert!(fx.calls.is_empty());
}

#[test]
fn undo_history_keeps_two_generations() {
    let mut fx = Fixture::default();
    let blobs: Vec<String> =
        (0..5).map(|i| fx.blob(format!("saved {i}\n").as_bytes())).collect();
    for blob in &blobs {
        fx.run(|r| ops::keep_reachable_within(r, 0, blob, "goro: discard", 2)).unwrap();
    }
    assert_eq!(fx.count(UNDO_REF), 1);
    assert_eq!(fx.count(UNDO_PREVIOUS_REF), 2);
    let mut reachable = Vec::new();
    for start in fx.refs.values() {
        let mut at = Some(start.clone());
        while let Some(commit) = at {
            let (tree, parent, _) = &fx.commits[&commit];
            reachable.extend(fx.trees[tree].values().map(|e| e.1.clone()));
            at = parent.clone();
        }
    }
    for (ix, blob) in blobs.iter().enumerate() {
        assert_eq!(reachable.contains(blob), ix >= 2, "blob {ix}");
    }
}

#[test]
fn failed_calls_are_reported() {
    let mut fx = two_hunk_fixture();
    let (change, diff) = fx.change(Section::Unstaged, "f.txt");
    // Another process stages something in between: the patch no longer applies.
    let mut other = lines(40).replace("line 2\n", "line two\n");
    other.push_str("end\n");
    let id = fx.blob(other.as_bytes());
    fx.index.insert("f.txt".to_string(), ("100644".to_string(), id));
    let chosen = hunk_lines(&diff, 0);
    let err = fx
        .run(|r| ops::stage(&change, Some(&diff), Selection::Lines(&chosen), r))
        .unwrap_err();
    assert!(matches!(err, OpError::Git(_)), "{err:?}");
    assert!(err.message().contains("patch does not apply"), "{}", err.message());
    // A reply of the wrong kind is no git output.
    let wrong = [Reply::Directory(true)];
    match ops::stage(&change, Some(&diff), Selection::File, &wrong) {
        Step::Failed(OpError::Io(text)) => assert_eq!(text, "unexpected reply"),
        other => panic!("{other:?}"),
    }
}

#[test]
fn files_that_cannot_be_read_are_reported() {
    let fx = two_hunk_fixture();
    let (change, diff) = fx.change(Section::Unstaged, "f.txt");
    let replies = [Reply::Raw(Err("permission denied".to_string()))];
    match ops::discard(&change, Some(&diff), None, Selection::File, &replies) {
        Step::Failed(OpError::Io(text)) => assert_eq!(text, "permission denied"),
        other => panic!("{other:?}"),
    }
}

// ---------------------------------------------------------------------------
// Turn snapshots.

fn meta(event: TurnEvent, session: &str, turn: Option<&str>, at_ms: u64) -> SnapshotMeta {
    SnapshotMeta {
        agent: "codex".into(),
        event,
        session_id: session.into(),
        turn_id: turn.map(Into::into),
        prompt: if event == TurnEvent::Start { Some(format!("prompt at {at_ms}")) } else { None },
        at_ms,
    }
}

/// Metadata as the tests write it into a snapshot's message.
fn encode(meta: &SnapshotMeta) -> String {
    let event = if meta.event == TurnEvent::Start { "start" } else { "end" };
    format!(
        "{}|{event}|{}|{}|{}|{}",
        meta.agent,
        meta.session_id,
        meta.turn_id.as_deref().unwrap_or("-"),
        meta.prompt.as_deref().unwrap_or("-"),
        meta.at_ms
    )
}

fn decode(json: &str) -> SnapshotMeta {
    let parts: Vec<&str> = json.trim().split('|').collect();
    let some = |s: &str| if s == "-" { None } else { Some(s.to_string()) };
    SnapshotMeta {
        agent: parts[0].to_string(),
        event: if parts[1] == "start" { TurnEvent::Start } else { TurnEvent::End },
        session_id: parts[2].to_string(),
        turn_id: some(parts[3]),
        prompt: some(parts[4]),
        at_ms: parts[5].parse().unwrap(),
    }
}

fn snapshot(fx: &mut Fixture, meta: &SnapshotMeta) -> turns::Snapshot {
    let json = encode(meta);
    let temp = turns::temp_index_name(7, meta.at_ms);
    fx.run(|r| turns::snapshot(meta, &json, &temp, r)).unwrap()
}

fn list(fx: &mut Fixture) -> Vec<turns::Session> {
    let records = fx.run(|r| turns::read_records(r)).unwrap();
    turns::list(
        records
            .into_iter()
            .map(|r| turns::Snapshot { commit: r.commit, tree: r.tree, meta: decode(&r.json) })
            .collect(),
    )
}

#[test]
fn snapshots_capture_the_worktree_without_touching_the_index() {
    let mut fx = Fixture::default();
    fx.write("a.txt", "one\n");
    fx.write(".gitignore", "*.log\n");
    fx.commit_all();
    fx.write("a.txt", "two\n");
    fx.write("new/untracked.txt", "fresh\n");
    fx.write("debug.log", "ignored\n");
    fx.add("a.txt");
    fx.write("a.txt", "three\n");
    let index_before = fx.index.clone();

    let snapshot = snapshot(&mut fx, &meta(TurnEvent::Start, "s1", None, 1_000));

    assert_eq!(fx.index, index_before, "index untouched");
    assert!(fx.indexes.is_empty(), "the temporary index is removed");
    let tree = fx.trees[&snapshot.tree].clone();
    let files: Vec<&String> = tree.keys().collect();
    assert_eq!(files, [".gitignore", "a.txt", "new/untracked.txt"]);
    assert_eq!(fx.content(&tree, "a.txt").unwrap(), "three\n", "worktree, not index");
    let refs: Vec<&String> = fx.refs.keys().collect();
    assert_eq!(refs, ["refs/goro/turns/s1/1000-start"]);
}

#[test]
fn snapshots_pair_into_turns_per_session() {
    let mut fx = Fixture::default();
    fx.write("a.txt", "one\n");
    fx.commit_all();
    snapshot(&mut fx, &meta(TurnEvent::Start, "s1", None, 1_000));
    fx.write("a.txt", "two\n");
    snapshot(&mut fx, &meta(TurnEvent::End, "s1", None, 2_000));
    snapshot(&mut fx, &meta(TurnEvent::Start, "s1", None, 3_000));
    fx.write("a.txt", "three\n");
    // A second session interleaves; Codex-style turn ids pair explicitly.
    snapshot(&mut fx, &meta(TurnEvent::Start, "codex-9", Some("t1"), 3_500));
    snapshot(&mut fx, &meta(TurnEvent::End, "codex-9", Some("t1"), 3_600));

    let sessions = list(&mut fx);
    assert_eq!(sessions.len(), 2);
    // Most recent activity first.
    assert_eq!(sessions[0].id, "codex-9");
    let s1 = &sessions[1];
    assert_eq!(s1.id, "s1");
    assert_eq!(s1.turns.len(), 2);
    assert_eq!(s1.turns[0].prompt.as_deref(), Some("prompt at 1000"));
    assert!(s1.turns[0].start.is_some() && s1.turns[0].end.is_some());
    assert!(s1.turns[1].end.is_none(), "the second turn is still running");
    let first = &s1.turns[0];
    let side = |tree: &str| fx.content(&fx.trees[tree], "a.txt");
    let diff = Fixture::hunks(
        side(&first.start.as_ref().unwrap().tree),
        side(&first.end.as_ref().unwrap().tree),
    );
    assert!(diff.contains("-one") && diff.contains("+two"), "{diff}");
}

#[test]
fn pruning_keeps_the_newest_snapshots() {
    let mut fx = Fixture::default();
    fx.write("a.txt", "one\n");
    fx.commit_all();
    for at in 1..=5 {
        snapshot(&mut fx, &meta(TurnEvent::Start, "s", None, at * 1_000));
    }
    fx.run(|r| turns::prune(3, r)).unwrap();
    let refs: Vec<&String> = fx.refs.keys().collect();
    assert_eq!(
        refs,
        [
            "refs/goro/turns/s/3000-start",
            "refs/goro/turns/s/4000-start",
            "refs/goro/turns/s/5000-start"
        ]
    );
}

#[test]
fn session_ids_are_made_safe_for_ref_names() {
    let mut fx = Fixture::default();
    fx.write("a.txt", "one\n");
    fx.commit_all();
    snapshot(&mut fx, &meta(TurnEvent::Start, "../weird id:*?", None, 1));
    let name = fx.refs.keys().next().unwrap();
    assert!(name.starts_with("refs/goro/turns/h"), "{name}");
    assert!(name.chars().all(|c| c.is_ascii_alphanumeric() || "/-".contains(c)), "{name}");
    let sessions = list(&mut fx);
    assert_eq!(
        sessions[0].id, "../weird id:*?",
        "the original id survives in metadata"
    );
}

#[test]
fn changes_between_snapshots_match_git_diff() {
    // What `git diff-tree -r -z --raw -M` prints for an edit, a removal, a rename and an
    // addition.
    let id = |n: usize| format!("{n:040x}");
    let raw = [
        format!(":100644 100644 {} {} M\0edit.txt\0", id(1), id(2)),
        format!(":100644 000000 {} {} D\0gone.txt\0", id(3), id(0)),
        format!(":100644 100644 {} {} R100\0move-me.txt\0moved.txt\0", id(4), id(4)),
        format!(":000000 100644 {} {} A\0new.txt\0", id(0), id(5)),
    ]
    .concat();
    let changes = match turns::changes_between("before", "after", &[Reply::Git(Ok(raw.into_bytes()))])
    {
        Step::Done(changes, 1) => changes,
        other => panic!("{other:?}"),
    };
    let summary: Vec<(ChangeStatus, String, Option<String>)> = changes
        .iter()
        .map(|c| (c.status, text(&c.path), c.old_path.as_ref().map(|p| text(p))))
        .collect();
    assert_eq!(
        summary,
        [
            (ChangeStatus::Modified, "edit.txt".into(), None),
            (ChangeStatus::Deleted, "gone.txt".into(), None),
            (ChangeStatus::Renamed, "moved.txt".into(), Some("move-me.txt".into())),
            (ChangeStatus::Added, "new.txt".into(), None),
        ]
    );
    assert!(changes.iter().all(|c| c.section == Section::Snapshot));
    let expected = raw_id(&id(1));
    assert!(matches!(&changes[0].old, Source::Blob { id, kind: EntryKind::Blob } if *id == expected));
    assert!(matches!(&changes[1].new, Source::Absent));
    assert!(matches!(&changes[3].old, Source::Absent));
}

#[test]
fn ids_that_are_none_name_no_object() {
    let id = format!("{:040x}", 0xabcdu32);
    assert!(matches!(turns::side(b"100755", id.as_bytes()),
        Source::Blob { id, kind: EntryKind::BlobExecutable } if id[18..] == [0xab, 0xcd]));
    // White space around an id doesn't matter.
    assert!(matches!(turns::side(b"120000", format!(" {id}\n").as_bytes()),
        Source::Blob { kind: EntryKind::Link, .. }));
    assert!(matches!(turns::side(b"100644", b"no id"), Source::Absent));
    assert!(matches!(turns::side(b"100644", "0".repeat(40).as_bytes()), Source::Absent));
}

#[test]
fn turns_are_recorded_in_repositories_only() {
    let mut fx = Fixture::default();
    fx.write("a.txt", "one\n");
    fx.commit_all();
    let meta = meta(TurnEvent::Start, "s1", None, 1_000);
    let json = encode(&meta);
    let temp = turns::temp_index_name(7, 1);
    let root = fx
        .run(|r| handle(Some(b"/w".to_vec()), &meta, &json, &temp, r))
        .unwrap();
    assert_eq!(root, Some(b"/w".to_vec()));
    assert_eq!(list(&mut fx).len(), 1);
    let calls = fx.calls.len();
    let nothing = fx.run(|r| handle(None, &meta, &json, &temp, r)).unwrap();
    assert_eq!(nothing, None);
    assert_eq!(fx.calls.len(), calls, "nothing was run");
}

#[test]
fn undo_refuses_when_the_mode_changed_after_the_discard() {
    let mut fx = two_hunk_fixture();
    let (change, diff) = fx.change(Section::Unstaged, "f.txt");
    let undo = fx
        .run(|r| ops::discard(&change, Some(&diff), None, Selection::File, r))
        .unwrap();
    fx.worktree.get_mut("f.txt").unwrap().0 = FileKind::Executable;
    let err = fx.run(|r| ops::undo(&undo, r)).unwrap_err();
    assert!(matches!(err, OpError::Stale(_)), "{err:?}");
    assert_eq!(fx.worktree["f.txt"].0, FileKind::Executable);
    assert_eq!(fx.read("f.txt"), lines(40));
}

#[test]
fn files_without_a_diff_are_compared_with_what_was_read() {
    let mut fx = Fixture::default();
    fx.write("b.bin", "\0one");
    fx.commit_all();
    fx.write("b.bin", "\0two");
    let (change, _) = fx.change(Section::Unstaged, "b.bin");
    let read = id_of("blob", b"\0two");
    fx.write("b.bin", "\0agent");
    let err = fx
        .run(|r| ops::discard(&change, None, Some(&read), Selection::File, r))
        .unwrap_err();
    assert!(matches!(err, OpError::Stale(_)), "{err:?}");
    assert_eq!(fx.read("b.bin"), "\0agent");
    fx.write("b.bin", "\0two");
    let undo = fx
        .run(|r| ops::discard(&change, None, Some(&read), Selection::File, r))
        .unwrap();
    assert_eq!(fx.read("b.bin"), "\0one");
    fx.run(|r| ops::undo(&undo, r)).unwrap();
    assert_eq!(fx.read("b.bin"), "\0two");
}

#[test]
fn repeated_lines_count_once() {
    let diff = FileDiff::compute(b"a\n".to_vec(), b"b\n".to_vec(), 3);
    let wanted = |lines: &[usize]| match ops::effective(Selection::Lines(lines), Some(&diff)) {
        Ok(Selection::File) => "file",
        Ok(Selection::Lines(_)) => "lines",
        Err(_) => "nothing",
    };
    assert_eq!(wanted(&[0, 1]), "file");
    assert_eq!(wanted(&[0, 1, 1]), "file");
    assert_eq!(wanted(&[0, 0]), "lines");
    assert_eq!(wanted(&[7]), "nothing");
}
