use goro::review::Dirty;
use goro::watch::{
    classify, is_change, is_git_state, is_overdue, locate, moves_folder, prefixes, quiet_period,
    Noticed, Place,
    DEBOUNCE_NS, MAX_DELAY_NS,
};
use notify::event::{AccessKind, CreateKind, MetadataKind, ModifyKind, RemoveKind};
use notify::EventKind;

#[test]
fn only_writes_count_as_changes() {
    // Reading a file (Linux reports opens and reads) must not trigger a reload: status
    // itself reads files, which would loop forever.
    assert!(!is_change(&EventKind::Access(AccessKind::Any)));
    assert!(!is_change(&EventKind::Modify(ModifyKind::Metadata(
        MetadataKind::AccessTime
    ))));
    assert!(is_change(&EventKind::Create(CreateKind::File)));
    assert!(is_change(&EventKind::Modify(ModifyKind::Any)));
    assert!(is_change(&EventKind::Modify(ModifyKind::Metadata(
        MetadataKind::Permissions
    ))));
    assert!(is_change(&EventKind::Remove(RemoveKind::Any)));
}

#[test]
fn git_state_paths() {
    assert!(is_git_state(b"index"));
    assert!(is_git_state(b"refs/heads/main"));
    assert!(!is_git_state(b"objects/ab/cdef"));
    assert!(!is_git_state(b"index.lock"));
}

#[test]
fn paths_are_located() {
    let (root, git_dir) = (b"/w".as_slice(), b"/w/.git".as_slice());
    assert_eq!(
        locate(b"/w/.git/HEAD", root, git_dir),
        Place::Git { state: true }
    );
    assert_eq!(
        locate(b"/w/.git/objects/ab", root, git_dir),
        Place::Git { state: false }
    );
    assert_eq!(
        locate(b"/w/src/a.rs", root, git_dir),
        Place::Worktree {
            rela: b"src/a.rs".to_vec()
        }
    );
    assert_eq!(locate(b"/w", root, git_dir), Place::Elsewhere);
    assert_eq!(locate(b"/wide/a", root, git_dir), Place::Elsewhere);
}

#[test]
fn paths_are_compared_by_their_parts() {
    let (root, git_dir) = (b"/r/".as_slice(), b"/r/./.git//".as_slice());
    let rela = |path: &[u8]| match locate(path, root, git_dir) {
        Place::Worktree { rela } => Some(String::from_utf8(rela).unwrap()),
        _ => None,
    };
    assert_eq!(rela(b"/r//a").unwrap(), "a");
    assert_eq!(rela(b"/r/./a").unwrap(), "a");
    assert_eq!(rela(b"//r/a/b/.").unwrap(), "a/b");
    assert_eq!(rela(b"/r/a//b/").unwrap(), "a//b");
    assert_eq!(rela(b"/r/.a/..").unwrap(), ".a/..");
    assert_eq!(rela(b"/r/."), None);
    assert_eq!(rela(b"r/a"), None);
    assert_eq!(rela(b"/ra"), None);
    let git = |path: &[u8]| locate(path, root, git_dir);
    assert_eq!(git(b"/r//.git/./index"), Place::Git { state: true });
    assert_eq!(git(b"/r/.git/"), Place::Git { state: false });
    // Relative directories are told from absolute ones, and a leading `.` is a part.
    assert_eq!(locate(b"a/b", b"a", b"x"), Place::Worktree { rela: b"b".to_vec() });
    assert_eq!(locate(b"/a/b", b"a", b"x"), Place::Elsewhere);
    assert_eq!(locate(b"./a", b".", b"x"), Place::Worktree { rela: b"a".to_vec() });
    assert_eq!(locate(b"a", b".", b"x"), Place::Elsewhere);
    assert_eq!(locate(b"/a//", b"", b"x"), Place::Worktree { rela: b"/a".to_vec() });
}

#[test]
fn a_path_is_asked_about_with_its_parents() {
    assert_eq!(
        prefixes(b"a//b/./c"),
        vec![
            (b"a".to_vec(), true),
            (b"a/b".to_vec(), true),
            (b"a/b/c".to_vec(), false),
        ]
    );
    assert_eq!(prefixes(b"/a"), vec![(b"/".to_vec(), true), (b"/a".to_vec(), false)]);
    assert_eq!(prefixes(b""), vec![]);
    assert_eq!(
        prefixes(b"a/b/c"),
        vec![
            (b"a".to_vec(), true),
            (b"a/b".to_vec(), true),
            (b"a/b/c".to_vec(), false),
        ]
    );
}

fn file(rela: &str, ignored: bool) -> Noticed {
    Noticed::Worktree {
        rela: rela.as_bytes().to_vec(),
        ignored,
        is_dir: false,
    }
}

#[test]
fn ignored_paths_are_not_reported() {
    assert!(classify(vec![file("debug.log", true), Noticed::Git { state: false }]).is_none());
    match classify(vec![file("a.txt", false), file("a.txt", false), file("b.log", true)]) {
        Some(Dirty::Paths(paths)) => assert_eq!(paths, vec![b"a.txt".to_vec()]),
        other => panic!("expected paths, got {other:?}"),
    }
    match classify(vec![Noticed::Git { state: true }]) {
        Some(Dirty::Paths(paths)) => assert!(paths.is_empty()),
        other => panic!("expected no dirty paths, got {other:?}"),
    }
    let dir = Noticed::Worktree {
        rela: b"src".to_vec(),
        ignored: false,
        is_dir: true,
    };
    assert!(matches!(
        classify(vec![file("a.txt", false), dir]),
        Some(Dirty::All)
    ));
}

#[test]
fn events_are_gathered_for_a_while() {
    const MS: u64 = 1_000_000;
    assert_eq!(quiet_period(0), DEBOUNCE_NS);
    assert!(!is_overdue(0));
    assert_eq!(quiet_period(MAX_DELAY_NS - MS), MS);
    assert_eq!(quiet_period(MAX_DELAY_NS), 0);
    assert_eq!(quiet_period(MAX_DELAY_NS + MS), 0);
    assert!(is_overdue(MAX_DELAY_NS));
    assert!(!is_overdue(MAX_DELAY_NS - 1));
}

#[test]
fn folders_that_come_and_go_are_told_from_files() {
    assert!(moves_folder(&EventKind::Create(CreateKind::Folder)));
    assert!(moves_folder(&EventKind::Remove(RemoveKind::Folder)));
    assert!(!moves_folder(&EventKind::Create(CreateKind::File)));
    assert!(!moves_folder(&EventKind::Remove(RemoveKind::Any)));
    assert!(is_change(&EventKind::Remove(RemoveKind::Folder)));
}
