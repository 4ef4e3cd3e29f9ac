use goro::store::{stable_hash, RecentRepo, Seen, Store, RECENT_LIMIT};

/// `stable_hash(&[b"a"])`, pinned: persisted state depends on it never changing.
const PINNED_A: u64 = 0x089b_c907_b544_c769;

#[test]
fn stable_hash_is_stable_and_separates_parts() {
    assert_eq!(stable_hash(&[b"goro"]), stable_hash(&[b"goro"]));
    assert_ne!(stable_hash(&[b"ab", b"c"]), stable_hash(&[b"a", b"bc"]));
    // Pinned: persisted state depends on this value never changing.
    assert_eq!(stable_hash(&[b"a"]), PINNED_A);
}

#[test]
fn recent_repositories_are_most_recent_first_and_deduplicated() {
    let mut recent: Vec<RecentRepo> = Vec::new();
    for (at, root) in ["/a", "/b", "/a"].iter().enumerate() {
        recent = Store::touch_recent(recent, root.as_bytes(), at as u64);
    }
    let roots: Vec<_> = recent.iter().map(|r| r.root.clone()).collect();
    assert_eq!(roots, [b"/a".to_vec(), b"/b".to_vec()]);
    assert_eq!(recent[0].opened_at, 2);
}

#[test]
fn recent_repositories_are_limited() {
    let mut recent: Vec<RecentRepo> = Vec::new();
    for i in 0..60u64 {
        recent = Store::touch_recent(recent, format!("/{i}").as_bytes(), i);
    }
    assert_eq!(recent.len(), RECENT_LIMIT);
    assert_eq!(recent[0].root, b"/59".to_vec());
    assert_eq!(recent[49].root, b"/10".to_vec());
}

#[test]
fn state_files_are_named_by_hash() {
    let store = Store::at(b"/data".to_vec());
    assert_eq!(
        store.repo_file(b"a"),
        b"/data/repos/089bc907b544c769.json".to_vec()
    );
    assert_eq!(store.recent_file(), b"/data/recent.json".to_vec());
    assert_eq!(store.activity_file(), b"/data/activity.json".to_vec());
    // Repositories are kept apart.
    assert_ne!(store.repo_file(b"/work/a"), store.repo_file(b"/work/b"));
}

#[test]
fn unreadable_state_is_the_default() {
    let state = Store::repo_state(None);
    assert!(state.seen.is_none());
    assert!(state.reviewed.is_empty());
    assert!(state.comments.is_empty());
    assert!(Store::recent(None).is_empty());
}

#[test]
fn seen_lines_are_kept_per_path() {
    let mut seen = Seen::new();
    seen.insert("a", 1);
    seen.insert("b", 2);
    seen.insert("a", 3);
    seen.insert_path("c");
    assert!(seen.contains("a", 1) && seen.contains("a", 3) && seen.contains("b", 2));
    assert!(!seen.contains("a", 2) && !seen.contains("c", 1) && !seen.contains("d", 1));
    assert!(seen.has_path("c") && !seen.has_path("d"));
    let copy = seen.copy();
    seen.insert("d", 4);
    assert!(copy.contains("a", 3) && !copy.contains("d", 4));
    assert_eq!(copy.entries().len(), 3);
}
