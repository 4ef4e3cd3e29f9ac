use goro::labels::{list_repos, repo_item, ListedRepo};
use goro::picker::{matches_query, Picker, PickerEvent, PickerItem};
use goro::switcher::{note_of_changes, RepoCount, RepoName, Switcher, SwitcherEvent};

#[test]
fn picker_subsequence_matching() {
    assert!(matches_query("gor", "/users/me/goro"));
    assert!(matches_query("me goro", "/users/me/goro"));
    assert!(matches_query("", "/anything"));
    assert!(!matches_query("zz", "/users/me/goro"));
}

#[test]
fn switcher_subsequence_matching() {
    assert!(matches_query("gor", "/users/me/goro"));
    assert!(matches_query("me goro", "/users/me/goro"));
    assert!(matches_query("", "/anything"));
    assert!(!matches_query("zz", "/users/me/goro"));
}

fn item(title: &str) -> PickerItem {
    PickerItem {
        title: title.to_string(),
        detail: String::new(),
        tag: None,
        note: None,
    }
}

#[test]
fn queries_match_in_any_case() {
    let picker = Picker::new(vec![item("Goro"), item("ÄPFEL"), item("other")]);
    assert_eq!(picker.visible("gO"), vec![0]);
    assert_eq!(picker.visible("Äpfel"), vec![1]);
    assert_eq!(picker.visible(""), vec![0, 1, 2]);
    assert_eq!(picker.visible("zzz"), Vec::<usize>::new());
}

#[test]
fn the_selection_stays_among_what_is_shown() {
    let mut picker = Picker::new(vec![item("one"), item("two"), item("three")]);
    picker.up();
    assert_eq!(picker.selected(""), 0);
    picker.down("");
    picker.down("");
    picker.down("");
    assert_eq!(picker.selected(""), 2);
    assert_eq!(picker.confirm(""), PickerEvent::Pick(2));
    picker.query_changed();
    assert_eq!(picker.confirm("t"), PickerEvent::Pick(1));
    assert_eq!(
        picker.confirm("  /no/such "),
        PickerEvent::Typed("/no/such".to_string())
    );
    picker.set_items(vec![item("only")]);
    assert_eq!(picker.items().len(), 1);
}

#[test]
fn long_lists_are_cut() {
    let picker = Picker::new((0..40).map(|i| item(&format!("item {i}"))).collect());
    assert_eq!(picker.visible("").len(), 14);
}

fn named(root: &str) -> RepoName {
    RepoName {
        root: root.as_bytes().to_vec(),
        name: root.rsplit('/').next().map(str::to_string),
    }
}

#[test]
fn scans_put_agents_first_and_list_each_repository_once() {
    let mut switcher = Switcher::new(&[named("/w/a"), named("/w/b")]);
    switcher.scanned(
        &[named("/w/c"), named("/w/b")],
        &[RepoCount {
            root: b"/w/b".to_vec(),
            changes: Some(3),
        }],
    );
    let roots: Vec<&[u8]> = switcher.items().iter().map(|i| i.root.as_slice()).collect();
    assert_eq!(roots, vec![b"/w/c".as_slice(), b"/w/b", b"/w/a"]);
    assert!(switcher.items()[1].from_agent);
    assert!(!switcher.items()[2].from_agent);
    assert_eq!(switcher.items()[1].changes, Some(3));
    assert_eq!(switcher.items()[2].changes, None);
    switcher.down("");
    assert_eq!(switcher.confirm(""), SwitcherEvent::Open(b"/w/b".to_vec()));
    switcher.up();
    assert_eq!(switcher.confirm(""), SwitcherEvent::Open(b"/w/c".to_vec()));
    assert_eq!(
        switcher.confirm("~/new"),
        SwitcherEvent::Typed("~/new".to_string())
    );
}

#[test]
fn notes_count_changes() {
    assert_eq!(note_of_changes(0), "clean");
    assert_eq!(note_of_changes(1), "1 change");
    assert_eq!(note_of_changes(12), "12 changes");
}

#[test]
fn the_list_of_repositories_holds_each_once() {
    let listed = list_repos(
        &[b"/w/a".to_vec(), b"/w/b".to_vec()],
        &[b"/w/b".to_vec(), b"/w/c".to_vec()],
    );
    let expected: Vec<ListedRepo> = [("/w/a", true), ("/w/b", true), ("/w/c", false)]
        .into_iter()
        .map(|(root, agent)| ListedRepo {
            root: root.as_bytes().to_vec(),
            agent,
        })
        .collect();
    assert_eq!(listed, expected);
    let shown = repo_item(&Some("a".to_string()), b"/w/a", true, false, Some(2));
    assert_eq!(shown.title, "a");
    assert_eq!(shown.detail, "/w/a");
    assert_eq!(shown.note.as_deref(), Some("2 changes"));
}

#[test]
fn the_open_repository_says_so() {
    let shown = repo_item(&None, b"/w/a", false, true, Some(2));
    assert_eq!(shown.note.as_deref(), Some("open"));
    assert_eq!(shown.tag, None);
}
