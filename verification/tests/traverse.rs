use vfinder::snapshot::Snapshot;
use vfinder::traversal::{traverse, Traversal};
use vfinder::walker::{
    classify, Entry, EntryKind, Item, Listing, Node, Resolved, RootProbe, Seen, SkipReason,
    TraverseError, Walker,
};

const TOP: RootProbe = RootProbe::Directory { id: 0 };

fn shown(traversal: &Traversal) -> Vec<(String, EntryKind)> {
    traversal.entries.iter().map(|e| (e.path.join("/"), e.kind)).collect()
}

fn sorted_paths(traversal: &Traversal) -> Vec<String> {
    let mut paths: Vec<String> = traversal.entries.iter().map(|e| e.path.join("/")).collect();
    paths.sort();
    paths
}

fn passed_over(traversal: &Traversal) -> Vec<(String, SkipReason)> {
    traversal.skipped.iter().map(|s| (s.path.join("/"), s.reason)).collect()
}

fn file(name: &str) -> Item {
    Item { name: name.to_string(), node: Node::File }
}

fn dir(name: &str, id: u64) -> Item {
    Item { name: name.to_string(), node: Node::Directory { id } }
}

fn link(name: &str, id: u64) -> Item {
    Item { name: name.to_string(), node: Node::Link { id } }
}

fn entry(path: &[&str], kind: EntryKind) -> Entry {
    Entry { path: path.iter().map(|s| s.to_string()).collect(), kind }
}

/// A root that holds `a.txt`, `.hidden` and `sub/b.txt`.
fn small_tree() -> Snapshot {
    let mut s = Snapshot::new();
    assert!(s.add_file(0, "a.txt"));
    assert!(s.add_file(0, ".hidden"));
    let sub = s.add_directory(0, "sub").unwrap();
    assert!(s.add_file(sub, "b.txt"));
    s
}

#[test]
fn small_tree_without_hidden_entries() {
    let t = traverse(&small_tree(), TOP, true).unwrap();
    assert_eq!(sorted_paths(&t), vec!["a.txt", "sub", "sub/b.txt"]);
    assert!(t.skipped.is_empty());
}

#[test]
fn small_tree_with_hidden_entries() {
    let t = traverse(&small_tree(), TOP, false).unwrap();
    assert_eq!(sorted_paths(&t), vec![".hidden", "a.txt", "sub", "sub/b.txt"]);
    assert!(t.skipped.is_empty());
}

#[test]
fn entries_come_in_listing_order_directory_by_directory() {
    let t = traverse(&small_tree(), TOP, false).unwrap();
    assert_eq!(
        shown(&t),
        vec![
            ("a.txt".to_string(), EntryKind::File),
            (".hidden".to_string(), EntryKind::File),
            ("sub".to_string(), EntryKind::Directory),
            ("sub/b.txt".to_string(), EntryKind::File),
        ]
    );
}

#[test]
fn last_scheduled_directory_is_listed_first() {
    let mut s = Snapshot::new();
    let one = s.add_directory(0, "one").unwrap();
    let two = s.add_directory(0, "two").unwrap();
    assert!(s.add_file(one, "x"));
    assert!(s.add_file(two, "y"));
    let t = traverse(&s, TOP, true).unwrap();
    assert_eq!(
        shown(&t),
        vec![
            ("one".to_string(), EntryKind::Directory),
            ("two".to_string(), EntryKind::Directory),
            ("two/y".to_string(), EntryKind::File),
            ("one/x".to_string(), EntryKind::File),
        ]
    );
}

#[test]
fn hidden_directory_hides_its_subtree() {
    let mut s = Snapshot::new();
    let git = s.add_directory(0, ".git").unwrap();
    assert!(s.add_file(git, "config"));
    let objects = s.add_directory(git, "objects").unwrap();
    assert!(s.add_file(objects, "pack"));
    assert!(s.add_file(0, "readme"));
    let hidden_out = traverse(&s, TOP, true).unwrap();
    assert_eq!(sorted_paths(&hidden_out), vec!["readme"]);
    let hidden_in = traverse(&s, TOP, false).unwrap();
    assert_eq!(
        sorted_paths(&hidden_in),
        vec![".git", ".git/config", ".git/objects", ".git/objects/pack", "readme"]
    );
}

#[test]
fn no_yielded_path_has_a_hidden_component() {
    let mut s = Snapshot::new();
    let a = s.add_directory(0, "a").unwrap();
    let b = s.add_directory(a, ".b").unwrap();
    let c = s.add_directory(b, "c").unwrap();
    assert!(s.add_file(c, "deep"));
    assert!(s.add_file(a, ".env"));
    assert!(s.add_file(a, "main.rs"));
    assert!(s.add_link(0, ".shortcut", c));
    let t = traverse(&s, TOP, true).unwrap();
    for e in &t.entries {
        for component in &e.path {
            assert!(!component.starts_with('.'));
        }
    }
    assert_eq!(sorted_paths(&t), vec!["a", "a/main.rs"]);
}

#[test]
fn a_name_with_a_dot_inside_is_not_hidden() {
    let mut s = Snapshot::new();
    assert!(s.add_file(0, "a.b"));
    assert!(s.add_file(0, "."));
    assert!(s.add_file(0, ""));
    let t = traverse(&s, TOP, true).unwrap();
    assert_eq!(sorted_paths(&t), vec!["", "a.b"]);
}

#[test]
fn walking_twice_gives_the_same() {
    let s = small_tree();
    for hide in [true, false] {
        let first = traverse(&s, TOP, hide).unwrap();
        let second = traverse(&s, TOP, hide).unwrap();
        assert_eq!(first.entries, second.entries);
        assert_eq!(first.skipped, second.skipped);
    }
}

#[test]
fn link_to_an_ancestor_ends_the_walk() {
    let mut s = Snapshot::new();
    let sub = s.add_directory(0, "sub").unwrap();
    assert!(s.add_file(sub, "f"));
    assert!(s.add_link(sub, "up", 0));
    assert!(s.add_link(sub, "self", sub));
    let t = traverse(&s, TOP, false).unwrap();
    assert_eq!(sorted_paths(&t), vec!["sub", "sub/f"]);
    assert_eq!(
        passed_over(&t),
        vec![
            ("sub/up".to_string(), SkipReason::SymlinkCycle),
            ("sub/self".to_string(), SkipReason::SymlinkCycle),
        ]
    );
}

#[test]
fn two_directories_linked_to_each_other_end_the_walk() {
    let mut s = Snapshot::new();
    let a = s.add_directory(0, "a").unwrap();
    let b = s.add_directory(0, "b").unwrap();
    assert!(s.add_link(a, "to_b", b));
    assert!(s.add_link(b, "to_a", a));
    let t = traverse(&s, TOP, true).unwrap();
    assert_eq!(sorted_paths(&t), vec!["a", "b"]);
    assert_eq!(t.skipped.len(), 2);
}

#[test]
fn link_is_followed_once() {
    let mut s = Snapshot::new();
    let outside = s.add_directory(0, ".store").unwrap();
    assert!(s.add_file(outside, "data"));
    assert!(s.add_link(0, "first", outside));
    assert!(s.add_link(0, "second", outside));
    let t = traverse(&s, TOP, true).unwrap();
    assert_eq!(
        shown(&t),
        vec![
            ("first".to_string(), EntryKind::Directory),
            ("first/data".to_string(), EntryKind::File),
        ]
    );
    assert_eq!(passed_over(&t), vec![("second".to_string(), SkipReason::SymlinkCycle)]);
}

#[test]
fn directory_is_walked_though_a_link_led_there_first() {
    let mut s = Snapshot::new();
    let a = s.add_directory(0, "a").unwrap();
    let b = s.add_directory(a, "b").unwrap();
    assert!(s.add_file(b, "f"));
    assert!(s.add_link(0, "alias", b));
    let t = traverse(&s, TOP, true).unwrap();
    assert_eq!(
        shown(&t),
        vec![
            ("a".to_string(), EntryKind::Directory),
            ("alias".to_string(), EntryKind::Directory),
            ("alias/f".to_string(), EntryKind::File),
            ("a/b".to_string(), EntryKind::Directory),
            ("a/b/f".to_string(), EntryKind::File),
        ]
    );
    assert!(t.skipped.is_empty());
}

#[test]
fn link_to_a_scheduled_directory_is_passed_over() {
    let mut s = Snapshot::new();
    let holder = s.add_directory(0, "holder").unwrap();
    let real = s.add_directory(0, "real").unwrap();
    assert!(s.add_file(real, "b.txt"));
    assert!(s.add_link(holder, "alias", real));
    let t = traverse(&s, TOP, true).unwrap();
    assert_eq!(sorted_paths(&t), vec!["holder", "real", "real/b.txt"]);
    assert_eq!(passed_over(&t), vec![("holder/alias".to_string(), SkipReason::SymlinkCycle)]);
}

#[test]
fn link_out_of_a_hidden_directory_is_never_seen() {
    let mut s = Snapshot::new();
    let hidden = s.add_directory(0, ".cache").unwrap();
    let shown_dir = s.add_directory(0, "shown").unwrap();
    assert!(s.add_link(hidden, "out", shown_dir));
    assert!(s.add_file(shown_dir, "x"));
    let t = traverse(&s, TOP, true).unwrap();
    assert_eq!(sorted_paths(&t), vec!["shown", "shown/x"]);
    assert!(t.skipped.is_empty());
}

#[test]
fn unreadable_item_is_passed_over() {
    let mut s = Snapshot::new();
    assert!(s.add_file(0, "open"));
    assert!(s.add_unreadable(0, "sealed"));
    let t = traverse(&s, TOP, true).unwrap();
    assert_eq!(sorted_paths(&t), vec!["open"]);
    assert_eq!(passed_over(&t), vec![("sealed".to_string(), SkipReason::PermissionDenied)]);
}

#[test]
fn denied_directory_is_yielded_and_not_entered() {
    let mut s = Snapshot::new();
    let vault = s.add_directory(0, "vault").unwrap();
    assert!(s.add_file(vault, "gold"));
    assert!(s.add_file(0, "note"));
    assert!(s.deny(vault));
    let t = traverse(&s, TOP, true).unwrap();
    assert_eq!(sorted_paths(&t), vec!["note", "vault"]);
    assert_eq!(passed_over(&t), vec![("vault".to_string(), SkipReason::PermissionDenied)]);
}

#[test]
fn denied_root_yields_nothing() {
    let mut s = small_tree();
    assert!(s.deny(0));
    let t = traverse(&s, TOP, false).unwrap();
    assert!(t.entries.is_empty());
    assert_eq!(passed_over(&t), vec![("".to_string(), SkipReason::PermissionDenied)]);
}

#[test]
fn empty_root_yields_nothing() {
    let t = traverse(&Snapshot::new(), TOP, true).unwrap();
    assert!(t.entries.is_empty());
    assert!(t.skipped.is_empty());
}

#[test]
fn walk_from_a_subdirectory() {
    let s = small_tree();
    let t = traverse(&s, RootProbe::Directory { id: 1 }, true).unwrap();
    assert_eq!(sorted_paths(&t), vec!["b.txt"]);
}

#[test]
fn invalid_root_is_refused() {
    let s = small_tree();
    for hide in [true, false] {
        assert_eq!(traverse(&s, RootProbe::Missing, hide).unwrap_err(), TraverseError::InvalidRoot);
        assert_eq!(
            traverse(&s, RootProbe::NotADirectory, hide).unwrap_err(),
            TraverseError::InvalidRoot
        );
        assert_eq!(
            traverse(&s, RootProbe::Directory { id: 2 }, hide).unwrap_err(),
            TraverseError::InvalidRoot
        );
    }
    assert!(matches!(Walker::begin(RootProbe::Missing, true), Err(TraverseError::InvalidRoot)));
    assert!(matches!(
        Walker::begin(RootProbe::NotADirectory, false),
        Err(TraverseError::InvalidRoot)
    ));
}

#[test]
fn snapshot_refuses_what_does_not_fit() {
    let mut s = Snapshot::new();
    assert_eq!(s.directories(), 1);
    assert!(!s.add_file(1, "x"));
    assert!(!s.add_unreadable(7, "x"));
    assert!(!s.add_link(0, "x", 1));
    assert!(!s.add_link(1, "x", 0));
    assert_eq!(s.add_directory(1, "x"), None);
    assert!(!s.deny(1));
    assert_eq!(s.add_directory(0, "d"), Some(1));
    assert_eq!(s.directories(), 2);
    assert!(s.is_readable(1));
    assert!(s.deny(1));
    assert!(!s.is_readable(1));
    assert!(!s.is_readable(2));
    assert!(!s.add_file(1, "x"));
    assert_eq!(s.add_directory(1, "x"), None);
    assert!(matches!(s.listing(1), Some(Listing::Denied)));
    assert!(matches!(s.listing(0), Some(Listing::Items(items)) if items.len() == 1));
    assert!(s.listing(2).is_none());
}

#[test]
fn walker_is_fed_one_listing_at_a_time() {
    let mut walker = Walker::begin(RootProbe::Directory { id: 10 }, true).unwrap();
    assert!(walker.ignores_hidden());
    assert!(!walker.is_done());
    assert_eq!(walker.next_directory(), Some(vec![]));
    assert_eq!(walker.next_id(), Some(10));

    let top = Listing::Items(vec![file("a.txt"), file(".hidden"), dir("sub", 11), dir(".git", 12)]);
    let yielded = walker.feed(&top);
    assert_eq!(
        yielded,
        vec![entry(&["a.txt"], EntryKind::File), entry(&["sub"], EntryKind::Directory)]
    );
    assert_eq!(walker.next_directory(), Some(vec!["sub".to_string()]));
    assert_eq!(walker.next_id(), Some(11));

    let sub = Listing::Items(vec![file("b.txt"), link("back", 10), link("far", 40)]);
    let yielded = walker.feed(&sub);
    assert_eq!(
        yielded,
        vec![entry(&["sub", "b.txt"], EntryKind::File), entry(&["sub", "far"], EntryKind::Directory)]
    );
    assert_eq!(walker.next_id(), Some(40));
    assert_eq!(walker.skipped().len(), 1);
    assert_eq!(walker.skipped()[0].reason, SkipReason::SymlinkCycle);
    assert_eq!(walker.skipped()[0].path, vec!["sub".to_string(), "back".to_string()]);

    assert!(walker.feed(&Listing::Denied).is_empty());
    assert!(walker.is_done());
    assert_eq!(walker.next_directory(), None);
    assert_eq!(walker.next_id(), None);

    assert!(walker.feed(&top).is_empty());
    assert!(walker.is_done());
    let log = walker.into_skipped();
    assert_eq!(log.len(), 2);
    assert_eq!(log[1].reason, SkipReason::PermissionDenied);
    assert_eq!(log[1].path, vec!["sub".to_string(), "far".to_string()]);
}

#[test]
fn walker_shows_hidden_entries_when_asked() {
    let mut walker = Walker::begin(RootProbe::Directory { id: 0 }, false).unwrap();
    assert!(!walker.ignores_hidden());
    let top = Listing::Items(vec![file(".hidden"), dir(".git", 1)]);
    let yielded = walker.feed(&top);
    assert_eq!(
        yielded,
        vec![entry(&[".hidden"], EntryKind::File), entry(&[".git"], EntryKind::Directory)]
    );
    assert_eq!(walker.next_directory(), Some(vec![".git".to_string()]));
}

#[test]
fn walk_can_be_abandoned() {
    let mut walker = Walker::begin(RootProbe::Directory { id: 0 }, true).unwrap();
    let yielded = walker.feed(&Listing::Items(vec![dir("a", 1), dir("b", 2)]));
    assert_eq!(yielded.len(), 2);
    assert!(!walker.is_done());
    drop(walker);
}

#[test]
fn deep_chain_is_walked_to_the_bottom() {
    let mut s = Snapshot::new();
    let mut at = 0;
    let mut expected = Vec::new();
    let mut prefix = String::new();
    for _ in 0..200 {
        at = s.add_directory(at, "d").unwrap();
        prefix = if prefix.is_empty() { "d".to_string() } else { format!("{}/d", prefix) };
        expected.push(prefix.clone());
    }
    assert!(s.add_link(at, "top", 0));
    let t = traverse(&s, TOP, true).unwrap();
    let mut got = sorted_paths(&t);
    got.sort();
    expected.sort();
    assert_eq!(got, expected);
    assert_eq!(t.skipped.len(), 1);
}

#[test]
fn entries_are_classified_by_what_they_are() {
    let every = [Resolved::Directory, Resolved::Other, Resolved::Broken, Resolved::Denied];
    for resolved in every {
        for id in [None, Some(7)] {
            assert_eq!(classify(Seen::File, resolved, id), Node::File);
            assert_eq!(classify(Seen::Unknown, resolved, id), Node::Unreadable);
        }
        assert_eq!(classify(Seen::Directory, resolved, Some(7)), Node::Directory { id: 7 });
        assert_eq!(classify(Seen::Directory, resolved, None), Node::Unreadable);
    }
    assert_eq!(classify(Seen::Symlink, Resolved::Directory, Some(9)), Node::Link { id: 9 });
    assert_eq!(classify(Seen::Symlink, Resolved::Directory, None), Node::Unreadable);
    for id in [None, Some(9)] {
        assert_eq!(classify(Seen::Symlink, Resolved::Other, id), Node::File);
        assert_eq!(classify(Seen::Symlink, Resolved::Broken, id), Node::File);
        assert_eq!(classify(Seen::Symlink, Resolved::Denied, id), Node::Unreadable);
    }
}

#[test]
fn item_without_a_name_is_recorded() {
    let mut walker = Walker::begin(RootProbe::Directory { id: 0 }, true).unwrap();
    let nameless = Item { name: String::new(), node: Node::Unreadable };
    let yielded = walker.feed(&Listing::Items(vec![file("a"), nameless]));
    assert_eq!(yielded, vec![entry(&["a"], EntryKind::File)]);
    assert_eq!(walker.skipped().len(), 1);
    assert_eq!(walker.skipped()[0].path, vec![String::new()]);
    assert_eq!(walker.skipped()[0].reason, SkipReason::PermissionDenied);
}
