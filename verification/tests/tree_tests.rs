use file_tree::builder::build;
use file_tree::is_not_hidden;
use file_tree::node::{classify, EntryKind, FileTree, Metadata};
use file_tree::raw::{RawChild, RawDir, RawNode};

fn md() -> Metadata {
    Metadata { size: 0, readonly: false }
}

fn raw_file(name: &str) -> RawChild {
    RawChild::Loaded(RawNode::File { name: name.to_string(), metadata: md() })
}

fn raw_link(name: &str, target: &str) -> RawChild {
    RawChild::Loaded(RawNode::Link {
        name: name.to_string(),
        metadata: md(),
        target: target.to_string(),
    })
}

fn raw_dir(name: &str, children: Vec<RawChild>) -> RawChild {
    RawChild::Loaded(RawNode::Dir(RawDir { name: name.to_string(), children }))
}

fn entry_names(entries: &[FileTree]) -> Vec<String> {
    entries
        .iter()
        .map(|e| match e {
            FileTree::DirNode(d) => d.name.clone(),
            FileTree::FileNode(f) => f.name.clone(),
            FileTree::LinkNode(l) => l.name.clone(),
        })
        .collect()
}

#[test]
fn ordering_is_ordinal_ascending() {
    let raw = RawDir {
        name: "root".to_string(),
        children: vec![raw_file("b"), raw_file("A"), raw_file("c2"), raw_file("c10")],
    };
    let tree = build(&raw);
    assert_eq!(entry_names(&tree.entries), vec!["A", "b", "c10", "c2"]);
}

#[test]
fn ordering_sorts_every_level() {
    let raw = RawDir {
        name: "root".to_string(),
        children: vec![raw_dir("sub", vec![raw_file("z"), raw_file("m"), raw_file("a")])],
    };
    let tree = build(&raw);
    match &tree.entries[0] {
        FileTree::DirNode(d) => {
            assert_eq!(entry_names(&d.entries), vec!["a", "m", "z"]);
        }
        _ => panic!("expected a directory node"),
    }
}

#[test]
fn hidden_entries_contribute_nothing() {
    let raw = RawDir {
        name: "root".to_string(),
        children: vec![
            raw_dir(".git", vec![raw_file("config"), raw_file("HEAD")]),
            RawChild::Unexamined(".cache".to_string()),
            raw_file("visible.txt"),
            raw_file(".hidden_file"),
        ],
    };
    let tree = build(&raw);
    assert_eq!(entry_names(&tree.entries), vec!["visible.txt"]);
}

#[test]
fn hidden_entries_filtered_at_depth() {
    let raw = RawDir {
        name: "root".to_string(),
        children: vec![raw_dir(
            "sub",
            vec![raw_dir(".git", vec![raw_file("loose")]), raw_file("kept")],
        )],
    };
    let tree = build(&raw);
    match &tree.entries[0] {
        FileTree::DirNode(d) => {
            assert_eq!(entry_names(&d.entries), vec!["kept"]);
        }
        _ => panic!("expected a directory node"),
    }
}

#[test]
fn skipped_listing_slots_are_dropped() {
    let raw = RawDir {
        name: "root".to_string(),
        children: vec![RawChild::Skipped, raw_file("survivor"), RawChild::Skipped],
    };
    let tree = build(&raw);
    assert_eq!(entry_names(&tree.entries), vec!["survivor"]);
}

#[test]
fn classify_checks_symlink_before_directory() {
    assert_eq!(classify(true, true, false), Some(EntryKind::Link));
    assert_eq!(classify(true, false, true), Some(EntryKind::Link));
    assert_eq!(classify(true, false, false), Some(EntryKind::Link));
    assert_eq!(classify(false, true, false), Some(EntryKind::Dir));
    assert_eq!(classify(false, false, true), Some(EntryKind::File));
    assert_eq!(classify(false, false, false), None);
}

#[test]
fn symlink_node_is_a_leaf() {
    let raw = RawDir {
        name: "root".to_string(),
        children: vec![raw_link("points_at_dir", "/somewhere/else")],
    };
    let tree = build(&raw);
    match &tree.entries[0] {
        FileTree::LinkNode(l) => {
            assert_eq!(l.name, "points_at_dir");
            assert_eq!(l.target, "/somewhere/else");
        }
        _ => panic!("expected a link node"),
    }
}

#[test]
fn building_twice_gives_identical_trees() {
    let make = || RawDir {
        name: "root".to_string(),
        children: vec![
            raw_dir("sub", vec![raw_file("inner")]),
            raw_file("b"),
            raw_link("ln", "b"),
            RawChild::Unexamined(".hid".to_string()),
        ],
    };
    let first = build(&make());
    let second = build(&make());
    assert_eq!(first, second);
}

#[test]
fn is_not_hidden_checks_leading_period() {
    assert!(is_not_hidden("plain"));
    assert!(is_not_hidden(""));
    assert!(is_not_hidden("a.b"));
    assert!(!is_not_hidden(".git"));
    assert!(!is_not_hidden("."));
}

#[test]
fn root_name_is_kept() {
    let raw = RawDir { name: "the_root".to_string(), children: vec![] };
    let tree = build(&raw);
    assert_eq!(tree.name, "the_root");
    assert!(tree.entries.is_empty());
}

#[test]
fn names_compare_by_codepoint_not_case() {
    let raw = RawDir {
        name: "root".to_string(),
        children: vec![raw_file("a"), raw_file("B"), raw_file("Z"), raw_file("b")],
    };
    let tree = build(&raw);
    assert_eq!(entry_names(&tree.entries), vec!["B", "Z", "a", "b"]);
}
