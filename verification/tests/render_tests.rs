use core::cmp::Ordering;
use file_tree::builder::build;
use file_tree::errors::FsError;
use file_tree::node::{Directory, EntryKind, File, FileTree, Metadata, Symlink};
use file_tree::order::{name_le, sort_by_name};
use file_tree::raw::{RawChild, RawDir, RawNode};
use file_tree::render::{render_text, render_tree, Line};

fn meta() -> Metadata {
    Metadata { size: 1, readonly: false }
}

fn file_node(name: &str) -> FileTree {
    FileTree::FileNode(File { name: name.to_string(), metadata: meta() })
}

fn link_node(name: &str, target: &str) -> FileTree {
    FileTree::LinkNode(Symlink {
        name: name.to_string(),
        metadata: meta(),
        target: target.to_string(),
    })
}

fn dir_node(name: &str, entries: Vec<FileTree>) -> FileTree {
    FileTree::DirNode(Directory { name: name.to_string(), entries })
}

fn texts(lines: &[Line]) -> Vec<String> {
    lines.iter().map(|l| l.text()).collect()
}

#[test]
fn render_draws_connectors_and_continuations() {
    let tree = Directory {
        name: "root".to_string(),
        entries: vec![
            dir_node("dir1", vec![file_node("inner.txt")]),
            file_node("z.txt"),
        ],
    };
    let (lines, dirs, files) = render_tree("root", &tree).unwrap();
    assert_eq!(
        texts(&lines),
        vec![
            "root".to_string(),
            "├── dir1".to_string(),
            "│   └── inner.txt".to_string(),
            "└── z.txt".to_string(),
        ]
    );
    assert_eq!(dirs, 2);
    assert_eq!(files, 2);
}

#[test]
fn render_blank_continuation_under_last_directory() {
    let tree = Directory {
        name: "r".to_string(),
        entries: vec![
            file_node("a"),
            dir_node("sub", vec![file_node("deep")]),
        ],
    };
    let (lines, _, _) = render_tree("r", &tree).unwrap();
    assert_eq!(
        texts(&lines),
        vec![
            "r".to_string(),
            "├── a".to_string(),
            "└── sub".to_string(),
            "    └── deep".to_string(),
        ]
    );
}

#[test]
fn summary_counts_directories_and_files() {
    let raw = RawDir {
        name: "root".to_string(),
        children: vec![
            RawChild::Loaded(RawNode::Dir(RawDir {
                name: "sub1".to_string(),
                children: vec![
                    RawChild::Loaded(RawNode::File { name: "c.txt".to_string(), metadata: meta() }),
                    RawChild::Loaded(RawNode::File { name: "d.txt".to_string(), metadata: meta() }),
                ],
            })),
            RawChild::Loaded(RawNode::Dir(RawDir {
                name: "sub2".to_string(),
                children: vec![
                    RawChild::Loaded(RawNode::File { name: "e.txt".to_string(), metadata: meta() }),
                ],
            })),
            RawChild::Loaded(RawNode::File { name: "a.txt".to_string(), metadata: meta() }),
            RawChild::Loaded(RawNode::File { name: "b.txt".to_string(), metadata: meta() }),
            RawChild::Loaded(RawNode::Link {
                name: "ln1".to_string(),
                metadata: meta(),
                target: "a.txt".to_string(),
            }),
            RawChild::Unexamined(".hidden".to_string()),
        ],
    };
    let tree = build(&raw);
    let (_, dirs, files) = render_tree("root", &tree).unwrap();
    assert_eq!(dirs, 3);
    assert_eq!(files, 6);
    assert_eq!(format!("{} directories, {} files", dirs, files), "3 directories, 6 files");
}

#[test]
fn symlink_renders_as_link_leaf_and_counts_as_file() {
    let tree = Directory {
        name: "root".to_string(),
        entries: vec![link_node("ln", "/target/dir")],
    };
    let (lines, dirs, files) = render_tree("root", &tree).unwrap();
    assert_eq!(texts(&lines), vec!["root".to_string(), "└── ln -> /target/dir".to_string()]);
    assert_eq!(dirs, 1);
    assert_eq!(files, 1);
}

#[test]
fn empty_directory_renders_root_alone() {
    let tree = Directory { name: "only".to_string(), entries: vec![] };
    let (lines, dirs, files) = render_tree("only", &tree).unwrap();
    assert_eq!(texts(&lines), vec!["only".to_string()]);
    assert_eq!(dirs, 1);
    assert_eq!(files, 0);
}

#[test]
fn line_parts_let_a_caller_style_the_name() {
    let tree = Directory {
        name: "root".to_string(),
        entries: vec![file_node("plain.txt")],
    };
    let (lines, _, _) = render_tree("root", &tree).unwrap();
    assert_eq!(lines[1].prefix, "└── ");
    assert_eq!(lines[1].name, "plain.txt");
    assert_eq!(lines[1].kind, EntryKind::File);
    assert_eq!(lines[1].target, None);
}

#[test]
fn rendering_is_deterministic() {
    let tree = Directory {
        name: "root".to_string(),
        entries: vec![dir_node("d", vec![file_node("x")]), file_node("y")],
    };
    let first = render_tree("root", &tree).unwrap();
    let second = render_tree("root", &tree).unwrap();
    assert_eq!(texts(&first.0), texts(&second.0));
    assert_eq!((first.1, first.2), (second.1, second.2));
}

#[test]
fn name_le_is_ordinal() {
    assert!(name_le("A", "a"));
    assert!(!name_le("a", "A"));
    assert!(name_le("c10", "c2"));
    assert!(!name_le("c2", "c10"));
    assert!(name_le("abc", "abc"));
    assert!(name_le("ab", "abc"));
    assert!(!name_le("abc", "ab"));
    assert!(name_le("", "anything"));
    assert!(name_le("z", "é"));
}

#[test]
fn sort_by_name_is_three_way() {
    let a = file_node("alpha");
    let b = file_node("beta");
    let a2 = dir_node("alpha", vec![]);
    assert_eq!(sort_by_name(&a, &b), Ordering::Less);
    assert_eq!(sort_by_name(&b, &a), Ordering::Greater);
    assert_eq!(sort_by_name(&a, &a2), Ordering::Equal);
}

#[test]
fn render_text_joins_all_lines() {
    let raw = RawDir {
        name: "root".to_string(),
        children: vec![
            RawChild::Loaded(RawNode::File { name: "b".to_string(), metadata: meta() }),
            RawChild::Loaded(RawNode::File { name: "A".to_string(), metadata: meta() }),
            RawChild::Loaded(RawNode::Dir(RawDir {
                name: "c2".to_string(),
                children: vec![
                    RawChild::Loaded(RawNode::Link {
                        name: "ln".to_string(),
                        metadata: meta(),
                        target: "../A".to_string(),
                    }),
                ],
            })),
            RawChild::Unexamined(".git".to_string()),
            RawChild::Loaded(RawNode::File { name: "c10".to_string(), metadata: meta() }),
        ],
    };
    let tree = build(&raw);
    let text = render_text("root", &tree).unwrap();
    assert_eq!(
        text,
        "root\n\
         ├── A\n\
         ├── b\n\
         ├── c10\n\
         └── c2\n\
         \u{20}   └── ln -> ../A\n"
    );
}

#[test]
fn error_messages_name_the_offending_path() {
    let listing = FsError::Listing("/no/such/dir".to_string());
    assert_eq!(listing.message(), "cannot list directory: /no/such/dir");
    assert_eq!(listing.path().as_str(), "/no/such/dir");
    let metadata = FsError::Metadata("/gone.txt".to_string());
    assert_eq!(metadata.message(), "cannot read metadata: /gone.txt");
    let link = FsError::LinkTarget("/dangling".to_string());
    assert_eq!(link.message(), "cannot resolve link target: /dangling");
}
