//! The in-memory tree of typed nodes: directories, regular files and
//! symbolic links, together with the mathematical view of a tree and the
//! directory / file counting functions that the renderer's summary reports.

use vstd::prelude::*;

verus! {

/// A snapshot of the metadata the operating system reported for an entry.
/// The tree only carries it; nothing in the library inspects it.
#[derive(Clone, Copy, Debug, PartialEq, Eq)]
pub struct Metadata {
    pub size: u64,
    pub readonly: bool,
}

/// A regular file: a leaf of the tree.
#[derive(Debug, PartialEq, Eq)]
pub struct File {
    pub name: String,
    pub metadata: Metadata,
}

/// A symbolic link: always a leaf, never followed. The target is recorded
/// exactly as the link states it, whether relative, absolute or dangling.
#[derive(Debug, PartialEq, Eq)]
pub struct Symlink {
    pub name: String,
    pub metadata: Metadata,
    pub target: String,
}

/// A directory and its visible children, in render order.
#[derive(Debug, PartialEq, Eq)]
pub struct Directory {
    pub name: String,
    pub entries: Vec<FileTree>,
}

/// One node of the tree.
#[derive(Debug, PartialEq, Eq)]
pub enum FileTree {
    DirNode(Directory),
    FileNode(File),
    LinkNode(Symlink),
}

/// How an entry is classified before it becomes a node.
#[derive(Clone, Copy, Debug, PartialEq, Eq)]
pub enum EntryKind {
    Dir,
    File,
    Link,
}

/// The mathematical view of a directory: its name and the views of its
/// children, in order. Metadata is carried by the tree but takes no part in
/// its structure, so the view omits it.
pub struct DirV {
    pub name: Seq<char>,
    pub entries: Seq<TreeV>,
}

/// The mathematical view of a tree node.
pub enum TreeV {
    Dir(DirV),
    File { name: Seq<char> },
    Link { name: Seq<char>, target: Seq<char> },
}

pub open spec fn trees_view(s: Seq<FileTree>) -> Seq<TreeV>
    decreases s,
{
    if s.len() == 0 {
        Seq::empty()
    } else {
        seq![tree_view(s[0])] + trees_view(s.drop_first())
    }
}

pub open spec fn tree_view(t: FileTree) -> TreeV
    decreases t,
{
    match t {
        FileTree::DirNode(d) => TreeV::Dir(dir_view(d)),
        FileTree::FileNode(f) => TreeV::File { name: f.name@ },
        FileTree::LinkNode(l) => TreeV::Link { name: l.name@, target: l.target@ },
    }
}

pub open spec fn dir_view(d: Directory) -> DirV
    decreases d,
{
    DirV { name: d.name@, entries: trees_view(d.entries@) }
}

impl View for Directory {
    type V = DirV;

    open spec fn view(&self) -> DirV {
        dir_view(*self)
    }
}

impl View for FileTree {
    type V = TreeV;

    open spec fn view(&self) -> TreeV {
        tree_view(*self)
    }
}

/// `trees_view` maps `tree_view` over the sequence, element by element.
pub proof fn lemma_trees_view_elements(s: Seq<FileTree>)
    ensures
        trees_view(s).len() == s.len(),
        forall|i: int| 0 <= i < s.len() ==> trees_view(s)[i] == tree_view(s[i]),
    decreases s,
{
    if s.len() > 0 {
        lemma_trees_view_elements(s.drop_first());
    }
}

/// The name a node carries, whatever its variant.
pub open spec fn tree_name(t: TreeV) -> Seq<char> {
    match t {
        TreeV::Dir(d) => d.name,
        TreeV::File { name } => name,
        TreeV::Link { name, .. } => name,
    }
}

/// How many directories a subtree holds, the subtree's own root included
/// when it is a directory.
pub open spec fn dir_count(t: TreeV) -> nat
    decreases t,
{
    match t {
        TreeV::Dir(d) => 1 + dir_count_of(d.entries),
        _ => 0,
    }
}

pub open spec fn dir_count_of(s: Seq<TreeV>) -> nat
    decreases s,
{
    if s.len() == 0 {
        0
    } else {
        dir_count(s[0]) + dir_count_of(s.drop_first())
    }
}

/// How many files a subtree holds; a symbolic link counts as a file.
pub open spec fn file_count(t: TreeV) -> nat
    decreases t,
{
    match t {
        TreeV::Dir(d) => file_count_of(d.entries),
        TreeV::File { .. } => 1,
        TreeV::Link { .. } => 1,
    }
}

pub open spec fn file_count_of(s: Seq<TreeV>) -> nat
    decreases s,
{
    if s.len() == 0 {
        0
    } else {
        file_count(s[0]) + file_count_of(s.drop_first())
    }
}

/// The directory count of a sequence of entries splits at any index.
pub proof fn lemma_dir_count_split(s: Seq<TreeV>, i: int)
    requires
        0 <= i <= s.len(),
    ensures
        dir_count_of(s) == dir_count_of(s.subrange(0, i)) + dir_count_of(s.skip(i)),
    decreases i,
{
    if i == 0 {
        assert(s.subrange(0, 0) =~= Seq::empty());
        assert(s.skip(0) =~= s);
    } else {
        lemma_dir_count_split(s.drop_first(), i - 1);
        assert(s.subrange(0, i).drop_first() =~= s.drop_first().subrange(0, i - 1));
        assert(s.drop_first().skip(i - 1) =~= s.skip(i));
        assert(s.subrange(0, i).len() != 0);
        assert(s.subrange(0, i)[0] == s[0]);
    }
}

/// The file count of a sequence of entries splits at any index.
pub proof fn lemma_file_count_split(s: Seq<TreeV>, i: int)
    requires
        0 <= i <= s.len(),
    ensures
        file_count_of(s) == file_count_of(s.subrange(0, i)) + file_count_of(s.skip(i)),
    decreases i,
{
    if i == 0 {
        assert(s.subrange(0, 0) =~= Seq::empty());
        assert(s.skip(0) =~= s);
    } else {
        lemma_file_count_split(s.drop_first(), i - 1);
        assert(s.subrange(0, i).drop_first() =~= s.drop_first().subrange(0, i - 1));
        assert(s.drop_first().skip(i - 1) =~= s.skip(i));
        assert(s.subrange(0, i).len() != 0);
        assert(s.subrange(0, i)[0] == s[0]);
    }
}

/// Classifies a path from the three predicates the filesystem answers,
/// checking symlink-ness first: a symbolic link is a link whatever its
/// target is, a non-link is a directory or a file by the remaining two
/// predicates, and anything else is unsupported.
pub fn classify(is_symlink: bool, is_dir: bool, is_file: bool) -> (r: Option<EntryKind>)
    ensures
        is_symlink ==> r == Some(EntryKind::Link),
        !is_symlink && is_dir ==> r == Some(EntryKind::Dir),
        !is_symlink && !is_dir && is_file ==> r == Some(EntryKind::File),
        !is_symlink && !is_dir && !is_file ==> r is None,
{
    if is_symlink {
        Some(EntryKind::Link)
    } else if is_dir {
        Some(EntryKind::Dir)
    } else if is_file {
        Some(EntryKind::File)
    } else {
        None
    }
}

} // verus!
