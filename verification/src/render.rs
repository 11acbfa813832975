//! The tree renderer: a depth-first pass over a finished tree that emits
//! one line per entry, with box-drawing connector glyphs chosen by whether
//! an entry is the last among its siblings, and that counts the directories
//! and files it visits. The pass is pure: it does no filesystem work and
//! never changes the tree.

use vstd::prelude::*;
use crate::node::{
    Directory, FileTree, TreeV, EntryKind, dir_view, tree_view, trees_view, dir_count,
    dir_count_of, file_count, file_count_of, lemma_dir_count_split, lemma_file_count_split,
    lemma_trees_view_elements,
};

verus! {

/// Connector for an entry with further siblings after it.
pub open spec fn branch_glyph() -> Seq<char> {
    "├── "@
}

/// Connector for the last entry of its level.
pub open spec fn corner_glyph() -> Seq<char> {
    "└── "@
}

/// Continuation under an ancestor that still has siblings to come.
pub open spec fn vertical_glyph() -> Seq<char> {
    "│   "@
}

/// Continuation under an ancestor that was the last of its level.
pub open spec fn blank_glyph() -> Seq<char> {
    "    "@
}

/// Separates a link's name from its target.
pub open spec fn arrow_glyph() -> Seq<char> {
    " -> "@
}

/// One rendered line: the run of glyphs standing before the name, the
/// entry's name, what kind of entry it is, and the link target if it is a
/// link. Keeping the parts separate lets a caller style the name without
/// re-deriving the layout.
#[derive(Debug, PartialEq, Eq)]
pub struct Line {
    pub prefix: String,
    pub name: String,
    pub kind: EntryKind,
    pub target: Option<String>,
}

/// The mathematical view of a rendered line.
pub struct LineV {
    pub prefix: Seq<char>,
    pub name: Seq<char>,
    pub kind: EntryKind,
    pub target: Option<Seq<char>>,
}

impl View for Line {
    type V = LineV;

    open spec fn view(&self) -> LineV {
        LineV {
            prefix: self.prefix@,
            name: self.name@,
            kind: self.kind,
            target: match self.target {
                Option::Some(t) => Option::Some(t@),
                Option::None => Option::None,
            },
        }
    }
}

pub open spec fn lines_view(s: Seq<Line>) -> Seq<LineV>
    decreases s,
{
    if s.len() == 0 {
        Seq::empty()
    } else {
        seq![s[0]@] + lines_view(s.drop_first())
    }
}

/// `lines_view` maps the line view over the sequence, element by element.
pub proof fn lemma_lines_view_elements(s: Seq<Line>)
    ensures
        lines_view(s).len() == s.len(),
        forall|i: int| 0 <= i < s.len() ==> lines_view(s)[i] == s[i]@,
    decreases s,
{
    if s.len() > 0 {
        lemma_lines_view_elements(s.drop_first());
    }
}

/// The full text of one line: prefix, then name, then ` -> target` for a
/// link and nothing more for anything else.
pub open spec fn line_text(l: LineV) -> Seq<char> {
    l.prefix + l.name + match l.target {
        Option::Some(t) => arrow_glyph() + t,
        Option::None => Seq::empty(),
    }
}

impl Line {
    /// Assembles the line's full text.
    pub fn text(&self) -> (r: String)
        ensures
            r@ == line_text(self@),
    {
        let mut s = self.prefix.clone();
        s.append(self.name.as_str());
        match &self.target {
            Option::Some(t) => {
                s.append(" -> ");
                s.append(t.as_str());
                proof {
                    assert(s@ =~= line_text(self@));
                }
            },
            Option::None => {
                proof {
                    assert(s@ =~= line_text(self@));
                }
            },
        }
        s
    }
}

/// The lines one entry contributes: its own line, and, for a directory,
/// the lines of its children under an extended prefix. A link contributes
/// exactly one line and is never expanded.
pub open spec fn render_node(t: TreeV, prefix: Seq<char>, last: bool) -> Seq<LineV>
    decreases t,
{
    let conn = prefix + (if last {
        corner_glyph()
    } else {
        branch_glyph()
    });
    match t {
        TreeV::Dir(d) => seq![
            LineV { prefix: conn, name: d.name, kind: EntryKind::Dir, target: Option::None },
        ] + render_entries(
            d.entries,
            prefix + (if last {
                blank_glyph()
            } else {
                vertical_glyph()
            }),
        ),
        TreeV::File { name } => seq![
            LineV { prefix: conn, name, kind: EntryKind::File, target: Option::None },
        ],
        TreeV::Link { name, target } => seq![
            LineV { prefix: conn, name, kind: EntryKind::Link, target: Option::Some(target) },
        ],
    }
}

/// The lines a level's entries contribute, in order; only the last entry
/// of the level takes the corner connector.
pub open spec fn render_entries(s: Seq<TreeV>, prefix: Seq<char>) -> Seq<LineV>
    decreases s,
{
    if s.len() == 0 {
        Seq::empty()
    } else {
        render_node(s[0], prefix, s.len() == 1) + render_entries(s.drop_first(), prefix)
    }
}

/// Peeling one entry off the remaining run of a level.
proof fn lemma_render_entries_peel(s: Seq<TreeV>, prefix: Seq<char>, i: int)
    requires
        0 <= i < s.len(),
    ensures
        render_entries(s.skip(i), prefix) == render_node(s[i], prefix, i == s.len() - 1)
            + render_entries(s.skip(i + 1), prefix),
{
    assert(s.skip(i).len() == s.len() - i);
    assert(s.skip(i)[0] == s[i]);
    assert(s.skip(i).drop_first() =~= s.skip(i + 1));
}

/// Classification priority: a symbolic link is rendered as one leaf line
/// carrying its target, is never expanded, and counts as a file, never as
/// a directory.
pub proof fn lemma_link_is_leaf(name: Seq<char>, target: Seq<char>, prefix: Seq<char>, last: bool)
    ensures
        render_node(TreeV::Link { name, target }, prefix, last) == seq![
            LineV {
                prefix: prefix + (if last {
                    corner_glyph()
                } else {
                    branch_glyph()
                }),
                name,
                kind: EntryKind::Link,
                target: Option::Some(target),
            },
        ],
        dir_count(TreeV::Link { name, target }) == 0,
        file_count(TreeV::Link { name, target }) == 1,
{
}

/// One level's counts split off the entry at any index.
proof fn lemma_counts_snoc(s: Seq<TreeV>, i: int)
    requires
        0 <= i < s.len(),
    ensures
        dir_count_of(s.subrange(0, i + 1)) == dir_count_of(s.subrange(0, i)) + dir_count(s[i]),
        file_count_of(s.subrange(0, i + 1)) == file_count_of(s.subrange(0, i)) + file_count(s[i]),
{
    let p = s.subrange(0, i + 1);
    lemma_dir_count_split(p, i);
    lemma_file_count_split(p, i);
    assert(p.subrange(0, i) =~= s.subrange(0, i));
    assert(p.skip(i) =~= seq![s[i]]);
    let single = seq![s[i]];
    assert(single.drop_first() =~= Seq::<TreeV>::empty());
    assert(dir_count_of(single) == dir_count(s[i]) + dir_count_of(Seq::<TreeV>::empty()));
    assert(file_count_of(single) == file_count(s[i]) + file_count_of(Seq::<TreeV>::empty()));
}

/// The depth-first visit of one directory: appends the lines of its
/// entries and returns how many directories (the visited one included) and
/// files stand in its subtree, or nothing where a count would not fit in
/// the machine's word.
fn visit(node: &Directory, prefix: &str, out: &mut Vec<Line>) -> (counts: Option<(usize, usize)>)
    ensures
        counts matches Some(c) ==> ({
            &&& lines_view(final(out)@) == lines_view(old(out)@) + render_entries(
                dir_view(*node).entries,
                prefix@,
            )
            &&& c.0 == dir_count(TreeV::Dir(dir_view(*node)))
            &&& c.1 == file_count(TreeV::Dir(dir_view(*node)))
        }),
        counts is None ==> dir_count(TreeV::Dir(dir_view(*node))) > usize::MAX || file_count(
            TreeV::Dir(dir_view(*node)),
        ) > usize::MAX,
    decreases *node,
{
    let ghost ev = trees_view(node.entries@);
    let ghost base = out@;
    proof {
        lemma_trees_view_elements(node.entries@);
    }
    let mut dirs: usize = 1;
    let mut files: usize = 0;
    let n = node.entries.len();
    let mut i: usize = 0;
    proof {
        assert(ev.subrange(0, 0) =~= Seq::<TreeV>::empty());
        assert(ev.skip(0) =~= ev);
    }
    while i < n
        invariant
            n == node.entries.len(),
            ev == trees_view(node.entries@),
            ev.len() == n,
            forall|j: int| 0 <= j < n ==> ev[j] == tree_view(node.entries@[j]),
            dir_count(TreeV::Dir(dir_view(*node))) == 1 + dir_count_of(ev),
            file_count(TreeV::Dir(dir_view(*node))) == file_count_of(ev),
            0 <= i <= n,
            dirs == 1 + dir_count_of(ev.subrange(0, i as int)),
            files == file_count_of(ev.subrange(0, i as int)),
            base == old(out)@,
            lines_view(out@) + render_entries(ev.skip(i as int), prefix@) == lines_view(base)
                + render_entries(ev, prefix@),
        decreases n - i,
    {
        proof {
            lemma_counts_snoc(ev, i as int);
            lemma_dir_count_split(ev, i + 1);
            lemma_file_count_split(ev, i + 1);
            lemma_render_entries_peel(ev, prefix@, i as int);
        }
        let ghost out_prev = out@;
        let last = i == n - 1;
        let mut line_prefix = prefix.to_owned();
        line_prefix.append(if last { "└── " } else { "├── " });
        let e = &node.entries[i];
        match e {
            FileTree::DirNode(d) => {
                out.push(
                    Line {
                        prefix: line_prefix,
                        name: d.name.clone(),
                        kind: EntryKind::Dir,
                        target: Option::None,
                    },
                );
                proof {
                    lemma_lines_view_elements(out_prev);
                    lemma_lines_view_elements(out@);
                    assert(lines_view(out@) =~= lines_view(out_prev) + seq![out@.last()@]);
                }
                let mut child_prefix = prefix.to_owned();
                child_prefix.append(if last { "    " } else { "│   " });
                let sub = match visit(d, child_prefix.as_str(), out) {
                    Some(c) => c,
                    None => {
                        proof {
                            assert(ev[i as int] == TreeV::Dir(dir_view(*d)));
                        }
                        return None;
                    },
                };
                dirs = match dirs.checked_add(sub.0) {
                    Some(v) => v,
                    None => {
                        proof {
                            assert(ev[i as int] == TreeV::Dir(dir_view(*d)));
                        }
                        return None;
                    },
                };
                files = match files.checked_add(sub.1) {
                    Some(v) => v,
                    None => {
                        proof {
                            assert(ev[i as int] == TreeV::Dir(dir_view(*d)));
                        }
                        return None;
                    },
                };
                proof {
                    assert(ev[i as int] == TreeV::Dir(dir_view(*d)));
                    assert(lines_view(out@) + render_entries(ev.skip(i + 1), prefix@)
                        =~= lines_view(base) + render_entries(ev, prefix@));
                }
            },
            FileTree::FileNode(f) => {
                out.push(
                    Line {
                        prefix: line_prefix,
                        name: f.name.clone(),
                        kind: EntryKind::File,
                        target: Option::None,
                    },
                );
                files = match files.checked_add(1) {
                    Some(v) => v,
                    None => {
                        proof {
                            assert(ev[i as int] == TreeV::File { name: f.name@ });
                        }
                        return None;
                    },
                };
                proof {
                    lemma_lines_view_elements(out_prev);
                    lemma_lines_view_elements(out@);
                    assert(lines_view(out@) =~= lines_view(out_prev) + seq![out@.last()@]);
                    assert(ev[i as int] == TreeV::File { name: f.name@ });
                    assert(lines_view(out@) + render_entries(ev.skip(i + 1), prefix@)
                        =~= lines_view(base) + render_entries(ev, prefix@));
                }
            },
            FileTree::LinkNode(l) => {
                out.push(
                    Line {
                        prefix: line_prefix,
                        name: l.name.clone(),
                        kind: EntryKind::Link,
                        target: Option::Some(l.target.clone()),
                    },
                );
                files = match files.checked_add(1) {
                    Some(v) => v,
                    None => {
                        proof {
                            assert(ev[i as int] == TreeV::Link { name: l.name@, target: l.target@ });
                        }
                        return None;
                    },
                };
                proof {
                    lemma_lines_view_elements(out_prev);
                    lemma_lines_view_elements(out@);
                    assert(lines_view(out@) =~= lines_view(out_prev) + seq![out@.last()@]);
                    assert(ev[i as int] == TreeV::Link { name: l.name@, target: l.target@ });
                    assert(lines_view(out@) + render_entries(ev.skip(i + 1), prefix@)
                        =~= lines_view(base) + render_entries(ev, prefix@));
                }
            },
        }
        i += 1;
    }
    proof {
        assert(ev.subrange(0, n as int) =~= ev);
        assert(ev.skip(n as int) =~= Seq::<TreeV>::empty());
        assert(lines_view(out@) =~= lines_view(out@) + render_entries(
            ev.skip(n as int),
            prefix@,
        ));
    }
    Some((dirs, files))
}

/// The line the root label contributes, before any entry.
pub open spec fn root_line(label: Seq<char>) -> LineV {
    LineV { prefix: Seq::empty(), name: label, kind: EntryKind::Dir, target: Option::None }
}

/// Renders a finished tree: the root label on the first line, then one
/// line per entry depth-first, plus the aggregate counts, the root
/// directory counted and every link counted as a file. Returns nothing
/// only where a count would not fit in the machine's word.
pub fn render_tree(root: &str, tree: &Directory) -> (res: Option<(Vec<Line>, usize, usize)>)
    ensures
        res matches Some(r) ==> ({
            &&& lines_view(r.0@) == seq![root_line(root@)] + render_entries(
                tree@.entries,
                Seq::empty(),
            )
            &&& r.1 == dir_count(TreeV::Dir(tree@))
            &&& r.2 == file_count(TreeV::Dir(tree@))
        }),
        res is Some <==> (dir_count(TreeV::Dir(tree@)) <= usize::MAX && file_count(
            TreeV::Dir(tree@),
        ) <= usize::MAX),
{
    let mut out: Vec<Line> = Vec::new();
    out.push(
        Line {
            prefix: String::new(),
            name: root.to_owned(),
            kind: EntryKind::Dir,
            target: Option::None,
        },
    );
    proof {
        lemma_lines_view_elements(out@);
        assert(lines_view(out@) =~= seq![root_line(root@)]);
        reveal_strlit("");
        assert(""@ =~= Seq::<char>::empty());
    }
    match visit(tree, "", &mut out) {
        Some(counts) => {
            proof {
                assert(lines_view(out@) =~= seq![root_line(root@)] + render_entries(
                    tree@.entries,
                    Seq::empty(),
                ));
            }
            Some((out, counts.0, counts.1))
        },
        None => None,
    }
}

/// One newline ends every rendered line.
pub open spec fn newline_glyph() -> Seq<char> {
    "\n"@
}

/// The rendered text of a run of lines: each line's text in order, each
/// ended by a newline.
pub open spec fn joined_text(lines: Seq<LineV>) -> Seq<char>
    decreases lines,
{
    if lines.len() == 0 {
        Seq::empty()
    } else {
        line_text(lines[0]) + newline_glyph() + joined_text(lines.drop_first())
    }
}

/// Peeling one line off the remaining run.
proof fn lemma_joined_text_peel(lines: Seq<LineV>, i: int)
    requires
        0 <= i < lines.len(),
    ensures
        joined_text(lines.skip(i)) == line_text(lines[i]) + newline_glyph() + joined_text(
            lines.skip(i + 1),
        ),
{
    assert(lines.skip(i).len() > 0);
    assert(lines.skip(i)[0] == lines[i]);
    assert(lines.skip(i).drop_first() =~= lines.skip(i + 1));
}

/// Renders a finished tree to one block of text: the root label line, then
/// one line per entry depth-first, each ended by a newline. Returns
/// nothing only where a count of the tree would not fit in the machine's
/// word.
pub fn render_text(root: &str, tree: &Directory) -> (res: Option<String>)
    ensures
        res matches Some(text) ==> text@ == joined_text(
            seq![root_line(root@)] + render_entries(tree@.entries, Seq::empty()),
        ),
        res is Some <==> (dir_count(TreeV::Dir(tree@)) <= usize::MAX && file_count(
            TreeV::Dir(tree@),
        ) <= usize::MAX),
{
    match render_tree(root, tree) {
        Some((lines, _, _)) => {
            let ghost lv = lines_view(lines@);
            proof {
                lemma_lines_view_elements(lines@);
            }
            let mut text = String::new();
            let n = lines.len();
            let mut i: usize = 0;
            proof {
                assert(lv.skip(0) =~= lv);
                assert(text@ + joined_text(lv.skip(0)) =~= joined_text(lv));
            }
            while i < n
                invariant
                    n == lines.len(),
                    lv == lines_view(lines@),
                    lv.len() == n,
                    forall|j: int| 0 <= j < n ==> lv[j] == lines@[j]@,
                    0 <= i <= n,
                    text@ + joined_text(lv.skip(i as int)) == joined_text(lv),
                decreases n - i,
            {
                proof {
                    lemma_joined_text_peel(lv, i as int);
                }
                let line = &lines[i];
                let t = line.text();
                text.append(t.as_str());
                text.append("\n");
                proof {
                    assert(text@ + joined_text(lv.skip(i + 1)) =~= joined_text(lv));
                }
                i += 1;
            }
            proof {
                assert(lv.skip(n as int) =~= Seq::<LineV>::empty());
                assert(text@ =~= joined_text(lv));
            }
            Some(text)
        },
        None => None,
    }
}

} // verus!
