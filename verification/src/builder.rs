//! The tree builder: turns a raw directory snapshot into the finished tree,
//! dropping unreadable and hidden entries and sorting every directory's
//! surviving children into ascending name order.

use vstd::prelude::*;
use crate::is_hidden_name;
use crate::is_not_hidden;
use crate::node::{
    Directory, File, FileTree, Symlink, DirV, TreeV, tree_view, trees_view, tree_name, dir_view,
    lemma_trees_view_elements,
};
use crate::order::{
    sorted_by_name, sort_trees, sort_entries, lemma_sort_trees_sorted, lemma_sort_trees_multiset,
};
use crate::raw::{
    RawDir, RawChild, RawNode, RawDirV, RawChildV, RawNodeV, raw_node_name, raw_name,
    raw_child_view, raw_children_view, lemma_raw_children_view_elements,
};

verus! {

/// What one listing slot contributes to a directory's entries: one node for
/// a fully examined, non-hidden entry; nothing for a hidden, unexamined or
/// unreadable one.
pub open spec fn kept_of(c: RawChildV) -> Seq<TreeV>
    decreases c,
{
    match c {
        RawChildV::Skipped => Seq::empty(),
        RawChildV::Unexamined(_) => Seq::empty(),
        RawChildV::Loaded(n) => if is_hidden_name(raw_node_name(n)) {
            Seq::empty()
        } else {
            seq![build_node(n)]
        },
    }
}

/// The nodes a listing's slots contribute, in listing order.
pub open spec fn kept_nodes(s: Seq<RawChildV>) -> Seq<TreeV>
    decreases s,
{
    if s.len() == 0 {
        Seq::empty()
    } else {
        kept_of(s[0]) + kept_nodes(s.drop_first())
    }
}

/// The tree node one fully examined entry becomes.
pub open spec fn build_node(n: RawNodeV) -> TreeV
    decreases n,
{
    match n {
        RawNodeV::Dir(d) => TreeV::Dir(build_dir(d)),
        RawNodeV::File { name } => TreeV::File { name },
        RawNodeV::Link { name, target } => TreeV::Link { name, target },
    }
}

/// The directory a raw listing becomes: the same name, and the kept
/// children sorted into ascending name order.
pub open spec fn build_dir(d: RawDirV) -> DirV
    decreases d,
{
    DirV { name: d.name, entries: sort_trees(kept_nodes(d.children)) }
}

/// The kept nodes of a listing split at any slot index.
proof fn lemma_kept_nodes_split(s: Seq<RawChildV>, i: int)
    requires
        0 <= i <= s.len(),
    ensures
        kept_nodes(s) == kept_nodes(s.subrange(0, i)) + kept_nodes(s.skip(i)),
    decreases i,
{
    if i == 0 {
        assert(s.subrange(0, 0) =~= Seq::<RawChildV>::empty());
        assert(s.skip(0) =~= s);
        assert(kept_nodes(s) =~= kept_nodes(s.subrange(0, 0)) + kept_nodes(s.skip(0)));
    } else {
        lemma_kept_nodes_split(s.drop_first(), i - 1);
        assert(s.subrange(0, i).drop_first() =~= s.drop_first().subrange(0, i - 1));
        assert(s.drop_first().skip(i - 1) =~= s.skip(i));
        assert(s.subrange(0, i).len() != 0);
        assert(s.subrange(0, i)[0] == s[0]);
        assert(kept_nodes(s) =~= kept_nodes(s.subrange(0, i)) + kept_nodes(s.skip(i)));
    }
}

/// Extending the examined prefix of a listing by one slot appends exactly
/// that slot's contribution.
proof fn lemma_kept_nodes_snoc(s: Seq<RawChildV>, i: int)
    requires
        0 <= i < s.len(),
    ensures
        kept_nodes(s.subrange(0, i + 1)) == kept_nodes(s.subrange(0, i)) + kept_of(s[i]),
{
    let p = s.subrange(0, i + 1);
    lemma_kept_nodes_split(p, i);
    assert(p.subrange(0, i) =~= s.subrange(0, i));
    assert(p.skip(i) =~= seq![s[i]]);
    let single = seq![s[i]];
    assert(single.len() == 1);
    assert(single[0] == s[i]);
    assert(single.drop_first() =~= Seq::<RawChildV>::empty());
    assert(kept_nodes(single) == kept_of(s[i]) + kept_nodes(Seq::<RawChildV>::empty()));
    assert(kept_nodes(Seq::<RawChildV>::empty()) == Seq::<TreeV>::empty());
    assert(kept_of(s[i]) + Seq::<TreeV>::empty() =~= kept_of(s[i]));
}

/// Builds the tree for one raw directory snapshot: the entries are exactly
/// the fully examined, non-hidden children, each built into one node, in
/// ascending name order.
pub fn build(raw: &RawDir) -> (d: Directory)
    ensures
        d@ == build_dir(raw@),
    decreases *raw,
{
    let ghost cs = raw_children_view(raw.children@);
    proof {
        lemma_raw_children_view_elements(raw.children@);
    }
    let mut kept: Vec<FileTree> = Vec::new();
    let n = raw.children.len();
    let mut i: usize = 0;
    proof {
        assert(cs.subrange(0, 0) =~= Seq::<RawChildV>::empty());
        assert(trees_view(kept@) =~= kept_nodes(cs.subrange(0, 0)));
    }
    while i < n
        invariant
            n == raw.children.len(),
            cs == raw_children_view(raw.children@),
            cs.len() == n,
            forall|j: int| 0 <= j < n ==> cs[j] == raw_child_view(raw.children@[j]),
            0 <= i <= n,
            trees_view(kept@) == kept_nodes(cs.subrange(0, i as int)),
        decreases n - i,
    {
        let ghost kept_before = kept@;
        match &raw.children[i] {
            RawChild::Skipped => {},
            RawChild::Unexamined(_) => {},
            RawChild::Loaded(node) => {
                if is_not_hidden(raw_name(node).as_str()) {
                    match node {
                        RawNode::Dir(sub) => {
                            let child = build(sub);
                            kept.push(FileTree::DirNode(child));
                        },
                        RawNode::File { name, metadata } => {
                            kept.push(
                                FileTree::FileNode(File { name: name.clone(), metadata: *metadata }),
                            );
                        },
                        RawNode::Link { name, metadata, target } => {
                            kept.push(
                                FileTree::LinkNode(
                                    Symlink {
                                        name: name.clone(),
                                        metadata: *metadata,
                                        target: target.clone(),
                                    },
                                ),
                            );
                        },
                    }
                }
            },
        }
        proof {
            lemma_kept_nodes_snoc(cs, i as int);
            lemma_trees_view_elements(kept_before);
            lemma_trees_view_elements(kept@);
            assert(trees_view(kept@) =~= kept_nodes(cs.subrange(0, i + 1)));
        }
        i += 1;
    }
    proof {
        assert(cs.subrange(0, n as int) =~= cs);
    }
    let entries = sort_entries(kept);
    let d = Directory { name: raw.name.clone(), entries };
    proof {
        assert(d@ == build_dir(raw@));
    }
    d
}

/// A listing slot that contributes nothing to the tree: one the listing
/// could not read, one left unexamined, or one whose name is hidden.
pub open spec fn slot_is_dropped(c: RawChildV) -> bool {
    match c {
        RawChildV::Skipped => true,
        RawChildV::Unexamined(_) => true,
        RawChildV::Loaded(n) => is_hidden_name(raw_node_name(n)),
    }
}

/// Hidden filtering and the best-effort tier, together: a hidden,
/// unexamined or unreadable slot contributes nothing at all — the tree
/// built from the listing is the very tree built without that slot, so it
/// adds no entry, no rendered line and no count.
pub proof fn lemma_dropped_slot_contributes_nothing(d: RawDirV, i: int)
    requires
        0 <= i < d.children.len(),
        slot_is_dropped(d.children[i]),
    ensures
        build_dir(d) == build_dir(RawDirV { name: d.name, children: d.children.remove(i) }),
{
    let c = d.children;
    let c2 = c.remove(i);
    lemma_kept_nodes_split(c, i);
    assert(c.skip(i).len() > 0);
    assert(c.skip(i)[0] == c[i]);
    assert(c.skip(i).drop_first() =~= c.skip(i + 1));
    assert(kept_of(c[i]) =~= Seq::<TreeV>::empty());
    lemma_kept_nodes_split(c2, i);
    assert(c2.subrange(0, i) =~= c.subrange(0, i));
    assert(c2.skip(i) =~= c.skip(i + 1));
    assert(kept_nodes(c) =~= kept_nodes(c2));
}

/// No hidden name stands anywhere among a sequence of entries or below it.
pub open spec fn no_hidden_in(s: Seq<TreeV>) -> bool
    decreases s,
{
    if s.len() == 0 {
        true
    } else {
        &&& !is_hidden_name(tree_name(s[0]))
        &&& tree_no_hidden(s[0])
        &&& no_hidden_in(s.drop_first())
    }
}

/// A subtree renders no hidden entry at any depth.
pub open spec fn tree_no_hidden(t: TreeV) -> bool
    decreases t,
{
    match t {
        TreeV::Dir(d) => no_hidden_in(d.entries),
        _ => true,
    }
}

proof fn lemma_no_hidden_in_iff(s: Seq<TreeV>)
    ensures
        no_hidden_in(s) <==> (forall|i: int|
            0 <= i < s.len() ==> !is_hidden_name(tree_name(#[trigger] s[i])) && tree_no_hidden(
                s[i],
            )),
    decreases s,
{
    if s.len() > 0 {
        lemma_no_hidden_in_iff(s.drop_first());
        if no_hidden_in(s) {
            assert forall|i: int| 0 <= i < s.len() implies !is_hidden_name(
                tree_name(#[trigger] s[i]),
            ) && tree_no_hidden(s[i]) by {
                if i > 0 {
                    assert(s.drop_first()[i - 1] == s[i]);
                    assert(!is_hidden_name(tree_name(s.drop_first()[i - 1])) && tree_no_hidden(
                        s.drop_first()[i - 1],
                    ));
                }
            }
        }
        if forall|i: int|
            0 <= i < s.len() ==> !is_hidden_name(tree_name(#[trigger] s[i])) && tree_no_hidden(
                s[i],
            ) {
            assert forall|i: int| 0 <= i < s.drop_first().len() implies !is_hidden_name(
                tree_name(#[trigger] s.drop_first()[i]),
            ) && tree_no_hidden(s.drop_first()[i]) by {
                assert(s.drop_first()[i] == s[i + 1]);
            }
            assert(no_hidden_in(s.drop_first()));
        }
    }
}

/// Sorting only reorders, so every sorted entry is one of the originals.
proof fn lemma_sort_preserves_elems(s: Seq<TreeV>)
    ensures
        sort_trees(s).len() == s.len(),
        forall|i: int| 0 <= i < sort_trees(s).len() ==> s.contains(#[trigger] sort_trees(s)[i]),
{
    broadcast use vstd::seq_lib::group_to_multiset_ensures;

    lemma_sort_trees_multiset(s);
    assert(sort_trees(s).to_multiset().len() == sort_trees(s).len());
    assert(s.to_multiset().len() == s.len());
    assert forall|i: int| 0 <= i < sort_trees(s).len() implies s.contains(
        #[trigger] sort_trees(s)[i],
    ) by {
        assert(sort_trees(s).contains(sort_trees(s)[i]));
        assert(sort_trees(s).to_multiset().count(sort_trees(s)[i]) > 0);
    }
}

/// Every node a listing contributes is non-hidden and itself free of
/// hidden entries.
proof fn lemma_kept_nodes_no_hidden(s: Seq<RawChildV>)
    ensures
        forall|i: int|
            0 <= i < kept_nodes(s).len() ==> !is_hidden_name(
                tree_name(#[trigger] kept_nodes(s)[i]),
            ) && tree_no_hidden(kept_nodes(s)[i]),
    decreases s,
{
    if s.len() > 0 {
        lemma_kept_nodes_no_hidden(s.drop_first());
        let head = kept_of(s[0]);
        if head.len() > 0 {
            let nv = s[0]->Loaded_0;
            lemma_build_node_no_hidden(nv);
        }
        assert forall|i: int| 0 <= i < kept_nodes(s).len() implies !is_hidden_name(
            tree_name(#[trigger] kept_nodes(s)[i]),
        ) && tree_no_hidden(kept_nodes(s)[i]) by {
            if i < head.len() {
                assert(kept_nodes(s)[i] == head[i]);
            } else {
                assert(kept_nodes(s)[i] == kept_nodes(s.drop_first())[i - head.len()]);
            }
        }
    }
}

proof fn lemma_build_node_no_hidden(n: RawNodeV)
    ensures
        tree_no_hidden(build_node(n)),
    decreases n,
{
    match n {
        RawNodeV::Dir(d) => {
            lemma_build_no_hidden(d);
        },
        _ => {},
    }
}

/// Hidden filtering: no entry of a built tree is hidden, at any depth, so a
/// hidden entry contributes no line and no count to whatever is rendered
/// from the tree.
pub proof fn lemma_build_no_hidden(d: RawDirV)
    ensures
        tree_no_hidden(TreeV::Dir(build_dir(d))),
    decreases d,
{
    lemma_kept_nodes_no_hidden(d.children);
    lemma_sort_preserves_elems(kept_nodes(d.children));
    lemma_no_hidden_in_iff(build_dir(d).entries);
    assert forall|i: int| 0 <= i < build_dir(d).entries.len() implies !is_hidden_name(
        tree_name(#[trigger] build_dir(d).entries[i]),
    ) && tree_no_hidden(build_dir(d).entries[i]) by {
        let e = build_dir(d).entries[i];
        let kn = kept_nodes(d.children);
        assert(kn.contains(e));
        let j = choose|j: int| 0 <= j < kn.len() && kn[j] == e;
    }
}

/// Every directory's entries stand in ascending name order, at all depths.
pub open spec fn seq_well_ordered(s: Seq<TreeV>) -> bool
    decreases s,
{
    if s.len() == 0 {
        true
    } else {
        tree_well_ordered(s[0]) && seq_well_ordered(s.drop_first())
    }
}

/// A subtree keeps every directory's entries in ascending name order.
pub open spec fn tree_well_ordered(t: TreeV) -> bool
    decreases t,
{
    match t {
        TreeV::Dir(d) => sorted_by_name(d.entries) && seq_well_ordered(d.entries),
        _ => true,
    }
}

proof fn lemma_seq_well_ordered_iff(s: Seq<TreeV>)
    ensures
        seq_well_ordered(s) <==> (forall|i: int|
            0 <= i < s.len() ==> tree_well_ordered(#[trigger] s[i])),
    decreases s,
{
    if s.len() > 0 {
        lemma_seq_well_ordered_iff(s.drop_first());
        if seq_well_ordered(s) {
            assert forall|i: int| 0 <= i < s.len() implies tree_well_ordered(#[trigger] s[i]) by {
                if i > 0 {
                    assert(s.drop_first()[i - 1] == s[i]);
                    assert(tree_well_ordered(s.drop_first()[i - 1]));
                }
            }
        }
        if forall|i: int| 0 <= i < s.len() ==> tree_well_ordered(#[trigger] s[i]) {
            assert forall|i: int| 0 <= i < s.drop_first().len() implies tree_well_ordered(
                #[trigger] s.drop_first()[i],
            ) by {
                assert(s.drop_first()[i] == s[i + 1]);
            }
            assert(seq_well_ordered(s.drop_first()));
        }
    }
}

proof fn lemma_kept_nodes_well_ordered(s: Seq<RawChildV>)
    ensures
        forall|i: int|
            0 <= i < kept_nodes(s).len() ==> tree_well_ordered(#[trigger] kept_nodes(s)[i]),
    decreases s,
{
    if s.len() > 0 {
        lemma_kept_nodes_well_ordered(s.drop_first());
        let head = kept_of(s[0]);
        if head.len() > 0 {
            let nv = s[0]->Loaded_0;
            lemma_build_node_well_ordered(nv);
        }
        assert forall|i: int| 0 <= i < kept_nodes(s).len() implies tree_well_ordered(
            #[trigger] kept_nodes(s)[i],
        ) by {
            if i < head.len() {
                assert(kept_nodes(s)[i] == head[i]);
            } else {
                assert(kept_nodes(s)[i] == kept_nodes(s.drop_first())[i - head.len()]);
            }
        }
    }
}

proof fn lemma_build_node_well_ordered(n: RawNodeV)
    ensures
        tree_well_ordered(build_node(n)),
    decreases n,
{
    match n {
        RawNodeV::Dir(d) => {
            lemma_build_well_ordered(d);
        },
        _ => {},
    }
}

/// Ordering: a built tree keeps every directory's children in strict
/// ordinal ascending order by name, at all depths.
pub proof fn lemma_build_well_ordered(d: RawDirV)
    ensures
        tree_well_ordered(TreeV::Dir(build_dir(d))),
    decreases d,
{
    lemma_kept_nodes_well_ordered(d.children);
    lemma_sort_trees_sorted(kept_nodes(d.children));
    lemma_sort_preserves_elems(kept_nodes(d.children));
    lemma_seq_well_ordered_iff(build_dir(d).entries);
    assert forall|i: int| 0 <= i < build_dir(d).entries.len() implies tree_well_ordered(
        #[trigger] build_dir(d).entries[i],
    ) by {
        let e = build_dir(d).entries[i];
        let kn = kept_nodes(d.children);
        assert(kn.contains(e));
        let j = choose|j: int| 0 <= j < kn.len() && kn[j] == e;
    }
}

/// Idempotence: building from the same unchanged snapshot gives
/// structurally identical trees.
pub proof fn lemma_build_deterministic(a: RawDirV, b: RawDirV)
    requires
        a == b,
    ensures
        build_dir(a) == build_dir(b),
{
}

} // verus!
