//! Sibling ordering: strict ordinal (codepoint-wise) comparison of entry
//! names, and the sorting pass that puts a directory's children into
//! ascending name order before they enter the tree.

use vstd::prelude::*;
use vstd::multiset::Multiset;
use core::cmp::Ordering;
use crate::node::{FileTree, TreeV, tree_view, trees_view, tree_name, lemma_trees_view_elements};

verus! {

/// Ordinal (codepoint-by-codepoint) lexicographic "less or equal" on names.
/// No locale awareness and no case folding: `"A" <= "a"` and `"c10" <= "c2"`.
pub open spec fn lex_le(a: Seq<char>, b: Seq<char>) -> bool
    decreases a.len(),
{
    if a.len() == 0 {
        true
    } else if b.len() == 0 {
        false
    } else if a[0] == b[0] {
        lex_le(a.drop_first(), b.drop_first())
    } else {
        (a[0] as u32) < (b[0] as u32)
    }
}

/// Any two names are comparable.
pub proof fn lemma_lex_le_total(a: Seq<char>, b: Seq<char>)
    ensures
        lex_le(a, b) || lex_le(b, a),
    decreases a.len(),
{
    if a.len() == 0 {
    } else if b.len() == 0 {
    } else if a[0] == b[0] {
        lemma_lex_le_total(a.drop_first(), b.drop_first());
    } else {
        vstd::utf8::char_u32_cast(a[0], a[0] as u32);
        vstd::utf8::char_u32_cast(b[0], b[0] as u32);
        assert(a[0] as u32 != b[0] as u32);
    }
}

/// The order is transitive.
pub proof fn lemma_lex_le_trans(a: Seq<char>, b: Seq<char>, c: Seq<char>)
    requires
        lex_le(a, b),
        lex_le(b, c),
    ensures
        lex_le(a, c),
    decreases a.len(),
{
    if a.len() == 0 {
    } else {
        if a[0] == b[0] && b[0] == c[0] {
            lemma_lex_le_trans(a.drop_first(), b.drop_first(), c.drop_first());
        }
    }
}

/// The order is antisymmetric: names below each other are equal.
pub proof fn lemma_lex_le_antisym(a: Seq<char>, b: Seq<char>)
    requires
        lex_le(a, b),
        lex_le(b, a),
    ensures
        a == b,
    decreases a.len(),
{
    if a.len() == 0 {
        assert(b.len() == 0);
        assert(a =~= b);
    } else {
        assert(b.len() > 0);
        assert(a[0] == b[0]);
        lemma_lex_le_antisym(a.drop_first(), b.drop_first());
        assert(a.drop_first().len() == b.drop_first().len());
        assert(a.len() == b.len());
        assert forall|i: int| 0 <= i < a.len() implies a[i] == b[i] by {
            if i > 0 {
                assert(a[i] == a.drop_first()[i - 1]);
                assert(b[i] == b.drop_first()[i - 1]);
                assert(a.drop_first()[i - 1] == b.drop_first()[i - 1]);
            }
        }
        assert(a =~= b);
    }
}

/// Comparing two names that agree on their first `i` characters comes down
/// to comparing what follows.
proof fn lemma_lex_le_skip(a: Seq<char>, b: Seq<char>, i: int)
    requires
        0 <= i <= a.len(),
        i <= b.len(),
        forall|j: int| 0 <= j < i ==> a[j] == b[j],
    ensures
        lex_le(a, b) == lex_le(a.skip(i), b.skip(i)),
    decreases i,
{
    if i == 0 {
        assert(a.skip(0) =~= a);
        assert(b.skip(0) =~= b);
    } else {
        assert(a[0] == b[0]);
        lemma_lex_le_skip(a.drop_first(), b.drop_first(), i - 1);
        assert(a.drop_first().skip(i - 1) =~= a.skip(i));
        assert(b.drop_first().skip(i - 1) =~= b.skip(i));
    }
}

/// Compares two names, returning whether `a` sorts at or before `b`.
pub fn name_le(a: &str, b: &str) -> (r: bool)
    ensures
        r == lex_le(a@, b@),
{
    let la: usize = a.unicode_len();
    let lb: usize = b.unicode_len();
    let mut i: usize = 0;
    while i < la && i < lb
        invariant
            la == a@.len(),
            lb == b@.len(),
            0 <= i <= la,
            i <= lb,
            forall|j: int| 0 <= j < i ==> a@[j] == b@[j],
        decreases la - i,
    {
        let ca = a.get_char(i);
        let cb = b.get_char(i);
        if ca != cb {
            proof {
                lemma_lex_le_skip(a@, b@, i as int);
                assert(a@.skip(i as int)[0] == a@[i as int]);
                assert(b@.skip(i as int)[0] == b@[i as int]);
            }
            return (ca as u32) < (cb as u32);
        }
        i += 1;
    }
    proof {
        lemma_lex_le_skip(a@, b@, i as int);
        if i < lb {
            assert(b@.skip(i as int).len() > 0);
        }
    }
    la <= lb
}

/// The name a node carries.
pub fn node_name<'a>(t: &'a FileTree) -> (r: &'a String)
    ensures
        r@ == tree_name(t@),
{
    match t {
        FileTree::DirNode(d) => &d.name,
        FileTree::FileNode(f) => &f.name,
        FileTree::LinkNode(l) => &l.name,
    }
}

/// Three-way comparison of two nodes by name, the order the builder sorts
/// siblings into.
pub fn sort_by_name(a: &FileTree, b: &FileTree) -> (r: Ordering)
    ensures
        (r == Ordering::Less || r == Ordering::Equal) <==> lex_le(
            tree_name(a@),
            tree_name(b@),
        ),
        (r == Ordering::Greater || r == Ordering::Equal) <==> lex_le(
            tree_name(b@),
            tree_name(a@),
        ),
        r == Ordering::Equal <==> tree_name(a@) == tree_name(b@),
{
    let le_ab = name_le(node_name(a).as_str(), node_name(b).as_str());
    let le_ba = name_le(node_name(b).as_str(), node_name(a).as_str());
    proof {
        lemma_lex_le_total(tree_name(a@), tree_name(b@));
        if le_ab && le_ba {
            lemma_lex_le_antisym(tree_name(a@), tree_name(b@));
        }
    }
    if le_ab && le_ba {
        Ordering::Equal
    } else if le_ab {
        Ordering::Less
    } else {
        Ordering::Greater
    }
}

/// Entries stand in ascending name order.
pub open spec fn sorted_by_name(s: Seq<TreeV>) -> bool {
    forall|i: int, j: int|
        0 <= i < j < s.len() ==> lex_le(tree_name(#[trigger] s[i]), tree_name(#[trigger] s[j]))
}

/// Where a node lands when it is placed into an already sorted run: before
/// the first entry whose name sorts strictly after its own.
pub open spec fn insert_sorted(s: Seq<TreeV>, x: TreeV) -> Seq<TreeV>
    decreases s.len(),
{
    if s.len() == 0 {
        seq![x]
    } else if lex_le(tree_name(s[0]), tree_name(x)) {
        seq![s[0]] + insert_sorted(s.drop_first(), x)
    } else {
        seq![x] + s
    }
}

/// The builder's sorting pass: every entry placed in turn into a sorted run.
pub open spec fn sort_trees(s: Seq<TreeV>) -> Seq<TreeV>
    decreases s.len(),
{
    if s.len() == 0 {
        Seq::empty()
    } else {
        insert_sorted(sort_trees(s.drop_first()), s[0])
    }
}

/// Every element of an insertion's result is the inserted node or one of
/// the run's own.
proof fn lemma_insert_sorted_elems(s: Seq<TreeV>, x: TreeV)
    ensures
        insert_sorted(s, x).len() == s.len() + 1,
        forall|k: int|
            0 <= k < insert_sorted(s, x).len() ==> (#[trigger] insert_sorted(s, x)[k] == x
                || s.contains(insert_sorted(s, x)[k])),
    decreases s.len(),
{
    if s.len() == 0 {
    } else if lex_le(tree_name(s[0]), tree_name(x)) {
        lemma_insert_sorted_elems(s.drop_first(), x);
        assert forall|k: int| 0 <= k < insert_sorted(s, x).len() implies (#[trigger] insert_sorted(
            s,
            x,
        )[k] == x || s.contains(insert_sorted(s, x)[k])) by {
            let r = insert_sorted(s, x);
            if k == 0 {
                assert(r[0] == s[0]);
                assert(s.contains(s[0]));
            } else {
                let rr = insert_sorted(s.drop_first(), x);
                assert(r[k] == rr[k - 1]);
                if rr[k - 1] != x {
                    let m = choose|m: int|
                        0 <= m < s.drop_first().len() && s.drop_first()[m] == rr[k - 1];
                    assert(s[m + 1] == rr[k - 1]);
                }
            }
        }
    }
}

/// Insertion keeps a sorted run sorted.
pub proof fn lemma_insert_sorted_sorted(s: Seq<TreeV>, x: TreeV)
    requires
        sorted_by_name(s),
    ensures
        sorted_by_name(insert_sorted(s, x)),
    decreases s.len(),
{
    if s.len() == 0 {
    } else if lex_le(tree_name(s[0]), tree_name(x)) {
        assert(sorted_by_name(s.drop_first())) by {
            assert forall|i: int, j: int| 0 <= i < j < s.drop_first().len() implies lex_le(
                tree_name(#[trigger] s.drop_first()[i]),
                tree_name(#[trigger] s.drop_first()[j]),
            ) by {
                assert(s.drop_first()[i] == s[i + 1]);
                assert(s.drop_first()[j] == s[j + 1]);
            }
        }
        lemma_insert_sorted_sorted(s.drop_first(), x);
        lemma_insert_sorted_elems(s.drop_first(), x);
        let r = insert_sorted(s, x);
        let rr = insert_sorted(s.drop_first(), x);
        assert forall|i: int, j: int| 0 <= i < j < r.len() implies lex_le(
            tree_name(#[trigger] r[i]),
            tree_name(#[trigger] r[j]),
        ) by {
            if i == 0 {
                assert(r[0] == s[0]);
                assert(r[j] == rr[j - 1]);
                if rr[j - 1] == x {
                } else {
                    let m = choose|m: int|
                        0 <= m < s.drop_first().len() && s.drop_first()[m] == rr[j - 1];
                    assert(s[m + 1] == rr[j - 1]);
                }
            } else {
                assert(r[i] == rr[i - 1]);
                assert(r[j] == rr[j - 1]);
            }
        }
    } else {
        lemma_lex_le_total(tree_name(s[0]), tree_name(x));
        let r = insert_sorted(s, x);
        assert forall|i: int, j: int| 0 <= i < j < r.len() implies lex_le(
            tree_name(#[trigger] r[i]),
            tree_name(#[trigger] r[j]),
        ) by {
            if i == 0 {
                assert(r[0] == x);
                assert(r[j] == s[j - 1]);
                if j - 1 > 0 {
                    lemma_lex_le_trans(tree_name(x), tree_name(s[0]), tree_name(s[j - 1]));
                }
            } else {
                assert(r[i] == s[i - 1]);
                assert(r[j] == s[j - 1]);
            }
        }
    }
}

/// Insertion adds exactly the inserted node: the result holds the same
/// nodes as the run, plus that one.
pub proof fn lemma_insert_sorted_multiset(s: Seq<TreeV>, x: TreeV)
    ensures
        insert_sorted(s, x).to_multiset() == s.to_multiset().insert(x),
    decreases s.len(),
{
    broadcast use vstd::seq_lib::group_to_multiset_ensures;

    if s.len() == 0 {
        assert(seq![x] =~= Seq::<TreeV>::empty().push(x));
        assert(Seq::<TreeV>::empty().to_multiset() =~= Multiset::<TreeV>::empty()) by {
            let m = Seq::<TreeV>::empty().to_multiset();
            assert forall|e: TreeV| m.count(e) == Multiset::<TreeV>::empty().count(e) by {
                assert(!Seq::<TreeV>::empty().contains(e));
            }
        }
        assert(insert_sorted(s, x).to_multiset() =~= s.to_multiset().insert(x));
    } else if lex_le(tree_name(s[0]), tree_name(x)) {
        lemma_insert_sorted_multiset(s.drop_first(), x);
        let rest = s.drop_first();
        let rr = insert_sorted(rest, x);
        vstd::seq_lib::lemma_multiset_commutative(seq![s[0]], rr);
        assert(s =~= seq![s[0]] + rest);
        vstd::seq_lib::lemma_multiset_commutative(seq![s[0]], rest);
        assert(insert_sorted(s, x).to_multiset() =~= s.to_multiset().insert(x));
    } else {
        vstd::seq_lib::lemma_multiset_commutative(seq![x], s);
        assert(seq![x] =~= Seq::<TreeV>::empty().push(x));
        assert(Seq::<TreeV>::empty().to_multiset() =~= Multiset::<TreeV>::empty()) by {
            let m = Seq::<TreeV>::empty().to_multiset();
            assert forall|e: TreeV| m.count(e) == Multiset::<TreeV>::empty().count(e) by {
                assert(!Seq::<TreeV>::empty().contains(e));
            }
        }
        assert(insert_sorted(s, x).to_multiset() =~= s.to_multiset().insert(x));
    }
}

/// The sorting pass leaves the entries in ascending name order.
pub proof fn lemma_sort_trees_sorted(s: Seq<TreeV>)
    ensures
        sorted_by_name(sort_trees(s)),
    decreases s.len(),
{
    if s.len() > 0 {
        lemma_sort_trees_sorted(s.drop_first());
        lemma_insert_sorted_sorted(sort_trees(s.drop_first()), s[0]);
    }
}

/// The sorting pass only reorders: the same nodes come out that went in.
pub proof fn lemma_sort_trees_multiset(s: Seq<TreeV>)
    ensures
        sort_trees(s).to_multiset() == s.to_multiset(),
    decreases s.len(),
{
    broadcast use vstd::seq_lib::group_to_multiset_ensures;

    if s.len() > 0 {
        lemma_sort_trees_multiset(s.drop_first());
        lemma_insert_sorted_multiset(sort_trees(s.drop_first()), s[0]);
        assert(s.remove(0) =~= s.drop_first());
        assert(s.remove(0).to_multiset() =~= s.to_multiset().remove(s[0]));
        assert(s.contains(s[0]));
        assert(s.to_multiset().count(s[0]) > 0);
        assert(s.to_multiset().remove(s[0]).insert(s[0]) =~= s.to_multiset());
        assert(sort_trees(s).to_multiset() =~= s.to_multiset());
    }
}

/// Where an insertion point was found by scanning, the insertion is the
/// plain sequence insertion at that index.
proof fn lemma_insert_sorted_at(s: Seq<TreeV>, x: TreeV, j: int)
    requires
        0 <= j <= s.len(),
        forall|k: int| 0 <= k < j ==> lex_le(tree_name(#[trigger] s[k]), tree_name(x)),
        j < s.len() ==> !lex_le(tree_name(s[j]), tree_name(x)),
    ensures
        insert_sorted(s, x) == s.insert(j, x),
    decreases j,
{
    if j == 0 {
        if s.len() == 0 {
            assert(seq![x] =~= s.insert(0, x));
        } else {
            assert(!lex_le(tree_name(s[0]), tree_name(x)));
            assert(seq![x] + s =~= s.insert(0, x));
        }
    } else {
        assert(lex_le(tree_name(s[0]), tree_name(x)));
        lemma_insert_sorted_at(s.drop_first(), x, j - 1);
        assert(seq![s[0]] + s.drop_first().insert(j - 1, x) =~= s.insert(j, x));
    }
}

/// Places a node into a name-sorted vector, keeping it sorted.
fn insert_by_name(v: &mut Vec<FileTree>, x: FileTree)
    ensures
        trees_view(final(v)@) == insert_sorted(trees_view(old(v)@), tree_view(x)),
{
    let ghost s = trees_view(old(v)@);
    let ghost xv = tree_view(x);
    proof {
        lemma_trees_view_elements(old(v)@);
    }
    let mut j: usize = 0;
    while j < v.len()
        invariant
            v == old(v),
            s == trees_view(v@),
            s.len() == v@.len(),
            forall|i: int| 0 <= i < v@.len() ==> s[i] == tree_view(v@[i]),
            xv == tree_view(x),
            0 <= j <= v.len(),
            forall|k: int| 0 <= k < j ==> lex_le(tree_name(#[trigger] s[k]), tree_name(xv)),
        ensures
            0 <= j <= v.len(),
            forall|k: int| 0 <= k < j ==> lex_le(tree_name(#[trigger] s[k]), tree_name(xv)),
            j < v.len() ==> !lex_le(tree_name(s[j as int]), tree_name(xv)),
        decreases v.len() - j,
    {
        let c = name_le(node_name(&v[j]).as_str(), node_name(&x).as_str());
        if !c {
            break;
        }
        j += 1;
    }
    proof {
        lemma_insert_sorted_at(s, xv, j as int);
    }
    v.insert(j, x);
    proof {
        lemma_trees_view_elements(v@);
        assert(trees_view(v@) =~= s.insert(j as int, xv)) by {
            assert(v@ == old(v)@.insert(j as int, x));
            assert forall|i: int| 0 <= i < v@.len() implies trees_view(v@)[i] == s.insert(
                j as int,
                xv,
            )[i] by {
                if i < j {
                    assert(v@[i] == old(v)@[i]);
                } else if i == j {
                    assert(v@[i] == x);
                } else {
                    assert(v@[i] == old(v)@[i - 1]);
                }
            }
        }
    }
}

/// Sorts a directory's freshly built entries into ascending name order.
pub fn sort_entries(v: Vec<FileTree>) -> (r: Vec<FileTree>)
    ensures
        trees_view(r@) == sort_trees(trees_view(v@)),
{
    let mut v = v;
    let ghost orig = v@;
    let mut out: Vec<FileTree> = Vec::new();
    proof {
        assert(v@ =~= orig.subrange(0, v@.len() as int));
        assert(orig.skip(orig.len() as int) =~= Seq::<FileTree>::empty());
        assert(trees_view(Seq::<FileTree>::empty()) =~= Seq::<TreeV>::empty());
    }
    while v.len() > 0
        invariant
            v@.len() <= orig.len(),
            v@ == orig.subrange(0, v@.len() as int),
            trees_view(out@) == sort_trees(trees_view(orig.skip(v@.len() as int))),
        decreases v.len(),
    {
        let ghost n = v@.len() as int;
        let x = v.pop().unwrap();
        proof {
            assert(x == orig.subrange(0, n).last());
            assert(x == orig[n - 1]);
            assert(v@ =~= orig.subrange(0, n - 1));
        }
        insert_by_name(&mut out, x);
        proof {
            let tail_prev = trees_view(orig.skip(n));
            let tail_now = trees_view(orig.skip(n - 1));
            lemma_trees_view_elements(orig.skip(n));
            lemma_trees_view_elements(orig.skip(n - 1));
            assert(tail_now.len() > 0);
            assert(tail_now[0] == tree_view(orig[n - 1]));
            assert(tail_now.drop_first() =~= tail_prev) by {
                assert(orig.skip(n - 1).drop_first() =~= orig.skip(n));
                lemma_trees_view_elements(orig.skip(n - 1).drop_first());
                assert forall|i: int| 0 <= i < tail_now.drop_first().len() implies tail_now.drop_first()[i]
                    == tail_prev[i] by {
                    assert(tail_now.drop_first()[i] == tail_now[i + 1]);
                    assert(orig.skip(n - 1)[i + 1] == orig.skip(n)[i]);
                }
            }
            assert(sort_trees(tail_now) == insert_sorted(sort_trees(tail_prev), tail_now[0]));
        }
    }
    proof {
        assert(orig.skip(0) =~= orig);
        assert(v@.len() == 0);
    }
    out
}

} // verus!
