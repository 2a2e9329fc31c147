//! How many nodes, keys and levels a tree has.
use vstd::arithmetic::power2::{lemma2_to64, lemma_pow2_strictly_increases, lemma_pow2_unfold, pow2};
use vstd::prelude::*;
use crate::btree_walk::countable;
use crate::constants::PageId;
use crate::node::MAX_KEYS;
use crate::pager::Pages;
use crate::space::next_of;
use crate::store::{lemma_distinct_bound, lemma_sound, sound, tree_of};
use crate::tree::{
    forest_depth, forest_entries, forest_keys, forest_leaves, forest_nodes, lower, upper, Tree,
};
use crate::tree_laws::{lemma_owns_child, row_distinct, row_owns};

verus! {

/// The pages of a tree, one for each node.
pub open spec fn page_list(t: Tree) -> Seq<PageId>
    decreases t,
{
    match t {
        Tree::Leaf { id, .. } => seq![id],
        Tree::Internal { id, children, .. } => forest_page_list(children).push(id),
    }
}

/// The pages of a row of trees.
pub open spec fn forest_page_list(cs: Seq<Tree>) -> Seq<PageId>
    decreases cs,
{
    if cs.len() == 0 {
        Seq::empty()
    } else {
        forest_page_list(cs.drop_last()) + page_list(cs.last())
    }
}

/// A tree has as many pages as nodes, and lists no page twice if none belongs to two nodes.
pub proof fn lemma_page_list(t: Tree)
    requires
        t.distinct(),
    ensures
        page_list(t).len() == t.node_count(),
        page_list(t).no_duplicates(),
        forall|i: int| 0 <= i < page_list(t).len() ==> t.owns(#[trigger] page_list(t)[i]),
    decreases t,
{
    if let Tree::Internal { id, keys, children } = t {
        assert forall|i: int| 0 <= i < children.len() implies lists_well(
            #[trigger] children[i],
        ) by {
            lemma_page_list(children[i]);
        }
        lemma_forest_page_list(children, id);
        let l = forest_page_list(children);
        assert forall|i: int| 0 <= i < l.len() implies t.owns(#[trigger] l[i]) && l[i] != id by {
            assert(row_owns(children, l[i]));
            let j = choose|j: int| 0 <= j < children.len() && (#[trigger] children[j]).owns(l[i]);
            lemma_owns_child(t, j, l[i]);
        }
    }
}

spec fn lists_well(t: Tree) -> bool {
    &&& page_list(t).len() == t.node_count()
    &&& page_list(t).no_duplicates()
    &&& forall|i: int| 0 <= i < page_list(t).len() ==> t.owns(#[trigger] page_list(t)[i])
}

proof fn lemma_forest_page_list(cs: Seq<Tree>, id: PageId)
    requires
        row_distinct(id, cs),
        forall|i: int| 0 <= i < cs.len() ==> lists_well(#[trigger] cs[i]),
    ensures
        forest_page_list(cs).len() == forest_nodes(cs),
        forest_page_list(cs).no_duplicates(),
        forall|i: int|
            0 <= i < forest_page_list(cs).len() ==> row_owns(cs, #[trigger] forest_page_list(cs)[i]),
    decreases cs.len(),
{
    if cs.len() > 0 {
        let ds = cs.drop_last();
        let last = cs.len() - 1;
        assert(row_distinct(id, ds)) by {
            assert forall|i: int, j: int, x: PageId|
                0 <= i < j < ds.len() && #[trigger] ds[i].owns(x) implies !(
            #[trigger] ds[j].owns(x)) by {
                assert(cs[i].owns(x));
                assert(!cs[j].owns(x));
            }
        }
        lemma_forest_page_list(ds, id);
        let a = forest_page_list(ds);
        let b = page_list(cs[last]);
        let l = forest_page_list(cs);
        assert(l == a + b);
        assert(lists_well(cs[last]));
        assert forall|i: int| 0 <= i < a.len() implies row_owns(cs, #[trigger] a[i])
            && !cs[last].owns(a[i]) by {
            let j = choose|j: int| 0 <= j < ds.len() && (#[trigger] ds[j]).owns(a[i]);
            assert(cs[j].owns(a[i]));
        }
        assert forall|i: int| 0 <= i < l.len() implies row_owns(cs, #[trigger] l[i]) by {
            if i < a.len() {
                assert(l[i] == a[i]);
            } else {
                assert(l[i] == b[i - a.len()]);
                assert(cs[last].owns(l[i]));
            }
        }
        assert forall|i: int, j: int| 0 <= i < l.len() && 0 <= j < l.len() && i != j implies l[i]
            != l[j] by {
            if i < a.len() && j < a.len() {
                assert(a[i] != a[j]);
            } else if i >= a.len() && j >= a.len() {
                assert(b[i - a.len()] != b[j - a.len()]);
            } else if i < a.len() {
                assert(!cs[last].owns(a[i]));
                assert(cs[last].owns(b[j - a.len()]));
            } else {
                assert(!cs[last].owns(a[j]));
                assert(cs[last].owns(b[i - a.len()]));
            }
        }
    }
}

/// A tree has at most 64 keys for each of its nodes, and its pairs are among its keys.
pub proof fn lemma_key_count(t: Tree, p: Pages)
    requires
        t.held(p),
    ensures
        t.key_count() <= MAX_KEYS * t.node_count(),
        t.entries().len() <= t.key_count(),
    decreases t,
{
    if let Tree::Internal { id, keys, children } = t {
        assert forall|i: int| 0 <= i < children.len() implies counts_well(#[trigger] children[i]) by {
            lemma_key_count(children[i], p);
        }
        lemma_forest_key_count(children);
    }
}

spec fn counts_well(t: Tree) -> bool {
    t.key_count() <= MAX_KEYS * t.node_count() && t.entries().len() <= t.key_count()
}

proof fn lemma_forest_key_count(cs: Seq<Tree>)
    requires
        forall|i: int| 0 <= i < cs.len() ==> counts_well(#[trigger] cs[i]),
    ensures
        forest_keys(cs) <= MAX_KEYS * forest_nodes(cs),
        forest_entries(cs).len() <= forest_keys(cs),
    decreases cs.len(),
{
    if cs.len() > 0 {
        lemma_forest_key_count(cs.drop_last());
        assert(counts_well(cs.last()));
    }
}

/// All leaves of a search tree lie equally deep, and with each level their number at least
/// doubles: the levels are logarithmic in the leaves.
pub proof fn law_levels(t: Tree, lb: Option<Seq<u8>>, ub: Option<Seq<u8>>, h: nat)
    requires
        t.wf(lb, ub, h),
    ensures
        t.depth() == h + 1,
        pow2(h) <= t.leaf_count(),
        t.leaf_count() <= t.node_count(),
    decreases t,
{
    if let Tree::Internal { id, keys, children } = t {
        let h1 = (h - 1) as nat;
        assert forall|i: int| 0 <= i < children.len() implies levels_well(
            #[trigger] children[i],
            h1,
        ) by {
            law_levels(children[i], lower(keys, lb, i), upper(keys, ub, i), h1);
        }
        lemma_forest_levels(children, h1);
        lemma_pow2_unfold(h);
        assert(pow2(h) <= children.len() * pow2(h1)) by (nonlinear_arith)
            requires
                children.len() >= 2,
                pow2(h) == 2 * pow2(h1),
        ;
    } else {
        lemma2_to64();
    }
}

spec fn levels_well(t: Tree, h: nat) -> bool {
    t.depth() == h + 1 && pow2(h) <= t.leaf_count() && t.leaf_count() <= t.node_count()
}

proof fn lemma_forest_levels(cs: Seq<Tree>, h: nat)
    requires
        forall|i: int| 0 <= i < cs.len() ==> levels_well(#[trigger] cs[i], h),
    ensures
        cs.len() > 0 ==> forest_depth(cs) == h + 1,
        cs.len() * pow2(h) <= forest_leaves(cs),
        forest_leaves(cs) <= forest_nodes(cs),
    decreases cs.len(),
{
    if cs.len() > 0 {
        lemma_forest_levels(cs.drop_last(), h);
        reveal_with_fuel(forest_depth, 2);
        assert(levels_well(cs.last(), h));
        assert(cs.len() * pow2(h) == (cs.len() - 1) * pow2(h) + pow2(h)) by (nonlinear_arith);
    }
}

/// The tree of sound pages has no more nodes than there are pages, no more than 64 keys for each
/// of them, and fewer levels than bits in a page number.
pub proof fn law_counts(pages: Pages, root: PageId)
    requires
        sound(pages, root),
    ensures
        ({
            let t = tree_of(pages, root);
            &&& countable(t)
            &&& t.node_count() <= next_of(pages)
            &&& t.key_count() <= MAX_KEYS * t.node_count()
            &&& t.entries().len() <= t.key_count()
            &&& t.entries().len() <= usize::MAX
            &&& t.height() < 64
            &&& t.depth() == t.height() + 1
        }),
{
    lemma_sound(pages, root);
    let t = tree_of(pages, root);
    let n = next_of(pages) as nat;
    lemma_page_list(t);
    assert forall|i: int| 0 <= i < page_list(t).len() implies #[trigger] page_list(t)[i] < n by {
        assert(t.owns(page_list(t)[i]));
    }
    lemma_distinct_bound(page_list(t), n);
    lemma_key_count(t, pages);
    law_levels(t, None, None, t.height());
    lemma2_to64();
    if t.height() >= 64 {
        if t.height() > 64 {
            lemma_pow2_strictly_increases(64, t.height());
        }
    }
}

} // verus!
