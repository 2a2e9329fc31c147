//! The model of a B-tree: its nodes with the pages they live in, apart from their bytes.
use vstd::prelude::*;
use crate::constants::{NodeType, PageId, PAGE_SIZE};
use crate::entries::{has_key, rank, sorted, with_entry, within, without_key, Entry};
use crate::node::{
    child_at, compact, data_end, entries_of, node_kind, readable, takes_in, CHILDREN_OFFSET,
    MAX_KEYS,
};
use crate::shape::storable;

verus! {

/// A tree. The keys of an internal node are written as pairs with empty values.
pub enum Tree {
    Leaf { id: PageId, entries: Seq<Entry> },
    Internal { id: PageId, keys: Seq<Entry>, children: Seq<Tree> },
}

/// The lower bound of the `i`-th child.
pub open spec fn lower(keys: Seq<Entry>, lb: Option<Seq<u8>>, i: int) -> Option<Seq<u8>> {
    if i == 0 {
        lb
    } else {
        Some(keys[i - 1].0)
    }
}

/// The upper bound of the `i`-th child.
pub open spec fn upper(keys: Seq<Entry>, ub: Option<Seq<u8>>, i: int) -> Option<Seq<u8>> {
    if i == keys.len() {
        ub
    } else {
        Some(keys[i].0)
    }
}

/// The child in which a key belongs: the number of separators that are not greater.
pub open spec fn route(keys: Seq<Entry>, k: Seq<u8>) -> int {
    if has_key(keys, k) {
        rank(keys, k) + 1
    } else {
        rank(keys, k)
    }
}

/// The pairs are bare keys.
pub open spec fn valueless(s: Seq<Entry>) -> bool {
    forall|i: int| 0 <= i < s.len() ==> (#[trigger] s[i]).1 == Seq::<u8>::empty()
}

/// A key as a separator.
pub open spec fn bare(k: Seq<u8>) -> Entry {
    (k, Seq::empty())
}

/// All pairs of a row of trees, from left to right.
pub open spec fn forest_entries(cs: Seq<Tree>) -> Seq<Entry>
    decreases cs,
{
    if cs.len() == 0 {
        Seq::empty()
    } else {
        forest_entries(cs.drop_last()) + cs.last().entries()
    }
}

/// The number of nodes in a row of trees.
pub open spec fn forest_nodes(cs: Seq<Tree>) -> nat
    decreases cs,
{
    if cs.len() == 0 {
        0
    } else {
        forest_nodes(cs.drop_last()) + cs.last().node_count()
    }
}

/// The number of leaves in a row of trees.
pub open spec fn forest_leaves(cs: Seq<Tree>) -> nat
    decreases cs,
{
    if cs.len() == 0 {
        0
    } else {
        forest_leaves(cs.drop_last()) + cs.last().leaf_count()
    }
}

/// The number of keys in all nodes of a row of trees.
pub open spec fn forest_keys(cs: Seq<Tree>) -> nat
    decreases cs,
{
    if cs.len() == 0 {
        0
    } else {
        forest_keys(cs.drop_last()) + cs.last().key_count()
    }
}

/// The number of levels of the tallest of a row of trees.
pub open spec fn forest_depth(cs: Seq<Tree>) -> nat
    decreases cs,
{
    if cs.len() == 0 {
        0
    } else if forest_depth(cs.drop_last()) >= cs.last().depth() {
        forest_depth(cs.drop_last())
    } else {
        cs.last().depth()
    }
}

/// What becomes of a node that grew: one node, or two with a key between them.
pub enum Grown {
    Whole(Tree),
    Split(Tree, Seq<u8>, Tree),
}

/// All keys and values have sizes that can be stored.
pub open spec fn bounded(s: Seq<Entry>) -> bool {
    forall|i: int| 0 <= i < s.len() ==> storable((#[trigger] s[i]).0, s[i].1)
}

/// The pairs fit in a leaf page.
pub open spec fn leaf_holds(s: Seq<Entry>) -> bool {
    s.len() <= MAX_KEYS && data_end(s) <= PAGE_SIZE && bounded(s)
}

/// The keys fit in an internal node page and leave room for the child page numbers.
pub open spec fn roomy(keys: Seq<Entry>) -> bool {
    keys.len() <= MAX_KEYS && data_end(keys) <= CHILDREN_OFFSET
}

/// Cut before the `m`-th pair, the pairs end before the limit in each of two pages, where `gap`
/// pairs are left out between them.
pub open spec fn cut_fits(w: Seq<Entry>, m: int, gap: int, limit: int) -> bool {
    data_end(w.take(m)) <= limit && data_end(w.skip(m + gap)) <= limit
}

/// The first place from `m` on where the pairs can be cut.
pub open spec fn first_cut(w: Seq<Entry>, m: int, gap: int, limit: int) -> int
    decreases w.len() - m,
{
    if m + gap >= w.len() || m >= w.len() || cut_fits(w, m, gap, limit) {
        m
    } else {
        first_cut(w, m + 1, gap, limit)
    }
}

/// Where the pairs are cut: in the middle, or, where the halves would be too large, at the first
/// place at which neither part is.
pub open spec fn cut_of(w: Seq<Entry>, gap: int, limit: int) -> int {
    let mid = w.len() as int / 2;
    if cut_fits(w, mid, gap, limit) {
        mid
    } else {
        first_cut(w, 1, gap, limit)
    }
}

/// Where the pairs of a leaf are cut.
pub open spec fn leaf_cut(w: Seq<Entry>) -> int {
    cut_of(w, 0, PAGE_SIZE as int)
}

/// Where the keys of an internal node are cut: the one at the cut goes up.
pub open spec fn internal_cut(keys: Seq<Entry>) -> int {
    cut_of(keys, 1, CHILDREN_OFFSET as int)
}

/// A leaf, cut in two before the `m`-th pair.
pub open spec fn split_leaf_at(id: PageId, s: Seq<Entry>, m: int, right: PageId) -> Grown {
    Grown::Split(
        Tree::Leaf { id, entries: s.take(m) },
        s[m].0,
        Tree::Leaf { id: right, entries: s.skip(m) },
    )
}

/// Two pages do not hold the leaf with the pair, wherever it is cut. The leaf is parted where the
/// key belongs before the key is bound.
pub open spec fn leaf_parts(s: Seq<Entry>, k: Seq<u8>, v: Seq<u8>) -> bool {
    !takes_in(s, k, v) && leaf_cut(with_entry(s, k, v)) >= with_entry(s, k, v).len()
}

/// What becomes of a leaf when a key is to be bound in it.
pub open spec fn grow_leaf(
    id: PageId,
    s: Seq<Entry>,
    k: Seq<u8>,
    v: Seq<u8>,
    right: PageId,
) -> Grown {
    let w = with_entry(s, k, v);
    if takes_in(s, k, v) {
        Grown::Whole(Tree::Leaf { id, entries: w })
    } else if leaf_parts(s, k, v) {
        split_leaf_at(id, s, rank(s, k), right)
    } else {
        split_leaf_at(id, w, leaf_cut(w), right)
    }
}

/// An internal node with the keys and children, split in two where the keys are too many or too
/// long.
pub open spec fn grow_internal(
    id: PageId,
    keys: Seq<Entry>,
    children: Seq<Tree>,
    right: PageId,
) -> Grown {
    if roomy(keys) {
        Grown::Whole(Tree::Internal { id, keys, children })
    } else {
        let mid = internal_cut(keys);
        Grown::Split(
            Tree::Internal { id, keys: keys.take(mid), children: children.take(mid + 1) },
            keys[mid].0,
            Tree::Internal {
                id: right,
                keys: keys.skip(mid + 1),
                children: children.skip(mid + 1),
            },
        )
    }
}

/// How taking a key out of a tree ends.
pub enum Shrunk {
    Deleted(Tree),
    Missing,
    WouldEmpty,
}

impl Tree {
    /// The page of the root node.
    pub open spec fn id(self) -> PageId {
        match self {
            Tree::Leaf { id, .. } => id,
            Tree::Internal { id, .. } => id,
        }
    }

    /// The pages hold this tree: each node can be read from its page.
    pub open spec fn held(self, pages: Map<PageId, Seq<u8>>) -> bool
        decreases self,
    {
        match self {
            Tree::Leaf { id, entries } => {
                &&& readable(pages[id])
                &&& node_kind(pages[id]) == NodeType::Leaf
                &&& entries_of(pages[id]) == entries
            },
            Tree::Internal { id, keys, children } => {
                &&& readable(pages[id])
                &&& node_kind(pages[id]) == NodeType::Internal
                &&& entries_of(pages[id]) == keys
                &&& children.len() == keys.len() + 1
                &&& forall|i: int|
                    0 <= i < children.len() ==> child_at(pages[id], i) == (
                    #[trigger] children[i]).id() && children[i].held(pages)
            },
        }
    }

    /// Each node page is without gaps.
    pub open spec fn packed(self, pages: Map<PageId, Seq<u8>>) -> bool
        decreases self,
    {
        match self {
            Tree::Leaf { id, .. } => compact(pages[id]),
            Tree::Internal { id, children, .. } => {
                &&& compact(pages[id])
                &&& forall|i: int|
                    0 <= i < children.len() ==> (#[trigger] children[i]).packed(pages)
            },
        }
    }

    /// The page belongs to the tree.
    pub open spec fn owns(self, x: PageId) -> bool
        decreases self,
    {
        match self {
            Tree::Leaf { id, .. } => x == id,
            Tree::Internal { id, children, .. } => x == id || exists|i: int|
                0 <= i < children.len() && (#[trigger] children[i]).owns(x),
        }
    }

    /// No page belongs to two nodes.
    pub open spec fn distinct(self) -> bool
        decreases self,
    {
        match self {
            Tree::Leaf { .. } => true,
            Tree::Internal { id, children, .. } => {
                &&& forall|i: int| 0 <= i < children.len() ==> !(#[trigger] children[i]).owns(id)
                &&& forall|i: int| 0 <= i < children.len() ==> (#[trigger] children[i]).distinct()
                &&& forall|i: int, j: int, x: PageId|
                    0 <= i < j < children.len() && #[trigger] children[i].owns(x) ==> !(
                    #[trigger] children[j].owns(x))
            },
        }
    }

    /// The keys of every node rise strictly and lie in the range that the node is reached for.
    pub open spec fn ordered(self, lb: Option<Seq<u8>>, ub: Option<Seq<u8>>) -> bool
        decreases self,
    {
        match self {
            Tree::Leaf { entries, .. } => sorted(entries) && within(entries, lb, ub),
            Tree::Internal { keys, children, .. } => {
                &&& sorted(keys)
                &&& within(keys, lb, ub)
                &&& forall|i: int|
                    0 <= i < children.len() ==> (#[trigger] children[i]).ordered(
                        lower(keys, lb, i),
                        upper(keys, ub, i),
                    )
            },
        }
    }

    /// Each internal node has one more child than keys.
    pub open spec fn regular(self) -> bool
        decreases self,
    {
        match self {
            Tree::Leaf { .. } => true,
            Tree::Internal { keys, children, .. } => {
                &&& children.len() == keys.len() + 1
                &&& forall|i: int| 0 <= i < children.len() ==> (#[trigger] children[i]).regular()
            },
        }
    }

    /// A search tree whose leaves all lie `h` levels down, whose internal nodes have a key each
    /// and leave room for their children, and of whose leaves only the first may be empty.
    pub open spec fn wf(self, lb: Option<Seq<u8>>, ub: Option<Seq<u8>>, h: nat) -> bool
        decreases self,
    {
        match self {
            Tree::Leaf { entries, .. } => {
                &&& h == 0
                &&& sorted(entries)
                &&& within(entries, lb, ub)
                &&& lb is Some ==> entries.len() > 0
                &&& leaf_holds(entries)
            },
            Tree::Internal { keys, children, .. } => {
                &&& h > 0
                &&& 1 <= keys.len()
                &&& roomy(keys)
                &&& bounded(keys)
                &&& valueless(keys)
                &&& sorted(keys)
                &&& within(keys, lb, ub)
                &&& children.len() == keys.len() + 1
                &&& forall|i: int|
                    0 <= i < children.len() ==> (#[trigger] children[i]).wf(
                        lower(keys, lb, i),
                        upper(keys, ub, i),
                        (h - 1) as nat,
                    )
            },
        }
    }

    /// All pairs of the leaves, from left to right.
    pub open spec fn entries(self) -> Seq<Entry>
        decreases self,
    {
        match self {
            Tree::Leaf { entries, .. } => entries,
            Tree::Internal { children, .. } => forest_entries(children),
        }
    }

    /// The number of nodes.
    pub open spec fn node_count(self) -> nat
        decreases self,
    {
        match self {
            Tree::Leaf { .. } => 1,
            Tree::Internal { children, .. } => 1 + forest_nodes(children),
        }
    }

    /// The number of leaves.
    pub open spec fn leaf_count(self) -> nat
        decreases self,
    {
        match self {
            Tree::Leaf { .. } => 1,
            Tree::Internal { children, .. } => forest_leaves(children),
        }
    }

    /// The number of keys in all nodes, separators among them.
    pub open spec fn key_count(self) -> nat
        decreases self,
    {
        match self {
            Tree::Leaf { entries, .. } => entries.len(),
            Tree::Internal { keys, children, .. } => keys.len() + forest_keys(children),
        }
    }

    /// The number of levels.
    pub open spec fn depth(self) -> nat
        decreases self,
    {
        match self {
            Tree::Leaf { .. } => 1,
            Tree::Internal { children, .. } => 1 + forest_depth(children),
        }
    }

    /// The pairs of the leaf in which a key belongs.
    pub open spec fn leaf_for(self, k: Seq<u8>) -> Seq<Entry>
        decreases self,
    {
        match self {
            Tree::Leaf { entries, .. } => entries,
            Tree::Internal { keys, children, .. } => {
                let c = route(keys, k);
                if 0 <= c < children.len() {
                    children[c].leaf_for(k)
                } else {
                    Seq::empty()
                }
            },
        }
    }

    /// The number of levels above the leaves, along the first children.
    pub open spec fn height(self) -> nat
        decreases self,
    {
        match self {
            Tree::Leaf { .. } => 0,
            Tree::Internal { children, .. } => if children.len() > 0 {
                1 + children[0].height()
            } else {
                1
            },
        }
    }

    /// What becomes of the tree when a key is to be bound in it. A node that splits `n` levels above
    /// the leaves gets the page `fresh[n]` for its right half.
    pub open spec fn grow(self, k: Seq<u8>, v: Seq<u8>, fresh: Seq<PageId>) -> Grown
        decreases self,
    {
        match self {
            Tree::Leaf { id, entries } => grow_leaf(id, entries, k, v, fresh[0]),
            Tree::Internal { id, keys, children } => {
                let c = route(keys, k);
                if 0 <= c < children.len() {
                    match children[c].grow(k, v, fresh) {
                        Grown::Whole(t) => Grown::Whole(
                            Tree::Internal { id, keys, children: children.update(c, t) },
                        ),
                        Grown::Split(l, m, r) => grow_internal(
                            id,
                            keys.insert(c, bare(m)),
                            children.update(c, l).insert(c + 1, r),
                            fresh[self.height() as int],
                        ),
                    }
                } else {
                    Grown::Whole(self)
                }
            },
        }
    }

    /// How many nodes split when a key is bound in the tree.
    pub open spec fn splits(self, k: Seq<u8>, v: Seq<u8>, fresh: Seq<PageId>) -> nat
        decreases self,
    {
        match self {
            Tree::Leaf { id, entries } => if self.grow(k, v, fresh) is Split {
                1
            } else {
                0
            },
            Tree::Internal { id, keys, children } => {
                let c = route(keys, k);
                if 0 <= c < children.len() {
                    children[c].splits(k, v, fresh) + if self.grow(k, v, fresh) is Split {
                        1nat
                    } else {
                        0nat
                    }
                } else {
                    0
                }
            },
        }
    }

    /// The leaf in which the key belongs is parted before the key is bound.
    pub open spec fn parts(self, k: Seq<u8>, v: Seq<u8>) -> bool {
        leaf_parts(self.leaf_for(k), k, v)
    }

    /// The pairs of what becomes of the tree when the key is to be bound in it.
    pub open spec fn entries_with(self, k: Seq<u8>, v: Seq<u8>) -> Seq<Entry> {
        if self.parts(k, v) {
            self.entries()
        } else {
            with_entry(self.entries(), k, v)
        }
    }

    /// The tree with the key bound to the value, or with the leaf in which it belongs parted. Where
    /// the root splits, it gets a new root, whose page is the next one of `fresh`.
    pub open spec fn inserted(self, k: Seq<u8>, v: Seq<u8>, fresh: Seq<PageId>) -> Tree {
        match self.grow(k, v, fresh) {
            Grown::Whole(t) => t,
            Grown::Split(l, m, r) => Tree::Internal {
                id: fresh[self.height() as int + 1],
                keys: seq![bare(m)],
                children: seq![l, r],
            },
        }
    }

    /// How many pages binding the key takes.
    pub open spec fn pages_needed(self, k: Seq<u8>, v: Seq<u8>, fresh: Seq<PageId>) -> nat {
        self.splits(k, v, fresh) + if self.grow(k, v, fresh) is Split {
            1nat
        } else {
            0nat
        }
    }

    /// How taking the key out of the tree ends. A leaf below the root keeps its last pair.
    pub open spec fn shrink(self, k: Seq<u8>) -> Shrunk
        decreases self,
    {
        match self {
            Tree::Leaf { id, entries } => if has_key(entries, k) {
                Shrunk::Deleted(Tree::Leaf { id, entries: without_key(entries, k) })
            } else {
                Shrunk::Missing
            },
            Tree::Internal { id, keys, children } => {
                let c = route(keys, k);
                if 0 <= c < children.len() {
                    if children[c] is Leaf && children[c]->entries.len() <= 1 {
                        Shrunk::WouldEmpty
                    } else {
                        match children[c].shrink(k) {
                            Shrunk::Deleted(t) => Shrunk::Deleted(
                                Tree::Internal { id, keys, children: children.update(c, t) },
                            ),
                            other => other,
                        }
                    }
                } else {
                    Shrunk::Missing
                }
            },
        }
    }
}

/// The pairs of a row of trees are those of its parts.
pub proof fn lemma_forest_add(a: Seq<Tree>, b: Seq<Tree>)
    ensures
        forest_entries(a + b) == forest_entries(a) + forest_entries(b),
        forest_nodes(a + b) == forest_nodes(a) + forest_nodes(b),
        forest_leaves(a + b) == forest_leaves(a) + forest_leaves(b),
        forest_keys(a + b) == forest_keys(a) + forest_keys(b),
    decreases b.len(),
{
    if b.len() == 0 {
        assert(a + b =~= a);
        assert(forest_entries(a) + forest_entries(b) =~= forest_entries(a));
    } else {
        lemma_forest_add(a, b.drop_last());
        assert((a + b).drop_last() =~= a + b.drop_last());
        assert(forest_entries(a + b) =~= forest_entries(a) + forest_entries(b));
    }
}

pub proof fn lemma_forest_one(t: Tree)
    ensures
        forest_entries(seq![t]) == t.entries(),
        forest_nodes(seq![t]) == t.node_count(),
        forest_leaves(seq![t]) == t.leaf_count(),
        forest_keys(seq![t]) == t.key_count(),
{
    let s = seq![t];
    assert(s.drop_last() =~= Seq::<Tree>::empty());
    assert(s.last() == t);
    assert(forest_entries(s) == forest_entries(s.drop_last()) + t.entries());
    assert(forest_entries(s) =~= t.entries());
    assert(forest_nodes(s.drop_last()) == 0);
    assert(forest_leaves(s.drop_last()) == 0);
    assert(forest_keys(s.drop_last()) == 0);
}

/// The pairs of a row of trees, around one of them.
pub proof fn lemma_forest_around(cs: Seq<Tree>, c: int)
    requires
        0 <= c < cs.len(),
    ensures
        forest_entries(cs) == forest_entries(cs.take(c)) + cs[c].entries() + forest_entries(
            cs.skip(c + 1),
        ),
        forest_nodes(cs) == forest_nodes(cs.take(c)) + cs[c].node_count() + forest_nodes(
            cs.skip(c + 1),
        ),
        forest_leaves(cs) == forest_leaves(cs.take(c)) + cs[c].leaf_count() + forest_leaves(
            cs.skip(c + 1),
        ),
        forest_keys(cs) == forest_keys(cs.take(c)) + cs[c].key_count() + forest_keys(
            cs.skip(c + 1),
        ),
{
    assert(cs =~= cs.take(c) + seq![cs[c]] + cs.skip(c + 1));
    lemma_forest_add(cs.take(c) + seq![cs[c]], cs.skip(c + 1));
    lemma_forest_add(cs.take(c), seq![cs[c]]);
    lemma_forest_one(cs[c]);
}

} // verus!
