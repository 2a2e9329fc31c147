//! How a tree grows: how many nodes a pair adds, and how many pairs a tree of small pairs holds.
use vstd::arithmetic::power::{lemma_pow0, lemma_pow_positive, pow};
use vstd::prelude::*;
use crate::constants::{PageId, PAGE_SIZE};
use crate::entries::{
    above, below, has_key, lemma_rank, lemma_total_add, rank, size, total, with_entry, Entry,
};
use crate::node::{takes_in, CHILDREN_OFFSET};
use crate::shape::{storable, Shape};
use crate::tree::{
    bare, cut_fits, forest_entries, forest_leaves, forest_nodes, internal_cut, leaf_cut,
    lemma_forest_add, lemma_forest_around, lemma_forest_one, lower, roomy, route, upper, Grown,
    Shrunk, Tree,
};
use crate::tree_laws::{lemma_grow_child, lemma_insert_full, lemma_route_child};

verus! {

/// The number of nodes of what became of a tree.
spec fn nodes_in(g: Grown) -> nat {
    match g {
        Grown::Whole(t) => t.node_count(),
        Grown::Split(l, m, r) => l.node_count() + r.node_count(),
    }
}

/// Each split adds a node.
proof fn lemma_grow_nodes(
    t: Tree,
    lb: Option<Seq<u8>>,
    ub: Option<Seq<u8>>,
    h: nat,
    k: Seq<u8>,
    v: Seq<u8>,
    fresh: Seq<PageId>,
)
    requires
        t.wf(lb, ub, h),
        above(k, lb),
        below(k, ub),
        storable(k, v),
    ensures
        nodes_in(t.grow(k, v, fresh)) == t.node_count() + t.splits(k, v, fresh),
    decreases t,
{
    if let Tree::Internal { id, keys, children } = t {
        let c = route(keys, k);
        let child = children[c];
        lemma_grow_child(t, lb, ub, h, k, v, fresh);
        lemma_grow_nodes(
            child,
            lower(keys, lb, c),
            upper(keys, ub, c),
            (h - 1) as nat,
            k,
            v,
            fresh,
        );
        lemma_forest_around(children, c);
        match child.grow(k, v, fresh) {
            Grown::Whole(s) => {
                let cs = children.update(c, s);
                assert(cs.take(c) =~= children.take(c));
                assert(cs.skip(c + 1) =~= children.skip(c + 1));
                lemma_forest_around(cs, c);
            },
            Grown::Split(l, m, r) => {
                let ks = keys.insert(c, bare(m));
                let cs = children.update(c, l).insert(c + 1, r);
                assert(cs =~= children.take(c) + (seq![l] + seq![r]) + children.skip(c + 1));
                lemma_forest_add(children.take(c) + (seq![l] + seq![r]), children.skip(c + 1));
                lemma_forest_add(children.take(c), seq![l] + seq![r]);
                lemma_forest_add(seq![l], seq![r]);
                lemma_forest_one(l);
                lemma_forest_one(r);
                lemma_insert_full(keys, m, c);
                if !roomy(ks) {
                    let mid = internal_cut(ks);
                    assert(cs =~= cs.take(mid + 1) + cs.skip(mid + 1));
                    lemma_forest_add(cs.take(mid + 1), cs.skip(mid + 1));
                }
            },
        }
    }
}

/// A tree has as many nodes more as its growth took pages.
proof fn lemma_inserted_nodes(t: Tree, h: nat, k: Seq<u8>, v: Seq<u8>, fresh: Seq<PageId>)
    requires
        t.wf(None, None, h),
        storable(k, v),
    ensures
        t.inserted(k, v, fresh).node_count() == t.node_count() + t.pages_needed(k, v, fresh),
{
    lemma_grow_nodes(t, None, None, h, k, v, fresh);
    if let Grown::Split(l, m, r) = t.grow(k, v, fresh) {
        assert(seq![l, r] =~= seq![l] + seq![r]);
        lemma_forest_add(seq![l], seq![r]);
        lemma_forest_one(l);
        lemma_forest_one(r);
    }
}

/// Taking a key out leaves every node.
proof fn lemma_shrink_nodes(t: Tree, lb: Option<Seq<u8>>, ub: Option<Seq<u8>>, h: nat, k: Seq<u8>)
    requires
        t.wf(lb, ub, h),
    ensures
        t.shrink(k) matches Shrunk::Deleted(s) ==> s.node_count() == t.node_count(),
    decreases t,
{
    if let Tree::Internal { id, keys, children } = t {
        let c = route(keys, k);
        lemma_route_child(t, lb, ub, h, k, Seq::empty());
        lemma_shrink_nodes(
            children[c],
            lower(keys, lb, c),
            upper(keys, ub, c),
            (h - 1) as nat,
            k,
        );
        if let Shrunk::Deleted(s) = children[c].shrink(k) {
            let cs = children.update(c, s);
            assert(cs.take(c) =~= children.take(c));
            assert(cs.skip(c + 1) =~= children.skip(c + 1));
            lemma_forest_around(children, c);
            lemma_forest_around(cs, c);
        }
    }
}

/// Every page but that of the metadata is a node of the tree or free.
pub open spec fn tight(s: Shape) -> bool {
    s.next == s.tree.node_count() + s.free.len() + 1
}

/// No page is lost when a key is bound.
pub proof fn lemma_once_tight(s: Shape, k: Seq<u8>, v: Seq<u8>)
    requires
        s.ok(),
        storable(k, v),
        tight(s),
    ensures
        tight(s.once(k, v)),
{
    reveal(Shape::once);
    lemma_inserted_nodes(s.tree, s.tree.height(), k, v, s.spare());
}

/// No page is lost when a key is taken out.
pub proof fn lemma_without_tight(s: Shape, k: Seq<u8>)
    requires
        s.ok(),
        tight(s),
    ensures
        tight(s.without(k)),
{
    lemma_shrink_nodes(s.tree, None, None, s.tree.height(), k);
}

/// What becomes of a tree when a key is bound to the value that it has: nothing.
proof fn lemma_grow_same(
    t: Tree,
    lb: Option<Seq<u8>>,
    ub: Option<Seq<u8>>,
    h: nat,
    k: Seq<u8>,
    v: Seq<u8>,
    fresh: Seq<PageId>,
)
    requires
        t.wf(lb, ub, h),
        above(k, lb),
        below(k, ub),
        storable(k, v),
        has_key(t.leaf_for(k), k),
        t.leaf_for(k)[rank(t.leaf_for(k), k)].1 == v,
    ensures
        t.grow(k, v, fresh) == Grown::Whole(t),
        t.splits(k, v, fresh) == 0,
        !t.parts(k, v),
    decreases t,
{
    match t {
        Tree::Leaf { id, entries } => {
            lemma_rank(entries, k);
            assert(with_entry(entries, k, v) =~= entries);
        },
        Tree::Internal { id, keys, children } => {
            let c = route(keys, k);
            lemma_grow_child(t, lb, ub, h, k, v, fresh);
            lemma_grow_same(
                children[c],
                lower(keys, lb, c),
                upper(keys, ub, c),
                (h - 1) as nat,
                k,
                v,
                fresh,
            );
            assert(children.update(c, children[c]) =~= children);
        },
    }
}

/// Binding a key to the value that it has changes nothing.
pub proof fn lemma_with_same(s: Shape, k: Seq<u8>, v: Seq<u8>)
    requires
        s.ok(),
        storable(k, v),
        has_key(s.tree.leaf_for(k), k),
        s.tree.leaf_for(k)[rank(s.tree.leaf_for(k), k)].1 == v,
    ensures
        s.with(k, v) == s,
{
    reveal(Shape::once);
    reveal(Shape::with);
    lemma_grow_same(s.tree, None, None, s.tree.height(), k, v, s.spare());
    assert(s.free.skip(0) =~= s.free);
}

/// The most bytes of a pair of which a page holds 64.
pub const SMALL_PAIR: usize = 47;

/// All pairs are so small that a page holds 64 of them.
pub open spec fn all_small(s: Seq<Entry>) -> bool {
    forall|i: int| 0 <= i < s.len() ==> size(#[trigger] s[i]) <= SMALL_PAIR
}

proof fn lemma_small_total(s: Seq<Entry>)
    requires
        all_small(s),
    ensures
        0 <= total(s) <= SMALL_PAIR * s.len(),
    decreases s.len(),
{
    if s.len() > 0 {
        let t = s.drop_last();
        assert forall|i: int| 0 <= i < t.len() implies size(#[trigger] t[i]) <= SMALL_PAIR by {
            assert(t[i] == s[i]);
        }
        lemma_small_total(t);
        assert(size(s[s.len() - 1]) <= SMALL_PAIR);
        lemma_total_add(s, Seq::empty());
    }
}

proof fn lemma_small_parts(s: Seq<Entry>, m: int)
    requires
        all_small(s),
        0 <= m <= s.len(),
    ensures
        all_small(s.take(m)),
        all_small(s.skip(m)),
{
    assert forall|i: int| 0 <= i < s.take(m).len() implies size(#[trigger] s.take(m)[i])
        <= SMALL_PAIR by {
        assert(s.take(m)[i] == s[i]);
    }
    assert forall|i: int| 0 <= i < s.skip(m).len() implies size(#[trigger] s.skip(m)[i])
        <= SMALL_PAIR by {
        assert(s.skip(m)[i] == s[m + i]);
    }
}

proof fn lemma_small_insert(s: Seq<Entry>, x: int, e: Entry)
    requires
        all_small(s),
        0 <= x <= s.len(),
        size(e) <= SMALL_PAIR,
    ensures
        all_small(s.insert(x, e)),
        x < s.len() ==> all_small(s.update(x, e)),
{
    let w = s.insert(x, e);
    assert forall|i: int| 0 <= i < w.len() implies size(#[trigger] w[i]) <= SMALL_PAIR by {
        if i < x {
            assert(w[i] == s[i]);
        } else if i > x {
            assert(w[i] == s[i - 1]);
        }
    }
    if x < s.len() {
        let u = s.update(x, e);
        assert forall|i: int| 0 <= i < u.len() implies size(#[trigger] u[i]) <= SMALL_PAIR by {
            if i != x {
                assert(u[i] == s[i]);
            }
        }
    }
}

/// Small pairs are cut in the middle.
proof fn lemma_small_cut(s: Seq<Entry>, gap: int, limit: int)
    requires
        all_small(s),
        s.len() == 65,
        0 <= gap <= 1,
        limit >= CHILDREN_OFFSET,
    ensures
        cut_fits(s, 32, gap, limit),
        all_small(s.take(32)),
        all_small(s.skip(32 + gap)),
{
    lemma_small_parts(s, 32);
    lemma_small_parts(s, 32 + gap);
    lemma_small_total(s.take(32));
    lemma_small_total(s.skip(32 + gap));
}

/// A tree of small pairs whose nodes, but for the root, are at least half full.
pub open spec fn dense(t: Tree, root: bool) -> bool
    decreases t,
{
    match t {
        Tree::Leaf { entries, .. } => all_small(entries) && (root || entries.len() >= 32),
        Tree::Internal { keys, children, .. } => {
            &&& all_small(keys)
            &&& root || keys.len() >= 32
            &&& forall|i: int| 0 <= i < children.len() ==> dense(#[trigger] children[i], false)
        },
    }
}

/// A small pair is bound in such a tree, and its nodes stay half full.
proof fn lemma_dense_grow(
    t: Tree,
    root: bool,
    lb: Option<Seq<u8>>,
    ub: Option<Seq<u8>>,
    h: nat,
    k: Seq<u8>,
    v: Seq<u8>,
    fresh: Seq<PageId>,
)
    requires
        t.wf(lb, ub, h),
        dense(t, root),
        above(k, lb),
        below(k, ub),
        storable(k, v),
        k.len() + v.len() <= SMALL_PAIR,
    ensures
        !t.parts(k, v),
        match t.grow(k, v, fresh) {
            Grown::Whole(s) => dense(s, root),
            Grown::Split(l, m, r) => dense(l, false) && dense(r, false) && m.len() <= SMALL_PAIR,
        },
    decreases t,
{
    match t {
        Tree::Leaf { id, entries } => {
            let w = with_entry(entries, k, v);
            let x = rank(entries, k);
            lemma_rank(entries, k);
            lemma_small_insert(entries, x, (k, v));
            lemma_small_total(w);
            lemma_small_total(entries);
            if !takes_in(entries, k, v) {
                lemma_small_cut(w, 0, PAGE_SIZE as int);
                assert(leaf_cut(w) == 32);
                assert(size(w[32]) <= SMALL_PAIR);
            }
        },
        Tree::Internal { id, keys, children } => {
            let c = route(keys, k);
            let child = children[c];
            lemma_grow_child(t, lb, ub, h, k, v, fresh);
            lemma_dense_grow(
                child,
                false,
                lower(keys, lb, c),
                upper(keys, ub, c),
                (h - 1) as nat,
                k,
                v,
                fresh,
            );
            match child.grow(k, v, fresh) {
                Grown::Whole(s) => {
                    let cs = children.update(c, s);
                    assert forall|i: int| 0 <= i < cs.len() implies dense(
                        #[trigger] cs[i],
                        false,
                    ) by {
                        if i != c {
                            assert(cs[i] == children[i]);
                        }
                    }
                },
                Grown::Split(l, m, r) => {
                    let ks = keys.insert(c, bare(m));
                    let cs = children.update(c, l).insert(c + 1, r);
                    lemma_small_insert(keys, c, bare(m));
                    lemma_small_total(ks);
                    assert forall|i: int| 0 <= i < cs.len() implies dense(
                        #[trigger] cs[i],
                        false,
                    ) by {
                        if i < c {
                            assert(cs[i] == children[i]);
                        } else if i > c + 1 {
                            assert(cs[i] == children[i - 1]);
                        }
                    }
                    if !roomy(ks) {
                        lemma_small_cut(ks, 1, CHILDREN_OFFSET as int);
                        assert(internal_cut(ks) == 32);
                        assert(size(ks[32]) <= SMALL_PAIR);
                        let a = cs.take(33);
                        let b = cs.skip(33);
                        assert forall|i: int| 0 <= i < a.len() implies dense(
                            #[trigger] a[i],
                            false,
                        ) by {
                            assert(a[i] == cs[i]);
                        }
                        assert forall|i: int| 0 <= i < b.len() implies dense(
                            #[trigger] b[i],
                            false,
                        ) by {
                            assert(b[i] == cs[33 + i]);
                        }
                    }
                },
            }
        },
    }
}

/// The tree stays half full when a small pair is bound.
pub proof fn lemma_with_dense(s: Shape, k: Seq<u8>, v: Seq<u8>)
    requires
        s.ok(),
        dense(s.tree, true),
        storable(k, v),
        k.len() + v.len() <= SMALL_PAIR,
    ensures
        s.with(k, v) == s.once(k, v),
        dense(s.with(k, v).tree, true),
{
    reveal(Shape::once);
    reveal(Shape::with);
    let t = s.tree;
    let fresh = s.spare();
    lemma_dense_grow(t, true, None, None, t.height(), k, v, fresh);
    if let Grown::Split(l, m, r) = t.grow(k, v, fresh) {
        let keys = seq![bare(m)];
        let cs = seq![l, r];
        assert forall|i: int| 0 <= i < keys.len() implies size(#[trigger] keys[i])
            <= SMALL_PAIR by {}
        assert forall|i: int| 0 <= i < cs.len() implies dense(#[trigger] cs[i], false) by {
            assert(cs[i] == l || cs[i] == r);
        }
    }
}

/// The pairs of a row of trees that hold at least `n` each.
proof fn lemma_forest_many(cs: Seq<Tree>, n: int)
    requires
        0 <= n,
        forall|i: int| 0 <= i < cs.len() ==> (#[trigger] cs[i]).entries().len() >= n,
    ensures
        forest_entries(cs).len() >= cs.len() * n,
    decreases cs.len(),
{
    if cs.len() > 0 {
        let ds = cs.drop_last();
        assert forall|i: int| 0 <= i < ds.len() implies (#[trigger] ds[i]).entries().len()
            >= n by {
            assert(ds[i] == cs[i]);
        }
        lemma_forest_many(ds, n);
        assert(cs[cs.len() - 1].entries().len() >= n);
        assert(cs.len() * n == (cs.len() - 1) * n + n) by (nonlinear_arith);
    } else {
        assert(cs.len() * n == 0) by (nonlinear_arith)
            requires
                cs.len() == 0,
        ;
    }
}

/// Below the root each level holds 33 times as many pairs as the one under it.
proof fn lemma_dense_many(t: Tree, lb: Option<Seq<u8>>, ub: Option<Seq<u8>>, h: nat)
    requires
        t.wf(lb, ub, h),
        dense(t, false),
    ensures
        t.entries().len() >= 32 * pow(33, h),
    decreases t,
{
    match t {
        Tree::Leaf { .. } => {
            lemma_pow0(33);
        },
        Tree::Internal { id, keys, children } => {
            let h1 = (h - 1) as nat;
            let n = 32 * pow(33, h1);
            lemma_pow_positive(33, h1);
            assert forall|i: int| 0 <= i < children.len() implies (
            #[trigger] children[i]).entries().len() >= n by {
                lemma_dense_many(children[i], lower(keys, lb, i), upper(keys, ub, i), h1);
            }
            lemma_forest_many(children, n);
            reveal(pow);
            assert(pow(33, h) == 33 * pow(33, h1));
            assert(children.len() * n >= 32 * (33 * pow(33, h1))) by (nonlinear_arith)
                requires
                    children.len() >= 33,
                    n == 32 * pow(33, h1),
                    pow(33, h1) > 0,
            ;
        },
    }
}

/// In a tree of small pairs that is half full, the pairs multiply by 33 with each level: a way
/// down the tree is logarithmic in them.
pub proof fn law_fan_out(t: Tree, h: nat)
    requires
        t.wf(None, None, h),
        dense(t, true),
    ensures
        h >= 1 ==> t.entries().len() >= 64 * pow(33, (h - 1) as nat),
{
    if let Tree::Internal { id, keys, children } = t {
        let h1 = (h - 1) as nat;
        let n = 32 * pow(33, h1);
        lemma_pow_positive(33, h1);
        assert forall|i: int| 0 <= i < children.len() implies (
        #[trigger] children[i]).entries().len() >= n by {
            lemma_dense_many(children[i], lower(keys, None, i), upper(keys, None, i), h1);
        }
        lemma_forest_many(children, n);
        assert(children.len() * n >= 2 * n) by (nonlinear_arith)
            requires
                children.len() >= 2,
                n >= 0,
        ;
    }
}

/// A tree has a node that is no leaf exactly where it has more than one level.
pub proof fn lemma_internals(t: Tree, lb: Option<Seq<u8>>, ub: Option<Seq<u8>>, h: nat)
    requires
        t.wf(lb, ub, h),
    ensures
        t.leaf_count() <= t.node_count(),
        h == 0 <==> t.leaf_count() == t.node_count(),
    decreases t,
{
    if let Tree::Internal { id, keys, children } = t {
        assert forall|i: int| 0 <= i < children.len() implies (#[trigger] children[i]).leaf_count()
            <= children[i].node_count() by {
            lemma_internals(children[i], lower(keys, lb, i), upper(keys, ub, i), (h - 1) as nat);
        }
        lemma_forest_internals(children);
    }
}

proof fn lemma_forest_internals(cs: Seq<Tree>)
    requires
        forall|i: int|
            0 <= i < cs.len() ==> (#[trigger] cs[i]).leaf_count() <= cs[i].node_count(),
    ensures
        forest_leaves(cs) <= forest_nodes(cs),
    decreases cs.len(),
{
    if cs.len() > 0 {
        let ds = cs.drop_last();
        assert forall|i: int| 0 <= i < ds.len() implies (#[trigger] ds[i]).leaf_count()
            <= ds[i].node_count() by {
            assert(ds[i] == cs[i]);
        }
        lemma_forest_internals(ds);
        assert(cs[cs.len() - 1].leaf_count() <= cs[cs.len() - 1].node_count());
    }
}

} // verus!
