//! What holds of every search tree.
use vstd::prelude::*;
use crate::bytes::{key_le, key_lt, lemma_key_order};
use crate::constants::{PageId, MAX_KEY_SIZE};
use crate::cuts::{lemma_bounded_parts, lemma_bounded_with, lemma_internal_full, lemma_leaf_full};
use crate::entries::{
    above, all_gt, all_lt, below, has_key, lemma_middle, lemma_rank, lemma_rank_is,
    lemma_sorted_add, lemma_sorted_parts, lemma_total_insert, lemma_total_one, lemma_total_remove,
    lemma_with_entry, lemma_without_key, lookup, rank, sorted, with_entry, within, without_key,
    Entry,
};
use crate::node::takes_in;
use crate::shape::storable;
use crate::tree::{
    bare, bounded, forest_entries, grow_internal, grow_leaf, internal_cut, leaf_cut, leaf_holds,
    leaf_parts, lemma_forest_add, lemma_forest_around, lemma_forest_one, lower, roomy, route,
    split_leaf_at, upper, valueless, Grown, Shrunk, Tree,
};

verus! {

/// The separators before the route are not greater than the key, those from it on are.
pub proof fn lemma_route(keys: Seq<Entry>, k: Seq<u8>)
    requires
        sorted(keys),
    ensures
        0 <= route(keys, k) <= keys.len(),
        forall|i: int| 0 <= i < route(keys, k) ==> key_le(#[trigger] keys[i].0, k),
        forall|i: int| route(keys, k) <= i < keys.len() ==> key_lt(k, #[trigger] keys[i].0),
{
    lemma_rank(keys, k);
    lemma_key_order();
}

/// A key within the bounds of a node is within those of the child that it is routed to.
pub proof fn lemma_route_bounds(
    keys: Seq<Entry>,
    lb: Option<Seq<u8>>,
    ub: Option<Seq<u8>>,
    k: Seq<u8>,
)
    requires
        sorted(keys),
        above(k, lb),
        below(k, ub),
    ensures
        0 <= route(keys, k) <= keys.len(),
        above(k, lower(keys, lb, route(keys, k))),
        below(k, upper(keys, ub, route(keys, k))),
{
    lemma_route(keys, k);
}

/// The pairs of neighbouring children are sorted and lie in the range of these children.
proof fn lemma_forest_range(
    keys: Seq<Entry>,
    cs: Seq<Tree>,
    lb: Option<Seq<u8>>,
    ub: Option<Seq<u8>>,
    a: int,
    b: int,
)
    requires
        sorted(keys),
        within(keys, lb, ub),
        cs.len() == keys.len() + 1,
        0 <= a <= b <= cs.len(),
        forall|i: int|
            0 <= i < cs.len() ==> sorted((#[trigger] cs[i]).entries()) && within(
                cs[i].entries(),
                lower(keys, lb, i),
                upper(keys, ub, i),
            ),
    ensures
        sorted(forest_entries(cs.subrange(a, b))),
        a < b ==> within(
            forest_entries(cs.subrange(a, b)),
            lower(keys, lb, a),
            upper(keys, ub, b - 1),
        ),
    decreases b,
{
    let s = cs.subrange(a, b);
    if a < b {
        let t = cs.subrange(a, b - 1);
        assert(s.drop_last() =~= t);
        assert(s.last() == cs[b - 1]);
        let x = forest_entries(t);
        let y = cs[b - 1].entries();
        assert(forest_entries(s) == x + y);
        lemma_forest_range(keys, cs, lb, ub, a, b - 1);
        lemma_key_order();
        if a == b - 1 {
            assert(t =~= Seq::<Tree>::empty());
            assert(x + y =~= y);
        } else {
            let m = keys[b - 2].0;
            assert(within(x, lower(keys, lb, a), Some(m)));
            assert(within(y, Some(m), upper(keys, ub, b - 1)));
            assert forall|i: int, j: int| 0 <= i < x.len() && 0 <= j < y.len() implies key_lt(
                #[trigger] x[i].0,
                #[trigger] y[j].0,
            ) by {
                assert(key_lt(x[i].0, m));
                assert(key_le(m, y[j].0));
            }
            lemma_sorted_add(x, y);
            assert(below(m, upper(keys, ub, b - 1))) by {
                if b - 1 < keys.len() {
                    assert(key_lt(keys[b - 2].0, keys[b - 1].0));
                }
            }
            assert(above(m, lower(keys, lb, a))) by {
                if a > 0 {
                    assert(key_lt(keys[a - 1].0, keys[b - 2].0));
                }
            }
            let z = x + y;
            assert forall|i: int| 0 <= i < z.len() implies above(
                #[trigger] z[i].0,
                lower(keys, lb, a),
            ) && below(z[i].0, upper(keys, ub, b - 1)) by {
                if i < x.len() {
                    assert(z[i] == x[i]);
                    assert(key_lt(x[i].0, m));
                } else {
                    assert(z[i] == y[i - x.len()]);
                    assert(key_le(m, y[i - x.len()].0));
                }
            }
        }
    }
}

/// The pairs of an ordered tree are sorted and lie within its bounds.
pub proof fn lemma_ordered_sorted(t: Tree, lb: Option<Seq<u8>>, ub: Option<Seq<u8>>)
    requires
        t.ordered(lb, ub),
        t.regular(),
    ensures
        sorted(t.entries()),
        within(t.entries(), lb, ub),
    decreases t,
{
    if let Tree::Internal { id, keys, children } = t {
        assert forall|i: int| 0 <= i < children.len() implies sorted(
            (#[trigger] children[i]).entries(),
        ) && within(children[i].entries(), lower(keys, lb, i), upper(keys, ub, i)) by {
            lemma_ordered_sorted(children[i], lower(keys, lb, i), upper(keys, ub, i));
        }
        lemma_forest_range(keys, children, lb, ub, 0, children.len() as int);
        assert(children.subrange(0, children.len() as int) =~= children);
    }
}

/// A tree that pages hold has one more child than keys in each internal node.
pub proof fn lemma_held_regular(t: Tree, p: Map<PageId, Seq<u8>>)
    requires
        t.held(p),
    ensures
        t.regular(),
    decreases t,
{
    if let Tree::Internal { id, keys, children } = t {
        assert forall|i: int| 0 <= i < children.len() implies (
        #[trigger] children[i]).regular() by {
            lemma_held_regular(children[i], p);
        }
    }
}

/// The pairs of a search tree are sorted and lie within its bounds.
pub proof fn lemma_entries_sorted(t: Tree, lb: Option<Seq<u8>>, ub: Option<Seq<u8>>, h: nat)
    requires
        t.wf(lb, ub, h),
    ensures
        sorted(t.entries()),
        within(t.entries(), lb, ub),
{
    lemma_wf_ordered(t, lb, ub, h);
    lemma_ordered_sorted(t, lb, ub);
}

/// The pairs of a search tree have sizes that can be stored.
pub proof fn lemma_entries_bounded(t: Tree, lb: Option<Seq<u8>>, ub: Option<Seq<u8>>, h: nat)
    requires
        t.wf(lb, ub, h),
    ensures
        bounded(t.entries()),
    decreases t,
{
    if let Tree::Internal { id, keys, children } = t {
        assert forall|i: int| 0 <= i < children.len() implies bounded(
            (#[trigger] children[i]).entries(),
        ) by {
            lemma_entries_bounded(
                children[i],
                lower(keys, lb, i),
                upper(keys, ub, i),
                (h - 1) as nat,
            );
        }
        lemma_forest_bounded(children);
    }
}

proof fn lemma_forest_bounded(cs: Seq<Tree>)
    requires
        forall|i: int| 0 <= i < cs.len() ==> bounded((#[trigger] cs[i]).entries()),
    ensures
        bounded(forest_entries(cs)),
    decreases cs.len(),
{
    if cs.len() > 0 {
        let ds = cs.drop_last();
        assert forall|i: int| 0 <= i < ds.len() implies bounded(
            (#[trigger] ds[i]).entries(),
        ) by {
            assert(ds[i] == cs[i]);
        }
        lemma_forest_bounded(ds);
        let a = forest_entries(ds);
        let b = cs.last().entries();
        let c = forest_entries(cs);
        assert(c == a + b);
        assert(bounded(cs[cs.len() - 1].entries()));
        assert forall|i: int| 0 <= i < c.len() implies storable((#[trigger] c[i]).0, c[i].1) by {
            if i < a.len() {
                assert(c[i] == a[i]);
            } else {
                assert(c[i] == b[i - a.len()]);
            }
        }
    }
}

/// A well-formed tree is ordered.
pub proof fn lemma_wf_ordered(t: Tree, lb: Option<Seq<u8>>, ub: Option<Seq<u8>>, h: nat)
    requires
        t.wf(lb, ub, h),
    ensures
        t.ordered(lb, ub),
        t.regular(),
    decreases t,
{
    if let Tree::Internal { id, keys, children } = t {
        assert forall|i: int| 0 <= i < children.len() implies (#[trigger] children[i]).ordered(
            lower(keys, lb, i),
            upper(keys, ub, i),
        ) && children[i].regular() by {
            lemma_wf_ordered(children[i], lower(keys, lb, i), upper(keys, ub, i), (h - 1) as nat);
        }
    }
}

/// The children before the one that a key is routed to hold smaller keys, those behind it
/// greater ones.
proof fn lemma_route_forest(
    keys: Seq<Entry>,
    cs: Seq<Tree>,
    lb: Option<Seq<u8>>,
    ub: Option<Seq<u8>>,
    k: Seq<u8>,
)
    requires
        sorted(keys),
        within(keys, lb, ub),
        cs.len() == keys.len() + 1,
        forall|i: int|
            0 <= i < cs.len() ==> sorted((#[trigger] cs[i]).entries()) && within(
                cs[i].entries(),
                lower(keys, lb, i),
                upper(keys, ub, i),
            ),
    ensures
        0 <= route(keys, k) < cs.len(),
        all_lt(forest_entries(cs.take(route(keys, k))), k),
        all_gt(forest_entries(cs.skip(route(keys, k) + 1)), k),
        sorted(forest_entries(cs)),
{
    let c = route(keys, k);
    lemma_route(keys, k);
    lemma_key_order();
    let n = cs.len() as int;
    lemma_forest_range(keys, cs, lb, ub, 0, c);
    lemma_forest_range(keys, cs, lb, ub, c + 1, n);
    lemma_forest_range(keys, cs, lb, ub, 0, n);
    assert(cs.subrange(0, c) =~= cs.take(c));
    assert(cs.subrange(c + 1, n) =~= cs.skip(c + 1));
    assert(cs.subrange(0, n) =~= cs);
    let a = forest_entries(cs.take(c));
    let b = forest_entries(cs.skip(c + 1));
    if c > 0 {
        assert(key_le(keys[c - 1].0, k));
        assert forall|i: int| 0 <= i < a.len() implies key_lt(#[trigger] a[i].0, k) by {
            assert(key_lt(a[i].0, keys[c - 1].0));
        }
    } else {
        assert(cs.take(c) =~= Seq::<Tree>::empty());
    }
    if c < keys.len() {
        assert(key_lt(k, keys[c].0));
        assert forall|i: int| 0 <= i < b.len() implies key_lt(k, #[trigger] b[i].0) by {
            assert(key_le(keys[c].0, b[i].0));
        }
    } else {
        assert(cs.skip(c + 1) =~= Seq::<Tree>::empty());
    }
}

/// In an internal node, what concerns a key concerns the child that the key is routed to alone.
pub proof fn lemma_ordered_route(
    t: Tree,
    lb: Option<Seq<u8>>,
    ub: Option<Seq<u8>>,
    k: Seq<u8>,
    v: Seq<u8>,
)
    requires
        t.ordered(lb, ub),
        t.regular(),
        t is Internal,
    ensures
        ({
            let c = route(t->keys, k);
            let child = t->children[c];
            let a = forest_entries(t->children.take(c));
            let b = forest_entries(t->children.skip(c + 1));
            &&& 0 <= c < t->children.len()
            &&& child.ordered(lower(t->keys, lb, c), upper(t->keys, ub, c))
            &&& child.regular()
            &&& t.entries() == a + child.entries() + b
            &&& sorted(t.entries())
            &&& all_lt(a, k)
            &&& all_gt(b, k)
            &&& lookup(t.entries(), k) == lookup(child.entries(), k)
            &&& has_key(t.entries(), k) == has_key(child.entries(), k)
            &&& with_entry(t.entries(), k, v) == a + with_entry(child.entries(), k, v) + b
            &&& without_key(t.entries(), k) == a + without_key(child.entries(), k) + b
        }),
{
    let keys = t->keys;
    let cs = t->children;
    assert forall|i: int| 0 <= i < cs.len() implies sorted((#[trigger] cs[i]).entries()) && within(
        cs[i].entries(),
        lower(keys, lb, i),
        upper(keys, ub, i),
    ) by {
        lemma_ordered_sorted(cs[i], lower(keys, lb, i), upper(keys, ub, i));
    }
    lemma_route_forest(keys, cs, lb, ub, k);
    let c = route(keys, k);
    lemma_forest_around(cs, c);
    lemma_middle(forest_entries(cs.take(c)), cs[c].entries(), forest_entries(cs.skip(c + 1)), k, v);
    assert(cs[c].ordered(lower(keys, lb, c), upper(keys, ub, c)));
}

/// The same in a well-formed tree.
pub proof fn lemma_route_child(
    t: Tree,
    lb: Option<Seq<u8>>,
    ub: Option<Seq<u8>>,
    h: nat,
    k: Seq<u8>,
    v: Seq<u8>,
)
    requires
        t.wf(lb, ub, h),
        t is Internal,
    ensures
        ({
            let c = route(t->keys, k);
            let child = t->children[c];
            let a = forest_entries(t->children.take(c));
            let b = forest_entries(t->children.skip(c + 1));
            &&& 0 <= c < t->children.len()
            &&& child.wf(lower(t->keys, lb, c), upper(t->keys, ub, c), (h - 1) as nat)
            &&& t.entries() == a + child.entries() + b
            &&& sorted(t.entries())
            &&& all_lt(a, k)
            &&& all_gt(b, k)
            &&& lookup(t.entries(), k) == lookup(child.entries(), k)
            &&& has_key(t.entries(), k) == has_key(child.entries(), k)
            &&& with_entry(t.entries(), k, v) == a + with_entry(child.entries(), k, v) + b
            &&& without_key(t.entries(), k) == a + without_key(child.entries(), k) + b
        }),
{
    lemma_wf_ordered(t, lb, ub, h);
    lemma_ordered_route(t, lb, ub, k, v);
}

/// A key is in a tree exactly where it is in the leaf that it is routed to.
pub proof fn lemma_leaf_for(t: Tree, lb: Option<Seq<u8>>, ub: Option<Seq<u8>>, k: Seq<u8>)
    requires
        t.ordered(lb, ub),
        t.regular(),
    ensures
        lookup(t.entries(), k) == lookup(t.leaf_for(k), k),
        has_key(t.entries(), k) == has_key(t.leaf_for(k), k),
        sorted(t.leaf_for(k)),
    decreases t,
{
    if let Tree::Internal { id, keys, children } = t {
        lemma_ordered_route(t, lb, ub, k, Seq::empty());
        let c = route(keys, k);
        lemma_leaf_for(children[c], lower(keys, lb, c), upper(keys, ub, c), k);
    }
}

/// In a well-formed tree all leaves lie equally deep.
pub proof fn lemma_height(t: Tree, lb: Option<Seq<u8>>, ub: Option<Seq<u8>>, h: nat)
    requires
        t.wf(lb, ub, h),
    ensures
        t.height() == h,
    decreases t,
{
    if let Tree::Internal { id, keys, children } = t {
        assert(children[0].wf(lower(keys, lb, 0), upper(keys, ub, 0), (h - 1) as nat));
        lemma_height(children[0], lower(keys, lb, 0), upper(keys, ub, 0), (h - 1) as nat);
    }
}

/// A leaf page holds the pairs without one of them.
proof fn lemma_holds_less(s: Seq<Entry>, i: int)
    requires
        leaf_holds(s),
        0 <= i < s.len(),
    ensures
        leaf_holds(s.remove(i)),
{
    let r = s.remove(i);
    lemma_total_remove(s, i);
    assert forall|j: int| 0 <= j < r.len() implies storable((#[trigger] r[j]).0, r[j].1) by {
        if j < i {
            assert(r[j] == s[j]);
        } else {
            assert(r[j] == s[j + 1]);
        }
    }
}

/// Taking a key out: it ends by the leaf that the key is routed to, and leaves a well-formed
/// tree without the key.
pub proof fn lemma_shrink(
    t: Tree,
    lb: Option<Seq<u8>>,
    ub: Option<Seq<u8>>,
    h: nat,
    k: Seq<u8>,
)
    requires
        t.wf(lb, ub, h),
        lb is Some && t is Leaf ==> t->entries.len() > 1,
    ensures
        t is Internal && t.leaf_for(k).len() <= 1 <==> t.shrink(k) is WouldEmpty,
        t.shrink(k) is Missing ==> !has_key(t.entries(), k),
        t.shrink(k) matches Shrunk::Deleted(s) ==> {
            &&& has_key(t.entries(), k)
            &&& s.id() == t.id()
            &&& s.wf(lb, ub, h)
            &&& s.entries() == without_key(t.entries(), k)
            &&& forall|x: PageId| s.owns(x) <==> t.owns(x)
            &&& t.distinct() ==> s.distinct()
        },
    decreases t,
{
    match t {
        Tree::Leaf { id, entries } => {
            lemma_without_key(entries, k);
            lemma_rank(entries, k);
            assert(within(without_key(entries, k), lb, ub));
            if has_key(entries, k) {
                lemma_holds_less(entries, rank(entries, k));
            }
        },
        Tree::Internal { id, keys, children } => {
            let c = route(keys, k);
            lemma_route_child(t, lb, ub, h, k, Seq::empty());
            let child = children[c];
            assert(t.leaf_for(k) == child.leaf_for(k));
            if child is Leaf {
                assert(child.leaf_for(k) == child->entries);
            }
            if child is Leaf && child->entries.len() <= 1 {
            } else {
                lemma_shrink(child, lower(keys, lb, c), upper(keys, ub, c), (h - 1) as nat, k);
                if let Shrunk::Deleted(s) = child.shrink(k) {
                    let cs = children.update(c, s);
                    let u = Tree::Internal { id, keys, children: cs };
                    assert(t.shrink(k) == Shrunk::Deleted(u));
                    lemma_replace_child(t, lb, ub, h, c, s);
                    assert(cs.take(c) =~= children.take(c));
                    assert(cs.skip(c + 1) =~= children.skip(c + 1));
                    lemma_forest_around(cs, c);
                    lemma_replace_owned(t, c, s);
                }
            }
        },
    }
}

/// A child may be replaced by a well-formed tree with the same bounds.
pub proof fn lemma_replace_child(
    t: Tree,
    lb: Option<Seq<u8>>,
    ub: Option<Seq<u8>>,
    h: nat,
    c: int,
    s: Tree,
)
    requires
        t.wf(lb, ub, h),
        t is Internal,
        0 <= c < t->children.len(),
        s.wf(lower(t->keys, lb, c), upper(t->keys, ub, c), (h - 1) as nat),
    ensures
        (Tree::Internal { id: t.id(), keys: t->keys, children: t->children.update(c, s) }).wf(
            lb,
            ub,
            h,
        ),
{
    let keys = t->keys;
    let cs = t->children.update(c, s);
    assert forall|i: int| 0 <= i < cs.len() implies (#[trigger] cs[i]).wf(
        lower(keys, lb, i),
        upper(keys, ub, i),
        (h - 1) as nat,
    ) by {
        if i != c {
            assert(cs[i] == t->children[i]);
        }
    }
}

/// The pages of a child belong to the tree.
pub proof fn lemma_owns_child(t: Tree, i: int, x: PageId)
    requires
        t is Internal,
        0 <= i < t->children.len(),
        t->children[i].owns(x),
    ensures
        t.owns(x),
{
    if let Tree::Internal { id, keys, children } = t {
        assert(children[i].owns(x));
    }
}

/// Replacing a child by a tree in the same pages keeps the pages of the whole.
pub proof fn lemma_replace_owned(t: Tree, c: int, s: Tree)
    requires
        t is Internal,
        0 <= c < t->children.len(),
        forall|x: PageId| s.owns(x) <==> t->children[c].owns(x),
        t.distinct() ==> s.distinct(),
    ensures
        ({
            let u = Tree::Internal {
                id: t.id(),
                keys: t->keys,
                children: t->children.update(c, s),
            };
            &&& forall|x: PageId| u.owns(x) <==> t.owns(x)
            &&& t.distinct() ==> u.distinct()
        }),
{
    let cs = t->children;
    let ds = cs.update(c, s);
    let u = Tree::Internal { id: t.id(), keys: t->keys, children: ds };
    assert forall|i: int, x: PageId| 0 <= i < ds.len() implies (#[trigger] ds[i].owns(x)
        <==> cs[i].owns(x)) by {}
    assert forall|x: PageId| u.owns(x) <==> t.owns(x) by {
        if t.owns(x) && x != t.id() {
            let i = choose|i: int| 0 <= i < cs.len() && (#[trigger] cs[i]).owns(x);
            assert(cs[i].owns(x));
            assert(ds[i].owns(x));
            lemma_owns_child(u, i, x);
        }
        if u.owns(x) && x != t.id() {
            let i = choose|i: int| 0 <= i < ds.len() && (#[trigger] ds[i]).owns(x);
            assert(ds[i].owns(x));
            assert(cs[i].owns(x));
            assert(t.owns(x));
        }
        assert(x == t.id() ==> u.owns(x) && t.owns(x));
    }
    if t.distinct() {
        assert forall|i: int| 0 <= i < ds.len() implies !(#[trigger] ds[i]).owns(t.id()) by {
            assert(!cs[i].owns(t.id()));
            assert(ds[i].owns(t.id()) <==> cs[i].owns(t.id()));
        }
        assert forall|i: int| 0 <= i < ds.len() implies (#[trigger] ds[i]).distinct() by {
            assert(cs[i].distinct());
        }
        assert forall|i: int, j: int, x: PageId|
            0 <= i < j < ds.len() && #[trigger] ds[i].owns(x) implies !(#[trigger] ds[j].owns(
            x,
        )) by {
            assert(cs[i].owns(x));
            assert(!cs[j].owns(x));
        }
    }
}

/// Keys and children that make up an internal node, but for their number and their room.
pub open spec fn joined(
    keys: Seq<Entry>,
    cs: Seq<Tree>,
    lb: Option<Seq<u8>>,
    ub: Option<Seq<u8>>,
    h: nat,
) -> bool {
    &&& valueless(keys)
    &&& bounded(keys)
    &&& sorted(keys)
    &&& within(keys, lb, ub)
    &&& cs.len() == keys.len() + 1
    &&& forall|i: int|
        0 <= i < cs.len() ==> (#[trigger] cs[i]).wf(lower(keys, lb, i), upper(keys, ub, i), h)
}

/// A child that split takes its place with the key between its halves.
proof fn lemma_join_split(
    keys: Seq<Entry>,
    cs: Seq<Tree>,
    lb: Option<Seq<u8>>,
    ub: Option<Seq<u8>>,
    h: nat,
    c: int,
    l: Tree,
    m: Seq<u8>,
    r: Tree,
)
    requires
        joined(keys, cs, lb, ub, h),
        0 <= c < cs.len(),
        l.wf(lower(keys, lb, c), Some(m), h),
        r.wf(Some(m), upper(keys, ub, c), h),
        above(m, lb),
        below(m, upper(keys, ub, c)),
        lower(keys, lb, c) matches Some(b) ==> key_lt(b, m),
        0 < m.len() <= MAX_KEY_SIZE,
    ensures
        rank(keys, m) == c,
        !has_key(keys, m),
        joined(keys.insert(c, bare(m)), cs.update(c, l).insert(c + 1, r), lb, ub, h),
{
    lemma_key_order();
    let ks = keys.insert(c, bare(m));
    let ds = cs.update(c, l).insert(c + 1, r);
    assert forall|i: int| 0 <= i < c implies key_lt(#[trigger] keys[i].0, m) by {
        if i < c - 1 {
            assert(key_lt(keys[i].0, keys[c - 1].0));
        }
    }
    assert forall|i: int| c <= i < keys.len() implies key_lt(m, #[trigger] keys[i].0) by {
        if i > c {
            assert(key_lt(keys[c].0, keys[i].0));
        }
    }
    lemma_rank_is(keys, m, c);
    lemma_with_entry(keys, m, Seq::empty());
    lemma_bounded_with(keys, m, Seq::empty());
    assert(ks == with_entry(keys, m, Seq::empty()));
    assert(below(m, ub)) by {
        if c < keys.len() {
            assert(key_lt(m, keys[c].0));
            assert(below(keys[c].0, ub));
        }
    }
    assert(within(ks, lb, ub));
    assert forall|i: int| 0 <= i < ks.len() implies (#[trigger] ks[i]).1 == Seq::<u8>::empty() by {
        if i < c {
            assert(ks[i] == keys[i]);
        } else if i > c {
            assert(ks[i] == keys[i - 1]);
        }
    }
    assert forall|i: int| 0 <= i < ds.len() implies (#[trigger] ds[i]).wf(
        lower(ks, lb, i),
        upper(ks, ub, i),
        h,
    ) by {
        if i < c {
            assert(ds[i] == cs[i]);
            assert(cs[i].wf(lower(keys, lb, i), upper(keys, ub, i), h));
        } else if i > c + 1 {
            assert(ds[i] == cs[i - 1]);
            assert(cs[i - 1].wf(lower(keys, lb, i - 1), upper(keys, ub, i - 1), h));
        } else if i == c {
            assert(ds[i] == l);
        } else {
            assert(ds[i] == r);
        }
    }
}

/// Keys and children can be cut in two at a key, which then stands between the halves.
proof fn lemma_cut(
    keys: Seq<Entry>,
    cs: Seq<Tree>,
    lb: Option<Seq<u8>>,
    ub: Option<Seq<u8>>,
    h: nat,
    mid: int,
)
    requires
        joined(keys, cs, lb, ub, h),
        0 <= mid < keys.len(),
    ensures
        joined(keys.take(mid), cs.take(mid + 1), lb, Some(keys[mid].0), h),
        joined(keys.skip(mid + 1), cs.skip(mid + 1), Some(keys[mid].0), ub, h),
        forest_entries(cs) == forest_entries(cs.take(mid + 1)) + forest_entries(cs.skip(mid + 1)),
        lb matches Some(b) ==> mid > 0 ==> key_lt(b, keys[mid].0),
        below(keys[mid].0, ub),
{
    lemma_key_order();
    let m = keys[mid].0;
    let k1 = keys.take(mid);
    let k2 = keys.skip(mid + 1);
    let c1 = cs.take(mid + 1);
    let c2 = cs.skip(mid + 1);
    assert(keys =~= k1 + keys.skip(mid));
    assert(keys =~= keys.take(mid + 1) + k2);
    lemma_sorted_parts(k1, keys.skip(mid));
    lemma_sorted_parts(keys.take(mid + 1), k2);
    assert forall|i: int| 0 <= i < k1.len() implies above(#[trigger] k1[i].0, lb) && below(
        k1[i].0,
        Some(m),
    ) by {
        assert(k1[i] == keys[i]);
        assert(key_lt(keys[i].0, keys[mid].0));
    }
    assert forall|i: int| 0 <= i < k2.len() implies above(#[trigger] k2[i].0, Some(m)) && below(
        k2[i].0,
        ub,
    ) by {
        assert(k2[i] == keys[mid + 1 + i]);
        assert(key_lt(keys[mid].0, keys[mid + 1 + i].0));
    }
    assert forall|i: int| 0 <= i < c1.len() implies (#[trigger] c1[i]).wf(
        lower(k1, lb, i),
        upper(k1, Some(m), i),
        h,
    ) by {
        assert(c1[i] == cs[i]);
        assert(cs[i].wf(lower(keys, lb, i), upper(keys, ub, i), h));
    }
    assert forall|i: int| 0 <= i < c2.len() implies (#[trigger] c2[i]).wf(
        lower(k2, Some(m), i),
        upper(k2, ub, i),
        h,
    ) by {
        let j = mid + 1 + i;
        assert(c2[i] == cs[j]);
        assert(cs[j].wf(lower(keys, lb, j), upper(keys, ub, j), h));
        assert(lower(keys, lb, j) == lower(k2, Some(m), i));
        assert(upper(keys, ub, j) == upper(k2, ub, i));
    }
    assert forall|i: int| 0 <= i < k1.len() implies (#[trigger] k1[i]).1 == Seq::<u8>::empty() by {
        assert(k1[i] == keys[i]);
    }
    assert forall|i: int| 0 <= i < k2.len() implies (#[trigger] k2[i]).1 == Seq::<u8>::empty() by {
        assert(k2[i] == keys[mid + 1 + i]);
    }
    lemma_bounded_parts(keys, mid);
    lemma_bounded_parts(keys, mid + 1);
    assert(cs =~= c1 + c2);
    lemma_forest_add(c1, c2);
    if mid > 0 {
        assert(key_lt(keys[0].0, keys[mid].0));
        assert(above(keys[0].0, lb));
    }
    assert(below(keys[mid].0, ub));
}

/// A leaf that is cut gives two leaves with a key between them.
proof fn lemma_leaf_cut(
    w: Seq<Entry>,
    lb: Option<Seq<u8>>,
    ub: Option<Seq<u8>>,
    mid: int,
    id: PageId,
    right: PageId,
)
    requires
        sorted(w),
        within(w, lb, ub),
        0 <= mid < w.len(),
        lb is Some ==> mid > 0,
        leaf_holds(w.take(mid)),
        leaf_holds(w.skip(mid)),
    ensures
        split_leaf_at(id, w, mid, right) matches Grown::Split(l, m, r) && {
            &&& l.wf(lb, Some(m), 0)
            &&& r.wf(Some(m), ub, 0)
            &&& l.entries() + r.entries() == w
            &&& above(m, lb)
            &&& below(m, ub)
            &&& lb matches Some(b) ==> key_lt(b, m)
            &&& 0 < m.len() <= MAX_KEY_SIZE
        },
{
    lemma_key_order();
    let m = w[mid].0;
    let a = w.take(mid);
    let b = w.skip(mid);
    assert(w =~= a + b);
    lemma_sorted_parts(a, b);
    assert forall|i: int| 0 <= i < a.len() implies above(#[trigger] a[i].0, lb) && below(
        a[i].0,
        Some(m),
    ) by {
        assert(a[i] == w[i]);
        assert(key_lt(w[i].0, w[mid].0));
    }
    assert forall|i: int| 0 <= i < b.len() implies above(#[trigger] b[i].0, Some(m)) && below(
        b[i].0,
        ub,
    ) by {
        assert(b[i] == w[mid + i]);
        if i > 0 {
            assert(key_lt(w[mid].0, w[mid + i].0));
        }
    }
    if lb is Some {
        assert(key_lt(w[0].0, w[mid].0));
        assert(above(w[0].0, lb));
    }
    assert(above(w[mid].0, lb) && below(w[mid].0, ub));
    assert(b[0] == w[mid]);
    assert(storable(b[0].0, b[0].1));
}

/// What becomes of a leaf is well-formed within its bounds.
proof fn lemma_grow_leaf(
    s: Seq<Entry>,
    lb: Option<Seq<u8>>,
    ub: Option<Seq<u8>>,
    k: Seq<u8>,
    v: Seq<u8>,
    id: PageId,
    right: PageId,
)
    requires
        sorted(s),
        within(s, lb, ub),
        lb is Some ==> s.len() > 0,
        leaf_holds(s),
        above(k, lb),
        below(k, ub),
        storable(k, v),
    ensures
        match grow_leaf(id, s, k, v, right) {
            Grown::Whole(t) => {
                &&& t.id() == id
                &&& t.wf(lb, ub, 0)
                &&& t.entries() == with_entry(s, k, v)
                &&& !leaf_parts(s, k, v)
            },
            Grown::Split(l, m, r) => {
                &&& l.id() == id
                &&& r.id() == right
                &&& l.wf(lb, Some(m), 0)
                &&& r.wf(Some(m), ub, 0)
                &&& l.entries() + r.entries() == if leaf_parts(s, k, v) {
                    s
                } else {
                    with_entry(s, k, v)
                }
                &&& above(m, lb)
                &&& below(m, ub)
                &&& lb matches Some(b) ==> key_lt(b, m)
                &&& 0 < m.len() <= MAX_KEY_SIZE
            },
        },
{
    let w = with_entry(s, k, v);
    lemma_with_entry(s, k, v);
    lemma_rank(s, k);
    lemma_bounded_with(s, k, v);
    assert(within(w, lb, ub));
    if takes_in(s, k, v) {
        if !has_key(s, k) {
            lemma_total_insert(s, rank(s, k), (k, v));
        }
    } else {
        lemma_leaf_full(s, k, v);
        if leaf_parts(s, k, v) {
            lemma_leaf_cut(s, lb, ub, rank(s, k), id, right);
        } else {
            lemma_leaf_cut(w, lb, ub, leaf_cut(w), id, right);
        }
    }
}

/// Binding a key: the pairs of what becomes of the tree are those of the tree with the key bound,
/// or the same where a leaf is parted, and each part of it is well-formed within its bounds.
pub proof fn lemma_grow(
    t: Tree,
    lb: Option<Seq<u8>>,
    ub: Option<Seq<u8>>,
    h: nat,
    k: Seq<u8>,
    v: Seq<u8>,
    fresh: Seq<PageId>,
)
    requires
        t.wf(lb, ub, h),
        above(k, lb),
        below(k, ub),
        storable(k, v),
    ensures
        match t.grow(k, v, fresh) {
            Grown::Whole(s) => {
                &&& s.id() == t.id()
                &&& s.wf(lb, ub, h)
                &&& s.entries() == t.entries_with(k, v)
                &&& t.splits(k, v, fresh) <= h
            },
            Grown::Split(l, m, r) => {
                &&& l.id() == t.id()
                &&& r.id() == fresh[h as int]
                &&& l.wf(lb, Some(m), h)
                &&& r.wf(Some(m), ub, h)
                &&& l.entries() + r.entries() == t.entries_with(k, v)
                &&& above(m, lb)
                &&& below(m, ub)
                &&& lb matches Some(b) ==> key_lt(b, m)
                &&& 0 < m.len() <= MAX_KEY_SIZE
                &&& t.splits(k, v, fresh) == h + 1
            },
        },
    decreases t,
{
    match t {
        Tree::Leaf { id, entries } => {
            lemma_grow_leaf(entries, lb, ub, k, v, id, fresh[0]);
        },
        Tree::Internal { id, keys, children } => {
            let c = route(keys, k);
            let child = children[c];
            let h1 = (h - 1) as nat;
            lemma_route_child(t, lb, ub, h, k, v);
            lemma_route_bounds(keys, lb, ub, k);
            lemma_height(t, lb, ub, h);
            lemma_grow(child, lower(keys, lb, c), upper(keys, ub, c), h1, k, v, fresh);
            let a = forest_entries(children.take(c));
            let b = forest_entries(children.skip(c + 1));
            assert(t.leaf_for(k) == child.leaf_for(k));
            assert(t.entries_with(k, v) == a + child.entries_with(k, v) + b);
            match child.grow(k, v, fresh) {
                Grown::Whole(s) => {
                    let cs = children.update(c, s);
                    lemma_replace_child(t, lb, ub, h, c, s);
                    assert(cs.take(c) =~= children.take(c));
                    assert(cs.skip(c + 1) =~= children.skip(c + 1));
                    lemma_forest_around(cs, c);
                },
                Grown::Split(l, m, r) => {
                    let ks = keys.insert(c, bare(m));
                    let cs = children.update(c, l).insert(c + 1, r);
                    assert(joined(keys, children, lb, ub, h1));
                    assert(above(m, lb)) by {
                        lemma_key_order();
                        if c > 0 {
                            assert(above(keys[c - 1].0, lb));
                        }
                    }
                    lemma_join_split(keys, children, lb, ub, h1, c, l, m, r);
                    assert(cs =~= children.take(c) + (seq![l] + seq![r]) + children.skip(c + 1));
                    lemma_forest_add(
                        children.take(c) + (seq![l] + seq![r]),
                        children.skip(c + 1),
                    );
                    lemma_forest_add(children.take(c), seq![l] + seq![r]);
                    lemma_forest_add(seq![l], seq![r]);
                    lemma_forest_one(l);
                    lemma_forest_one(r);
                    assert(forest_entries(cs) == t.entries_with(k, v));
                    lemma_total_insert(keys, c, bare(m));
                    if !roomy(ks) {
                        let mid = internal_cut(ks);
                        lemma_internal_full(ks);
                        lemma_cut(ks, cs, lb, ub, h1, mid);
                        assert(above(ks[mid].0, lb));
                        assert(storable(ks[mid].0, ks[mid].1));
                    }
                },
            }
        },
    }
}

/// Binding a key in an internal node binds it in the child that the key is routed to. Where that
/// child splits, the key between its halves takes the place of the child among the separators.
pub proof fn lemma_grow_child(
    t: Tree,
    lb: Option<Seq<u8>>,
    ub: Option<Seq<u8>>,
    h: nat,
    k: Seq<u8>,
    v: Seq<u8>,
    fresh: Seq<PageId>,
)
    requires
        t.wf(lb, ub, h),
        t is Internal,
        above(k, lb),
        below(k, ub),
        storable(k, v),
    ensures
        ({
            let c = route(t->keys, k);
            let child = t->children[c];
            let n = child.splits(k, v, fresh);
            &&& 0 <= c < t->children.len()
            &&& child.wf(lower(t->keys, lb, c), upper(t->keys, ub, c), (h - 1) as nat)
            &&& above(k, lower(t->keys, lb, c))
            &&& below(k, upper(t->keys, ub, c))
            &&& sorted(t->keys)
            &&& valueless(t->keys)
            &&& bounded(t->keys)
            &&& roomy(t->keys)
            &&& h > 0
            &&& t.parts(k, v) == child.parts(k, v)
            &&& match child.grow(k, v, fresh) {
                Grown::Whole(s) => {
                    &&& s.id() == child.id()
                    &&& t.splits(k, v, fresh) == n
                    &&& n <= h
                    &&& t.grow(k, v, fresh) == Grown::Whole(
                        Tree::Internal {
                            id: t.id(),
                            keys: t->keys,
                            children: t->children.update(c, s),
                        },
                    )
                },
                Grown::Split(l, m, r) => {
                    let ks = t->keys.insert(c, bare(m));
                    &&& l.id() == child.id()
                    &&& n == h
                    &&& 0 < m.len() <= MAX_KEY_SIZE
                    &&& rank(t->keys, m) == c
                    &&& !has_key(t->keys, m)
                    &&& t.splits(k, v, fresh) == n + if roomy(ks) {
                        0nat
                    } else {
                        1nat
                    }
                    &&& t.grow(k, v, fresh) == grow_internal(
                        t.id(),
                        ks,
                        t->children.update(c, l).insert(c + 1, r),
                        fresh[h as int],
                    )
                },
            }
        }),
{
    let keys = t->keys;
    let children = t->children;
    let c = route(keys, k);
    let child = children[c];
    let h1 = (h - 1) as nat;
    lemma_route_child(t, lb, ub, h, k, v);
    lemma_route_bounds(keys, lb, ub, k);
    lemma_height(t, lb, ub, h);
    lemma_grow(child, lower(keys, lb, c), upper(keys, ub, c), h1, k, v, fresh);
    assert(t.leaf_for(k) == child.leaf_for(k));
    if let Grown::Split(l, m, r) = child.grow(k, v, fresh) {
        assert(joined(keys, children, lb, ub, h1));
        assert(above(m, lb)) by {
            lemma_key_order();
            if c > 0 {
                assert(above(keys[c - 1].0, lb));
            }
        }
        lemma_join_split(keys, children, lb, ub, h1, c, l, m, r);
    }
}

/// Where the separators before `c` are not greater than the key and those from `c` on are, the key
/// is routed there.
proof fn lemma_route_is(keys: Seq<Entry>, k: Seq<u8>, c: int)
    requires
        sorted(keys),
        0 <= c <= keys.len(),
        c > 0 ==> key_le(keys[c - 1].0, k),
        c < keys.len() ==> key_lt(k, keys[c].0),
    ensures
        route(keys, k) == c,
{
    lemma_route(keys, k);
    lemma_key_order();
    let d = route(keys, k);
    if d < c {
        assert(key_lt(k, keys[c - 1].0));
    } else if c < d {
        assert(key_le(keys[c].0, k));
    }
}

/// The pairs of the leaf in which a key belongs, in what became of a tree.
spec fn leaf_in(g: Grown, k: Seq<u8>) -> Seq<Entry> {
    match g {
        Grown::Whole(t) => t.leaf_for(k),
        Grown::Split(l, m, r) => if key_lt(k, m) {
            l.leaf_for(k)
        } else {
            r.leaf_for(k)
        },
    }
}

/// The part of a leaf in which a key belongs once the leaf is parted there.
spec fn part_for(s: Seq<Entry>, k: Seq<u8>) -> Seq<Entry> {
    if has_key(s, k) {
        s.skip(rank(s, k))
    } else {
        s.take(rank(s, k))
    }
}

/// In an internal node, split or not, a key is routed to the same child.
proof fn lemma_leaf_in(
    id: PageId,
    ks: Seq<Entry>,
    cs: Seq<Tree>,
    right: PageId,
    k: Seq<u8>,
)
    requires
        sorted(ks),
        cs.len() == ks.len() + 1,
        !roomy(ks) ==> 0 <= internal_cut(ks) < ks.len(),
    ensures
        0 <= route(ks, k) < cs.len(),
        leaf_in(grow_internal(id, ks, cs, right), k) == cs[route(ks, k)].leaf_for(k),
{
    lemma_route(ks, k);
    lemma_key_order();
    if !roomy(ks) {
        let mid = internal_cut(ks);
        let c = route(ks, k);
        let k1 = ks.take(mid);
        let k2 = ks.skip(mid + 1);
        assert(ks =~= k1 + ks.skip(mid));
        assert(ks =~= ks.take(mid + 1) + k2);
        lemma_sorted_parts(k1, ks.skip(mid));
        lemma_sorted_parts(ks.take(mid + 1), k2);
        if key_lt(k, ks[mid].0) {
            if c > mid {
                assert(key_le(ks[mid].0, k));
            }
            assert(c > 0 ==> k1[c - 1] == ks[c - 1]);
            assert(c < mid ==> k1[c] == ks[c]);
            lemma_route_is(k1, k, c);
            assert(cs.take(mid + 1)[c] == cs[c]);
        } else {
            if c <= mid {
                assert(key_lt(k, ks[mid].0));
            }
            let d = c - mid - 1;
            assert(d > 0 ==> k2[d - 1] == ks[c - 1]);
            assert(d < k2.len() ==> k2[d] == ks[c]);
            lemma_route_is(k2, k, d);
            assert(cs.skip(mid + 1)[d] == cs[c]);
        }
    }
}

/// Where a leaf is parted, the key belongs in one of its parts.
proof fn lemma_part_for(
    t: Tree,
    lb: Option<Seq<u8>>,
    ub: Option<Seq<u8>>,
    h: nat,
    k: Seq<u8>,
    v: Seq<u8>,
    fresh: Seq<PageId>,
)
    requires
        t.wf(lb, ub, h),
        above(k, lb),
        below(k, ub),
        storable(k, v),
        t.parts(k, v),
    ensures
        leaf_in(t.grow(k, v, fresh), k) == part_for(t.leaf_for(k), k),
    decreases t,
{
    lemma_key_order();
    match t {
        Tree::Leaf { id, entries } => {
            lemma_rank(entries, k);
            lemma_leaf_full(entries, k, v);
        },
        Tree::Internal { id, keys, children } => {
            let c = route(keys, k);
            let child = children[c];
            let h1 = (h - 1) as nat;
            lemma_grow_child(t, lb, ub, h, k, v, fresh);
            lemma_route(keys, k);
            assert(t.leaf_for(k) == child.leaf_for(k));
            lemma_part_for(child, lower(keys, lb, c), upper(keys, ub, c), h1, k, v, fresh);
            match child.grow(k, v, fresh) {
                Grown::Whole(s) => {
                    assert(children.update(c, s)[c] == s);
                },
                Grown::Split(l, m, r) => {
                    let ks = keys.insert(c, bare(m));
                    let cs = children.update(c, l).insert(c + 1, r);
                    lemma_insert_full(keys, m, c);
                    lemma_leaf_in(id, ks, cs, fresh[h as int], k);
                    let d = if key_lt(k, m) {
                        c
                    } else {
                        c + 1
                    };
                    assert(ks[c].0 == m);
                    assert(d == c && c > 0 ==> ks[c - 1] == keys[c - 1]);
                    assert(d == c + 1 && c < keys.len() ==> ks[c + 1] == keys[c]);
                    lemma_route_is(ks, k, d);
                },
            }
        },
    }
}

/// The page is one of the first `n`.
pub open spec fn among(fresh: Seq<PageId>, n: nat, x: PageId) -> bool {
    exists|i: int| 0 <= i < n && #[trigger] fresh[i] == x
}

/// The first `n` pages differ from each other and from those of the tree.
pub open spec fn fresh_for(fresh: Seq<PageId>, n: nat, t: Tree) -> bool {
    &&& n <= fresh.len()
    &&& forall|i: int, j: int| 0 <= i < j < n ==> #[trigger] fresh[i] != #[trigger] fresh[j]
    &&& forall|i: int| 0 <= i < n ==> !t.owns(#[trigger] fresh[i])
}

/// No page belongs to both trees.
pub open spec fn apart(a: Tree, b: Tree) -> bool {
    forall|x: PageId| #![trigger a.owns(x)] #![trigger b.owns(x)] !(a.owns(x) && b.owns(x))
}

/// The trees of a row are distinct and no page belongs to two of them or is `id`.
pub open spec fn row_distinct(id: PageId, cs: Seq<Tree>) -> bool {
    &&& forall|i: int| 0 <= i < cs.len() ==> !(#[trigger] cs[i]).owns(id)
    &&& forall|i: int| 0 <= i < cs.len() ==> (#[trigger] cs[i]).distinct()
    &&& forall|i: int, j: int, x: PageId|
        0 <= i < j < cs.len() && #[trigger] cs[i].owns(x) ==> !(#[trigger] cs[j].owns(x))
}

/// The page belongs to a tree of the row.
pub open spec fn row_owns(cs: Seq<Tree>, x: PageId) -> bool {
    exists|i: int| 0 <= i < cs.len() && (#[trigger] cs[i]).owns(x)
}

/// The pages of an internal node are its own and those of its children.
proof fn lemma_internal_owns(id: PageId, keys: Seq<Entry>, cs: Seq<Tree>)
    ensures
        forall|x: PageId|
            #[trigger] (Tree::Internal { id, keys, children: cs }).owns(x) <==> x == id
                || row_owns(cs, x),
        (Tree::Internal { id, keys, children: cs }).distinct() <==> row_distinct(id, cs),
{
    let t = Tree::Internal { id, keys, children: cs };
    assert forall|x: PageId| #[trigger] t.owns(x) <==> x == id || row_owns(cs, x) by {
        if row_owns(cs, x) {
            let i = choose|i: int| 0 <= i < cs.len() && (#[trigger] cs[i]).owns(x);
            lemma_owns_child(t, i, x);
        }
    }
}

/// An internal node that one more key makes too full can be cut.
pub proof fn lemma_insert_full(keys: Seq<Entry>, m: Seq<u8>, c: int)
    requires
        sorted(keys),
        roomy(keys),
        bounded(keys),
        valueless(keys),
        0 < m.len() <= MAX_KEY_SIZE,
        rank(keys, m) == c,
        !has_key(keys, m),
    ensures
        sorted(keys.insert(c, bare(m))),
        !roomy(keys.insert(c, bare(m))) ==> {
            let ks = keys.insert(c, bare(m));
            let mid = internal_cut(ks);
            &&& 1 <= mid
            &&& mid + 1 < ks.len()
            &&& roomy(ks.take(mid))
            &&& roomy(ks.skip(mid + 1))
        },
        valueless(keys.insert(c, bare(m))),
        bounded(keys.insert(c, bare(m))),
{
    let ks = keys.insert(c, bare(m));
    lemma_rank(keys, m);
    lemma_with_entry(keys, m, Seq::empty());
    assert(ks == with_entry(keys, m, Seq::empty()));
    lemma_bounded_with(keys, m, Seq::empty());
    lemma_total_insert(keys, c, bare(m));
    assert forall|i: int| 0 <= i < ks.len() implies (#[trigger] ks[i]).1 == Seq::<u8>::empty() by {
        if i < c {
            assert(ks[i] == keys[i]);
        } else if i > c {
            assert(ks[i] == keys[i - 1]);
        }
    }
    if !roomy(ks) {
        lemma_internal_full(ks);
    }
}

/// The pages of what becomes of a tree are those of the tree and those that the splits took, and
/// still none belongs to two nodes.
pub proof fn lemma_grow_owned(
    t: Tree,
    lb: Option<Seq<u8>>,
    ub: Option<Seq<u8>>,
    h: nat,
    k: Seq<u8>,
    v: Seq<u8>,
    fresh: Seq<PageId>,
)
    requires
        t.wf(lb, ub, h),
        above(k, lb),
        below(k, ub),
        storable(k, v),
        t.distinct(),
        fresh_for(fresh, t.splits(k, v, fresh), t),
    ensures
        match t.grow(k, v, fresh) {
            Grown::Whole(s) => {
                &&& s.distinct()
                &&& forall|x: PageId|
                    #[trigger] s.owns(x) ==> t.owns(x) || among(
                        fresh,
                        t.splits(k, v, fresh),
                        x,
                    )
            },
            Grown::Split(l, m, r) => {
                &&& l.distinct()
                &&& r.distinct()
                &&& apart(l, r)
                &&& forall|x: PageId|
                    #[trigger] l.owns(x) ==> t.owns(x) || among(
                        fresh,
                        t.splits(k, v, fresh),
                        x,
                    )
                &&& forall|x: PageId|
                    #[trigger] r.owns(x) ==> t.owns(x) || among(
                        fresh,
                        t.splits(k, v, fresh),
                        x,
                    )
            },
        },
    decreases t,
{
    lemma_grow(t, lb, ub, h, k, v, fresh);
    match t {
        Tree::Leaf { id, entries } => {
            if t.grow(k, v, fresh) is Split {
                assert(!t.owns(fresh[0]));
                assert(among(fresh, 1, fresh[0]));
            }
        },
        Tree::Internal { id, keys, children } => {
            let c = route(keys, k);
            let child = children[c];
            let h1 = (h - 1) as nat;
            lemma_route_child(t, lb, ub, h, k, v);
            lemma_route_bounds(keys, lb, ub, k);
            lemma_height(t, lb, ub, h);
            lemma_internal_owns(id, keys, children);
            assert forall|i: int| 0 <= i < child.splits(k, v, fresh) implies !child.owns(
                #[trigger] fresh[i],
            ) by {
                assert(!t.owns(fresh[i]));
                if child.owns(fresh[i]) {
                    lemma_owns_child(t, c, fresh[i]);
                }
            }
            lemma_grow(child, lower(keys, lb, c), upper(keys, ub, c), h1, k, v, fresh);
            lemma_grow_owned(child, lower(keys, lb, c), upper(keys, ub, c), h1, k, v, fresh);
            let n = child.splits(k, v, fresh);
            match child.grow(k, v, fresh) {
                Grown::Whole(s) => {
                    let cs = children.update(c, s);
                    lemma_internal_owns(id, keys, cs);
                    lemma_row_update(t, c, s, fresh, n);
                },
                Grown::Split(l, m, r) => {
                    let ks = keys.insert(c, bare(m));
                    let cs = children.update(c, l).insert(c + 1, r);
                    lemma_row_split(t, c, l, r, fresh, n);
                    lemma_internal_owns(id, ks, cs);
                    lemma_grow_child(t, lb, ub, h, k, v, fresh);
                    if !roomy(ks) {
                        let mid = internal_cut(ks);
                        lemma_insert_full(keys, m, c);
                        let c1 = cs.take(mid + 1);
                        let c2 = cs.skip(mid + 1);
                        lemma_internal_owns(id, ks.take(mid), c1);
                        lemma_internal_owns(fresh[h as int], ks.skip(mid + 1), c2);
                        let a = Tree::Internal { id, keys: ks.take(mid), children: c1 };
                        let b = Tree::Internal {
                            id: fresh[h as int],
                            keys: ks.skip(mid + 1),
                            children: c2,
                        };
                        assert(n == h);
                        assert(!t.owns(fresh[h as int]));
                        assert(!among(fresh, n, fresh[h as int]));
                        assert(among(fresh, n + 1, fresh[h as int]));
                        assert(forall|x: PageId| among(fresh, n, x) ==> among(fresh, n + 1, x));
                        lemma_row_cut(id, fresh[h as int], cs, mid + 1);
                        assert(!row_owns(cs, id)) by {
                            if row_owns(cs, id) {
                                let i = choose|i: int|
                                    0 <= i < cs.len() && (#[trigger] cs[i]).owns(id);
                                assert(!cs[i].owns(id));
                            }
                        }
                    }
                },
            }
        },
    }
}

/// A child is replaced by what it became in its own pages and some fresh ones.
proof fn lemma_row_update(t: Tree, c: int, s: Tree, fresh: Seq<PageId>, n: nat)
    requires
        t is Internal,
        t.distinct(),
        0 <= c < t->children.len(),
        fresh_for(fresh, n, t),
        s.distinct(),
        forall|x: PageId| #[trigger] s.owns(x) ==> t->children[c].owns(x) || among(fresh, n, x),
    ensures
        row_distinct(t.id(), t->children.update(c, s)),
        forall|x: PageId| #[trigger]
            row_owns(t->children.update(c, s), x) ==> t.owns(x) || among(fresh, n, x),
{
    let cs = t->children;
    let ds = cs.update(c, s);
    assert forall|i: int, x: PageId| 0 <= i < cs.len() && #[trigger] cs[i].owns(x) implies !among(
        fresh,
        n,
        x,
    ) by {
        lemma_owns_child(t, i, x);
    }
    assert(t.owns(t.id()));
    assert forall|i: int| 0 <= i < ds.len() implies !(#[trigger] ds[i]).owns(t.id()) by {
        assert(!cs[i].owns(t.id()));
    }
    assert forall|i: int| 0 <= i < ds.len() implies (#[trigger] ds[i]).distinct() by {
        assert(cs[i].distinct());
    }
    assert forall|i: int, j: int, x: PageId|
        0 <= i < j < ds.len() && #[trigger] ds[i].owns(x) implies !(#[trigger] ds[j].owns(x)) by {
        if i == c {
            assert(ds[j] == cs[j]);
            if cs[j].owns(x) {
                assert(cs[i].owns(x));
            }
        } else {
            assert(ds[i] == cs[i]);
            assert(cs[i].owns(x));
            assert(!cs[j].owns(x));
        }
    }
    assert forall|x: PageId| #[trigger] row_owns(ds, x) implies t.owns(x) || among(
        fresh,
        n,
        x,
    ) by {
        let i = choose|i: int| 0 <= i < ds.len() && (#[trigger] ds[i]).owns(x);
        if i != c || cs[c].owns(x) {
            assert(cs[i].owns(x));
            lemma_owns_child(t, i, x);
        }
    }
}

/// A child is replaced by the two halves that it became.
proof fn lemma_row_split(t: Tree, c: int, l: Tree, r: Tree, fresh: Seq<PageId>, n: nat)
    requires
        t is Internal,
        t.distinct(),
        0 <= c < t->children.len(),
        fresh_for(fresh, n, t),
        l.distinct(),
        r.distinct(),
        apart(l, r),
        forall|x: PageId| #[trigger] l.owns(x) ==> t->children[c].owns(x) || among(fresh, n, x),
        forall|x: PageId| #[trigger] r.owns(x) ==> t->children[c].owns(x) || among(fresh, n, x),
    ensures
        row_distinct(t.id(), t->children.update(c, l).insert(c + 1, r)),
        forall|x: PageId| #[trigger]
            row_owns(t->children.update(c, l).insert(c + 1, r), x) ==> t.owns(x) || among(
                fresh,
                n,
                x,
            ),
{
    let cs = t->children;
    let ds = cs.update(c, l).insert(c + 1, r);
    // The child of `t` that a place of the new row comes from.
    let back = |i: int| if i <= c { i } else { i - 1 };
    assert(t.owns(t.id()));
    assert forall|i: int, x: PageId| 0 <= i < cs.len() && #[trigger] cs[i].owns(x) implies !among(
        fresh,
        n,
        x,
    ) by {
        lemma_owns_child(t, i, x);
    }
    assert forall|i: int| 0 <= i < ds.len() implies #[trigger] ds[i] == (if i == c {
        l
    } else if i == c + 1 {
        r
    } else {
        cs[back(i)]
    }) by {}
    assert forall|i: int, x: PageId| 0 <= i < ds.len() && #[trigger] ds[i].owns(x) implies cs[back(
        i,
    )].owns(x) || (c <= i <= c + 1 && among(fresh, n, x)) by {
        assert(ds[i] == ds[i]);
    }
    assert forall|i: int| 0 <= i < ds.len() implies !(#[trigger] ds[i]).owns(t.id()) by {
        assert(!cs[back(i)].owns(t.id()));
        if ds[i].owns(t.id()) {
            assert(among(fresh, n, t.id()));
        }
    }
    assert forall|i: int| 0 <= i < ds.len() implies (#[trigger] ds[i]).distinct() by {
        assert(cs[back(i)].distinct());
    }
    assert forall|i: int, j: int, x: PageId|
        0 <= i < j < ds.len() && #[trigger] ds[i].owns(x) implies !(#[trigger] ds[j].owns(x)) by {
        if ds[j].owns(x) {
            if i == c && j == c + 1 {
                assert(l.owns(x) && r.owns(x));
            } else {
                if cs[back(i)].owns(x) && cs[back(j)].owns(x) {
                    assert(!cs[back(j)].owns(x));
                }
            }
        }
    }
    assert forall|x: PageId| #[trigger] row_owns(ds, x) implies t.owns(x) || among(
        fresh,
        n,
        x,
    ) by {
        let i = choose|i: int| 0 <= i < ds.len() && (#[trigger] ds[i]).owns(x);
        assert(ds[i].owns(x));
        if cs[back(i)].owns(x) {
            lemma_owns_child(t, back(i), x);
        }
    }
}

/// A row of trees can be cut in two, the right part under a root of its own.
proof fn lemma_row_cut(id: PageId, right: PageId, cs: Seq<Tree>, n: int)
    requires
        row_distinct(id, cs),
        !row_owns(cs, right),
        0 <= n <= cs.len(),
    ensures
        row_distinct(id, cs.take(n)),
        row_distinct(right, cs.skip(n)),
        forall|x: PageId| #[trigger] row_owns(cs.take(n), x) ==> row_owns(cs, x),
        forall|x: PageId| #[trigger] row_owns(cs.skip(n), x) ==> row_owns(cs, x),
        forall|x: PageId| #[trigger] row_owns(cs.take(n), x) ==> !row_owns(cs.skip(n), x),
{
    let a = cs.take(n);
    let b = cs.skip(n);
    assert forall|i: int| 0 <= i < a.len() implies #[trigger] a[i] == cs[i] by {}
    assert forall|i: int| 0 <= i < b.len() implies #[trigger] b[i] == cs[n + i] by {}
    assert forall|i: int| 0 <= i < b.len() implies !(#[trigger] b[i]).owns(right) by {
        if b[i].owns(right) {
            assert(cs[n + i].owns(right));
            assert(row_owns(cs, right));
        }
    }
    assert forall|i: int| 0 <= i < b.len() implies (#[trigger] b[i]).distinct() by {
        assert(cs[n + i].distinct());
    }
    assert forall|i: int, j: int, x: PageId|
        0 <= i < j < b.len() && #[trigger] b[i].owns(x) implies !(#[trigger] b[j].owns(x)) by {
        assert(cs[n + i].owns(x));
        assert(!cs[n + j].owns(x));
    }
    assert forall|i: int, j: int, x: PageId|
        0 <= i < j < a.len() && #[trigger] a[i].owns(x) implies !(#[trigger] a[j].owns(x)) by {
        assert(cs[i].owns(x));
        assert(!cs[j].owns(x));
    }
    assert forall|x: PageId| #[trigger] row_owns(a, x) implies row_owns(cs, x) && !row_owns(
        b,
        x,
    ) by {
        let i = choose|i: int| 0 <= i < a.len() && (#[trigger] a[i]).owns(x);
        assert(cs[i].owns(x));
        if row_owns(b, x) {
            let j = choose|j: int| 0 <= j < b.len() && (#[trigger] b[j]).owns(x);
            assert(cs[n + j].owns(x));
        }
    }
    assert forall|x: PageId| #[trigger] row_owns(b, x) implies row_owns(cs, x) by {
        let i = choose|i: int| 0 <= i < b.len() && (#[trigger] b[i]).owns(x);
        assert(cs[n + i].owns(x));
    }
}

/// A tree is held as well by pages that agree on those that belong to it.
pub proof fn lemma_held_frame(t: Tree, p: Map<PageId, Seq<u8>>, q: Map<PageId, Seq<u8>>)
    requires
        t.held(p),
        forall|x: PageId| #[trigger] t.owns(x) ==> p[x] == q[x],
    ensures
        t.held(q),
        t.packed(p) ==> t.packed(q),
    decreases t,
{
    assert(t.owns(t.id()));
    if let Tree::Internal { id, keys, children } = t {
        assert forall|i: int| 0 <= i < children.len() implies child_at_is(
            q[id],
            i,
            #[trigger] children[i],
        ) && children[i].held(q) && (children[i].packed(p) ==> children[i].packed(q)) by {
            assert forall|x: PageId| #[trigger] children[i].owns(x) implies p[x] == q[x] by {
                lemma_owns_child(t, i, x);
            }
            lemma_held_frame(children[i], p, q);
        }
    }
}

spec fn child_at_is(p: Seq<u8>, i: int, t: Tree) -> bool {
    crate::node::child_at(p, i) == t.id()
}

/// Pages hold at most one tree with a given root.
pub proof fn lemma_held_unique(s: Tree, t: Tree, p: Map<PageId, Seq<u8>>)
    requires
        s.held(p),
        t.held(p),
        s.id() == t.id(),
    ensures
        s == t,
    decreases s,
{
    if let Tree::Internal { id, keys, children } = s {
        let cs = t->children;
        assert(t is Internal);
        assert forall|i: int| 0 <= i < children.len() implies children[i] == cs[i] by {
            assert(child_at_is(p[id], i, children[i]));
            assert(child_at_is(p[id], i, cs[i]));
            lemma_held_unique(children[i], cs[i], p);
        }
        assert(children =~= cs);
    }
}

/// The pairs of a leaf fit in its page.
proof fn lemma_leaf_for_holds(
    t: Tree,
    lb: Option<Seq<u8>>,
    ub: Option<Seq<u8>>,
    h: nat,
    k: Seq<u8>,
)
    requires
        t.wf(lb, ub, h),
    ensures
        leaf_holds(t.leaf_for(k)),
    decreases t,
{
    if let Tree::Internal { id, keys, children } = t {
        let c = route(keys, k);
        lemma_route(keys, k);
        lemma_leaf_for_holds(
            children[c],
            lower(keys, lb, c),
            upper(keys, ub, c),
            (h - 1) as nat,
            k,
        );
    }
}

/// Once the leaf in which a key belongs is parted, the leaf in which it then belongs is not.
pub proof fn lemma_parted(t: Tree, h: nat, k: Seq<u8>, v: Seq<u8>, fresh: Seq<PageId>)
    requires
        t.wf(None, None, h),
        storable(k, v),
        t.parts(k, v),
    ensures
        !t.inserted(k, v, fresh).parts(k, v),
{
    let u = t.inserted(k, v, fresh);
    lemma_wf_ordered(t, None, None, h);
    lemma_leaf_for(t, None, None, k);
    lemma_leaf_for_holds(t, None, None, h, k);
    lemma_part_for(t, None, None, h, k, v, fresh);
    lemma_leaf_full(t.leaf_for(k), k, v);
    if let Grown::Split(l, m, r) = t.grow(k, v, fresh) {
        lemma_key_order();
        let c = if key_lt(k, m) {
            0
        } else {
            1int
        };
        lemma_route_is(seq![bare(m)], k, c);
        assert(u.leaf_for(k) == seq![l, r][c].leaf_for(k));
    }
}

/// Binding a key in a whole tree, whose root may get a new one above it.
pub proof fn lemma_inserted(t: Tree, h: nat, k: Seq<u8>, v: Seq<u8>, fresh: Seq<PageId>)
    requires
        t.wf(None, None, h),
        storable(k, v),
        t.distinct(),
        fresh_for(fresh, t.pages_needed(k, v, fresh), t),
    ensures
        ({
            let u = t.inserted(k, v, fresh);
            let n = t.pages_needed(k, v, fresh);
            &&& u.wf(None, None, if t.grow(k, v, fresh) is Split { h + 1 } else { h })
            &&& u.entries() == t.entries_with(k, v)
            &&& u.distinct()
            &&& forall|x: PageId| #[trigger] u.owns(x) ==> t.owns(x) || among(fresh, n, x)
            &&& n <= h + 2
        }),
{
    lemma_grow(t, None, None, h, k, v, fresh);
    lemma_grow_owned(t, None, None, h, k, v, fresh);
    lemma_height(t, None, None, h);
    let n = t.pages_needed(k, v, fresh);
    let u = t.inserted(k, v, fresh);
    match t.grow(k, v, fresh) {
        Grown::Whole(s) => {},
        Grown::Split(l, m, r) => {
            let keys = seq![bare(m)];
            let cs = seq![l, r];
            let id = fresh[h as int + 1];
            assert(n == h + 2);
            lemma_total_one(bare(m));
            assert(u == Tree::Internal { id, keys, children: cs });
            assert(joined(keys, cs, None, None, h)) by {
                assert(cs[0] == l && cs[1] == r);
            }
            assert(u.wf(None, None, h + 1));
            assert(cs =~= seq![l] + seq![r]);
            lemma_forest_add(seq![l], seq![r]);
            lemma_forest_one(l);
            lemma_forest_one(r);
            assert(!t.owns(id));
            assert forall|i: int| 0 <= i < h + 1 implies #[trigger] fresh[i] != id by {}
            assert(!l.owns(id) && !r.owns(id));
            lemma_internal_owns(id, keys, cs);
            assert(row_distinct(id, cs)) by {
                assert(cs[0] == l && cs[1] == r);
            }
            assert forall|x: PageId| #[trigger] u.owns(x) implies t.owns(x) || among(
                fresh,
                n,
                x,
            ) by {
                if x == id {
                    assert(fresh[h as int + 1] == x);
                } else {
                    let i = choose|i: int| 0 <= i < cs.len() && (#[trigger] cs[i]).owns(x);
                    assert(cs[i] == l || cs[i] == r);
                    if !t.owns(x) {
                        assert(among(fresh, t.splits(k, v, fresh), x));
                        let j = choose|j: int|
                            0 <= j < t.splits(k, v, fresh) && #[trigger] fresh[j] == x;
                        assert(fresh[j] == x && j < n);
                    }
                }
            }
        },
    }
}

} // verus!
