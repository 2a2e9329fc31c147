//! The B-tree over the pages of a database.
use vstd::prelude::*;
use crate::bytes::copy_all;
use crate::constants::{
    MetaData, NodeType, PageId, MAX_KEY_SIZE, MAX_VALUE_SIZE, META_PAGE_ID, PAGE_SIZE,
};
use crate::cuts::{
    find_cut, lemma_cut_found, lemma_holds_parts, lemma_leaf_full, lemma_small, lemma_small_with,
};
use crate::entries::{
    above, below, has_key, lemma_has_key, lemma_rank, lemma_total_insert, lemma_total_one, lookup,
    pairs, rank, size, sorted, with_entry, without_key, Entry,
};
use crate::error::{invalid_argument, KvdbError, Result};
use crate::laws::law_sound_is_healthy;
use crate::node::{
    binary_search, child_at, children_of, collect_children, collect_page, compact, entries_of,
    get_child_page_id, get_next_data_offset, get_value_from_page, internal_insert, leaf_delete,
    leaf_insert, lemma_compact_stable, lemma_next_data_offset, node_kind, num_keys, read_header,
    with_child, write_children, write_node, CHILDREN_OFFSET, MAX_KEYS,
};
use crate::pager::{
    after_allocate, free_list, lemma_chain_frame, lemma_with_meta, meta_of, same_settings,
    with_meta, Pager, Pages,
};
use crate::shape::{
    law_root, lemma_once, lemma_shape_ok, lemma_with, lemma_without, shape_of, storable, Shape,
};
use crate::space::{
    free_after, in_step, lemma_after_add, lemma_free_apart, lemma_none_out, lemma_one_out,
    lemma_supply_frame, meta_after, next_of, nth, space_for, supply, upcoming,
};
use crate::store::{
    hands_out, has_tree, lemma_all_fresh, lemma_fresh, lemma_insert_sound, lemma_reach_child,
    lemma_sound, lemma_sound_as, lemma_stands_child, rooted, sound, sound_as, stands, tree_of,
};
use crate::tree::{
    bare, bounded, cut_fits, grow_internal, internal_cut, leaf_cut, leaf_holds, lower, roomy, route,
    split_leaf_at, upper, valueless, Grown, Shrunk, Tree,
};
use crate::tree_laws::{
    among, fresh_for, lemma_grow, lemma_grow_child, lemma_grow_owned, lemma_height,
    lemma_held_frame, lemma_held_regular, lemma_insert_full, lemma_leaf_for, lemma_ordered_route,
    lemma_owns_child, lemma_route_child, lemma_shrink,
};

verus! {

/// The pager is as it was, but for pages of the tree that it may have read.
pub open spec fn only_read(p: &Pager, q: &Pager, t: Tree) -> bool {
    &&& q.wf()
    &&& q.pages() == p.pages()
    &&& q.file_bytes() == p.file_bytes()
    &&& q.pending() == p.pending()
    &&& q.dirty_writes() == p.dirty_writes()
    &&& q.next() == p.next()
    &&& forall|x: PageId| #[trigger]
        q.seen().contains(x) ==> p.seen().contains(x) || t.owns(x)
}

/// Reading the tree of sound pages leaves the pager in step.
pub open spec fn stays_in_step(p: &Pager, q: &Pager, root: PageId) -> bool {
    sound(p.pages(), root) && in_step(p) ==> in_step(q)
}

/// Reading the tree of sound pages keeps the pager in step.
pub proof fn lemma_read_in_step(p: &Pager, q: &Pager, root: PageId)
    requires
        sound(p.pages(), root) ==> in_step(p),
        only_read(p, q, tree_of(p.pages(), root)),
    ensures
        sound(q.pages(), root) ==> in_step(q),
{
    if sound(p.pages(), root) {
        lemma_sound(p.pages(), root);
    }
}

/// Reading one of the children reads in the tree.
pub proof fn lemma_read_child(p: &Pager, q: &Pager, r: &Pager, t: Tree, c: int)
    requires
        t is Internal,
        0 <= c < t->children.len(),
        only_read(p, q, t),
        only_read(q, r, t->children[c]),
    ensures
        only_read(p, r, t),
{
    assert forall|x: PageId| #[trigger] r.seen().contains(x) implies p.seen().contains(x)
        || t.owns(x) by {
        if !q.seen().contains(x) {
            lemma_owns_child(t, c, x);
        }
    }
}

/// Pages can be handed out, and the pager knows which.
pub open spec fn ready(pager: &Pager, free: Seq<PageId>) -> bool {
    in_step(pager) && supply(pager.pages(), free)
}

/// The pages of a tree.
pub open spec fn pages_of(t: Tree) -> Set<PageId> {
    Set::new(|x: PageId| t.owns(x))
}

/// The first `n` of the fresh pages were handed out, and of the others only the given ones may
/// have changed.
pub open spec fn moved(
    p: &Pager,
    q: &Pager,
    free: Seq<PageId>,
    n: nat,
    own: Set<PageId>,
    fresh: Seq<PageId>,
) -> bool {
    &&& ready(q, free_after(free, n))
    &&& meta_of(q.pages()) == meta_after(meta_of(p.pages()), free, n)
    &&& q.file_bytes() == p.file_bytes()
    &&& q.pending() == p.pending()
    &&& forall|x: PageId|
        !own.contains(x) && x != META_PAGE_ID && !among(fresh, n, x) ==> #[trigger] q.pages()[x]
            == p.pages()[x]
}

/// The pages hold what became of a node, and the result says whether it split.
pub open spec fn grown(x: Option<(Vec<u8>, PageId)>, pages: Pages, g: Grown) -> bool {
    match g {
        Grown::Whole(s) => x is None && s.held(pages) && s.packed(pages),
        Grown::Split(a, m, b) => x matches Some(y) && y.0@ == m && y.1 == b.id() && a.held(pages)
            && a.packed(pages) && b.held(pages) && b.packed(pages),
    }
}

/// The page is an internal node page without gaps that holds the keys and child page numbers.
pub open spec fn internal_at(
    pages: Pages,
    id: PageId,
    keys: Seq<Entry>,
    kids: Seq<PageId>,
) -> bool {
    &&& compact(pages[id])
    &&& node_kind(pages[id]) == NodeType::Internal
    &&& entries_of(pages[id]) == keys
    &&& children_of(pages[id]) == kids
}

/// An internal node page is to get a key.
pub open spec fn joins(
    pages: Pages,
    id: PageId,
    keys: Seq<Entry>,
    kids: Seq<PageId>,
    key: Seq<u8>,
    free: Seq<PageId>,
) -> bool {
    &&& META_PAGE_ID < id < next_of(pages)
    &&& forall|i: int| 0 <= i < free.len() ==> #[trigger] free[i] != id
    &&& internal_at(pages, id, keys, kids)
    &&& sorted(keys)
    &&& valueless(keys)
    &&& bounded(keys)
    &&& roomy(keys)
    &&& !has_key(keys, key)
    &&& 0 < key.len() <= MAX_KEY_SIZE
}

/// An internal node page got keys and child page numbers: it holds them, or it holds those up to
/// the cut and another page those behind it.
pub open spec fn widened(
    x: Option<(Vec<u8>, PageId)>,
    pages: Pages,
    id: PageId,
    right: PageId,
    keys: Seq<Entry>,
    kids: Seq<PageId>,
) -> bool {
    if roomy(keys) {
        x is None && internal_at(pages, id, keys, kids)
    } else {
        let mid = internal_cut(keys);
        &&& x matches Some(y) && y.0@ == keys[mid].0 && y.1 == right
        &&& internal_at(pages, id, keys.take(mid), kids.take(mid + 1))
        &&& internal_at(pages, right, keys.skip(mid + 1), kids.skip(mid + 1))
    }
}

/// How many pages an internal node takes that is to hold the keys, besides its own.
pub open spec fn extra(keys: Seq<Entry>) -> nat {
    if roomy(keys) {
        0
    } else {
        1
    }
}

/// The trees of a row have the page numbers, and stand in pages that are neither the one of the
/// node above them nor the one that is handed out next.
pub open spec fn row_stands(
    pages: Pages,
    row: Seq<Tree>,
    ids: Seq<PageId>,
    id: PageId,
    next: PageId,
) -> bool {
    &&& row.len() == ids.len()
    &&& forall|i: int|
        0 <= i < row.len() ==> {
            &&& (#[trigger] row[i]).id() == ids[i]
            &&& row[i].held(pages)
            &&& row[i].packed(pages)
            &&& !row[i].owns(id)
            &&& !row[i].owns(META_PAGE_ID)
            &&& !row[i].owns(next)
        }
}

/// An internal node page with the keys and the numbers of a row of trees holds the node.
proof fn lemma_row_held(
    p: Pages,
    q: Pages,
    id: PageId,
    keys: Seq<Entry>,
    ids: Seq<PageId>,
    row: Seq<Tree>,
)
    requires
        internal_at(q, id, keys, ids),
        row.len() == ids.len(),
        forall|i: int|
            0 <= i < row.len() ==> (#[trigger] row[i]).id() == ids[i] && row[i].held(p)
                && row[i].packed(p),
        forall|i: int, x: PageId|
            0 <= i < row.len() && #[trigger] row[i].owns(x) ==> q[x] == p[x],
    ensures
        (Tree::Internal { id, keys, children: row }).held(q),
        (Tree::Internal { id, keys, children: row }).packed(q),
{
    assert forall|i: int| 0 <= i < row.len() implies child_at(q[id], i) == (
    #[trigger] row[i]).id() && row[i].held(q) && row[i].packed(q) by {
        assert(children_of(q[id])[i] == child_at(q[id], i));
        assert forall|x: PageId| #[trigger] row[i].owns(x) implies p[x] == q[x] by {}
        lemma_held_frame(row[i], p, q);
    }
}

/// Where the numbers of a row of trees joined an internal node page, the pages hold what became of
/// the node.
proof fn lemma_widened(
    x: Option<(Vec<u8>, PageId)>,
    p: Pages,
    q: Pages,
    id: PageId,
    right: PageId,
    keys: Seq<Entry>,
    ids: Seq<PageId>,
    row: Seq<Tree>,
)
    requires
        widened(x, q, id, right, keys, ids),
        row_stands(p, row, ids, id, right),
        ids.len() == keys.len() + 1,
        !roomy(keys) ==> 0 <= internal_cut(keys) < keys.len(),
        forall|y: PageId|
            y != id && y != META_PAGE_ID && (y != right || roomy(keys)) ==> #[trigger] q[y] == p[y],
    ensures
        grown(x, q, grow_internal(id, keys, row, right)),
{
    assert forall|i: int, y: PageId| 0 <= i < row.len() && #[trigger] row[i].owns(y) implies q[y]
        == p[y] by {
        assert(!row[i].owns(id) && !row[i].owns(META_PAGE_ID) && !row[i].owns(right));
    }
    if roomy(keys) {
        lemma_row_held(p, q, id, keys, ids, row);
    } else {
        let mid = internal_cut(keys);
        let a = row.take(mid + 1);
        let b = row.skip(mid + 1);
        assert forall|i: int| 0 <= i < a.len() implies (#[trigger] a[i]).id() == ids.take(mid
            + 1)[i] && a[i].held(p) && a[i].packed(p) by {
            assert(a[i] == row[i]);
        }
        assert forall|i: int, y: PageId| 0 <= i < a.len() && #[trigger] a[i].owns(y) implies q[y]
            == p[y] by {
            assert(row[i].owns(y));
        }
        assert forall|i: int| 0 <= i < b.len() implies (#[trigger] b[i]).id() == ids.skip(mid
            + 1)[i] && b[i].held(p) && b[i].packed(p) by {
            assert(b[i] == row[mid + 1 + i]);
        }
        assert forall|i: int, y: PageId| 0 <= i < b.len() && #[trigger] b[i].owns(y) implies q[y]
            == p[y] by {
            assert(row[mid + 1 + i].owns(y));
        }
        lemma_row_held(p, q, id, keys.take(mid), ids.take(mid + 1), a);
        lemma_row_held(p, q, right, keys.skip(mid + 1), ids.skip(mid + 1), b);
    }
}

/// The pages with a child's changes: the node itself and the other children are as they were.
proof fn lemma_siblings(
    p0: Pages,
    p1: Pages,
    t: Tree,
    c: int,
    n: nat,
    free: Seq<PageId>,
    fresh: Seq<PageId>,
)
    requires
        stands(p0, t, free),
        t is Internal,
        0 <= c < t->children.len(),
        fresh_for(fresh, n, t),
        forall|x: PageId|
            !t->children[c].owns(x) && x != META_PAGE_ID && !among(
                fresh,
                n,
                x,
            ) ==> #[trigger] p1[x] == p0[x],
    ensures
        p1[t.id()] == p0[t.id()],
        forall|i: int|
            0 <= i < t->children.len() && i != c ==> (#[trigger] t->children[i]).held(p1)
                && t->children[i].packed(p1),
        forall|x: PageId|
            !t.owns(x) && x != META_PAGE_ID && !among(fresh, n, x) ==> #[trigger] p1[x] == p0[x],
{
    let id = t.id();
    let cs = t->children;
    let child = cs[c];
    assert(t.owns(id));
    assert(!child.owns(id));
    assert forall|i: int| 0 <= i < cs.len() && i != c implies (#[trigger] cs[i]).held(p1)
        && cs[i].packed(p1) by {
        assert forall|x: PageId| #[trigger] cs[i].owns(x) implies p0[x] == p1[x] by {
            lemma_owns_child(t, i, x);
            if child.owns(x) {
                assert(cs[c].owns(x));
            }
            assert(!among(fresh, n, x));
        }
        lemma_held_frame(cs[i], p0, p1);
    }
    assert forall|x: PageId|
        !t.owns(x) && x != META_PAGE_ID && !among(fresh, n, x) implies #[trigger] p1[x]
        == p0[x] by {
        if child.owns(x) {
            lemma_owns_child(t, c, x);
        }
    }
}

/// A child has been replaced by one in the same page.
proof fn lemma_child_replaced(p0: Pages, p1: Pages, t: Tree, c: int, s: Tree)
    requires
        t is Internal,
        0 <= c < t->children.len(),
        t.held(p0),
        t.packed(p0),
        p1[t.id()] == p0[t.id()],
        forall|i: int|
            0 <= i < t->children.len() && i != c ==> (#[trigger] t->children[i]).held(p1)
                && t->children[i].packed(p1),
        s.id() == t->children[c].id(),
        s.held(p1),
        s.packed(p1),
    ensures
        (Tree::Internal {
            id: t.id(),
            keys: t->keys,
            children: t->children.update(c, s),
        }).held(p1),
        (Tree::Internal {
            id: t.id(),
            keys: t->keys,
            children: t->children.update(c, s),
        }).packed(p1),
{
    let id = t.id();
    let cs = t->children;
    let ds = cs.update(c, s);
    assert forall|i: int| 0 <= i < ds.len() implies child_at(p1[id], i) == (
    #[trigger] ds[i]).id() && ds[i].held(p1) && ds[i].packed(p1) by {
        assert(child_at(p0[id], i) == cs[i].id());
        if i != c {
            assert(ds[i] == cs[i]);
        }
    }
}

/// A child has split: the node is to get the key between the halves.
proof fn lemma_child_split(
    p0: Pages,
    p1: Pages,
    t: Tree,
    c: int,
    l: Tree,
    m: Seq<u8>,
    r: Tree,
    free: Seq<PageId>,
)
    requires
        t is Internal,
        t.held(p0),
        t.packed(p0),
        t.distinct(),
        !t.owns(META_PAGE_ID),
        !t.owns(nth(free, next_of(p1), 0)),
        META_PAGE_ID < t.id() < next_of(p1),
        forall|i: int| 0 <= i < free.len() ==> #[trigger] free[i] != t.id(),
        p1[t.id()] == p0[t.id()],
        forall|i: int|
            0 <= i < t->children.len() && i != c ==> (#[trigger] t->children[i]).held(p1)
                && t->children[i].packed(p1),
        sorted(t->keys),
        valueless(t->keys),
        bounded(t->keys),
        roomy(t->keys),
        0 <= c < t->children.len(),
        rank(t->keys, m) == c,
        !has_key(t->keys, m),
        0 < m.len() <= MAX_KEY_SIZE,
        l.id() == t->children[c].id(),
        l.held(p1) && l.packed(p1) && r.held(p1) && r.packed(p1),
        !l.owns(t.id()) && !l.owns(META_PAGE_ID) && !l.owns(nth(free, next_of(p1), 0)),
        !r.owns(t.id()) && !r.owns(META_PAGE_ID) && !r.owns(nth(free, next_of(p1), 0)),
    ensures
        joins(p1, t.id(), t->keys, children_of(p1[t.id()]), m, free),
        row_stands(
            p1,
            t->children.update(c, l).insert(c + 1, r),
            with_child(children_of(p1[t.id()]), c, r.id()),
            t.id(),
            nth(free, next_of(p1), 0),
        ),
{
    let id = t.id();
    let cs = t->children;
    let row = cs.update(c, l).insert(c + 1, r);
    let fr = nth(free, next_of(p1), 0);
    let kids = children_of(p1[id]);
    let ids = with_child(kids, c, r.id());
    assert forall|i: int| 0 <= i < row.len() implies (#[trigger] row[i]).id() == ids[i]
        && row[i].held(p1) && row[i].packed(p1) && !row[i].owns(id) && !row[i].owns(META_PAGE_ID)
        && !row[i].owns(fr) by {
        if i != c + 1 {
            let j = if i <= c {
                i
            } else {
                i - 1
            };
            assert(child_at(p0[id], j) == cs[j].id());
            assert(kids[j] == child_at(p1[id], j));
            assert(ids[i] == kids[j]);
            if i != c {
                assert(row[i] == cs[j]);
                assert(!cs[j].owns(id));
                if cs[j].owns(META_PAGE_ID) {
                    lemma_owns_child(t, j, META_PAGE_ID);
                }
                if cs[j].owns(fr) {
                    lemma_owns_child(t, j, fr);
                }
            }
        }
    }
}

/// A child has grown: the rest of the node is as it was, and where the child split, the node is
/// to get a key.
#[verifier::rlimit(40)]
#[verifier::spinoff_prover]
proof fn lemma_child_grown(
    p: &Pager,
    q: &Pager,
    t: Tree,
    h: nat,
    lb: Option<Seq<u8>>,
    ub: Option<Seq<u8>>,
    k: Seq<u8>,
    v: Seq<u8>,
    free: Seq<PageId>,
    fresh: Seq<PageId>,
)
    requires
        ready(p, free),
        stands(p.pages(), t, free),
        t is Internal,
        t.wf(lb, ub, h),
        above(k, lb),
        below(k, ub),
        storable(k, v),
        h < fresh.len(),
        hands_out(p.pages(), free, fresh),
        space_for(p.pages(), free, t.splits(k, v, fresh)),
        ({
            let child = t->children[route(t->keys, k)];
            let n = child.splits(k, v, fresh);
            moved(p, q, free, n, pages_of(child), fresh) && match child.grow(k, v, fresh) {
                Grown::Whole(s) => s.held(q.pages()) && s.packed(q.pages()),
                Grown::Split(l, m, r) => l.held(q.pages()) && l.packed(q.pages()) && r.held(
                    q.pages(),
                ) && r.packed(q.pages()),
            }
        }),
    ensures
        ({
            let c = route(t->keys, k);
            let child = t->children[c];
            let n = child.splits(k, v, fresh);
            match child.grow(k, v, fresh) {
                Grown::Whole(s) => {
                    &&& t.splits(k, v, fresh) == n
                    &&& moved(p, q, free, n, pages_of(t), fresh)
                    &&& t.grow(k, v, fresh) matches Grown::Whole(u) && u.held(q.pages())
                        && u.packed(q.pages())
                },
                Grown::Split(l, m, r) => {
                    &&& n == h
                    &&& rank(t->keys, m) == c
                    &&& joins(
                        q.pages(),
                        t.id(),
                        t->keys,
                        children_of(q.pages()[t.id()]),
                        m,
                        free_after(free, n),
                    )
                    &&& row_stands(
                        q.pages(),
                        t->children.update(c, l).insert(c + 1, r),
                        with_child(children_of(q.pages()[t.id()]), c, r.id()),
                        t.id(),
                        fresh[h as int],
                    )
                    &&& nth(free_after(free, n), next_of(q.pages()), 0) == fresh[h as int]
                    &&& space_for(
                        q.pages(),
                        free_after(free, n),
                        extra(t->keys.insert(c, bare(m))),
                    )
                    &&& t.splits(k, v, fresh) == n + extra(t->keys.insert(c, bare(m)))
                },
            }
        }),
{
    let p0 = p.pages();
    let p1 = q.pages();
    let id = t.id();
    let keys = t->keys;
    let cs = t->children;
    let c = route(keys, k);
    let child = cs[c];
    let n = child.splits(k, v, fresh);
    let clb = lower(keys, lb, c);
    let cub = upper(keys, ub, c);
    lemma_grow_child(t, lb, ub, h, k, v, fresh);
    lemma_stands_child(p0, t, free, c);
    lemma_fresh(p0, t, free, fresh, n);
    lemma_fresh(p0, child, free, fresh, n);
    assert(forall|x: PageId| pages_of(child).contains(x) <==> #[trigger] child.owns(x));
    lemma_siblings(p0, p1, t, c, n, free, fresh);
    match child.grow(k, v, fresh) {
        Grown::Whole(s) => {
            lemma_child_replaced(p0, p1, t, c, s);
        },
        Grown::Split(l, m, r) => {
            lemma_grow_owned(child, clb, cub, (h - 1) as nat, k, v, fresh);
            let free1 = free_after(free, n);
            lemma_after_add(meta_of(p0), free, n, 1);
            assert(nth(free1, next_of(p1), 0) == nth(free, next_of(p0), n as int));
            let fr = fresh[h as int];
            assert(fr == nth(free, next_of(p0), h as int));
            assert(t.owns(id));
            assert(!child.owns(id));
            assert forall|x: PageId| x == id || x == fr || x == META_PAGE_ID implies !child.owns(
                x,
            ) && !among(fresh, n, x) by {
                if child.owns(x) {
                    lemma_owns_child(t, c, x);
                }
            }
            assert forall|i: int| 0 <= i < free1.len() implies #[trigger] free1[i] != id by {
                assert(free1[i] == free[n + i]);
            }
            lemma_child_split(p0, p1, t, c, l, m, r, free1);
        },
    }
}

/// A node and one of its children have changed, one after the other.
proof fn lemma_moved_twice(
    p: &Pager,
    q: &Pager,
    r: &Pager,
    t: Tree,
    n: nat,
    free: Seq<PageId>,
    fresh: Seq<PageId>,
    c: int,
)
    requires
        ready(p, free),
        t is Internal,
        0 <= c < t->children.len(),
        n < fresh.len(),
        space_for(p.pages(), free, n),
        moved(p, q, free, n, pages_of(t->children[c]), fresh),
        nth(free_after(free, n), next_of(q.pages()), 0) == fresh[n as int],
    ensures
        forall|m: nat|
            m <= 1 && #[trigger] moved(
                q,
                r,
                free_after(free, n),
                m,
                set![t.id()],
                upcoming(free_after(free, n), next_of(q.pages()), 1),
            ) ==> moved(p, r, free, n + m, pages_of(t), fresh),
{
    let free1 = free_after(free, n);
    let up = upcoming(free1, next_of(q.pages()), 1);
    assert forall|m: nat| m <= 1 && #[trigger] moved(q, r, free1, m, set![t.id()], up) implies moved(
        p,
        r,
        free,
        n + m,
        pages_of(t),
        fresh,
    ) by {
        lemma_after_add(meta_of(p.pages()), free, n, m);
        assert forall|x: PageId|
            !pages_of(t).contains(x) && x != META_PAGE_ID && !among(
                fresh,
                n + m,
                x,
            ) implies #[trigger] r.pages()[x] == p.pages()[x] by {
            if t->children[c].owns(x) {
                lemma_owns_child(t, c, x);
            }
            assert(t.owns(t.id()));
            if among(fresh, n, x) {
                let i = choose|i: int| 0 <= i < n && #[trigger] fresh[i] == x;
                assert(fresh[i] == x && i < n + m);
            }
            if among(up, m, x) {
                let i = choose|i: int| 0 <= i < m && #[trigger] up[i] == x;
                assert(up[0] == nth(free1, next_of(q.pages()), 0));
                assert(fresh[n as int] == x);
            }
            assert(q.pages()[x] == p.pages()[x]);
        }
    }
}

/// The root has split: the pages with a new root above the halves are sound.
proof fn lemma_root_split(
    p0: Pages,
    p1: Pages,
    p2: Pages,
    p3: Pages,
    q: Pages,
    root: PageId,
    t: Tree,
    h: nat,
    free: Seq<PageId>,
    k: Seq<u8>,
    v: Seq<u8>,
    fresh: Seq<PageId>,
)
    requires
        sound_as(p0, root, t, h, free),
        hands_out(p0, free, fresh),
        fresh.len() == h + 2,
        storable(k, v),
        space_for(p0, free, h + 2),
        p1[META_PAGE_ID].len() == PAGE_SIZE,
        supply(p1, free_after(free, h + 1)),
        meta_of(p1) == meta_after(meta_of(p0), free, h + 1),
        t.grow(k, v, fresh) matches Grown::Split(l, m, r) && {
            let id = fresh[h as int + 1];
            &&& l.held(p1) && l.packed(p1) && r.held(p1) && r.packed(p1)
            &&& p2 == after_allocate(p1, next_of(p1) as PageId)
            &&& p3 == p2.insert(id, p3[id])
            &&& compact(p3[id])
            &&& node_kind(p3[id]) == NodeType::Internal
            &&& entries_of(p3[id]) == seq![bare(m)]
            &&& child_at(p3[id], 0) == root
            &&& child_at(p3[id], 1) == r.id()
            &&& q == with_meta(p3, MetaData { root_page: id, ..meta_of(p3) })
        },
    ensures
        ({
            let u = t.inserted(k, v, fresh);
            &&& u.id() == fresh[h as int + 1]
            &&& sound_as(q, u.id(), u, u.height(), free_after(free, h + 2))
            &&& u.entries() == t.entries_with(k, v)
            &&& meta_of(q) == (MetaData {
                root_page: u.id(),
                ..meta_after(meta_of(p0), free, h + 2)
            })
        }),
{
    let n = h + 1;
    let id = fresh[h as int + 1];
    let free1 = free_after(free, n);
    let free2 = free_after(free, n + 1);
    let (l, m, r) = (
        t.grow(k, v, fresh)->Split_0,
        t.grow(k, v, fresh)->Split_1,
        t.grow(k, v, fresh)->Split_2,
    );
    lemma_after_add(meta_of(p0), free, n, 1);
    lemma_one_out(p1, free1);
    lemma_grow(t, None, None, h, k, v, fresh);
    lemma_height(t, None, None, h);
    lemma_all_fresh(p0, t, free, fresh, h + 2);
    lemma_grow_owned(t, None, None, h, k, v, fresh);
    assert(id == nth(free, next_of(p0), h as int + 1));
    assert(nth(free1, next_of(p1), 0) == nth(free, next_of(p0), n as int));
    lemma_free_apart(p1, free1);
    lemma_supply_frame(p2, p3, free2);
    assert(p3[META_PAGE_ID] == p2[META_PAGE_ID]);
    lemma_with_meta(p3, MetaData { root_page: id, ..meta_of(p3) });
    lemma_new_root(p3, q, id, free2);
    assert forall|x: PageId| x == id || x == META_PAGE_ID implies !(#[trigger] l.owns(x))
        && !r.owns(x) by {
        assert(!t.owns(x));
        assert forall|i: int| 0 <= i < n implies #[trigger] fresh[i] != x by {}
    }
    assert(forall|x: PageId| #[trigger] l.owns(x) ==> p1[x] == q[x]);
    assert(forall|x: PageId| #[trigger] r.owns(x) ==> p1[x] == q[x]) by {
        assert forall|x: PageId| #[trigger] r.owns(x) implies p1[x] == q[x] by {
            assert(x == id || x == META_PAGE_ID ==> !l.owns(x));
        }
    }
    lemma_held_frame(l, p1, q);
    lemma_held_frame(r, p1, q);
    let cs = seq![l, r];
    let u = t.inserted(k, v, fresh);
    assert(u == Tree::Internal { id, keys: seq![bare(m)], children: cs });
    assert forall|i: int| 0 <= i < cs.len() implies child_at(q[id], i) == (
    #[trigger] cs[i]).id() && cs[i].held(q) && cs[i].packed(q) by {
        assert(i == 0 || i == 1);
    }
    assert(u.held(q) && u.packed(q));
    lemma_insert_sound(p0, q, root, t, h, free, k, v, fresh);
}

/// The metadata may name another root.
proof fn lemma_new_root(p: Pages, q: Pages, root: PageId, free: Seq<PageId>)
    requires
        supply(p, free),
        p[META_PAGE_ID].len() == PAGE_SIZE,
        q == with_meta(p, MetaData { root_page: root, ..meta_of(p) }),
    ensures
        supply(q, free),
        meta_of(q) == (MetaData { root_page: root, ..meta_of(p) }),
{
    lemma_with_meta(p, MetaData { root_page: root, ..meta_of(p) });
    assert forall|i: int| 0 <= i < free.len() implies p[#[trigger] free[i]] == q[free[i]] by {}
    lemma_chain_frame(p, q, meta_of(p).freelist_page, free);
}

/// B-tree engine operating on a Pager.
pub struct BTree {
    root_page_id: PageId,
}

impl BTree {
    /// The page of the root node.
    pub closed spec fn root(&self) -> PageId {
        self.root_page_id
    }

    pub fn new(root_page_id: PageId) -> (b: Self)
        ensures
            b.root() == root_page_id,
    {
        BTree { root_page_id }
    }

    pub fn root_page_id(&self) -> (id: PageId)
        ensures
            id == self.root(),
    {
        self.root_page_id
    }

    /// Search for a key, returning the value if found.
    pub fn search(&self, pager: &mut Pager, key: &[u8]) -> (r: Result<Option<Vec<u8>>>)
        requires
            old(pager).wf(),
            sound(old(pager).pages(), self.root()) || has_tree(old(pager).pages(), self.root())
                && tree_of(old(pager).pages(), self.root()).ordered(None, None),
        ensures
            only_read(old(pager), final(pager), tree_of(old(pager).pages(), self.root())),
            stays_in_step(old(pager), final(pager), self.root()),
            match r {
                Ok(Some(v)) => lookup(
                    tree_of(old(pager).pages(), self.root()).entries(),
                    key@,
                ) == Some(v@),
                Ok(None) => lookup(
                    tree_of(old(pager).pages(), self.root()).entries(),
                    key@,
                ) is None,
                Err(_) => false,
            },
    {
        let ghost t = tree_of(pager.pages(), self.root());
        let ghost p0 = *pager;
        proof {
            if sound(pager.pages(), self.root()) {
                law_sound_is_healthy(pager.pages(), self.root());
            }
            lemma_held_regular(t, pager.pages());
            lemma_leaf_for(t, None, None, key@);
        }
        let r = self.search_in_node(
            pager,
            self.root_page_id,
            key,
            Ghost(t),
            Ghost(None),
            Ghost(None),
        );
        proof {
            if in_step(&p0) {
                lemma_read_in_step(&p0, pager, self.root());
            }
        }
        r
    }

    fn search_in_node(
        &self,
        pager: &mut Pager,
        page_id: PageId,
        key: &[u8],
        Ghost(t): Ghost<Tree>,
        Ghost(lb): Ghost<Option<Seq<u8>>>,
        Ghost(ub): Ghost<Option<Seq<u8>>>,
    ) -> (r: Result<Option<Vec<u8>>>)
        requires
            old(pager).wf(),
            rooted(old(pager).pages(), page_id, t),
            t.ordered(lb, ub),
        ensures
            only_read(old(pager), final(pager), t),
            match r {
                Ok(Some(v)) => lookup(t.leaf_for(key@), key@) == Some(v@),
                Ok(None) => lookup(t.leaf_for(key@), key@) is None,
                Err(_) => false,
            },
        decreases t,
    {
        assert(t.owns(page_id));
        let page = pager.get_page(page_id)?;
        let header = read_header(page);
        let search = binary_search(page, header.num_keys, key);
        match header.node_type {
            NodeType::Leaf => {
                if search.found {
                    Ok(Some(get_value_from_page(page, search.index)))
                } else {
                    Ok(None)
                }
            },
            NodeType::Internal => {
                let child_idx: u16 = if search.found {
                    search.index + 1
                } else {
                    search.index
                };
                let child_page_id = get_child_page_id(page, child_idx);
                let ghost c = route(t->keys, key@);
                let ghost child = t->children[c];
                proof {
                    lemma_held_regular(t, pager.pages());
                    lemma_ordered_route(t, lb, ub, key@, Seq::empty());
                    assert(c == child_idx);
                    lemma_reach_child(t, c);
                    assert(child_at(pager.pages()[page_id], c) == child.id());
                }
                let ghost p1 = *pager;
                let r = self.search_in_node(
                    pager,
                    child_page_id,
                    key,
                    Ghost(child),
                    Ghost(lower(t->keys, lb, c)),
                    Ghost(upper(t->keys, ub, c)),
                );
                proof {
                    lemma_read_child(old(pager), &p1, pager, t, c);
                }
                r
            },
        }
    }

    /// Writes the pairs before `mid` to the leaf page and the others to a new one.
    fn cut_leaf(
        &self,
        pager: &mut Pager,
        page_id: PageId,
        entries: &Vec<(Vec<u8>, Vec<u8>)>,
        mid: usize,
        Ghost(t): Ghost<Tree>,
        Ghost(free): Ghost<Seq<PageId>>,
        Ghost(fresh): Ghost<Seq<PageId>>,
    ) -> (r: Result<(Vec<u8>, PageId)>)
        requires
            ready(old(pager), free),
            t is Leaf,
            t.id() == page_id,
            stands(old(pager).pages(), t, free),
            mid < entries@.len(),
            mid <= MAX_KEYS,
            entries@.len() - mid <= MAX_KEYS,
            cut_fits(pairs(entries@), mid as int, 0, PAGE_SIZE as int),
            space_for(old(pager).pages(), free, 1),
            fresh.len() > 0,
            fresh[0] == nth(free, next_of(old(pager).pages()), 0),
        ensures
            moved(old(pager), final(pager), free, 1, pages_of(t), fresh),
            r matches Ok(x) && grown(
                Some(x),
                final(pager).pages(),
                split_leaf_at(page_id, pairs(entries@), mid as int, fresh[0]),
            ),
    {
        let ghost p0 = pager.pages();
        let ghost w = pairs(entries@);
        assert(t.owns(page_id));
        let n: usize = entries.len();
        let median_key = copy_all(entries[mid].0.as_slice());
        assert(median_key@ == pairs(entries@)[mid as int].0);
        assert(w.subrange(0, mid as int) =~= w.take(mid as int));
        assert(w.subrange(mid as int, n as int) =~= w.skip(mid as int));
        // Rewrite left page
        let page = pager.get_page_mut(page_id)?;
        write_node(page, NodeType::Leaf, entries, 0, mid);
        let ghost p1 = pager.pages();
        proof {
            assert(p1[META_PAGE_ID] == p0[META_PAGE_ID]);
            lemma_supply_frame(p0, p1, free);
            pager.lemma_page_len();
            lemma_one_out(p1, free);
        }
        // Allocate right page and write right half
        let right_page_id = pager.allocate_page()?;
        let ghost p2 = pager.pages();
        let rpage = pager.get_page_mut(right_page_id)?;
        write_node(rpage, NodeType::Leaf, entries, mid, n);
        proof {
            let p3 = pager.pages();
            lemma_free_apart(p0, free);
            lemma_supply_frame(p2, p3, free_after(free, 1));
            assert(among(fresh, 1, right_page_id)) by {
                assert(fresh[0] == right_page_id);
            }
        }
        Ok((median_key, right_page_id))
    }

    /// Splits a leaf that is to hold the pair: in the middle where two pages hold the halves, else
    /// at the first place where they do. Where there is none, nothing is done.
    fn split_leaf(
        &mut self,
        pager: &mut Pager,
        page_id: PageId,
        new_key: &[u8],
        new_value: &[u8],
        Ghost(t): Ghost<Tree>,
        Ghost(free): Ghost<Seq<PageId>>,
        Ghost(fresh): Ghost<Seq<PageId>>,
    ) -> (r: Result<Option<(Vec<u8>, PageId)>>)
        requires
            ready(old(pager), free),
            t is Leaf,
            t.id() == page_id,
            stands(old(pager).pages(), t, free),
            sorted(t->entries),
            size((new_key@, new_value@)) <= 2 * PAGE_SIZE,
            space_for(old(pager).pages(), free, 1),
            fresh.len() > 0,
            fresh[0] == nth(free, next_of(old(pager).pages()), 0),
        ensures
            *final(self) == *old(self),
            ({
                let w = with_entry(t->entries, new_key@, new_value@);
                match r {
                    Ok(None) => leaf_cut(w) >= w.len() && only_read(old(pager), final(pager), t),
                    Ok(Some(x)) => {
                        &&& leaf_cut(w) < w.len()
                        &&& moved(old(pager), final(pager), free, 1, pages_of(t), fresh)
                        &&& grown(
                            Some(x),
                            final(pager).pages(),
                            split_leaf_at(page_id, w, leaf_cut(w), fresh[0]),
                        )
                    },
                    Err(_) => false,
                }
            }),
    {
        let ghost s = t->entries;
        let ghost w = with_entry(s, new_key@, new_value@);
        assert(t.owns(page_id));
        // Collect all entries from this leaf + the new entry
        let page = pager.get_page(page_id)?;
        let header = read_header(page);
        let mut entries = collect_page(page, header.num_keys);
        let search = binary_search(page, header.num_keys, new_key);
        let pos: usize = search.index as usize;
        proof {
            lemma_rank(s, new_key@);
            lemma_has_key(s, new_key@);
            lemma_small_with(pager.pages()[page_id], new_key@, new_value@);
            lemma_cut_found(w, 0, PAGE_SIZE as int);
        }
        if search.found {
            entries.set(pos, (copy_all(new_key), copy_all(new_value)));
            assert(pairs(entries@) =~= w);
        } else {
            entries.insert(pos, (copy_all(new_key), copy_all(new_value)));
            assert(pairs(entries@) =~= w);
        }
        let mid: usize = find_cut(&entries, 0, PAGE_SIZE);
        if mid >= entries.len() {
            return Ok(None);
        }
        let halves = self.cut_leaf(
            pager,
            page_id,
            &entries,
            mid,
            Ghost(t),
            Ghost(free),
            Ghost(fresh),
        )?;
        Ok(Some(halves))
    }

    /// Parts a leaf where the key belongs.
    fn part_leaf(
        &mut self,
        pager: &mut Pager,
        page_id: PageId,
        key: &[u8],
        Ghost(t): Ghost<Tree>,
        Ghost(free): Ghost<Seq<PageId>>,
        Ghost(fresh): Ghost<Seq<PageId>>,
    ) -> (r: Result<(Vec<u8>, PageId)>)
        requires
            ready(old(pager), free),
            t is Leaf,
            t.id() == page_id,
            stands(old(pager).pages(), t, free),
            sorted(t->entries),
            leaf_holds(t->entries),
            rank(t->entries, key@) < t->entries.len(),
            space_for(old(pager).pages(), free, 1),
            fresh.len() > 0,
            fresh[0] == nth(free, next_of(old(pager).pages()), 0),
        ensures
            *final(self) == *old(self),
            moved(old(pager), final(pager), free, 1, pages_of(t), fresh),
            r matches Ok(x) && grown(
                Some(x),
                final(pager).pages(),
                split_leaf_at(page_id, t->entries, rank(t->entries, key@), fresh[0]),
            ),
    {
        assert(t.owns(page_id));
        let page = pager.get_page(page_id)?;
        let header = read_header(page);
        let entries = collect_page(page, header.num_keys);
        let search = binary_search(page, header.num_keys, key);
        proof {
            lemma_holds_parts(t->entries, search.index as int);
        }
        self.cut_leaf(
            pager,
            page_id,
            &entries,
            search.index as usize,
            Ghost(t),
            Ghost(free),
            Ghost(fresh),
        )
    }

    fn insert_into_internal(
        &mut self,
        pager: &mut Pager,
        page_id: PageId,
        key: &[u8],
        new_child_page_id: PageId,
        Ghost(keys): Ghost<Seq<Entry>>,
        Ghost(kids): Ghost<Seq<PageId>>,
        Ghost(free): Ghost<Seq<PageId>>,
    ) -> (r: Result<Option<(Vec<u8>, PageId)>>)
        requires
            ready(old(pager), free),
            joins(old(pager).pages(), page_id, keys, kids, key@, free),
            space_for(
                old(pager).pages(),
                free,
                extra(keys.insert(rank(keys, key@), bare(key@))),
            ),
        ensures
            *final(self) == *old(self),
            moved(
                old(pager),
                final(pager),
                free,
                extra(keys.insert(rank(keys, key@), bare(key@))),
                set![page_id],
                upcoming(free, next_of(old(pager).pages()), 1),
            ),
            r matches Ok(x) && widened(
                x,
                final(pager).pages(),
                page_id,
                nth(free, next_of(old(pager).pages()), 0),
                keys.insert(rank(keys, key@), bare(key@)),
                with_child(kids, rank(keys, key@), new_child_page_id),
            ),
    {
        let ghost p0 = pager.pages();
        let ghost c = rank(keys, key@);
        let page = pager.get_page(page_id)?;
        let header = read_header(page);
        let end: usize = get_next_data_offset(page, header.num_keys);
        proof {
            lemma_next_data_offset(p0[page_id], end as int);
            lemma_rank(keys, key@);
            lemma_total_insert(keys, c, bare(key@));
        }
        if header.num_keys < MAX_KEYS && end + key.len() <= CHILDREN_OFFSET {
            let page = pager.get_page_mut(page_id)?;
            internal_insert(page, key, new_child_page_id);
            proof {
                lemma_supply_frame(p0, pager.pages(), free);
                lemma_none_out(p0, free);
            }
            Ok(None)
        } else {
            // Need to split internal node
            self.split_internal(
                pager,
                page_id,
                key,
                new_child_page_id,
                Ghost(keys),
                Ghost(kids),
                Ghost(free),
            )
        }
    }

    fn split_internal(
        &mut self,
        pager: &mut Pager,
        page_id: PageId,
        new_key: &[u8],
        new_child_page_id: PageId,
        Ghost(keys): Ghost<Seq<Entry>>,
        Ghost(kids): Ghost<Seq<PageId>>,
        Ghost(free): Ghost<Seq<PageId>>,
    ) -> (r: Result<Option<(Vec<u8>, PageId)>>)
        requires
            ready(old(pager), free),
            joins(old(pager).pages(), page_id, keys, kids, new_key@, free),
            !roomy(keys.insert(rank(keys, new_key@), bare(new_key@))),
            space_for(old(pager).pages(), free, 1),
        ensures
            *final(self) == *old(self),
            moved(
                old(pager),
                final(pager),
                free,
                1,
                set![page_id],
                upcoming(free, next_of(old(pager).pages()), 1),
            ),
            r matches Ok(x) && widened(
                x,
                final(pager).pages(),
                page_id,
                nth(free, next_of(old(pager).pages()), 0),
                keys.insert(rank(keys, new_key@), bare(new_key@)),
                with_child(kids, rank(keys, new_key@), new_child_page_id),
            ),
    {
        let ghost p0 = pager.pages();
        let ghost c = rank(keys, new_key@);
        let ghost ks = keys.insert(c, bare(new_key@));
        let ghost ids = with_child(kids, c, new_child_page_id);
        let page = pager.get_page(page_id)?;
        let header = read_header(page);
        // Collect all keys and children
        let mut entries = collect_page(page, header.num_keys);
        let mut children = collect_children(page, header.num_keys);
        let search = binary_search(page, header.num_keys, new_key);
        let pos: usize = search.index as usize;
        proof {
            lemma_rank(keys, new_key@);
            lemma_insert_full(keys, new_key@, c);
            lemma_small(ks);
        }
        // Insert new key and child
        entries.insert(pos, (copy_all(new_key), Vec::new()));
        children.insert(pos + 1, new_child_page_id);
        proof {
            assert(pairs(entries@) =~= ks);
            assert(children@ =~= ids);
        }
        let n: usize = entries.len();
        let mid: usize = find_cut(&entries, 1, CHILDREN_OFFSET);
        let median_key = copy_all(entries[mid].0.as_slice());
        assert(median_key@ == pairs(entries@)[mid as int].0);
        let ghost lk = ks.take(mid as int);
        let ghost rk = ks.skip(mid + 1);
        assert(ks.subrange(0, mid as int) =~= lk);
        assert(ks.subrange(mid + 1, n as int) =~= rk);
        // Rewrite left page
        let page = pager.get_page_mut(page_id)?;
        write_node(page, NodeType::Internal, &entries, 0, mid);
        let ghost d1 = page.data@;
        write_children(page, &children, 0, mid + 1);
        proof {
            lemma_compact_stable(d1, page.data@, CHILDREN_OFFSET as int);
            assert(entries_of(page.data@).len() == num_keys(page.data@));
            assert(children_of(page.data@) =~= ids.take(mid + 1));
        }
        let ghost p1 = pager.pages();
        proof {
            lemma_supply_frame(p0, p1, free);
            pager.lemma_page_len();
            lemma_one_out(p1, free);
        }
        // Allocate right page
        let right_page_id = pager.allocate_page()?;
        let ghost p2 = pager.pages();
        let rpage = pager.get_page_mut(right_page_id)?;
        write_node(rpage, NodeType::Internal, &entries, mid + 1, n);
        let ghost d2 = rpage.data@;
        write_children(rpage, &children, mid + 1, n + 1);
        proof {
            lemma_compact_stable(d2, rpage.data@, CHILDREN_OFFSET as int);
            assert(entries_of(rpage.data@).len() == num_keys(rpage.data@));
            assert(children_of(rpage.data@) =~= ids.skip(mid + 1));
        }
        proof {
            let p3 = pager.pages();
            lemma_free_apart(p0, free);
            lemma_supply_frame(p2, p3, free_after(free, 1));
            let fresh = upcoming(free, next_of(p0), 1);
            assert(among(fresh, 1, right_page_id)) by {
                assert(fresh[0] == right_page_id);
            }
        }
        Ok(Some((median_key, right_page_id)))
    }

    /// Insert a key-value pair into the B-tree.
    pub fn insert(&mut self, pager: &mut Pager, key: &[u8], value: &[u8]) -> (r: Result<()>)
        requires
            storable(key@, value@) ==> {
                &&& in_step(old(pager))
                &&& sound(old(pager).pages(), old(self).root())
                &&& shape_of(old(pager).pages(), old(self).root()).fits(key@, value@)
            },
        ensures
            match r {
                Ok(_) => {
                    let p = old(pager).pages();
                    let q = final(pager).pages();
                    let s = shape_of(p, old(self).root());
                    &&& storable(key@, value@)
                    &&& in_step(final(pager))
                    &&& sound(q, final(self).root())
                    &&& shape_of(q, final(self).root()) == s.with(key@, value@)
                    &&& s.with(key@, value@).entries() == with_entry(s.entries(), key@, value@)
                    &&& s.with(key@, value@).is_near(s)
                    &&& s.with(key@, value@).has_root_from(s)
                    &&& same_settings(meta_of(p), meta_of(q))
                    &&& final(pager).file_bytes() == old(pager).file_bytes()
                    &&& final(pager).pending() == old(pager).pending()
                    &&& meta_of(p).root_page == old(self).root() ==> meta_of(q).root_page
                        == final(self).root()
                },
                Err(e) => {
                    &&& !storable(key@, value@)
                    &&& e.is_invalid_argument("key or value size"@)
                    &&& *final(self) == *old(self)
                    &&& *final(pager) == *old(pager)
                },
            },
    {
        if key.len() == 0 || key.len() > MAX_KEY_SIZE || value.len() > MAX_VALUE_SIZE {
            return Err(invalid_argument("key or value size"));
        }
        let ghost s = shape_of(pager.pages(), self.root());
        proof {
            reveal(Shape::with);
            lemma_shape_ok(pager.pages(), self.root());
            lemma_once(s, key@, value@);
            lemma_with(s, key@, value@);
            law_root(s, key@, value@);
            assert(s.once(key@, value@).has_memory(s.once(key@, value@).tree.height() + 2));
        }
        if !self.insert_once(pager, key, value)? {
            // The leaf is parted: now there is room in one of its parts
            let _ = self.insert_once(pager, key, value)?;
        }
        Ok(())
    }

    /// Goes down the tree to insert a key-value pair, and says whether it is in. If not, the leaf
    /// in which it belongs was parted.
    fn insert_once(&mut self, pager: &mut Pager, key: &[u8], value: &[u8]) -> (r: Result<bool>)
        requires
            storable(key@, value@),
            in_step(old(pager)),
            sound(old(pager).pages(), old(self).root()),
            ({
                let s = shape_of(old(pager).pages(), old(self).root());
                s.has_memory(s.tree.height() + 2)
            }),
        ensures
            ({
                let p = old(pager).pages();
                let q = final(pager).pages();
                let s = shape_of(p, old(self).root());
                &&& r matches Ok(b) && b == !s.tree.parts(key@, value@)
                &&& in_step(final(pager))
                &&& sound(q, final(self).root())
                &&& shape_of(q, final(self).root()) == s.once(key@, value@)
                &&& same_settings(meta_of(p), meta_of(q))
                &&& final(pager).file_bytes() == old(pager).file_bytes()
                &&& final(pager).pending() == old(pager).pending()
                &&& meta_of(p).root_page == old(self).root() ==> meta_of(q).root_page
                    == final(self).root()
            }),
    {
        let ghost root = self.root();
        let ghost p0 = pager.pages();
        let ghost t = tree_of(p0, root);
        let ghost h = t.height();
        let ghost free = free_list(p0);
        let ghost fresh = shape_of(p0, root).spare();
        let ghost k = key@;
        let ghost v = value@;
        let ghost n = t.splits(k, v, fresh);
        proof {
            reveal(Shape::once);
            lemma_sound(p0, root);
            lemma_grow(t, None, None, h, k, v, fresh);
        }
        let (split, bound) = self.insert_into_node(
            pager,
            self.root_page_id,
            key,
            value,
            Ghost(t),
            Ghost(h),
            Ghost(None),
            Ghost(None),
            Ghost(free),
            Ghost(fresh),
        )?;
        if let Some((median_key, new_page_id)) = split {
            let ghost p1 = pager.pages();
            let ghost free1 = free_after(free, n);
            let ghost m = t.grow(k, v, fresh)->Split_1;
            proof {
                pager.lemma_page_len();
                lemma_after_add(meta_of(p0), free, n, 1);
                lemma_one_out(p1, free1);
            }
            // Root split: create new root
            let new_root_id = pager.allocate_page()?;
            let ghost p2 = pager.pages();
            let new_root = pager.get_page_mut(new_root_id)?;
            let mut entries: Vec<(Vec<u8>, Vec<u8>)> = Vec::new();
            entries.push((median_key, Vec::new()));
            let mut children: Vec<PageId> = Vec::new();
            children.push(self.root_page_id);
            children.push(new_page_id);
            assert(pairs(entries@).subrange(0, 1) =~= seq![bare(m)]);
            proof {
                lemma_total_one(bare(m));
            }
            write_node(new_root, NodeType::Internal, &entries, 0, 1);
            let ghost d1 = new_root.data@;
            write_children(new_root, &children, 0, 2);
            proof {
                lemma_compact_stable(d1, new_root.data@, CHILDREN_OFFSET as int);
            }
            self.root_page_id = new_root_id;
            // Update metadata
            let ghost p3 = pager.pages();
            let mut metadata = pager.read_metadata()?;
            metadata.root_page = new_root_id;
            pager.write_metadata(&metadata)?;
            proof {
                assert(p3 =~= p2.insert(new_root_id, p3[new_root_id]));
                lemma_root_split(p0, p1, p2, p3, pager.pages(), root, t, h, free, k, v, fresh);
                let u = t.inserted(k, v, fresh);
                lemma_sound_as(pager.pages(), u.id(), u, u.height(), free_after(free, h + 2));
            }
        } else {
            proof {
                lemma_insert_sound(p0, pager.pages(), root, t, h, free, k, v, fresh);
                lemma_after_add(meta_of(p0), free, n, 0);
                let u = t.inserted(k, v, fresh);
                lemma_sound_as(pager.pages(), root, u, u.height(), free_after(free, n));
            }
        }
        Ok(bound)
    }

    /// Insert into a node, potentially returning a split (median_key, new_right_page), and whether
    /// the pair is in.
    #[verifier::rlimit(40)]
    #[verifier::spinoff_prover]
    fn insert_into_node(
        &mut self,
        pager: &mut Pager,
        page_id: PageId,
        key: &[u8],
        value: &[u8],
        Ghost(t): Ghost<Tree>,
        Ghost(h): Ghost<nat>,
        Ghost(lb): Ghost<Option<Seq<u8>>>,
        Ghost(ub): Ghost<Option<Seq<u8>>>,
        Ghost(free): Ghost<Seq<PageId>>,
        Ghost(fresh): Ghost<Seq<PageId>>,
    ) -> (r: Result<(Option<(Vec<u8>, PageId)>, bool)>)
        requires
            ready(old(pager), free),
            t.id() == page_id,
            stands(old(pager).pages(), t, free),
            t.wf(lb, ub, h),
            above(key@, lb),
            below(key@, ub),
            storable(key@, value@),
            h < fresh.len(),
            hands_out(old(pager).pages(), free, fresh),
            space_for(old(pager).pages(), free, t.splits(key@, value@, fresh)),
        ensures
            *final(self) == *old(self),
            moved(
                old(pager),
                final(pager),
                free,
                t.splits(key@, value@, fresh),
                pages_of(t),
                fresh,
            ),
            r matches Ok(x) && grown(x.0, final(pager).pages(), t.grow(key@, value@, fresh)) && x.1
                == !t.parts(key@, value@),
        decreases t,
    {
        let ghost p0 = pager.pages();
        let ghost k = key@;
        let ghost v = value@;
        assert(t.owns(page_id));
        proof {
            pager.lemma_page_len();
        }
        let page = pager.get_page(page_id)?;
        let header = read_header(page);
        match header.node_type {
            NodeType::Leaf => {
                let page = pager.get_page_mut(page_id)?;
                match leaf_insert(page, key, value) {
                    Ok(()) => {
                        proof {
                            lemma_supply_frame(p0, pager.pages(), free);
                            lemma_none_out(p0, free);
                        }
                        Ok((None, true))
                    },
                    Err(KvdbError::NodeFull) => {
                        assert(pager.pages() =~= p0);
                        proof {
                            lemma_leaf_full(t->entries, k, v);
                        }
                        // Need to split
                        let split = self.split_leaf(
                            pager,
                            page_id,
                            key,
                            value,
                            Ghost(t),
                            Ghost(free),
                            Ghost(fresh),
                        )?;
                        match split {
                            Some(halves) => Ok((Some(halves), true)),
                            None => {
                                let halves = self.part_leaf(
                                    pager,
                                    page_id,
                                    key,
                                    Ghost(t),
                                    Ghost(free),
                                    Ghost(fresh),
                                )?;
                                Ok((Some(halves), false))
                            },
                        }
                    },
                    Err(e) => Err(e),
                }
            },
            NodeType::Internal => {
                let search = binary_search(page, header.num_keys, key);
                let child_idx: u16 = if search.found {
                    // Key exists in an internal node separator; route to right child
                    // which will either update the leaf or find it
                    search.index + 1
                } else {
                    search.index
                };
                let child_page_id = get_child_page_id(page, child_idx);
                let ghost c = route(t->keys, k);
                let ghost child = t->children[c];
                let ghost n1 = child.splits(k, v, fresh);
                let ghost g = child.grow(k, v, fresh);
                proof {
                    lemma_grow_child(t, lb, ub, h, k, v, fresh);
                    lemma_stands_child(p0, t, free, c);
                    assert(c == child_idx);
                    assert(child_at(p0[page_id], c) == child.id());
                }
                let ghost pg0 = *pager;
                let (split, bound) = self.insert_into_node(
                    pager,
                    child_page_id,
                    key,
                    value,
                    Ghost(child),
                    Ghost((h - 1) as nat),
                    Ghost(lower(t->keys, lb, c)),
                    Ghost(upper(t->keys, ub, c)),
                    Ghost(free),
                    Ghost(fresh),
                )?;
                let ghost pg1 = *pager;
                proof {
                    lemma_child_grown(&pg0, &pg1, t, h, lb, ub, k, v, free, fresh);
                }
                if let Some((median_key, new_page_id)) = split {
                    let ghost row = t->children.update(c, g->Split_0).insert(c + 1, g->Split_2);
                    let ghost m = g->Split_1;
                    let ghost kids = children_of(pg1.pages()[page_id]);
                    let up = self.insert_into_internal(
                        pager,
                        page_id,
                        median_key.as_slice(),
                        new_page_id,
                        Ghost(t->keys),
                        Ghost(kids),
                        Ghost(free_after(free, n1)),
                    )?;
                    proof {
                        lemma_moved_twice(&pg0, &pg1, pager, t, n1, free, fresh, c);
                        lemma_insert_full(t->keys, m, c);
                        lemma_widened(
                            up,
                            pg1.pages(),
                            pager.pages(),
                            page_id,
                            fresh[h as int],
                            t->keys.insert(c, bare(m)),
                            with_child(kids, c, new_page_id),
                            row,
                        );
                    }
                    Ok((up, bound))
                } else {
                    Ok((None, bound))
                }
            },
        }
    }

    /// Delete a key from the B-tree.
    pub fn delete(&mut self, pager: &mut Pager, key: &[u8]) -> (r: Result<()>)
        requires
            in_step(old(pager)),
            sound(old(pager).pages(), old(self).root()),
        ensures
            *final(self) == *old(self),
            in_step(final(pager)),
            sound(final(pager).pages(), old(self).root()),
            final(pager).file_bytes() == old(pager).file_bytes(),
            final(pager).pending() == old(pager).pending(),
            meta_of(final(pager).pages()) == meta_of(old(pager).pages()),
            ({
                let s = shape_of(old(pager).pages(), old(self).root());
                &&& shape_of(final(pager).pages(), old(self).root()) == s.without(key@)
                &&& s.without(key@).tree.height() == s.tree.height()
                &&& match r {
                    Ok(_) => {
                        &&& !s.keeps(key@)
                        &&& has_key(s.entries(), key@)
                        &&& s.without(key@).entries() == without_key(s.entries(), key@)
                    },
                    Err(e) => {
                        &&& final(pager).pages() == old(pager).pages()
                        &&& if s.keeps(key@) {
                            e is NodeEmpty
                        } else {
                            e is KeyNotFound && !has_key(s.entries(), key@)
                        }
                    },
                }
            }),
    {
        let ghost p0 = pager.pages();
        let ghost t = tree_of(p0, self.root());
        let ghost free = free_list(p0);
        proof {
            lemma_sound(p0, self.root());
            lemma_shrink(t, None, None, t.height(), key@);
            lemma_shape_ok(p0, self.root());
            lemma_without(shape_of(p0, self.root()), key@);
        }
        let r = self.delete_from_node(
            pager,
            self.root_page_id,
            key,
            Ghost(t),
            Ghost(t.height()),
            Ghost(None),
            Ghost(None),
            Ghost(free),
        );
        proof {
            if let Shrunk::Deleted(u) = t.shrink(key@) {
                assert(stands(pager.pages(), u, free));
                lemma_sound_as(pager.pages(), self.root(), u, t.height(), free);
            }
        }
        r
    }

    fn delete_from_node(
        &mut self,
        pager: &mut Pager,
        page_id: PageId,
        key: &[u8],
        Ghost(t): Ghost<Tree>,
        Ghost(h): Ghost<nat>,
        Ghost(lb): Ghost<Option<Seq<u8>>>,
        Ghost(ub): Ghost<Option<Seq<u8>>>,
        Ghost(free): Ghost<Seq<PageId>>,
    ) -> (r: Result<()>)
        requires
            ready(old(pager), free),
            t.id() == page_id,
            stands(old(pager).pages(), t, free),
            t.wf(lb, ub, h),
            lb is Some && t is Leaf ==> t->entries.len() > 1,
        ensures
            *final(self) == *old(self),
            ready(final(pager), free),
            meta_of(final(pager).pages()) == meta_of(old(pager).pages()),
            final(pager).file_bytes() == old(pager).file_bytes(),
            final(pager).pending() == old(pager).pending(),
            forall|x: PageId|
                !t.owns(x) ==> #[trigger] final(pager).pages()[x] == old(pager).pages()[x],
            match t.shrink(key@) {
                Shrunk::Deleted(s) => r is Ok && s.held(final(pager).pages()) && s.packed(
                    final(pager).pages(),
                ),
                Shrunk::Missing => r matches Err(e) && e is KeyNotFound && final(pager).pages()
                    == old(pager).pages(),
                Shrunk::WouldEmpty => r matches Err(e) && e is NodeEmpty && final(pager).pages()
                    == old(pager).pages(),
            },
        decreases t,
    {
        let ghost p0 = pager.pages();
        assert(t.owns(page_id));
        proof {
            pager.lemma_page_len();
        }
        let page = pager.get_page(page_id)?;
        let header = read_header(page);
        match header.node_type {
            NodeType::Leaf => {
                let page = pager.get_page_mut(page_id)?;
                let r = leaf_delete(page, key);
                proof {
                    if r is Err {
                        assert(pager.pages() =~= p0);
                    }
                    lemma_supply_frame(p0, pager.pages(), free);
                }
                match r {
                    Ok(_) => Ok(()),
                    Err(e) => Err(e),
                }
            },
            NodeType::Internal => {
                let search = binary_search(page, header.num_keys, key);
                let child_idx: u16 = if search.found {
                    search.index + 1
                } else {
                    search.index
                };
                let child_page_id = get_child_page_id(page, child_idx);
                let ghost c = route(t->keys, key@);
                let ghost child = t->children[c];
                proof {
                    lemma_route_child(t, lb, ub, h, key@, Seq::empty());
                    lemma_stands_child(p0, t, free, c);
                    assert(c == child_idx);
                    assert(child_at(p0[page_id], c) == child.id());
                    assert(child.owns(child_page_id));
                }
                // Check if child leaf would underflow
                let child_page = pager.get_page(child_page_id)?;
                let child_header = read_header(child_page);
                if child_header.node_type == NodeType::Leaf && child_header.num_keys <= 1 {
                    return Err(KvdbError::NodeEmpty);
                }
                let r = self.delete_from_node(
                    pager,
                    child_page_id,
                    key,
                    Ghost(child),
                    Ghost((h - 1) as nat),
                    Ghost(lower(t->keys, lb, c)),
                    Ghost(upper(t->keys, ub, c)),
                    Ghost(free),
                );
                proof {
                    let p1 = pager.pages();
                    lemma_siblings(p0, p1, t, c, 0, free, Seq::empty());
                    assert forall|x: PageId| !t.owns(x) implies #[trigger] p1[x] == p0[x] by {
                        if child.owns(x) {
                            lemma_owns_child(t, c, x);
                        }
                    }
                    lemma_shrink(
                        child,
                        lower(t->keys, lb, c),
                        upper(t->keys, ub, c),
                        (h - 1) as nat,
                        key@,
                    );
                    if let Shrunk::Deleted(s) = child.shrink(key@) {
                        lemma_child_replaced(p0, p1, t, c, s);
                    }
                }
                r
            },
        }
    }
}

} // verus!
