//! When the pages of a database are sound, and what they hold.
use vstd::prelude::*;
use crate::constants::{PageId, META_PAGE_ID};
use crate::pager::{
    addressable, chain, free_list, has_free_list, lemma_chain_unique, meta_of, Pages,
};
use crate::shape::storable;
use crate::space::{free_after, next_after, next_of, nth, space_for, supply};
use crate::tree::Tree;
use crate::tree_laws::{
    among, fresh_for, lemma_grow, lemma_height, lemma_held_unique, lemma_inserted, lemma_owns_child,
};

verus! {

/// Every page of the tree lies where memory can hold it.
pub open spec fn in_reach(t: Tree) -> bool {
    forall|x: PageId| #[trigger] t.owns(x) ==> addressable(x)
}

/// The pages hold the tree, from the root page on.
pub open spec fn rooted(pages: Pages, root: PageId, t: Tree) -> bool {
    t.id() == root && t.held(pages) && in_reach(t)
}

/// The pages hold a tree, from the root page on.
pub open spec fn has_tree(pages: Pages, root: PageId) -> bool {
    exists|t: Tree| rooted(pages, root, t)
}

/// The tree that the pages hold.
pub open spec fn tree_of(pages: Pages, root: PageId) -> Tree {
    choose|t: Tree| rooted(pages, root, t)
}

/// Pages hold one tree at most.
pub proof fn lemma_tree_of(pages: Pages, root: PageId, t: Tree)
    requires
        rooted(pages, root, t),
    ensures
        has_tree(pages, root),
        tree_of(pages, root) == t,
{
    assert(rooted(pages, root, tree_of(pages, root)));
    lemma_held_unique(t, tree_of(pages, root), pages);
}

pub proof fn lemma_reach_child(t: Tree, c: int)
    requires
        in_reach(t),
        t is Internal,
        0 <= c < t->children.len(),
    ensures
        in_reach(t->children[c]),
{
    assert forall|x: PageId| #[trigger] t->children[c].owns(x) implies addressable(x) by {
        lemma_owns_child(t, c, x);
    }
}

/// The pages hold the tree without gaps, each node in a page of its own that is in use.
pub open spec fn stands(pages: Pages, t: Tree, free: Seq<PageId>) -> bool {
    &&& t.held(pages)
    &&& t.packed(pages)
    &&& t.distinct()
    &&& forall|x: PageId| #[trigger] t.owns(x) ==> META_PAGE_ID < x < next_of(pages)
    &&& forall|i: int| 0 <= i < free.len() ==> !t.owns(#[trigger] free[i])
}

/// The fresh pages are those that are handed out next.
pub open spec fn hands_out(pages: Pages, free: Seq<PageId>, fresh: Seq<PageId>) -> bool {
    forall|i: int| 0 <= i < fresh.len() ==> #[trigger] fresh[i] == nth(free, next_of(pages), i)
}

pub proof fn lemma_stands_child(pages: Pages, t: Tree, free: Seq<PageId>, c: int)
    requires
        stands(pages, t, free),
        t is Internal,
        0 <= c < t->children.len(),
    ensures
        stands(pages, t->children[c], free),
{
    let child = t->children[c];
    assert forall|x: PageId| #[trigger] child.owns(x) implies META_PAGE_ID < x < next_of(
        pages,
    ) by {
        lemma_owns_child(t, c, x);
    }
    assert forall|i: int| 0 <= i < free.len() implies !child.owns(#[trigger] free[i]) by {
        if child.owns(free[i]) {
            lemma_owns_child(t, c, free[i]);
        }
    }
}

/// Pages that are handed out differ from each other, from those of the tree and from the
/// metadata.
pub proof fn lemma_fresh(pages: Pages, t: Tree, free: Seq<PageId>, fresh: Seq<PageId>, n: nat)
    requires
        supply(pages, free),
        stands(pages, t, free),
        hands_out(pages, free, fresh),
        n < fresh.len(),
        space_for(pages, free, n),
    ensures
        fresh_for(fresh, n + 1, t),
        forall|i: int| 0 <= i <= n ==> #[trigger] fresh[i] != META_PAGE_ID,
{
    let next = next_of(pages);
    assert forall|i: int, j: int| 0 <= i < j < n + 1 implies #[trigger] fresh[i]
        != #[trigger] fresh[j] by {
        assert(fresh[i] == nth(free, next, i));
        assert(fresh[j] == nth(free, next, j));
    }
    assert forall|i: int| 0 <= i < n + 1 implies !t.owns(#[trigger] fresh[i]) && fresh[i]
        != META_PAGE_ID by {
        assert(fresh[i] == nth(free, next, i));
        if i < free.len() {
            assert(!t.owns(free[i]));
        }
    }
}

/// The same, of as many pages as memory holds.
pub proof fn lemma_all_fresh(pages: Pages, t: Tree, free: Seq<PageId>, fresh: Seq<PageId>, n: nat)
    requires
        supply(pages, free),
        stands(pages, t, free),
        hands_out(pages, free, fresh),
        n <= fresh.len(),
        space_for(pages, free, n),
    ensures
        fresh_for(fresh, n, t),
        forall|i: int| 0 <= i < n ==> #[trigger] fresh[i] != META_PAGE_ID,
{
    if n > 0 {
        lemma_fresh(pages, t, free, fresh, (n - 1) as nat);
    }
}

/// Different numbers below `n` are at most `n` many.
pub proof fn lemma_distinct_bound(s: Seq<PageId>, n: nat)
    requires
        s.no_duplicates(),
        forall|i: int| 0 <= i < s.len() ==> #[trigger] s[i] < n,
    ensures
        s.len() <= n,
    decreases n,
{
    if n > 0 {
        let m = (n - 1) as nat;
        if exists|i: int| 0 <= i < s.len() && #[trigger] s[i] == m {
            let i = choose|i: int| 0 <= i < s.len() && #[trigger] s[i] == m;
            let r = s.remove(i);
            assert forall|j: int| 0 <= j < r.len() implies #[trigger] r[j] < m by {
                if j < i {
                    assert(r[j] == s[j]);
                } else {
                    assert(r[j] == s[j + 1]);
                }
            }
            assert(r.no_duplicates());
            lemma_distinct_bound(r, m);
        } else {
            lemma_distinct_bound(s, m);
        }
    } else if s.len() > 0 {
        assert(s[0] < 0);
    }
}

/// The pages hold a search tree of the height, from the root page on, and tell apart the pages
/// that it takes up, those that are free and those that were never used.
pub open spec fn sound_as(
    pages: Pages,
    root: PageId,
    t: Tree,
    h: nat,
    free: Seq<PageId>,
) -> bool {
    &&& supply(pages, free)
    &&& t.id() == root
    &&& stands(pages, t, free)
    &&& t.wf(None, None, h)
}

/// The pages are those of a database whose tree begins at the root page.
pub open spec fn sound(pages: Pages, root: PageId) -> bool {
    exists|t: Tree, h: nat, free: Seq<PageId>| sound_as(pages, root, t, h, free)
}

/// What makes pages sound can be read off them.
pub proof fn lemma_sound_as(
    pages: Pages,
    root: PageId,
    t: Tree,
    h: nat,
    free: Seq<PageId>,
)
    requires
        sound_as(pages, root, t, h, free),
    ensures
        sound(pages, root),
        has_tree(pages, root),
        tree_of(pages, root) == t,
        h == t.height(),
        has_free_list(pages),
        free_list(pages) == free,
{
    assert(in_reach(t));
    lemma_tree_of(pages, root, t);
    lemma_height(t, None, None, h);
    lemma_distinct_bound(free, next_of(pages) as nat);
    let head = meta_of(pages).freelist_page;
    assert(chain(pages, head, free) && free.len() <= u64::MAX);
    lemma_chain_unique(pages, head, free, free_list(pages));
}

/// Sound pages hold one tree, and their metadata lead to the free pages.
pub proof fn lemma_sound(pages: Pages, root: PageId)
    requires
        sound(pages, root),
    ensures
        sound_as(
            pages,
            root,
            tree_of(pages, root),
            tree_of(pages, root).height(),
            free_list(pages),
        ),
        has_tree(pages, root),
        has_free_list(pages),
{
    let (t, h, free) = choose|t: Tree, h: nat, free: Seq<PageId>|
        sound_as(pages, root, t, h, free);
    lemma_sound_as(pages, root, t, h, free);
}

/// Pages that hold what becomes of the tree when a key is to be bound in it are sound.
pub proof fn lemma_insert_sound(
    p: Pages,
    q: Pages,
    root: PageId,
    t: Tree,
    h: nat,
    free: Seq<PageId>,
    k: Seq<u8>,
    v: Seq<u8>,
    fresh: Seq<PageId>,
)
    requires
        sound_as(p, root, t, h, free),
        hands_out(p, free, fresh),
        fresh.len() == h + 2,
        storable(k, v),
        ({
            let n = t.pages_needed(k, v, fresh);
            let u = t.inserted(k, v, fresh);
            &&& space_for(p, free, n)
            &&& supply(q, free_after(free, n))
            &&& next_of(q) == next_after(free, next_of(p), n)
            &&& u.held(q)
            &&& u.packed(q)
        }),
    ensures
        ({
            let u = t.inserted(k, v, fresh);
            let n = t.pages_needed(k, v, fresh);
            &&& sound_as(q, u.id(), u, u.height(), free_after(free, n))
            &&& u.entries() == t.entries_with(k, v)
        }),
{
    let n = t.pages_needed(k, v, fresh);
    let u = t.inserted(k, v, fresh);
    let free1 = free_after(free, n);
    lemma_grow(t, None, None, h, k, v, fresh);
    lemma_all_fresh(p, t, free, fresh, n);
    lemma_inserted(t, h, k, v, fresh);
    let h1 = if t.grow(k, v, fresh) is Split {
        h + 1
    } else {
        h
    };
    lemma_height(u, None, None, h1);
    assert forall|x: PageId| #[trigger] u.owns(x) implies META_PAGE_ID < x < next_of(q) by {
        if !t.owns(x) {
            let i = choose|i: int| 0 <= i < n && #[trigger] fresh[i] == x;
            assert(fresh[i] == nth(free, next_of(p), i));
        }
    }
    assert forall|i: int| 0 <= i < free1.len() implies !u.owns(#[trigger] free1[i]) by {
        let x = free1[i];
        assert(x == free[n + i]);
        assert(!t.owns(free[n + i]));
        if among(fresh, n, x) {
            let j = choose|j: int| 0 <= j < n && #[trigger] fresh[j] == x;
            assert(fresh[j] == nth(free, next_of(p), j));
            assert(free[j] != free[n + i]);
        }
    }
}

} // verus!
