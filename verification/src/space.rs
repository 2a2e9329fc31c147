//! Which pages are handed out next, and what handing them out leaves behind.
use vstd::prelude::*;
use crate::bytes::zeros;
use crate::constants::{MetaData, PageId, INVALID_PAGE_ID, META_PAGE_ID, PAGE_SIZE, ROOT_PAGE_ID};
use crate::pager::{
    addressable, after_allocate, allocated, chain, lemma_chain_frame, lemma_with_meta, meta_of,
    next_free, reuses, Pager, Pages,
};

verus! {

/// The number behind the last page that is in use.
pub open spec fn next_of(pages: Pages) -> int {
    meta_of(pages).last_page_id + 1
}

/// The head of a list of free pages, as the metadata name it.
pub open spec fn head_of(free: Seq<PageId>) -> PageId {
    if free.len() == 0 {
        INVALID_PAGE_ID
    } else {
        free[0]
    }
}

/// The metadata tell which pages are free and which were never used.
pub open spec fn supply(pages: Pages, free: Seq<PageId>) -> bool {
    &&& meta_of(pages).valid()
    &&& meta_of(pages).page_size == PAGE_SIZE
    &&& ROOT_PAGE_ID < next_of(pages)
    &&& next_of(pages) * PAGE_SIZE <= usize::MAX
    &&& chain(pages, meta_of(pages).freelist_page, free)
    &&& free.no_duplicates()
    &&& forall|i: int| 0 <= i < free.len() ==> META_PAGE_ID < #[trigger] free[i] < next_of(pages)
}

/// The page that is handed out when `i` others have been.
pub open spec fn nth(free: Seq<PageId>, next: int, i: int) -> PageId {
    if i < free.len() {
        free[i]
    } else {
        (next + i - free.len()) as PageId
    }
}

/// The pages that are handed out next.
pub open spec fn upcoming(free: Seq<PageId>, next: int, n: nat) -> Seq<PageId> {
    Seq::new(n, |i: int| nth(free, next, i))
}

/// The free pages that are left when `n` pages have been handed out.
pub open spec fn free_after(free: Seq<PageId>, n: nat) -> Seq<PageId> {
    if n <= free.len() {
        free.skip(n as int)
    } else {
        Seq::empty()
    }
}

/// The number behind the last page in use when `n` pages have been handed out.
pub open spec fn next_after(free: Seq<PageId>, next: int, n: nat) -> int {
    if n <= free.len() {
        next
    } else {
        next + n - free.len()
    }
}

/// The metadata when `n` pages have been handed out.
pub open spec fn meta_after(m: MetaData, free: Seq<PageId>, n: nat) -> MetaData {
    MetaData {
        freelist_page: head_of(free_after(free, n)),
        last_page_id: (next_after(free, m.last_page_id + 1, n) - 1) as PageId,
        ..m
    }
}

/// There is memory for `n` more pages.
pub open spec fn space_for(pages: Pages, free: Seq<PageId>, n: nat) -> bool {
    next_after(free, next_of(pages), n) * PAGE_SIZE <= usize::MAX
}

/// The pager is in step with the metadata and has read no page that was never used.
pub open spec fn in_step(pager: &Pager) -> bool {
    &&& pager.wf()
    &&& pager.next() == next_of(pager.pages())
    &&& forall|x: PageId| #[trigger] pager.seen().contains(x) ==> x < pager.next()
}

pub proof fn lemma_head(pages: Pages, head: PageId, free: Seq<PageId>)
    requires
        chain(pages, head, free),
    ensures
        head == head_of(free),
{
}

/// Nothing is handed out: nothing changes.
pub proof fn lemma_none_out(pages: Pages, free: Seq<PageId>)
    requires
        supply(pages, free),
    ensures
        free_after(free, 0) == free,
        meta_after(meta_of(pages), free, 0) == meta_of(pages),
{
    lemma_head(pages, meta_of(pages).freelist_page, free);
    assert(free_after(free, 0) =~= free);
}

/// Pages may be handed out in parts.
pub proof fn lemma_after_add(m: MetaData, free: Seq<PageId>, n: nat, k: nat)
    requires
        next_after(free, m.last_page_id + 1, n) <= u64::MAX,
    ensures
        free_after(free_after(free, n), k) == free_after(free, n + k),
        meta_after(meta_after(m, free, n), free_after(free, n), k) == meta_after(m, free, n + k),
        forall|i: int|
            0 <= i ==> #[trigger] nth(
                free_after(free, n),
                next_after(free, m.last_page_id + 1, n),
                i,
            ) == nth(free, m.last_page_id + 1, n + i),
        meta_after(m, free, n).last_page_id + 1 == next_after(free, m.last_page_id + 1, n),
{
    assert(free_after(free_after(free, n), k) =~= free_after(free, n + k));
}

/// One page is handed out.
pub proof fn lemma_one_out(pages: Pages, free: Seq<PageId>)
    requires
        supply(pages, free),
        space_for(pages, free, 1),
        pages[META_PAGE_ID].len() == PAGE_SIZE,
    ensures
        ({
            let next = next_of(pages) as PageId;
            let q = after_allocate(pages, next);
            let id = allocated(pages, next);
            &&& next == next_of(pages)
            &&& id == nth(free, next_of(pages), 0)
            &&& id != META_PAGE_ID
            &&& addressable(id)
            &&& reuses(pages, next) <==> free.len() > 0
            &&& meta_of(q) == meta_after(meta_of(pages), free, 1)
            &&& supply(q, free_after(free, 1))
            &&& q[id] == zeros(PAGE_SIZE as nat)
            &&& forall|x: PageId| x != META_PAGE_ID && x != id ==> #[trigger] q[x] == pages[x]
        }),
{
    let next = next_of(pages) as PageId;
    let q = after_allocate(pages, next);
    let id = allocated(pages, next);
    let m = meta_of(pages);
    lemma_head(pages, m.freelist_page, free);
    if free.len() > 0 {
        let m1 = MetaData { freelist_page: next_free(pages, id), ..m };
        lemma_with_meta(pages, m1);
        let rest = free.drop_first();
        assert(rest =~= free_after(free, 1));
        lemma_head(pages, m1.freelist_page, rest);
        assert forall|i: int| 0 <= i < rest.len() implies pages[#[trigger] rest[i]] == q[rest[i]]
            && META_PAGE_ID < rest[i] < next_of(pages) by {
            assert(rest[i] == free[i + 1]);
            assert(free[i + 1] != free[0]);
        }
        lemma_chain_frame(pages, q, m1.freelist_page, rest);
        assert(meta_of(q) == m1);
    } else {
        let p1 = pages.insert(id, zeros(PAGE_SIZE as nat));
        let m1 = MetaData { last_page_id: id, ..m };
        assert(p1[META_PAGE_ID] == pages[META_PAGE_ID]);
        lemma_with_meta(p1, m1);
        assert(meta_of(q) == m1);
        assert(free_after(free, 1) =~= free);
    }
}

/// Pages that are neither free nor the metadata may change.
pub proof fn lemma_supply_frame(p: Pages, q: Pages, free: Seq<PageId>)
    requires
        supply(p, free),
        q[META_PAGE_ID] == p[META_PAGE_ID],
        forall|i: int| 0 <= i < free.len() ==> p[#[trigger] free[i]] == q[free[i]],
    ensures
        supply(q, free),
        meta_of(q) == meta_of(p),
{
    lemma_chain_frame(p, q, meta_of(p).freelist_page, free);
}

/// The page that is handed out next is not among those that stay free.
pub proof fn lemma_free_apart(pages: Pages, free: Seq<PageId>)
    requires
        supply(pages, free),
    ensures
        forall|i: int|
            0 <= i < free_after(free, 1).len() ==> #[trigger] free_after(free, 1)[i] != nth(
                free,
                next_of(pages),
                0,
            ),
{
}

} // verus!
