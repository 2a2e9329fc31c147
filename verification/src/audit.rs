//! Telling whether the pages of a file are those of a database.
use vstd::prelude::*;
use crate::btree_walk::checked_keys;
use crate::bytes::{opt_view, read_u16, read_u64};
use crate::constants::{
    NodeType, PageId, INVALID_PAGE_ID, MAX_KEY_SIZE, MAX_VALUE_SIZE, META_PAGE_ID, PAGE_SIZE,
    ROOT_PAGE_ID,
};
use crate::counts::law_counts;
use crate::entries::{sorted, total, within, Entry};
use crate::error::Result;
use crate::node::{
    child_at, collect_children, compact, data_end, entries_of, entry_at, get_child_page_id,
    get_next_data_offset, in_page, info, lemma_next_data_offset, node_kind, num_keys, placed,
    read_header, read_key_info, readable, CHILDREN_OFFSET, DATA_START_OFFSET, MAX_KEYS,
};
use crate::page::Page;
use crate::pager::{chain, free_list, Pager, Pages};
use crate::shape::storable;
use crate::space::next_of;
use crate::store::{lemma_distinct_bound, lemma_sound, sound, sound_as, tree_of};
use crate::tree::{bounded, lower, roomy, upper, valueless, Tree};
use crate::tree_laws::{lemma_held_regular, lemma_held_unique, lemma_owns_child};

verus! {

/// Whether the page is a node page without gaps.
fn is_compact(page: &Page) -> (r: bool)
    ensures
        r == compact(page.data@),
{
    let ghost p = page.data@;
    let b = page.bytes();
    if b[0] != 1 && b[0] != 2 {
        return false;
    }
    let n: u16 = read_u16(b, 1);
    if n > MAX_KEYS {
        return false;
    }
    let ghost s = entries_of(p);
    let mut sum: usize = 0;
    let mut i: u16 = 0;
    assert(s.take(0) =~= Seq::<Entry>::empty());
    while i < n
        invariant
            i <= n <= MAX_KEYS,
            n == num_keys(p),
            p == page.data@,
            s == entries_of(p),
            forall|j: int| 0 <= j < i ==> in_page(#[trigger] info(p, j)),
            sum == total(s.take(i as int)),
            sum <= i * 8192,
        decreases n - i,
    {
        let ki = read_key_info(page, i);
        if ki.key_offset as usize + ki.key_len as usize > PAGE_SIZE || ki.value_offset as usize
            + ki.value_len as usize > PAGE_SIZE {
            assert(!in_page(info(p, i as int)));
            return false;
        }
        proof {
            assert(s.take(i + 1).drop_last() =~= s.take(i as int));
            assert(s.take(i + 1).last() == s[i as int]);
            assert(s[i as int] == entry_at(p, i as int));
        }
        sum = sum + (ki.key_len as usize + ki.value_len as usize);
        i += 1;
    }
    assert(s.take(i as int) =~= s);
    let end: usize = DATA_START_OFFSET + sum;
    if end > PAGE_SIZE {
        return false;
    }
    let mut reached = n == 0;
    let mut i: u16 = 0;
    while i < n
        invariant
            i <= n <= MAX_KEYS,
            n == num_keys(p),
            p == page.data@,
            s == entries_of(p),
            end == data_end(s),
            forall|j: int| 0 <= j < i ==> placed(#[trigger] info(p, j), end as int),
            reached <==> n == 0 || exists|j: int|
                0 <= j < i && (#[trigger] info(p, j)).end() == end,
        decreases n - i,
    {
        let ki = read_key_info(page, i);
        if (ki.key_offset as usize) < DATA_START_OFFSET || ki.key_offset as usize
            + ki.key_len as usize > ki.value_offset as usize || ki.value_offset as usize
            + ki.value_len as usize > end {
            assert(!placed(info(p, i as int), end as int));
            return false;
        }
        if ki.value_offset as usize + ki.value_len as usize == end {
            reached = true;
            assert(info(p, i as int).end() == end);
        }
        i += 1;
    }
    reached
}

/// The tree stands in pages below `next` that are not used otherwise.
pub open spec fn lives(
    pages: Pages,
    t: Tree,
    id: PageId,
    lb: Option<Seq<u8>>,
    ub: Option<Seq<u8>>,
    h: nat,
    next: int,
    used: Seq<PageId>,
) -> bool {
    &&& t.id() == id
    &&& t.held(pages)
    &&& t.packed(pages)
    &&& t.wf(lb, ub, h)
    &&& t.distinct()
    &&& forall|x: PageId| #[trigger] t.owns(x) ==> META_PAGE_ID < x < next && !used.contains(x)
}

fn is_used(used: &Vec<PageId>, id: PageId) -> (r: bool)
    ensures
        r == used@.contains(id),
{
    let mut i: usize = 0;
    while i < used.len()
        invariant
            i <= used@.len(),
            forall|j: int| 0 <= j < i ==> used@[j] != id,
        decreases used@.len() - i,
    {
        if used[i] == id {
            return true;
        }
        i += 1;
    }
    false
}

/// The pager has read pages below `next` and is otherwise as it was.
pub open spec fn looked(p: &Pager, q: &Pager, next: int) -> bool {
    &&& q.wf()
    &&& q.pages() == p.pages()
    &&& q.file_bytes() == p.file_bytes()
    &&& q.pending() == p.pending()
    &&& q.dirty_writes() == p.dirty_writes()
    &&& q.next() == p.next()
    &&& forall|x: PageId| #[trigger] q.seen().contains(x) ==> p.seen().contains(x) || x < next
}

/// The first children of a node that were found, and the pages in use with theirs.
spec fn found_kids(
    pages: Pages,
    keys: Seq<Entry>,
    ids: Seq<PageId>,
    lb: Option<Seq<u8>>,
    ub: Option<Seq<u8>>,
    h: nat,
    next: int,
    kids: Seq<Tree>,
    before: Seq<PageId>,
    used: Seq<PageId>,
) -> bool {
    &&& forall|j: int|
        0 <= j < kids.len() ==> lives(
            pages,
            #[trigger] kids[j],
            ids[j],
            lower(keys, lb, j),
            upper(keys, ub, j),
            h,
            next,
            before,
        )
    &&& forall|i: int, j: int, x: PageId|
        0 <= i < j < kids.len() && #[trigger] kids[i].owns(x) ==> !(#[trigger] kids[j].owns(x))
    &&& forall|x: PageId| #[trigger]
        used.contains(x) <==> before.contains(x) || exists|j: int|
            0 <= j < kids.len() && (#[trigger] kids[j]).owns(x)
}

/// One more child was found.
proof fn lemma_one_kid(
    pages: Pages,
    keys: Seq<Entry>,
    ids: Seq<PageId>,
    lb: Option<Seq<u8>>,
    ub: Option<Seq<u8>>,
    h: nat,
    next: int,
    kids: Seq<Tree>,
    kid: Tree,
    before: Seq<PageId>,
    used: Seq<PageId>,
    after: Seq<PageId>,
)
    requires
        found_kids(pages, keys, ids, lb, ub, h, next, kids, before, used),
        lives(
            pages,
            kid,
            ids[kids.len() as int],
            lower(keys, lb, kids.len() as int),
            upper(keys, ub, kids.len() as int),
            h,
            next,
            used,
        ),
        forall|x: PageId| #[trigger] after.contains(x) <==> used.contains(x) || kid.owns(x),
    ensures
        found_kids(pages, keys, ids, lb, ub, h, next, kids.push(kid), before, after),
{
    let n = kids.len() as int;
    let ks = kids.push(kid);
    assert forall|j: int| 0 <= j < ks.len() implies lives(
        pages,
        #[trigger] ks[j],
        ids[j],
        lower(keys, lb, j),
        upper(keys, ub, j),
        h,
        next,
        before,
    ) by {
        if j < n {
            assert(ks[j] == kids[j]);
        } else {
            assert forall|x: PageId| #[trigger] kid.owns(x) implies !before.contains(x) by {
                assert(!used.contains(x));
            }
        }
    }
    assert forall|i: int, j: int, x: PageId|
        0 <= i < j < ks.len() && #[trigger] ks[i].owns(x) implies !(#[trigger] ks[j].owns(x)) by {
        if j < n {
            assert(kids[i].owns(x));
            assert(!kids[j].owns(x));
        } else {
            assert(kids[i].owns(x));
            assert(used.contains(x));
        }
    }
    assert forall|x: PageId| #[trigger]
        after.contains(x) <==> before.contains(x) || exists|j: int|
            0 <= j < ks.len() && (#[trigger] ks[j]).owns(x) by {
        if after.contains(x) && !before.contains(x) {
            if kid.owns(x) {
                assert(ks[n].owns(x));
            } else {
                let j = choose|j: int| 0 <= j < kids.len() && (#[trigger] kids[j]).owns(x);
                assert(ks[j].owns(x));
            }
        }
        if exists|j: int| 0 <= j < ks.len() && (#[trigger] ks[j]).owns(x) {
            let j = choose|j: int| 0 <= j < ks.len() && (#[trigger] ks[j]).owns(x);
            if j < n {
                assert(kids[j].owns(x));
            }
        }
        if before.contains(x) {
            assert(used.contains(x));
        }
    }
}

/// A node that lives has children that live.
proof fn lemma_kid_lives(
    pages: Pages,
    t: Tree,
    lb: Option<Seq<u8>>,
    ub: Option<Seq<u8>>,
    h: nat,
    next: int,
    start: Seq<PageId>,
    ids: Seq<PageId>,
    kids: Seq<Tree>,
    used: Seq<PageId>,
)
    requires
        t is Internal,
        lives(pages, t, t.id(), lb, ub, h, next, start),
        kids.len() < t->children.len() == ids.len(),
        forall|i: int| 0 <= i < ids.len() ==> ids[i] == child_at(pages[t.id()], i),
        found_kids(
            pages,
            t->keys,
            ids,
            lb,
            ub,
            (h - 1) as nat,
            next,
            kids,
            start.push(t.id()),
            used,
        ),
    ensures
        lives(
            pages,
            t->children[kids.len() as int],
            ids[kids.len() as int],
            lower(t->keys, lb, kids.len() as int),
            upper(t->keys, ub, kids.len() as int),
            (h - 1) as nat,
            next,
            used,
        ),
{
    let n = kids.len() as int;
    let cs = t->children;
    assert forall|j: int| 0 <= j < n implies kids[j] == #[trigger] cs[j] by {
        lemma_held_unique(kids[j], cs[j], pages);
    }
    assert(cs[n].id() == ids[n]);
    assert forall|x: PageId| #[trigger] cs[n].owns(x) implies META_PAGE_ID < x < next
        && !used.contains(x) by {
        lemma_owns_child(t, n, x);
        assert(!cs[n].owns(t.id()));
        let b = start.push(t.id());
        if b.contains(x) {
            let i = choose|i: int| 0 <= i < b.len() && b[i] == x;
            assert(start.contains(x) || x == t.id()) by {
                if i < start.len() {
                    assert(start[i] == x);
                }
            }
        }
        if exists|j: int| 0 <= j < n && (#[trigger] kids[j]).owns(x) {
            let j = choose|j: int| 0 <= j < n && (#[trigger] kids[j]).owns(x);
            assert(cs[j].owns(x));
        }
    }
}

/// A node whose children live, lives.
proof fn lemma_node_lives(
    pages: Pages,
    id: PageId,
    keys: Seq<Entry>,
    kids: Seq<Tree>,
    lb: Option<Seq<u8>>,
    ub: Option<Seq<u8>>,
    h: nat,
    next: int,
    start: Seq<PageId>,
    ids: Seq<PageId>,
    used: Seq<PageId>,
)
    requires
        compact(pages[id]),
        node_kind(pages[id]) == NodeType::Internal,
        entries_of(pages[id]) == keys,
        1 <= keys.len(),
        roomy(keys),
        bounded(keys),
        valueless(keys),
        sorted(keys),
        within(keys, lb, ub),
        h > 0,
        kids.len() == keys.len() + 1,
        ids.len() == kids.len(),
        forall|i: int| 0 <= i < ids.len() ==> ids[i] == child_at(pages[id], i),
        META_PAGE_ID < id < next,
        !start.contains(id),
        found_kids(pages, keys, ids, lb, ub, (h - 1) as nat, next, kids, start.push(id), used),
    ensures
        lives(
            pages,
            Tree::Internal { id, keys, children: kids },
            id,
            lb,
            ub,
            h,
            next,
            start,
        ),
        forall|x: PageId| #[trigger]
            used.contains(x) <==> start.contains(x) || (Tree::Internal {
                id,
                keys,
                children: kids,
            }).owns(x),
{
    let t = Tree::Internal { id, keys, children: kids };
    let b = start.push(id);
    assert(b[start.len() as int] == id);
    assert(b.contains(id));
    assert forall|x: PageId| #[trigger] b.contains(x) <==> start.contains(x) || x == id by {
        if start.contains(x) {
            let i = choose|i: int| 0 <= i < start.len() && start[i] == x;
            assert(b[i] == x);
        }
        if b.contains(x) {
            let i = choose|i: int| 0 <= i < b.len() && b[i] == x;
            if i < start.len() {
                assert(start[i] == x);
            }
        }
    }
    assert forall|i: int| 0 <= i < kids.len() implies child_at(pages[id], i) == (
    #[trigger] kids[i]).id() && kids[i].held(pages) && kids[i].packed(pages) && !kids[i].owns(id)
        && kids[i].distinct() && kids[i].wf(
        lower(keys, lb, i),
        upper(keys, ub, i),
        (h - 1) as nat,
    ) by {
        assert(ids[i] == child_at(pages[id], i));
    }
    assert forall|x: PageId| #[trigger] t.owns(x) implies META_PAGE_ID < x < next
        && !start.contains(x) by {
        if x != id {
            let i = choose|i: int| 0 <= i < kids.len() && (#[trigger] kids[i]).owns(x);
            assert(!b.contains(x));
        }
    }
    assert forall|x: PageId| #[trigger] used.contains(x) <==> start.contains(x) || t.owns(x) by {
        if exists|j: int| 0 <= j < kids.len() && (#[trigger] kids[j]).owns(x) {
            let j = choose|j: int| 0 <= j < kids.len() && (#[trigger] kids[j]).owns(x);
            lemma_owns_child(t, j, x);
        }
    }
}

/// Whether a search tree of the height lives at the page. Its pages join those in use.
fn audit_node(
    pager: &mut Pager,
    page_id: PageId,
    lower_bound: Option<&[u8]>,
    upper_bound: Option<&[u8]>,
    h: u32,
    next: PageId,
    used: &mut Vec<PageId>,
) -> (r: Result<(bool, Ghost<Tree>)>)
    requires
        old(pager).wf(),
        next * PAGE_SIZE <= usize::MAX,
    ensures
        looked(old(pager), final(pager), next as int),
        r matches Ok(x) && {
            let lb = opt_view(lower_bound);
            let ub = opt_view(upper_bound);
            let pages = old(pager).pages();
            &&& x.0 ==> lives(
                pages,
                x.1@,
                page_id,
                lb,
                ub,
                h as nat,
                next as int,
                old(used)@,
            )
            &&& x.0 ==> forall|y: PageId| #[trigger]
                final(used)@.contains(y) <==> old(used)@.contains(y) || x.1@.owns(y)
            &&& !x.0 ==> forall|t: Tree|
                !(#[trigger] lives(pages, t, page_id, lb, ub, h as nat, next as int, old(used)@))
        },
    decreases h,
{
    let ghost pages = pager.pages();
    let ghost lb = opt_view(lower_bound);
    let ghost ub = opt_view(upper_bound);
    let ghost start = used@;
    assert forall|t: Tree| #[trigger]
        lives(
            pages,
            t,
            page_id,
            lb,
            ub,
            h as nat,
            next as int,
            start,
        ) implies t.owns(page_id) && META_PAGE_ID < page_id < next && !start.contains(page_id) by {
        assert(t.owns(page_id));
    }
    if page_id == META_PAGE_ID || page_id >= next || is_used(used, page_id) {
        return Ok((false, Ghost(Tree::Leaf { id: page_id, entries: Seq::empty() })));
    }
    let page = pager.get_page(page_id)?;
    if !is_compact(page) {
        return Ok((false, Ghost(Tree::Leaf { id: page_id, entries: Seq::empty() })));
    }
    let header = read_header(page);
    let n: u16 = header.num_keys;
    let ghost s = entries_of(pages[page_id]);
    let keys = match checked_keys(page, n, lower_bound, upper_bound) {
        Some(keys) => keys,
        None => {
            return Ok((false, Ghost(Tree::Leaf { id: page_id, entries: Seq::empty() })));
        },
    };
    if !is_bounded(page, n) {
        return Ok((false, Ghost(Tree::Leaf { id: page_id, entries: Seq::empty() })));
    }
    if header.node_type == NodeType::Leaf {
        let ghost t = Tree::Leaf { id: page_id, entries: s };
        if h != 0 || (lower_bound.is_some() && n == 0) {
            return Ok((false, Ghost(t)));
        }
        used.push(page_id);
        proof {
            assert(lives(pages, t, page_id, lb, ub, h as nat, next as int, start));
            lemma_pushed(start, page_id);
        }
        return Ok((true, Ghost(t)));
    }
    let end = get_next_data_offset(page, n);
    proof {
        lemma_next_data_offset(pages[page_id], end as int);
    }
    if h == 0 || n == 0 || end > CHILDREN_OFFSET || !is_valueless(page, n) {
        return Ok((false, Ghost(Tree::Leaf { id: page_id, entries: Seq::empty() })));
    }
    let child_ids = collect_children(page, n);
    let ghost ids = child_ids@;
    let ghost mut kids: Seq<Tree> = Seq::empty();
    used.push(page_id);
    let ghost before = start.push(page_id);
    let count: usize = child_ids.len();
    let mut i: usize = 0;
    while i < count
        invariant
            i <= count,
            count == ids.len(),
            ids == child_ids@,
            count == s.len() + 1,
            keys@.len() == s.len(),
            forall|j: int| 0 <= j < s.len() ==> #[trigger] keys@[j]@ == s[j].0,
            lb == opt_view(lower_bound),
            ub == opt_view(upper_bound),
            h > 0,
            next * PAGE_SIZE <= usize::MAX,
            page_id < next,
            kids.len() == i,
            pages == old(pager).pages(),
            start == old(used)@,
            before == start.push(page_id),
            s == entries_of(pages[page_id]),
            node_kind(pages[page_id]) == NodeType::Internal,
            forall|j: int| 0 <= j < ids.len() ==> ids[j] == child_at(pages[page_id], j),
            looked(old(pager), pager, next as int),
            found_kids(
                pages,
                s,
                ids,
                lb,
                ub,
                (h - 1) as nat,
                next as int,
                kids,
                before,
                used@,
            ),
        decreases count - i,
    {
        let lo = if i == 0 {
            lower_bound
        } else {
            Some(keys[i - 1].as_slice())
        };
        let hi = if i == keys.len() {
            upper_bound
        } else {
            Some(keys[i].as_slice())
        };
        assert(opt_view(lo) == lower(s, lb, i as int));
        assert(opt_view(hi) == upper(s, ub, i as int));
        let ghost used0 = used@;
        let (ok, Ghost(kid)) = audit_node(pager, child_ids[i], lo, hi, h - 1, next, used)?;
        if !ok {
            proof {
                assert forall|t: Tree|
                    !(#[trigger] lives(
                        pages,
                        t,
                        page_id,
                        lb,
                        ub,
                        h as nat,
                        next as int,
                        start,
                    )) by {
                    if lives(pages, t, page_id, lb, ub, h as nat, next as int, start) {
                        assert(t is Internal && t->keys == s);
                        lemma_kid_lives(
                            pages,
                            t,
                            lb,
                            ub,
                            h as nat,
                            next as int,
                            start,
                            ids,
                            kids,
                            used0,
                        );
                    }
                }
            }
            return Ok((false, Ghost(kid)));
        }
        proof {
            lemma_one_kid(
                pages,
                s,
                ids,
                lb,
                ub,
                (h - 1) as nat,
                next as int,
                kids,
                kid,
                before,
                used0,
                used@,
            );
            kids = kids.push(kid);
        }
        i += 1;
    }
    proof {
        lemma_node_lives(
            pages,
            page_id,
            s,
            kids,
            lb,
            ub,
            h as nat,
            next as int,
            start,
            ids,
            used@,
        );
    }
    Ok((true, Ghost(Tree::Internal { id: page_id, keys: s, children: kids })))
}

proof fn lemma_pushed(s: Seq<PageId>, id: PageId)
    ensures
        forall|x: PageId| #[trigger] s.push(id).contains(x) <==> s.contains(x) || x == id,
{
    let b = s.push(id);
    assert forall|x: PageId| #[trigger] b.contains(x) <==> s.contains(x) || x == id by {
        if s.contains(x) {
            let i = choose|i: int| 0 <= i < s.len() && s[i] == x;
            assert(b[i] == x);
        }
        if x == id {
            assert(b[s.len() as int] == x);
        }
        if b.contains(x) {
            let i = choose|i: int| 0 <= i < b.len() && b[i] == x;
            if i < s.len() {
                assert(s[i] == x);
            }
        }
    }
}

/// Whether all keys and values of the node page have sizes that can be stored.
fn is_bounded(page: &Page, n: u16) -> (r: bool)
    requires
        readable(page.data@),
        n == num_keys(page.data@),
    ensures
        r == bounded(entries_of(page.data@)),
{
    let ghost p = page.data@;
    let ghost s = entries_of(p);
    let mut i: u16 = 0;
    while i < n
        invariant
            i <= n <= MAX_KEYS,
            n == num_keys(p),
            p == page.data@,
            s == entries_of(p),
            readable(p),
            forall|j: int| 0 <= j < i ==> storable((#[trigger] s[j]).0, s[j].1),
        decreases n - i,
    {
        let ki = read_key_info(page, i);
        assert(in_page(info(p, i as int)));
        assert(s[i as int] == entry_at(p, i as int));
        if ki.key_len == 0 || ki.key_len as usize > MAX_KEY_SIZE || ki.value_len as usize
            > MAX_VALUE_SIZE {
            assert(!storable(s[i as int].0, s[i as int].1));
            return false;
        }
        i += 1;
    }
    true
}

/// Whether the keys of the node page have no values.
fn is_valueless(page: &Page, n: u16) -> (r: bool)
    requires
        readable(page.data@),
        n == num_keys(page.data@),
    ensures
        r == valueless(entries_of(page.data@)),
{
    let ghost p = page.data@;
    let ghost s = entries_of(p);
    let mut i: u16 = 0;
    while i < n
        invariant
            i <= n <= MAX_KEYS,
            n == num_keys(p),
            p == page.data@,
            s == entries_of(p),
            readable(p),
            forall|j: int| 0 <= j < i ==> (#[trigger] s[j]).1 == Seq::<u8>::empty(),
        decreases n - i,
    {
        let ki = read_key_info(page, i);
        assert(in_page(info(p, i as int)));
        assert(s[i as int] == entry_at(p, i as int));
        if ki.value_len != 0 {
            assert(s[i as int].1.len() != 0);
            return false;
        }
        assert(s[i as int].1 =~= Seq::<u8>::empty());
        i += 1;
    }
    true
}

/// How many levels lie above the leaves, along the first children. Sound pages have fewer than 64.
pub fn descend(pager: &mut Pager, root: PageId, next: PageId) -> (r: Result<Option<u32>>)
    requires
        old(pager).wf(),
        next * PAGE_SIZE <= usize::MAX,
        next == next_of(old(pager).pages()),
    ensures
        looked(old(pager), final(pager), next as int),
        r is Ok,
        sound(old(pager).pages(), root) ==> r->Ok_0 == Some(
            tree_of(old(pager).pages(), root).height() as u32,
        ) && tree_of(old(pager).pages(), root).height() < 64,
{
    let ghost pages = pager.pages();
    let ghost whole = sound(pages, root);
    let ghost t = tree_of(pages, root);
    let ghost mut sub = t;
    proof {
        if whole {
            lemma_sound(pages, root);
            law_counts(pages, root);
            lemma_held_regular(t, pages);
        }
    }
    let mut id: PageId = root;
    let mut h: u32 = 0;
    while h < 64
        invariant
            h <= 64,
            next * PAGE_SIZE <= usize::MAX,
            pages == old(pager).pages(),
            whole == sound(pages, root),
            t == tree_of(pages, root),
            looked(old(pager), pager, next as int),
            whole ==> {
                &&& sub.id() == id
                &&& sub.held(pages)
                &&& sub.packed(pages)
                &&& sub.regular()
                &&& sub.height() + h == t.height()
                &&& t.height() < 64
                &&& forall|x: PageId| #[trigger] sub.owns(x) ==> x < next
            },
        decreases 64 - h,
    {
        assert(whole ==> sub.owns(id));
        if id >= next {
            return Ok(None);
        }
        let page = pager.get_page(id)?;
        if !is_compact(page) {
            assert(!whole);
            return Ok(None);
        }
        let header = read_header(page);
        if header.node_type == NodeType::Leaf {
            return Ok(Some(h));
        }
        id = get_child_page_id(page, 0);
        proof {
            if whole {
                let kid = sub->children[0];
                assert forall|x: PageId| #[trigger] kid.owns(x) implies x < next by {
                    lemma_owns_child(sub, 0, x);
                }
                sub = kid;
            }
        }
        h += 1;
    }
    assert(!whole);
    Ok(None)
}

/// Whether the metadata lead to a list of free pages below `next` that are not used otherwise.
pub fn audit_free(pager: &mut Pager, head: PageId, next: PageId, used: &mut Vec<PageId>) -> (r: Result<
    (bool, Ghost<Seq<PageId>>),
>)
    requires
        old(pager).wf(),
        next * PAGE_SIZE <= usize::MAX,
    ensures
        looked(old(pager), final(pager), next as int),
        r matches Ok(x) && {
            let pages = old(pager).pages();
            &&& x.0 ==> chain(pages, head, x.1@) && unused(x.1@, next as int, old(used)@)
            &&& !x.0 ==> forall|l: Seq<PageId>|
                !(#[trigger] chain(pages, head, l) && unused(l, next as int, old(used)@))
        },
{
    let ghost pages = pager.pages();
    let ghost start = used@;
    let ghost mut list: Seq<PageId> = Seq::empty();
    let mut id: PageId = head;
    proof {
        assert forall|l: Seq<PageId>| #[trigger] chain(pages, head, l) implies followed(
            pages,
            l,
            list,
            id,
        ) by {
            assert(l.skip(0) =~= l);
            assert(l.take(0) =~= list);
        }
        assert(start + list =~= start);
    }
    while id != INVALID_PAGE_ID
        invariant
            next * PAGE_SIZE <= usize::MAX,
            pages == old(pager).pages(),
            looked(old(pager), pager, next as int),
            start == old(used)@,
            used@ == start + list,
            unused(list, next as int, start),
            list.len() <= next,
            forall|l: Seq<PageId>| #[trigger]
                chain(pages, head, l) ==> followed(pages, l, list, id),
            forall|rest: Seq<PageId>|
                chain(pages, id, rest) ==> chain(pages, head, #[trigger] (list + rest)),
        decreases next - list.len(),
    {
        if id == META_PAGE_ID || id >= next || is_used(used, id) {
            proof {
                assert forall|l: Seq<PageId>|
                    !(#[trigger] chain(pages, head, l) && unused(l, next as int, start)) by {
                    if chain(pages, head, l) && unused(l, next as int, start) {
                        assert(followed(pages, l, list, id));
                        let n = list.len() as int;
                        assert(l.skip(n).len() > 0);
                        assert(l[n] == id);
                        if (start + list).contains(id) {
                            let i = choose|i: int|
                                0 <= i < (start + list).len() && (start + list)[i] == id;
                            if i < start.len() {
                                assert(start[i] == id);
                                assert(start.contains(id));
                            } else {
                                assert(list[i - start.len()] == id);
                                assert(l.take(n)[i - start.len()] == l[i - start.len()]);
                                assert(l[i - start.len()] != l[n]);
                            }
                        }
                    }
                }
            }
            return Ok((false, Ghost(list)));
        }
        let ghost list1 = list.push(id);
        let ghost id0 = id;
        used.push(id);
        let page = pager.get_page(id)?;
        id = read_u64(page.bytes(), 0);
        proof {
            assert(used@ =~= start + list1);
            lemma_unused_push(list, id0, next as int, start);
            lemma_distinct_bound(list1, next as nat);
            assert forall|l: Seq<PageId>| #[trigger] chain(pages, head, l) implies followed(
                pages,
                l,
                list1,
                id,
            ) by {
                let n = list.len() as int;
                let rest = l.skip(n);
                assert(rest.len() > 0 && rest[0] == id0);
                assert(rest.drop_first() =~= l.skip(n + 1));
                assert(l.take(n + 1) =~= list1);
            }
            assert forall|rest: Seq<PageId>| chain(pages, id, rest) implies chain(
                pages,
                head,
                #[trigger] (list1 + rest),
            ) by {
                let r = seq![id0] + rest;
                assert(r.drop_first() =~= rest);
                assert(chain(pages, id0, r));
                assert(list + r =~= list1 + rest);
                assert(chain(pages, head, list + r));
            }
            list = list1;
        }
    }
    proof {
        let none = Seq::<PageId>::empty();
        assert(chain(pages, id, none));
        assert(chain(pages, head, list + none));
        assert(list + none =~= list);
    }
    Ok((true, Ghost(list)))
}

/// The pages lie below `next`, each is listed once, and none is used otherwise.
pub open spec fn unused(l: Seq<PageId>, next: int, used: Seq<PageId>) -> bool {
    &&& l.no_duplicates()
    &&& forall|i: int| 0 <= i < l.len() ==> META_PAGE_ID < #[trigger] l[i] < next && !used.contains(
        l[i],
    )
}

/// The list begins with those pages, and its rest begins at `id`.
pub open spec fn followed(pages: Pages, l: Seq<PageId>, done: Seq<PageId>, id: PageId) -> bool {
    done.len() <= l.len() && l.take(done.len() as int) == done && chain(
        pages,
        id,
        l.skip(done.len() as int),
    )
}

proof fn lemma_unused_push(l: Seq<PageId>, id: PageId, next: int, used: Seq<PageId>)
    requires
        unused(l, next, used),
        META_PAGE_ID < id < next,
        !(used + l).contains(id),
    ensures
        unused(l.push(id), next, used),
{
    let b = used + l;
    assert(!used.contains(id)) by {
        if used.contains(id) {
            let i = choose|i: int| 0 <= i < used.len() && used[i] == id;
            assert(b[i] == id);
        }
    }
    assert forall|i: int| 0 <= i < l.len() implies l[i] != id by {
        assert(b[used.len() + i] == l[i]);
    }
}

/// Whether the pages are those of a database whose tree begins at the root page.
pub fn is_sound(pager: &mut Pager, root: PageId) -> (r: Result<bool>)
    requires
        old(pager).wf(),
    ensures
        r matches Ok(b) && b == sound(old(pager).pages(), root),
        final(pager).wf(),
        final(pager).pages() == old(pager).pages(),
        final(pager).file_bytes() == old(pager).file_bytes(),
        final(pager).pending() == old(pager).pending(),
        final(pager).dirty_writes() == old(pager).dirty_writes(),
        final(pager).next() == old(pager).next(),
        forall|x: PageId| #[trigger]
            final(pager).seen().contains(x) ==> old(pager).seen().contains(x) || x < next_of(
                old(pager).pages(),
            ),
{
    let ghost pages = pager.pages();
    let m = pager.read_metadata()?;
    let limit: u64 = (usize::MAX / PAGE_SIZE) as u64;
    proof {
        if sound(pages, root) {
            lemma_sound(pages, root);
        }
    }
    if !m.is_valid() || m.page_size != PAGE_SIZE as u32 || m.last_page_id < ROOT_PAGE_ID
        || m.last_page_id >= limit {
        return Ok(false);
    }
    let next: PageId = m.last_page_id + 1;
    let h = match descend(pager, root, next)? {
        Some(h) => h,
        None => {
            return Ok(false);
        },
    };
    let mut used: Vec<PageId> = Vec::new();
    let ghost none = used@;
    assert(forall|x: PageId| !none.contains(x));
    let (ok, Ghost(t)) = audit_node(pager, root, None, None, h, next, &mut used)?;
    if !ok {
        proof {
            if sound(pages, root) {
                let u = tree_of(pages, root);
                assert(lives(pages, u, root, None, None, h as nat, next as int, none));
            }
        }
        return Ok(false);
    }
    let ghost taken = used@;
    let (ok, Ghost(free)) = audit_free(pager, m.freelist_page, next, &mut used)?;
    proof {
        if ok {
            assert forall|i: int| 0 <= i < free.len() implies !t.owns(#[trigger] free[i]) by {
                assert(!taken.contains(free[i]));
            }
            assert(sound_as(pages, root, t, h as nat, free));
        } else {
            if sound(pages, root) {
                let u = tree_of(pages, root);
                lemma_held_unique(t, u, pages);
                let l = free_list(pages);
                assert forall|i: int| 0 <= i < l.len() implies !taken.contains(
                    #[trigger] l[i],
                ) by {
                    assert(!u.owns(l[i]));
                }
                assert(chain(pages, m.freelist_page, l) && unused(l, next as int, taken));
            }
        }
    }
    Ok(ok)
}

} // verus!
